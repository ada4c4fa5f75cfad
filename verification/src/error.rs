//! Error type for the whole engine, plus the mapping onto the Java exception
//! classes that `NativeBridge` declares it throws.

use vstd::prelude::*;
use crate::text::{decimal, signed_decimal, push_decimal, push_signed_decimal, lowered, chars_of, chars_contain, lower, occurs};

verus! {

#[derive(Debug, Clone)]
pub enum PdfError {
    /// An i/o failure, carried as the text the operating system gave.
    Io(String),
    /// Anything the PDFium backend reported, stringified at the boundary.
    Pdfium(String),
    /// `libpdfium.so` could not be loaded.
    LibraryUnavailable(String),
    InvalidHandle(i64),
    PageOutOfRange { index: usize, count: usize },
    PasswordRequired,
    IncorrectPassword,
    MalformedDocument,
    /// The caller passed a target bitmap that does not match the requested render.
    InvalidBitmap(String),
    RenderTooLarge { width: u32, height: u32 },
    InvalidArgument(String),
    /// Raised by `catch_unwind` at the JNI boundary.
    Panic(String),
    Unsupported(&'static str),
    /// Something the engine itself got wrong.
    Internal(String),
}

pub type Result<T> = core::result::Result<T, PdfError>;

/// The fully-qualified Java class for each kind of error.
pub open spec fn exception_class(e: PdfError) -> Seq<char> {
    match e {
        PdfError::Io(_) => "java/io/IOException"@,
        PdfError::PasswordRequired | PdfError::IncorrectPassword => "com/hsilighting/pagify/core/PdfPasswordException"@,
        PdfError::PageOutOfRange { .. } => "java/lang/IndexOutOfBoundsException"@,
        PdfError::InvalidHandle(_) | PdfError::InvalidArgument(_) | PdfError::InvalidBitmap(_)
        | PdfError::RenderTooLarge { .. } => "java/lang/IllegalArgumentException"@,
        PdfError::Unsupported(_) => "java/lang/UnsupportedOperationException"@,
        _ => "com/hsilighting/pagify/core/PdfNativeException"@,
    }
}

/// What each error says, in words.
pub open spec fn spec_message(e: PdfError) -> Seq<char> {
    match e {
        PdfError::Io(m) => "i/o error: "@ + m@,
        PdfError::Pdfium(m) => "pdfium error: "@ + m@,
        PdfError::LibraryUnavailable(m) => "could not load libpdfium.so: "@ + m@,
        PdfError::InvalidHandle(h) => "no open document with handle "@ + signed_decimal(h as int),
        PdfError::PageOutOfRange { index, count } => "page "@ + decimal(index as nat)
            + " out of range (document has "@ + decimal(count as nat) + " pages)"@,
        PdfError::PasswordRequired => "document is password protected"@,
        PdfError::IncorrectPassword => "incorrect password"@,
        PdfError::MalformedDocument => "file is not a PDF or is damaged beyond recovery"@,
        PdfError::InvalidBitmap(m) => "invalid bitmap: "@ + m@,
        PdfError::RenderTooLarge { width, height } => "requested render is too large: "@
            + decimal(width as nat) + "x"@ + decimal(height as nat) + " px"@,
        PdfError::InvalidArgument(m) => m@,
        PdfError::Panic(m) => "internal error: "@ + m@,
        PdfError::Unsupported(m) => m@ + " is not implemented yet"@,
        PdfError::Internal(m) => "internal error: "@ + m@,
    }
}

impl PdfError {
    /// Fully-qualified Java class this error should surface as. `NativeBridge`
    /// catches these and re-wraps them into the Kotlin `PdfException` hierarchy.
    pub fn java_exception_class(&self) -> (r: &'static str)
        ensures
            r@ == exception_class(*self),
    {
        match self {
            PdfError::Io(_) => "java/io/IOException",
            PdfError::PasswordRequired | PdfError::IncorrectPassword => {
                "com/hsilighting/pagify/core/PdfPasswordException"
            },
            PdfError::PageOutOfRange { .. } => "java/lang/IndexOutOfBoundsException",
            PdfError::InvalidHandle(_)
            | PdfError::InvalidArgument(_)
            | PdfError::InvalidBitmap(_)
            | PdfError::RenderTooLarge { .. } => "java/lang/IllegalArgumentException",
            PdfError::Unsupported(_) => "java/lang/UnsupportedOperationException",
            _ => "com/hsilighting/pagify/core/PdfNativeException",
        }
    }

    /// The error in words, as it is shown to a person.
    pub fn message(&self) -> (r: String)
        ensures
            r@ == spec_message(*self),
    {
        match self {
            PdfError::Io(m) => String::from_str("i/o error: ").concat(m.as_str()),
            PdfError::Pdfium(m) => String::from_str("pdfium error: ").concat(m.as_str()),
            PdfError::LibraryUnavailable(m) => String::from_str("could not load libpdfium.so: ").concat(m.as_str()),
            PdfError::InvalidHandle(h) => {
                let mut out = String::from_str("no open document with handle ");
                push_signed_decimal(&mut out, *h);
                out
            },
            PdfError::PageOutOfRange { index, count } => {
                let mut out = String::from_str("page ");
                push_decimal(&mut out, *index as u64);
                out.append(" out of range (document has ");
                push_decimal(&mut out, *count as u64);
                out.append(" pages)");
                out
            },
            PdfError::PasswordRequired => String::from_str("document is password protected"),
            PdfError::IncorrectPassword => String::from_str("incorrect password"),
            PdfError::MalformedDocument => String::from_str("file is not a PDF or is damaged beyond recovery"),
            PdfError::InvalidBitmap(m) => String::from_str("invalid bitmap: ").concat(m.as_str()),
            PdfError::RenderTooLarge { width, height } => {
                let mut out = String::from_str("requested render is too large: ");
                push_decimal(&mut out, *width as u64);
                out.append("x");
                push_decimal(&mut out, *height as u64);
                out.append(" px");
                out
            },
            PdfError::InvalidArgument(m) => m.clone(),
            PdfError::Panic(m) => String::from_str("internal error: ").concat(m.as_str()),
            PdfError::Unsupported(m) => String::from_str(m).concat(" is not implemented yet"),
            PdfError::Internal(m) => String::from_str("internal error: ").concat(m.as_str()),
        }
    }
}

/// How a PDFium load failure is read: by the words in its message.
pub open spec fn load_error_kind(message: Seq<char>) -> u8 {
    if occurs(lower(message), "password"@) {
        0
    } else if occurs(lower(message), "format"@) || occurs(lower(message), "corrupt"@) {
        1
    } else {
        2
    }
}

/// PDFium reports "wrong password" and "damaged file" through the same error
/// channel, so the textual form is the only thing available to tell them apart.
pub fn classify_pdfium_load_error(message: &str) -> (r: PdfError)
    ensures
        load_error_kind(message@) == 0 ==> r is IncorrectPassword,
        load_error_kind(message@) == 1 ==> r is MalformedDocument,
        load_error_kind(message@) == 2 ==> (r matches PdfError::Pdfium(m) && m@ == message@),
{
    let lowered_text = lowered(message);
    if chars_contain(&lowered_text, &chars_of("password")) {
        PdfError::IncorrectPassword
    } else if chars_contain(&lowered_text, &chars_of("format")) || chars_contain(&lowered_text, &chars_of("corrupt")) {
        PdfError::MalformedDocument
    } else {
        PdfError::Pdfium(String::from_str(message))
    }
}

} // verus!
