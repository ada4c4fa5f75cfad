use pdf_core::error::{classify_pdfium_load_error, PdfError};

#[test]
fn password_errors_map_to_the_password_exception() {
    let class = PdfError::PasswordRequired.java_exception_class();
    assert_eq!(class, "com/hsilighting/pagify/core/PdfPasswordException");
    assert_eq!(PdfError::IncorrectPassword.java_exception_class(), class);
}

#[test]
fn page_range_errors_map_to_index_out_of_bounds() {
    let err = PdfError::PageOutOfRange { index: 9, count: 3 };
    assert_eq!(err.java_exception_class(), "java/lang/IndexOutOfBoundsException");
    assert_eq!(err.message(), "page 9 out of range (document has 3 pages)");
}

#[test]
fn unknown_failures_fall_back_to_the_generic_native_exception() {
    let err = PdfError::Pdfium("something went sideways".into());
    assert_eq!(err.java_exception_class(), "com/hsilighting/pagify/core/PdfNativeException");
}

#[test]
fn load_error_classification_separates_password_from_damage() {
    assert!(matches!(classify_pdfium_load_error("Incorrect Password"), PdfError::IncorrectPassword));
    assert!(matches!(
        classify_pdfium_load_error("File not in PDF format"),
        PdfError::MalformedDocument
    ));
    assert!(matches!(classify_pdfium_load_error("unrecognised"), PdfError::Pdfium(_)));
}

#[test]
fn every_message_reads_as_the_engine_words_it() {
    assert_eq!(PdfError::InvalidHandle(-12).message(), "no open document with handle -12");
    assert_eq!(
        PdfError::RenderTooLarge { width: 20000, height: 10 }.message(),
        "requested render is too large: 20000x10 px"
    );
    assert_eq!(PdfError::Unsupported("that").message(), "that is not implemented yet");
    assert_eq!(PdfError::InvalidArgument("as given".into()).message(), "as given");
    assert_eq!(
        PdfError::Unsupported("x").java_exception_class(),
        "java/lang/UnsupportedOperationException"
    );
    assert_eq!(PdfError::Io("disk".into()).java_exception_class(), "java/io/IOException");
}

#[test]
fn a_corrupt_file_is_classified_as_damage_whatever_its_case() {
    assert!(matches!(classify_pdfium_load_error("CORRUPT xref"), PdfError::MalformedDocument));
    match classify_pdfium_load_error("odd thing") {
        PdfError::Pdfium(m) => assert_eq!(m, "odd thing"),
        other => panic!("{other:?}"),
    }
}
