use pdf_core::pdf::encrypt::Permissions;

// The permission bits are written from the other direction: a set bit
// permits, and several are reserved.
#[test]
fn what_is_permitted_reads_the_same_as_what_was_asked_for() {
    assert_eq!(Permissions::all().describe(), "everything permitted");
    assert_eq!(Permissions::read_only().describe(), "reading only");
    assert_eq!(
        Permissions::all().allow_printing(false).allow_copying(false).describe(),
        "no printing, no copying"
    );
    // And the bits read back the way they were set.
    let restricted = Permissions::all().allow_printing(false);
    assert!(!restricted.may_print());
    assert!(restricted.may_copy() && restricted.may_edit() && restricted.may_annotate());
}

#[test]
fn permissions_clear_the_bit_they_forbid() {
    let all = Permissions::all();
    assert_eq!(all.allow_printing(false).0 & 0b100, 0);
    assert_ne!(all.allow_printing(true).0 & 0b100, 0);
    assert_eq!(all.allow_copying(false).0 & 0b1_0000, 0);
    // Reserved bits 1 and 2 stay clear whatever is asked for.
    assert_eq!(all.0 & 0b11, 0);
}

#[test]
fn a_permission_allowed_again_reads_back_allowed() {
    let p = Permissions::read_only().allow_editing(true).allow_annotating(true);
    assert!(p.may_edit() && p.may_annotate());
    assert!(!p.may_print() && !p.may_copy());
}

use pdf_core::pdf::encrypt::{secure, Security};
use pdf_core::pdf::strings::{from_hex, hex, unescape};
use pdf_core::pdf::File;

/// Deterministic "randomness", so a test can say what the bytes will be.
fn fixed(buffer: &mut [u8]) {
    for (index, byte) in buffer.iter_mut().enumerate() {
        *byte = index as u8;
    }
}

#[test]
fn the_user_entry_is_a_hash_and_its_two_salts() {
    let s = Security::new(b"hunter2", None, Permissions::all(), fixed).expect("secure");
    // The salts are the last sixteen bytes, in the order they were made.
    assert_eq!(&s.u[32..40], &[0, 1, 2, 3, 4, 5, 6, 7]);
    assert_eq!(&s.u[40..48], &[8, 9, 10, 11, 12, 13, 14, 15]);
    assert_ne!(&s.u[..32], &[0u8; 32], "the hash was not computed");
}

/// The owner entry hashes `/U` as well, so the two cannot be mixed between
/// documents.
#[test]
fn the_owner_entry_depends_on_the_user_entry() {
    let a = Security::new(b"hunter2", Some(b"owner"), Permissions::all(), fixed).expect("secure");
    // A different user password changes /U, and so must change /O even
    // though the owner password is the same.
    let b = Security::new(b"different", Some(b"owner"), Permissions::all(), fixed).expect("secure");
    assert_ne!(a.o[..32], b.o[..32]);
}

#[test]
fn a_different_password_gives_a_different_document_key() {
    let a = Security::new(b"one", None, Permissions::all(), fixed).expect("secure");
    let b = Security::new(b"two", None, Permissions::all(), fixed).expect("secure");
    // The file key is the same only because the fixed randomness makes it
    // so; what must differ is everything derived from the password.
    assert_ne!(a.u[..32], b.u[..32]);
    assert_ne!(a.ue, b.ue);
}

#[test]
fn an_empty_password_is_refused() {
    assert!(Security::new(b"", None, Permissions::all(), fixed).is_err());
}

/// Truncating silently would secure a document with less than was typed.
#[test]
fn an_over_long_password_is_refused_rather_than_truncated() {
    let long = vec![b'x'; 128];
    assert!(Security::new(&long, None, Permissions::all(), fixed).is_err());
    let ok = vec![b'x'; 127];
    assert!(Security::new(&ok, None, Permissions::all(), fixed).is_ok());
}

#[test]
fn an_over_long_owner_password_is_refused_too() {
    let long = vec![b'x'; 128];
    assert!(Security::new(b"user", Some(&long), Permissions::all(), fixed).is_err());
}

#[test]
fn encryption_prepends_the_iv_and_pads_to_a_block() {
    let s = Security::new(b"hunter2", None, Permissions::all(), fixed).expect("secure");
    let out = s.encrypt(b"hello", fixed);
    // Sixteen of IV, then one block holding five bytes and eleven of
    // padding.
    assert_eq!(out.len(), 32);
    assert_eq!(&out[..16], &(0u8..16).collect::<Vec<u8>>()[..]);

    // A whole extra block when the length already divides evenly, so there
    // is always padding to take off.
    assert_eq!(s.encrypt(&[0u8; 16], fixed).len(), 16 + 32);
}

#[test]
fn the_same_bytes_encrypt_differently_each_time() {
    let s = Security::new(b"hunter2", None, Permissions::all(), fixed).expect("secure");
    let mut counter = std::cell::Cell::new(0u8);
    let varying = |buffer: &mut [u8]| {
        let seed = counter.get();
        counter.set(seed.wrapping_add(1));
        for (index, byte) in buffer.iter_mut().enumerate() {
            *byte = seed.wrapping_add(index as u8);
        }
    };
    let one = s.encrypt(b"the same words", &varying);
    let two = s.encrypt(b"the same words", &varying);
    assert_ne!(one, two, "the initialisation vector is not being varied");
    let _ = counter.get_mut();
}

#[test]
fn the_same_randomness_gives_the_same_entries() {
    let a = Security::new(b"hunter2", None, Permissions::all(), fixed).expect("secure");
    let b = Security::with_random_bytes(
        b"hunter2",
        None,
        Permissions::all(),
        &core::array::from_fn(|i| i as u8),
        &core::array::from_fn(|i| i as u8),
        &core::array::from_fn(|i| i as u8),
        &[0, 1, 2, 3],
    )
    .expect("secure");
    assert_eq!(a.u, b.u);
    assert_eq!(a.ue, b.ue);
    assert_eq!(a.o, b.o);
    assert_eq!(a.oe, b.oe);
    assert_eq!(a.perms, b.perms);
}

#[test]
fn a_string_with_escapes_reads_back_as_its_bytes() {
    assert_eq!(unescape(b"a\\(b\\)\\\\c"), b"a(b)\\c".to_vec());
    assert_eq!(unescape(b"\\n\\r\\t\\b\\f"), vec![10, 13, 9, 8, 12]);
    assert_eq!(unescape(b"\\101\\0612"), b"A12".to_vec());
    assert_eq!(unescape(b"line\\\nnext"), b"linenext".to_vec());
    assert_eq!(unescape(b"trailing\\"), b"trailing".to_vec());
    assert_eq!(unescape(b"\\q"), b"q".to_vec());
}

#[test]
fn hex_round_trips_and_an_odd_digit_is_padded() {
    assert_eq!(hex(&[0xDE, 0xAD, 0x01]), b"DEAD01".to_vec());
    assert_eq!(from_hex(&b"de ad 01".to_vec()), vec![0xDE, 0xAD, 0x01]);
    assert_eq!(from_hex(&b"ABC".to_vec()), vec![0xAB, 0xC0]);
    assert_eq!(from_hex(&Vec::new()), Vec::<u8>::new());
}

fn a_file() -> Vec<u8> {
    let mut out = Vec::new();
    let mut offsets = Vec::new();
    out.extend_from_slice(b"%PDF-1.7\n");
    offsets.push(out.len());
    out.extend_from_slice(b"1 0 obj\n<< /Type /Catalog /Pages 2 0 R /Title (A secret) >>\nendobj\n");
    offsets.push(out.len());
    out.extend_from_slice(b"2 0 obj\n<< /Type /Pages /Kids [] /Count 0 >>\nendobj\n");
    offsets.push(out.len());
    out.extend_from_slice(b"3 0 obj\n<< /Length 6 >>\nstream\nABCDEF\nendstream\nendobj\n");
    let xref_at = out.len();
    out.extend_from_slice(b"xref\n0 4\n0000000000 65535 f \n");
    for offset in &offsets {
        out.extend_from_slice(format!("{offset:010} 00000 n \n").as_bytes());
    }
    out.extend_from_slice(b"trailer\n<< /Size 4 /Root 1 0 R >>\nstartxref\n");
    out.extend_from_slice(format!("{xref_at}\n%%EOF").as_bytes());
    out
}

fn find(haystack: &[u8], needle: &[u8]) -> Option<usize> {
    haystack.windows(needle.len()).position(|w| w == needle)
}

#[test]
fn a_secured_file_hides_its_strings_and_points_at_its_encrypt_dictionary() {
    let bytes = a_file();
    let file = File::parse(&bytes).expect("parse");
    let s = Security::new(b"hunter2", None, Permissions::all(), fixed).expect("secure");
    let out = secure(&file, &s, fixed).expect("secured");
    assert!(find(&out, b"A secret").is_none(), "a string was left in the clear");
    assert!(find(&out, b"ABCDEF").is_none(), "a stream was left in the clear");
    assert!(find(&out, b"/Filter /Standard/V 5/R 6/Length 256").is_some());
    assert!(find(&out, b"/P -4").is_some());
    assert!(find(&out, b"/Encrypt 4 0 R").is_some());
    assert!(find(&out, b"/ID [").is_some());

    // It still reads, and a second lock is refused rather than stacked.
    let again = File::parse(&out).expect("reparse");
    assert_eq!(again.numbers(), vec![1, 2, 3, 4]);
    assert!(secure(&again, &s, fixed).is_err());
}
