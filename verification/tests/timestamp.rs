use pdf_core::error::PdfError;
use pdf_core::pdf::timestamp::{field, read_length, request, sequence, split, tlv, token_from_answer, token_in};

#[test]
fn a_request_is_well_formed_der_over_the_digest() {
    let digest = [9u8; 32];
    let bytes = request(&digest).expect("request");

    // A SEQUENCE, and the digest is inside it.
    assert_eq!(bytes[0], 0x30);
    assert!(
        bytes.windows(32).any(|w| w == digest),
        "the digest is not in the request"
    );
    // Parses as a whole: the outer length accounts for every byte.
    let (body, whole) = field(&bytes, 0x30).expect("sequence");
    assert_eq!(whole, bytes.len(), "the request has trailing rubbish");
    assert!(!body.is_empty());
}

// Only a SHA-256 digest, because that is what the request says it is.
#[test]
fn a_digest_of_the_wrong_size_is_refused() {
    assert!(request(&[0u8; 20]).is_err());
    assert!(request(&[]).is_err());
}

// Lengths above 127 use the long form; a request is short, but a token is
// not, and the reader has to handle both.
#[test]
fn der_lengths_are_read_in_both_forms() {
    assert_eq!(read_length(&[0x05]), Some((5, 1)));
    assert_eq!(read_length(&[0x81, 0x80]), Some((128, 2)));
    assert_eq!(read_length(&[0x82, 0x01, 0x00]), Some((256, 3)));
    // Nonsense comes back as nothing rather than as a huge length.
    assert_eq!(read_length(&[0x89, 1, 2, 3]), None);
    assert_eq!(read_length(&[]), None);
}

// A refusal is read as a refusal. An authority that declines answers
// properly, and calling that a malformed reply would blame the wrong side.
#[test]
fn an_authoritys_refusal_is_reported_as_one() {
    // status = 2 (rejection), no token.
    let status = sequence(&tlv(0x02, &[2]));
    let answer = sequence(&status);
    let problem = token_in(&answer).expect_err("a refusal was read as a token");
    assert!(problem.message().contains("refused"), "{}", problem.message());
}

#[test]
fn a_granted_answer_gives_up_its_token() {
    let status = sequence(&tlv(0x02, &[0]));
    // A token is a ContentInfo, which is a SEQUENCE — its innards do not
    // matter here.
    let token = sequence(&tlv(0x06, &[0x2A, 0x86, 0x48]));
    let answer = sequence(&[status, token.clone()].concat());

    assert_eq!(token_in(&answer).expect("token"), token);
}

#[test]
fn rubbish_is_not_read_as_an_answer() {
    assert!(token_in(b"not der at all").is_err());
    assert!(token_in(&[]).is_err());
}

#[test]
fn an_ordinary_address_is_taken_apart() {
    assert_eq!(
        split("http://timestamp.example.com/tsa").expect("split"),
        ("timestamp.example.com".into(), 80, "/tsa".into())
    );
    // No path is the root.
    assert_eq!(
        split("http://tsa.example.com").expect("split"),
        ("tsa.example.com".into(), 80, "/".into())
    );
    assert_eq!(
        split("http://tsa.example.com:8080/x").expect("split"),
        ("tsa.example.com".into(), 8080, "/x".into())
    );
}

// Guessing here means connecting somewhere nobody asked for, so anything
// that is not plainly an address is refused.
#[test]
fn anything_that_is_not_plainly_an_address_is_refused() {
    for address in [
        "timestamp.example.com",
        "https://timestamp.example.com",
        "ftp://tsa.example.com",
        "",
        "http://",
        "http://host:notaport/",
    ] {
        assert!(split(address).is_err(), "{address:?} was accepted");
    }
}

// And the refusal explains itself rather than saying "invalid".
#[test]
fn the_refusal_says_what_is_wanted() {
    let problem = split("https://tsa.example.com").expect_err("accepted").message();
    assert!(problem.contains("http://"), "{problem}");
}

#[test]
fn a_port_with_a_plus_sign_is_still_a_port() {
    assert_eq!(split("http://h:+81/p").expect("split"), ("h".into(), 81, "/p".into()));
}

#[test]
fn a_long_length_is_read_whole() {
    assert_eq!(read_length(&[0x84, 0x00, 0x01, 0x00, 0x00]), Some((65536, 5)));
    // The long form with no length bytes at all is refused.
    assert_eq!(read_length(&[0x80]), None);
}

fn http(head: &str, body: &[u8]) -> Vec<u8> {
    let mut out = head.as_bytes().to_vec();
    out.extend_from_slice(body);
    out
}

#[test]
fn a_successful_http_answer_gives_up_the_token_in_its_body() {
    let status = sequence(&tlv(0x02, &[0]));
    let token = sequence(&tlv(0x06, &[0x2A, 0x86, 0x48]));
    let body = sequence(&[status, token.clone()].concat());
    let answer = http("HTTP/1.1 200 OK\r\nContent-Type: application/timestamp-reply\r\n\r\n", &body);
    assert_eq!(token_from_answer("tsa.example", &answer).expect("token"), token);
}

#[test]
fn an_http_error_names_the_host_and_what_it_said() {
    let answer = http("HTTP/1.1 500 Broken\r\n\r\n", b"");
    match token_from_answer("tsa.example", &answer) {
        Err(PdfError::InvalidArgument(m)) => assert_eq!(m, "tsa.example said: HTTP/1.1 500 Broken"),
        other => panic!("unexpected: {other:?}"),
    }
}

#[test]
fn an_answer_with_no_end_to_its_head_is_refused() {
    match token_from_answer("tsa.example", b"HTTP/1.1 200 OK\r\n") {
        Err(PdfError::InvalidArgument(m)) => assert_eq!(m, "tsa.example answered with nothing"),
        other => panic!("unexpected: {other:?}"),
    }
}
