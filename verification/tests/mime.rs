use anydoc::error::ConvertError;
use anydoc::mime::{
    enforce_base64_parser_reserve, find_bytes, headers_use_base64, looks_like_mhtml,
    mime_boundary_from_headers, mime_header_block, mime_header_body_start,
    preflight_base64_decoder_allocations, preflight_base64_decoder_allocations_with_limit,
    skip_boundary_line, unfold_headers,
};

fn fixture(source: &str) -> Vec<u8> {
    source.replace('\n', "\r\n").into_bytes()
}

#[test]
fn multipart_related_html_is_detected_as_mhtml() {
    let mhtml = fixture(
        "From: <Saved by Blink>\nSnapshot-Content-Location: https://example.test/page\nMIME-Version: 1.0\nContent-Type: multipart/related; type=\"text/html\"; boundary=\"b\"\n\n--b\nContent-Type: text/html\n\n<!doctype html><p>Hello</p>\n--b--\n",
    );
    assert!(looks_like_mhtml(&mhtml));
}

#[test]
fn folded_content_type_header_is_recognized() {
    let mhtml = fixture(
        "Snapshot-Content-Location: https://example.test/page\nContent-Type: Multipart/Related;\n\ttype=\"text/html\"; boundary=\"b\"\n\n--b--\n",
    );
    assert!(looks_like_mhtml(&mhtml));
}

#[test]
fn generic_multipart_alternative_email_is_not_mhtml() {
    let email = fixture(
        "MIME-Version: 1.0\nContent-Type: multipart/alternative; boundary=\"b\"\n\n--b\nContent-Type: text/plain\n\nHello\n--b\nContent-Type: text/html\n\n<p>Hello</p>\n--b--\n",
    );
    assert!(!looks_like_mhtml(&email));
}

#[test]
fn ordinary_related_html_email_is_not_mhtml() {
    let email = fixture(
        "From: sender@example.test\nTo: recipient@example.test\nSubject: Inline image\nMIME-Version: 1.0\nContent-Type: multipart/related; type=\"text/html\"; boundary=\"b\"\n\n--b\nContent-Type: text/html; charset=utf-8\n\n<p>Hello <img src=\"cid:image@id\"></p>\n--b\nContent-Type: image/png\nContent-ID: <image@id>\nContent-Transfer-Encoding: base64\n\nAAECAw==\n--b--\n",
    );
    assert!(!looks_like_mhtml(&email));
}

#[test]
fn mhtml_detection_requires_exact_related_media_type() {
    let mhtml = fixture(
        "Snapshot-Content-Location: https://example.test/page\nMIME-Version: 1.0\nContent-Type: multipart/relatedness; boundary=\"b\"\n\n--b\nContent-Type: text/html\n\n<!doctype html><p>Hello</p>\n--b--\n",
    );
    assert!(!looks_like_mhtml(&mhtml));
}

#[test]
fn header_block_ends_at_the_first_blank_line() {
    assert_eq!(mime_header_block(b"A: 1\r\nB: 2\r\n\r\nbody"), b"A: 1\r\nB: 2");
    assert_eq!(mime_header_block(b"A: 1\n\nbody\r\n\r\n"), b"A: 1");
    assert_eq!(mime_header_block(b"A: 1\r\nB: 2"), b"A: 1\r\nB: 2");
}

#[test]
fn header_body_start_takes_the_earlier_separator() {
    assert_eq!(mime_header_body_start(b"A: 1\r\n\r\nbody", 0, 12), Some((4, 8)));
    assert_eq!(mime_header_body_start(b"A: 1\n\nbody\r\n\r\n", 0, 14), Some((4, 6)));
    assert_eq!(mime_header_body_start(b"xxA: 1\n\nbody", 2, 12), Some((6, 8)));
    assert_eq!(mime_header_body_start(b"A: 1\r\nB: 2", 0, 10), None);
}

#[test]
fn folded_header_lines_are_joined() {
    assert_eq!(unfold_headers(b"Content-Type: text/html;\r\n\tcharset=utf-8\r\nX: y"), "Content-Type: text/html; charset=utf-8\nX: y");
    assert_eq!(unfold_headers(b"A: 1\r\n  b  \r\n"), "A: 1 b\n");
    assert_eq!(unfold_headers(b"A: caf\xE9"), "A: caf\u{FFFD}");
}

#[test]
fn byte_search_finds_the_first_occurrence() {
    assert_eq!(find_bytes(b"abcabc", b"ca"), Some(2));
    assert_eq!(find_bytes(b"abc", b"abcd"), None);
    assert_eq!(find_bytes(b"abc", b""), None);
    assert_eq!(find_bytes(b"abc", b"x"), None);
}

#[test]
fn boundary_line_rest_is_skipped() {
    assert_eq!(skip_boundary_line(b"--b  \r\nX", 3, 8), 7);
    assert_eq!(skip_boundary_line(b"--bX", 3, 4), 3);
    assert_eq!(skip_boundary_line(b"--b \t", 3, 5), 5);
}

#[test]
fn base64_transfer_encoding_header_is_detected() {
    assert!(headers_use_base64(b"Content-Type: image/png\r\nContent-Transfer-Encoding:  BASE64 "));
    assert!(headers_use_base64(b"content-transfer-encoding:\r\n base64"));
    assert!(!headers_use_base64(b"Content-Transfer-Encoding: quoted-printable"));
    assert!(!headers_use_base64(b"X-Note: Content-Transfer-Encoding: base64"));
}

#[test]
fn only_multipart_headers_open_nested_parts() {
    assert_eq!(
        mime_boundary_from_headers(b"Content-Type: multipart/related; boundary=\"inner\"\r\n\r\n"),
        Some(b"inner".to_vec())
    );
    assert_eq!(mime_boundary_from_headers(b"Content-Type: text/plain; boundary=\"inner\"\r\n\r\n"), None);
    assert_eq!(mime_boundary_from_headers(b"Content-Type: multipart/mixed\r\n\r\n"), None);
}

#[test]
fn parser_reserve_is_three_quarters_of_the_rest() {
    assert!(enforce_base64_parser_reserve(40, 30).is_ok());
    match enforce_base64_parser_reserve(44, 30) {
        Err(ConvertError::ResourceLimit { limit, detail }) => {
            assert_eq!(limit, "max_entry_bytes");
            assert_eq!(
                detail,
                "MHTML base64 decoder may reserve 33 bytes before locating the MIME boundary; maximum is 30"
            );
        }
        _ => panic!("expected a reserve error"),
    }
}

#[test]
fn excessive_multipart_nesting_is_rejected_before_parsing() {
    let mut input = String::from("Content-Type: multipart/mixed; boundary=\"b0z\"\r\n\r\n");
    for depth in 1..70 {
        input.push_str(&format!("--b{}z\r\nContent-Type: multipart/mixed; boundary=\"b{}z\"\r\n\r\n", depth - 1, depth));
    }
    match preflight_base64_decoder_allocations(input.as_bytes()) {
        Err(ConvertError::ResourceLimit { limit, detail }) => {
            assert_eq!(limit, "max_mime_depth");
            assert_eq!(detail, "MHTML MIME nesting depth 65 exceeds maximum of 64");
        }
        _ => panic!("expected a nesting error"),
    }
}

#[test]
fn boundary_parameter_on_non_multipart_part_is_not_nesting() {
    let mut input = String::from("Content-Type: multipart/mixed; boundary=\"b0z\"\r\n\r\n");
    for depth in 1..70 {
        input.push_str(&format!("--b{}z\r\nContent-Type: text/plain; boundary=\"b{}z\"\r\n\r\n", depth - 1, depth));
    }
    assert!(preflight_base64_decoder_allocations(input.as_bytes()).is_ok());
}

#[test]
fn input_without_header_separator_passes_the_allocation_preflight() {
    assert!(preflight_base64_decoder_allocations_with_limit(b"Content-Transfer-Encoding: base64", 0).is_ok());
}
