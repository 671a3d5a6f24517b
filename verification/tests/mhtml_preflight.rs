use anydoc::error::ConvertError;
use anydoc::mime::preflight_base64_decoder_allocations_with_limit;

#[test]
fn base64_decoder_preflight_rejects_large_reserve_before_mime_parse() {
    let input = b"MIME-Version: 1.0\r\nContent-Type: multipart/related; boundary=\"b\"\r\n\r\n--b\r\nContent-Type: text/html\r\nContent-Transfer-Encoding: base64\r\n\r\nQQ==\r\n--b\r\nContent-Type: text/plain\r\n\r\n0123456789abcdef\r\n--b--\r\n";
    assert!(matches!(
        preflight_base64_decoder_allocations_with_limit(input, 8),
        Err(ConvertError::ResourceLimit { limit: "max_entry_bytes", .. })
    ));
}

#[test]
fn base64_decoder_preflight_allows_small_remaining_input() {
    let input = b"Content-Transfer-Encoding: base64\r\n\r\nQQ==\r\n";
    assert!(preflight_base64_decoder_allocations_with_limit(input, 64).is_ok());
}

#[test]
fn base64_decoder_preflight_matches_embedded_boundary_semantics() {
    let input = b"MIME-Version: 1.0\r\nContent-Type: multipart/related; boundary=\"b\"\r\n\r\npreamblexx--b\r\nContent-Type: text/html\r\nContent-Transfer-Encoding: base64\r\n\r\nQQ==\r\n0123456789abcdef\r\n--b--\r\n";
    assert!(matches!(
        preflight_base64_decoder_allocations_with_limit(input, 8),
        Err(ConvertError::ResourceLimit { limit: "max_entry_bytes", .. })
    ));
}

#[test]
fn base64_decoder_preflight_ignores_non_boundary_dashes_in_body_text() {
    let input = b"MIME-Version: 1.0\r\nContent-Type: multipart/related; boundary=\"real\"\r\n\r\n--real\r\nContent-Type: text/plain\r\n\r\nbody --not-real Content-Transfer-Encoding: base64\r\n\r\n0123456789abcdef\r\n--real--\r\n";
    assert!(preflight_base64_decoder_allocations_with_limit(input, 8).is_ok());
}
