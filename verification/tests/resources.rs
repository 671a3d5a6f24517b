use anydoc::error::ConvertError;
use anydoc::limits::MAX_ENTRY_BYTES;
use anydoc::mhtml::{
    attribute_of, base64_decoded_upper_bound, enforce_part_size, lookup,
    transfer_decoded_part_bytes, ContentType, MimePart, TransferEncoding,
};
use anydoc::model::AssetId;
use anydoc::resources::{
    build_resource_index, collect_image_assets, has_word_ignore_case, resource_keys,
};

fn part(ctype: Option<(&str, Option<&str>)>, id: Option<&str>, location: Option<&str>, contents: Vec<u8>) -> MimePart {
    MimePart {
        content_type: ctype.map(|(t, s)| ContentType {
            ctype: t.to_string(),
            subtype: s.map(|x| x.to_string()),
            attributes: Vec::new(),
        }),
        content_id: id.map(|x| x.to_string()),
        content_location: location.map(|x| x.to_string()),
        encoding: TransferEncoding::Identity,
        offset_body: 0,
        offset_end: 0,
        contents,
        text_contents: None,
    }
}

fn body_part(encoding: TransferEncoding, offset_body: u32, offset_end: u32) -> MimePart {
    let mut p = part(Some(("text", Some("html"))), None, None, Vec::new());
    p.encoding = encoding;
    p.offset_body = offset_body;
    p.offset_end = offset_end;
    p
}

fn limit_error(result: Result<impl Sized, ConvertError>) -> (&'static str, String) {
    match result {
        Err(ConvertError::ResourceLimit { limit, detail }) => (limit, detail),
        _ => panic!("expected a limit error"),
    }
}

fn malformed(result: Result<Vec<u8>, ConvertError>) -> String {
    match result {
        Err(ConvertError::Malformed(m)) => m,
        _ => panic!("expected a malformed-input error"),
    }
}

#[test]
fn part_keys_are_content_id_then_location() {
    let p = part(None, Some("<IMG@ID>"), Some("images/a.png#x"), Vec::new());
    assert_eq!(
        resource_keys(&p, Some("https://example.test/docs/page.html")),
        vec!["cid:img@id".to_string(), "https://example.test/docs/images/a.png".to_string()]
    );
}

#[test]
fn part_keys_skip_empty_and_repeated_keys() {
    let p = part(None, Some("<x>"), Some("CID:<X>"), Vec::new());
    assert_eq!(resource_keys(&p, None), vec!["cid:x".to_string()]);
    let p = part(None, Some("<>"), Some("#only"), Vec::new());
    assert!(resource_keys(&p, None).is_empty());
}

#[test]
fn resource_index_keeps_the_first_part_for_a_key() {
    let parts = vec![
        part(Some(("text", Some("html"))), None, None, Vec::new()),
        part(Some(("text", Some("css"))), None, Some("https://example.test/a.css"), Vec::new()),
        part(Some(("text", Some("css"))), Some("<s@id>"), Some("https://example.test/a.css#v2"), Vec::new()),
    ];
    let index = build_resource_index(&parts, None);
    assert_eq!(lookup(&index, "https://example.test/a.css"), Some(1));
    assert_eq!(lookup(&index, "cid:s@id"), Some(2));
    assert_eq!(lookup(&index, "https://example.test/b.css"), None);
    assert_eq!(index.len(), 2);
}

#[test]
fn image_parts_become_assets_in_part_order() {
    let parts = vec![
        part(Some(("multipart", Some("related"))), None, None, Vec::new()),
        part(Some(("IMAGE", None)), None, None, vec![1, 2]),
        part(Some(("text", Some("css"))), None, Some("a.css"), vec![9]),
        part(Some(("image", Some("gif"))), Some("<g@id>"), None, vec![3]),
        part(Some(("image", Some("png"))), Some("<g@id>"), Some("https://example.test/p.png"), vec![4]),
    ];
    let (assets, keys) = collect_image_assets(&parts, None).unwrap();
    assert_eq!(assets.len(), 3);
    assert!(assets[0].id == AssetId(0));
    assert_eq!(assets[0].media_type, "IMAGE/octet-stream");
    assert_eq!(assets[0].origin_part, "mhtml-part-1");
    assert_eq!(assets[0].bytes, vec![1, 2]);
    assert_eq!(assets[1].media_type, "image/gif");
    assert_eq!(assets[1].origin_part, "<g@id>");
    assert_eq!(assets[2].origin_part, "https://example.test/p.png");
    assert!(lookup(&keys, "cid:g@id") == Some(AssetId(1)));
    assert!(lookup(&keys, "https://example.test/p.png") == Some(AssetId(2)));
    assert!(lookup(&keys, "a.css").is_none());
}

#[test]
fn oversized_image_part_is_rejected() {
    let parts = vec![part(Some(("image", Some("png"))), None, None, vec![0; MAX_ENTRY_BYTES as usize + 1])];
    let (limit, detail) = limit_error(collect_image_assets(&parts, None));
    assert_eq!(limit, "max_entry_bytes");
    assert_eq!(detail, "MHTML image part is 134217729 bytes; maximum is 134217728");
}

#[test]
fn images_over_the_total_limit_are_rejected() {
    let size = 100_000_000usize;
    let parts = vec![
        part(Some(("image", Some("png"))), None, None, vec![0; size]),
        part(Some(("image", Some("png"))), None, None, vec![0; size]),
        part(Some(("image", Some("png"))), None, None, vec![0; size]),
    ];
    let (limit, detail) = limit_error(collect_image_assets(&parts, None));
    assert_eq!(limit, "max_asset_total_bytes");
    assert_eq!(detail, "MHTML embedded images retain 300000000 bytes; maximum is 268435456");
}

#[test]
fn stylesheet_rel_words_are_matched_ignoring_case() {
    assert!(has_word_ignore_case("alternate  STYLESHEET", "stylesheet"));
    assert!(has_word_ignore_case("\tstylesheet\n", "stylesheet"));
    assert!(!has_word_ignore_case("stylesheets", "stylesheet"));
    assert!(!has_word_ignore_case("", "stylesheet"));
}

#[test]
fn content_type_attributes_are_found_by_exact_name() {
    let ct = ContentType {
        ctype: "text".to_string(),
        subtype: Some("html".to_string()),
        attributes: vec![
            ("charset".to_string(), "utf-8".to_string()),
            ("charset".to_string(), "latin1".to_string()),
        ],
    };
    assert_eq!(attribute_of(&ct, "charset").map(|s| s.as_str()), Some("utf-8"));
    assert_eq!(attribute_of(&ct, "Charset"), None);
}

#[test]
fn base64_bound_counts_symbols_not_whitespace() {
    assert_eq!(base64_decoded_upper_bound(b"QQ==\r\n"), 3);
    assert_eq!(base64_decoded_upper_bound(b""), 0);
    assert_eq!(base64_decoded_upper_bound(b"QUJD RA=="), 6);
}

#[test]
fn part_size_limit_names_the_part() {
    assert!(enforce_part_size(MAX_ENTRY_BYTES as usize, "image", "body").is_ok());
    let (limit, detail) = limit_error(enforce_part_size(MAX_ENTRY_BYTES as usize + 1, "image", "body"));
    assert_eq!(limit, "max_entry_bytes");
    assert_eq!(detail, "MHTML image body is 134217729 bytes; maximum is 134217728");
}

#[test]
fn part_bodies_are_decoded_by_transfer_encoding() {
    let raw = b"xxhello";
    assert_eq!(transfer_decoded_part_bytes(raw, &body_part(TransferEncoding::Identity, 2, 7), "root").unwrap(), b"hello".to_vec());
    let raw = b"caf=E9";
    assert_eq!(transfer_decoded_part_bytes(raw, &body_part(TransferEncoding::QuotedPrintable, 0, 6), "root").unwrap(), vec![b'c', b'a', b'f', 0xE9]);
    let raw = b"QUJD\r\n";
    assert_eq!(transfer_decoded_part_bytes(raw, &body_part(TransferEncoding::Base64, 0, 6), "root").unwrap(), b"ABC".to_vec());
}

#[test]
fn part_body_errors_name_the_part() {
    assert_eq!(
        malformed(transfer_decoded_part_bytes(b"abc", &body_part(TransferEncoding::Identity, 2, 9), "HTML root")),
        "MHTML HTML root byte range is invalid"
    );
    assert_eq!(
        malformed(transfer_decoded_part_bytes(b"abc", &body_part(TransferEncoding::Identity, 2, 1), "HTML root")),
        "MHTML HTML root byte range is invalid"
    );
    assert_eq!(
        malformed(transfer_decoded_part_bytes(b"a==b", &body_part(TransferEncoding::QuotedPrintable, 0, 4), "HTML root")),
        "MHTML HTML root quoted-printable body is invalid"
    );
    assert_eq!(
        malformed(transfer_decoded_part_bytes(b"!!!!", &body_part(TransferEncoding::Base64, 0, 4), "HTML root")),
        "MHTML HTML root base64 body is invalid"
    );
}
