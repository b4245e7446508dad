use webbundle::{Bundle, Error, Version};

const MAGIC: [u8; 8] = [0xf0, 0x9f, 0x8c, 0x90, 0xf0, 0x9f, 0x93, 0xa6];

/// Shortest-form CBOR item header.
fn hdr(major: u8, n: u64) -> Vec<u8> {
    let mt = major << 5;
    let mut v = Vec::new();
    if n < 24 {
        v.push(mt | n as u8);
    } else if n < 0x100 {
        v.push(mt | 24);
        v.push(n as u8);
    } else if n < 0x10000 {
        v.push(mt | 25);
        v.extend_from_slice(&(n as u16).to_be_bytes());
    } else if n < 0x100000000 {
        v.push(mt | 26);
        v.extend_from_slice(&(n as u32).to_be_bytes());
    } else {
        v.push(mt | 27);
        v.extend_from_slice(&n.to_be_bytes());
    }
    v
}

fn bstr(payload: &[u8]) -> Vec<u8> {
    let mut v = hdr(2, payload.len() as u64);
    v.extend_from_slice(payload);
    v
}

fn tstr(s: &str) -> Vec<u8> {
    let mut v = hdr(3, s.len() as u64);
    v.extend_from_slice(s.as_bytes());
    v
}

/// Assembles a bundle from named section bodies, with a correct
/// section-lengths blob and trailing length.
fn make_bundle(version: &[u8], sections: &[(&str, Vec<u8>)]) -> Vec<u8> {
    let mut slb = hdr(4, 2 * sections.len() as u64);
    for (name, blob) in sections {
        slb.extend_from_slice(&tstr(name));
        slb.extend_from_slice(&hdr(0, blob.len() as u64));
    }
    let mut out = hdr(4, 5);
    out.extend_from_slice(&bstr(&MAGIC));
    out.extend_from_slice(&bstr(version));
    out.extend_from_slice(&bstr(&slb));
    out.extend_from_slice(&hdr(4, sections.len() as u64));
    for (_name, blob) in sections {
        out.extend_from_slice(blob);
    }
    let total = out.len() as u64 + 8;
    out.extend_from_slice(&total.to_be_bytes());
    out
}

fn empty_sections() -> Vec<(&'static str, Vec<u8>)> {
    // an empty index map and an empty responses array
    vec![("index", hdr(5, 0)), ("responses", hdr(4, 0))]
}

#[test]
fn minimal_handcrafted_bundle_decodes() {
    let secs = empty_sections();
    let bytes = make_bundle(b"b2\0\0", &secs);
    let bundle = Bundle::from_bytes(&bytes).unwrap();
    assert_eq!(bundle.version(), &Version::VersionB2);
    assert_eq!(bundle.exchanges().len(), 0);
}

#[test]
fn unknown_version_is_not_an_error() {
    let secs = empty_sections();
    let bytes = make_bundle(b"zz\0\0", &secs);
    let bundle = Bundle::from_bytes(&bytes).unwrap();
    assert_eq!(bundle.version(), &Version::Unknown([0x7a, 0x7a, 0, 0]));
    assert_eq!(bundle.version().bytes(), [0x7a, 0x7a, 0, 0]);
}

#[test]
fn version1_classified() {
    let secs = empty_sections();
    let bytes = make_bundle(b"1\0\0\0", &secs);
    let bundle = Bundle::from_bytes(&bytes).unwrap();
    assert_eq!(bundle.version(), &Version::Version1);
}

#[test]
fn corrupt_magic_byte_three() {
    let secs = empty_sections();
    let mut bytes = make_bundle(b"b2\0\0", &secs);
    bytes[3] ^= 0xff;
    assert_eq!(Bundle::from_bytes(&bytes).err(), Some(Error::BadMagic));
}

#[test]
fn bad_version_length() {
    let secs = empty_sections();
    let bytes = make_bundle(b"b2\0", &secs);
    assert_eq!(Bundle::from_bytes(&bytes).err(), Some(Error::BadVersion));
}

#[test]
fn last_section_not_responses() {
    let secs = vec![("responses", hdr(4, 0)), ("index", hdr(5, 0))];
    let bytes = make_bundle(b"b2\0\0", &secs);
    assert_eq!(Bundle::from_bytes(&bytes).err(), Some(Error::MissingResponses));
}

#[test]
fn no_sections_at_all() {
    let secs: Vec<(&str, Vec<u8>)> = vec![];
    let bytes = make_bundle(b"b2\0\0", &secs);
    assert_eq!(Bundle::from_bytes(&bytes).err(), Some(Error::MissingResponses));
}

#[test]
fn duplicate_section_name() {
    let secs = vec![
        ("index", hdr(5, 0)),
        ("index", hdr(5, 0)),
        ("responses", hdr(4, 0)),
    ];
    let bytes = make_bundle(b"b2\0\0", &secs);
    assert_eq!(Bundle::from_bytes(&bytes).err(), Some(Error::DuplicateSection));
}

#[test]
fn section_count_mismatch() {
    // a correct bundle, then the sections array header count is lowered
    let secs = empty_sections();
    let good = make_bundle(b"b2\0\0", &secs);
    // locate the array header for the 2 sections: it is the byte 0x82 right
    // after the section-lengths byte string; rebuild by hand instead
    let mut slb = hdr(4, 4);
    slb.extend_from_slice(&tstr("index"));
    slb.extend_from_slice(&hdr(0, 1));
    slb.extend_from_slice(&tstr("responses"));
    slb.extend_from_slice(&hdr(0, 1));
    let mut out = hdr(4, 5);
    out.extend_from_slice(&bstr(&MAGIC));
    out.extend_from_slice(&bstr(b"b2\0\0"));
    out.extend_from_slice(&bstr(&slb));
    out.extend_from_slice(&hdr(4, 1));  // wrong: table says 2 sections
    out.extend_from_slice(&hdr(5, 0));
    out.extend_from_slice(&hdr(4, 0));
    let total = out.len() as u64 + 8;
    out.extend_from_slice(&total.to_be_bytes());
    assert!(good.len() == out.len());
    assert_eq!(Bundle::from_bytes(&out).err(), Some(Error::SectionCountMismatch));
}

#[test]
fn trailing_length_mismatch() {
    let secs = empty_sections();
    let mut bytes = make_bundle(b"b2\0\0", &secs);
    let last = bytes.len() - 1;
    bytes[last] ^= 0x01;
    assert_eq!(Bundle::from_bytes(&bytes).err(), Some(Error::BadTrailingLength));
}

#[test]
fn trailing_garbage_rejected() {
    let secs = empty_sections();
    let mut bytes = make_bundle(b"b2\0\0", &secs);
    bytes.push(0x00);
    assert_eq!(Bundle::from_bytes(&bytes).err(), Some(Error::BadTrailingLength));
}

#[test]
fn garbage_input_is_malformed() {
    assert_eq!(Bundle::from_bytes(&[]).err(), Some(Error::MalformedCbor));
    assert_eq!(Bundle::from_bytes(&[0x84]).err(), Some(Error::MalformedCbor));
    assert_eq!(Bundle::from_bytes(&[0xff, 0x00]).err(), Some(Error::MalformedCbor));
}

fn section_table_of_size(target: usize) -> Vec<u8> {
    // sections: index, one unknown padding section (empty body), responses;
    // the padding name is grown until the blob reaches the target size
    let base = |pad: usize| {
        let name: String = "x".repeat(pad);
        let mut slb = hdr(4, 6);
        slb.extend_from_slice(&tstr("index"));
        slb.extend_from_slice(&hdr(0, 1));
        slb.extend_from_slice(&tstr(&name));
        slb.extend_from_slice(&hdr(0, 0));
        slb.extend_from_slice(&tstr("responses"));
        slb.extend_from_slice(&hdr(0, 1));
        slb
    };
    let mut pad = target.saturating_sub(40);
    loop {
        let slb = base(pad);
        if slb.len() == target {
            return slb;
        }
        assert!(slb.len() < target);
        pad += target - slb.len();
    }
}

fn bundle_with_table(slb: &[u8]) -> Vec<u8> {
    let mut out = hdr(4, 5);
    out.extend_from_slice(&bstr(&MAGIC));
    out.extend_from_slice(&bstr(b"b2\0\0"));
    out.extend_from_slice(&bstr(slb));
    out.extend_from_slice(&hdr(4, 3));
    out.extend_from_slice(&hdr(5, 0));  // index: empty map
    // the unknown padding section has length 0: nothing emitted
    out.extend_from_slice(&hdr(4, 0));  // responses: empty array
    let total = out.len() as u64 + 8;
    out.extend_from_slice(&total.to_be_bytes());
    out
}

#[test]
fn four_kilobyte_section_table_accepted() {
    let slb = section_table_of_size(4096);
    let bytes = bundle_with_table(&slb);
    let bundle = Bundle::from_bytes(&bytes).unwrap();
    assert_eq!(bundle.exchanges().len(), 0);
}

#[test]
fn eight_kilobyte_section_table_rejected() {
    let slb = section_table_of_size(8192);
    let bytes = bundle_with_table(&slb);
    assert_eq!(Bundle::from_bytes(&bytes).err(), Some(Error::SectionTableTooLarge));
}

/// One exchange bundle with the given raw headers-map payload.
fn bundle_with_headers_blob(headers_blob: Vec<u8>) -> Vec<u8> {
    let mut entry = hdr(4, 2);
    entry.extend_from_slice(&bstr(&headers_blob));
    entry.extend_from_slice(&bstr(b""));
    let mut responses = hdr(4, 1);
    let offset = responses.len() as u64;
    responses.extend_from_slice(&entry);
    let mut index = hdr(5, 1);
    index.extend_from_slice(&tstr("https://example.com/"));
    index.extend_from_slice(&hdr(4, 2));
    index.extend_from_slice(&hdr(0, offset));
    index.extend_from_slice(&hdr(0, entry.len() as u64));
    make_bundle(b"b2\0\0", &[("index", index), ("responses", responses)])
}

fn headers_map(pairs: &[(&[u8], &[u8])]) -> Vec<u8> {
    let mut m = hdr(5, pairs.len() as u64);
    for (k, v) in pairs {
        m.extend_from_slice(&bstr(k));
        m.extend_from_slice(&bstr(v));
    }
    m
}

#[test]
fn wellformed_exchange_decodes() {
    let blob = headers_map(&[(b":status", b"200"), (b"content-type", b"text/plain")]);
    let bytes = bundle_with_headers_blob(blob);
    let bundle = Bundle::from_bytes(&bytes).unwrap();
    assert_eq!(bundle.exchanges().len(), 1);
    assert_eq!(bundle.exchanges()[0].request.url(), "https://example.com/");
    assert_eq!(bundle.exchanges()[0].response.status(), 200);
}

#[test]
fn mixed_case_header_name_rejected() {
    let blob = headers_map(&[(b":status", b"200"), (b"Content-Type", b"text/plain")]);
    let bytes = bundle_with_headers_blob(blob);
    assert_eq!(Bundle::from_bytes(&bytes).err(), Some(Error::BadHeader));
}

#[test]
fn missing_status_rejected() {
    let blob = headers_map(&[(b"content-type", b"text/plain")]);
    let bytes = bundle_with_headers_blob(blob);
    assert_eq!(Bundle::from_bytes(&bytes).err(), Some(Error::BadHeader));
}

#[test]
fn duplicate_status_rejected() {
    let blob = headers_map(&[(b":status", b"200"), (b":status", b"204")]);
    let bytes = bundle_with_headers_blob(blob);
    assert_eq!(Bundle::from_bytes(&bytes).err(), Some(Error::BadHeader));
}

#[test]
fn unknown_pseudo_header_rejected() {
    let blob = headers_map(&[(b":status", b"200"), (b":method", b"GET")]);
    let bytes = bundle_with_headers_blob(blob);
    assert_eq!(Bundle::from_bytes(&bytes).err(), Some(Error::BadHeader));
}

#[test]
fn non_ascii_header_name_rejected() {
    let blob = headers_map(&[(b":status", b"200"), (b"\xc3\xa9tag", b"x")]);
    let bytes = bundle_with_headers_blob(blob);
    assert_eq!(Bundle::from_bytes(&bytes).err(), Some(Error::BadHeader));
}

#[test]
fn out_of_range_status_rejected() {
    let blob = headers_map(&[(b":status", b"700")]);
    let bytes = bundle_with_headers_blob(blob);
    assert_eq!(Bundle::from_bytes(&bytes).err(), Some(Error::BadHeader));
}

#[test]
fn repeated_plain_header_keeps_last() {
    let blob = headers_map(&[(b":status", b"200"), (b"a", b"one"), (b"a", b"two")]);
    let bytes = bundle_with_headers_blob(blob);
    let bundle = Bundle::from_bytes(&bytes).unwrap();
    let resp = &bundle.exchanges()[0].response;
    assert_eq!(resp.header_value(b"a").unwrap(), &b"two".to_vec());
    assert_eq!(resp.headers().len(), 1);
}

fn bundle_with_index(index: Vec<u8>) -> Vec<u8> {
    let mut entry = hdr(4, 2);
    entry.extend_from_slice(&bstr(&headers_map(&[(b":status", b"200")])));
    entry.extend_from_slice(&bstr(b"hi"));
    let mut responses = hdr(4, 1);
    responses.extend_from_slice(&entry);
    make_bundle(b"b2\0\0", &[("index", index), ("responses", responses)])
}

#[test]
fn nonempty_variant_key_rejected() {
    let mut index = hdr(5, 1);
    index.extend_from_slice(&tstr("https://example.com/"));
    index.extend_from_slice(&hdr(4, 3));
    index.extend_from_slice(&bstr(b"v"));  // non-empty variant key
    index.extend_from_slice(&hdr(0, 1));
    index.extend_from_slice(&hdr(0, 10));
    let bytes = bundle_with_index(index);
    assert_eq!(Bundle::from_bytes(&bytes).err(), Some(Error::UnsupportedVariants));
}

#[test]
fn empty_variant_key_accepted() {
    let mut entry = hdr(4, 2);
    entry.extend_from_slice(&bstr(&headers_map(&[(b":status", b"200")])));
    entry.extend_from_slice(&bstr(b"hi"));
    let mut index = hdr(5, 1);
    index.extend_from_slice(&tstr("https://example.com/"));
    index.extend_from_slice(&hdr(4, 3));
    index.extend_from_slice(&bstr(b""));  // empty variant key: old layout
    index.extend_from_slice(&hdr(0, 1));
    index.extend_from_slice(&hdr(0, entry.len() as u64));
    let bytes = bundle_with_index(index);
    let bundle = Bundle::from_bytes(&bytes).unwrap();
    assert_eq!(bundle.exchanges()[0].response.body(), &b"hi".to_vec());
}

#[test]
fn bad_index_value_arity() {
    let mut index = hdr(5, 1);
    index.extend_from_slice(&tstr("https://example.com/"));
    index.extend_from_slice(&hdr(4, 4));
    index.extend_from_slice(&hdr(0, 0));
    index.extend_from_slice(&hdr(0, 0));
    index.extend_from_slice(&hdr(0, 0));
    index.extend_from_slice(&hdr(0, 0));
    let bytes = bundle_with_index(index);
    assert_eq!(Bundle::from_bytes(&bytes).err(), Some(Error::BadIndex));
}

#[test]
fn index_offset_out_of_range() {
    let mut index = hdr(5, 1);
    index.extend_from_slice(&tstr("https://example.com/"));
    index.extend_from_slice(&hdr(4, 2));
    index.extend_from_slice(&hdr(0, 1000));
    index.extend_from_slice(&hdr(0, 10));
    let bytes = bundle_with_index(index);
    assert_eq!(Bundle::from_bytes(&bytes).err(), Some(Error::BadIndex));
}

#[test]
fn critical_with_known_sections_accepted() {
    let mut critical = hdr(4, 2);
    critical.extend_from_slice(&tstr("index"));
    critical.extend_from_slice(&tstr("responses"));
    let secs = vec![
        ("critical", critical),
        ("index", hdr(5, 0)),
        ("responses", hdr(4, 0)),
    ];
    let bytes = make_bundle(b"b2\0\0", &secs);
    assert!(Bundle::from_bytes(&bytes).is_ok());
}

#[test]
fn critical_with_unknown_section_rejected() {
    let mut critical = hdr(4, 1);
    critical.extend_from_slice(&tstr("signatures"));
    let secs = vec![
        ("critical", critical),
        ("index", hdr(5, 0)),
        ("responses", hdr(4, 0)),
    ];
    let bytes = make_bundle(b"b2\0\0", &secs);
    assert_eq!(Bundle::from_bytes(&bytes).err(), Some(Error::CriticalUnknown));
}

#[test]
fn unknown_sections_are_skipped() {
    let secs = vec![
        ("manifest", tstr("https://example.com/manifest")),
        ("signatures", hdr(4, 0)),
        ("index", hdr(5, 0)),
        ("responses", hdr(4, 0)),
    ];
    let bytes = make_bundle(b"b2\0\0", &secs);
    assert!(Bundle::from_bytes(&bytes).is_ok());
}

#[test]
fn primary_url_section_decodes() {
    let secs = vec![
        ("primary", tstr("https://example.com/start.html")),
        ("index", hdr(5, 0)),
        ("responses", hdr(4, 0)),
    ];
    let bytes = make_bundle(b"b2\0\0", &secs);
    let bundle = Bundle::from_bytes(&bytes).unwrap();
    assert_eq!(
        bundle.primary_url(),
        &Some("https://example.com/start.html".to_string())
    );
}
