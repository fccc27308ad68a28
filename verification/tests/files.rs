use safe_files::errors::SafeError;
use safe_files::files_map::{build_files_map, ContentMap, FilesMap};
use safe_files::snapshot::{decode_files_map, encode_files_map};
use safe_files::xorurl::{xorname_to_xorurl, xorurl_to_xorname, XorName};
use safe_files::Safe;

#[test]
fn test_keys_create_preload_test_coins() {}

fn name_from_bytes(bytes: Vec<u8>) -> XorName {
    XorName::new(bytes)
}

#[test]
fn address_round_trip() {
    let mut bytes: Vec<u8> = Vec::new();
    for i in 0..32u32 {
        bytes.push((i * 7 % 256) as u8);
    }
    let name = name_from_bytes(bytes.clone());
    let url = xorname_to_xorurl(&name);
    assert!(url.starts_with("safe://"));
    assert_eq!(url.len(), 7 + 64);
    let back = xorurl_to_xorname(&url).unwrap();
    assert_eq!(back.bytes, bytes);
}

#[test]
fn address_known_value() {
    let mut bytes: Vec<u8> = Vec::new();
    bytes.push(0u8);
    bytes.push(255u8);
    for _ in 0..30 {
        bytes.push(16u8);
    }
    let url = xorname_to_xorurl(&name_from_bytes(bytes));
    assert_eq!(
        url,
        format!("safe://00ff{}", "10".repeat(30))
    );
}

#[test]
fn malformed_addresses_rejected() {
    for bad in [
        "",
        "safe://",
        "http://example",
        "safe://zzzz",
        "safe://00FF0000000000000000000000000000000000000000000000000000000000",
        "safe:/00ff000000000000000000000000000000000000000000000000000000000000",
        "safe://00ff00000000000000000000000000000000000000000000000000000000000",
        "safe://00ff0000000000000000000000000000000000000000000000000000000000000",
    ] {
        match xorurl_to_xorname(bad) {
            Err(SafeError::AddressMalformed) => {}
            other => panic!("expected AddressMalformed for {:?}, got {:?}", bad, other),
        }
    }
}

#[test]
fn snapshot_encoding_exact() {
    let m = FilesMap::new();
    assert_eq!(encode_files_map(&m), "0:");
    let decoded = decode_files_map("0:").unwrap();
    assert_eq!(decoded.len(), 0);
}

#[test]
fn snapshot_decode_rejects_garbage() {
    for bad in ["", "x", "1:", "0:junk", "01:", "1:1:a", "2:1:b1:0:1:a1:0:"] {
        match decode_files_map(bad) {
            Err(SafeError::CorruptSnapshot) => {}
            other => panic!("expected CorruptSnapshot for {:?}, got {:?}", bad, other),
        }
    }
}

#[test]
fn build_determinism() {
    let mut cm = ContentMap::new();
    cm.insert("./b.md".to_string(), "safe://bbb".to_string());
    cm.insert("./a.md".to_string(), "safe://aaa".to_string());
    let sizes = vec![Some(3u64), Some(5u64)];
    let now = "2023-01-02 03:04:05 UTC";
    let m1 = build_files_map(&cm, &sizes, now).unwrap();
    let m2 = build_files_map(&cm, &sizes, now).unwrap();
    let e1 = encode_files_map(&m1);
    let e2 = encode_files_map(&m2);
    assert_eq!(e1, e2);
    let back = decode_files_map(&e1).unwrap();
    assert_eq!(back.len(), 2);
    let item = back.get("./a.md").unwrap();
    assert_eq!(item.get("size").unwrap(), "3");
    assert_eq!(item.get("type").unwrap(), "md");
    assert_eq!(item.get("created").unwrap(), now);
    assert_eq!(item.get("modified").unwrap(), now);
    assert_eq!(item.get("link").unwrap(), "safe://aaa");
}

#[test]
fn build_atomic_on_missing_metadata() {
    let mut cm = ContentMap::new();
    cm.insert("./a.md".to_string(), "safe://aaa".to_string());
    cm.insert("./b.md".to_string(), "safe://bbb".to_string());
    cm.insert("./c.md".to_string(), "safe://ccc".to_string());
    let sizes = vec![Some(1u64), None, Some(2u64)];
    match build_files_map(&cm, &sizes, "t") {
        Err(SafeError::MetadataUnavailable(path)) => assert_eq!(path, "./b.md"),
        other => panic!("expected MetadataUnavailable, got {:?}", other),
    }
}

#[test]
fn file_type_defaults_to_unknown() {
    let mut cm = ContentMap::new();
    cm.insert("./dir/noext".to_string(), "safe://x".to_string());
    cm.insert("./dir/.hidden".to_string(), "safe://y".to_string());
    cm.insert("./dir/a.tar.gz".to_string(), "safe://z".to_string());
    let sizes = vec![Some(1u64), Some(1u64), Some(1u64)];
    let m = build_files_map(&cm, &sizes, "t").unwrap();
    assert_eq!(m.get("./dir/noext").unwrap().get("type").unwrap(), "unknown");
    assert_eq!(m.get("./dir/.hidden").unwrap().get("type").unwrap(), "unknown");
    assert_eq!(m.get("./dir/a.tar.gz").unwrap().get("type").unwrap(), "gz");
}

#[test]
fn file_type_is_lowercased() {
    let mut cm = ContentMap::new();
    cm.insert("./dir/REPORT.MD".to_string(), "safe://x".to_string());
    cm.insert("./dir/a.TAR.Gz".to_string(), "safe://y".to_string());
    let sizes = vec![Some(1u64), Some(1u64)];
    let m = build_files_map(&cm, &sizes, "t").unwrap();
    assert_eq!(m.get("./dir/REPORT.MD").unwrap().get("type").unwrap(), "md");
    assert_eq!(m.get("./dir/a.TAR.Gz").unwrap().get("type").unwrap(), "gz");
}

#[test]
fn repeated_put_of_same_bytes_is_safe() {
    let mut safe = Safe::new();
    let data = b"Something super good";
    let u1 = safe.files_put_published_immutable(data).unwrap();
    let u2 = safe.files_put_published_immutable(data).unwrap();
    assert_eq!(safe.files_get_published_immutable(&u1).unwrap(), data.to_vec());
    assert_eq!(safe.files_get_published_immutable(&u2).unwrap(), data.to_vec());
}

#[test]
fn append_only_monotonic_versions() {
    let mut safe = Safe::new();
    let mut cm = ContentMap::new();
    cm.insert("./a.md".to_string(), "safe://aaa".to_string());
    let sizes = vec![Some(1u64)];
    let s0 = safe.files_map_create(&cm, &sizes).unwrap();
    let url = safe.files_container_create(s0).unwrap();
    for k in 1..=4u64 {
        let mut cmk = ContentMap::new();
        cmk.insert(format!("./v{}.md", k), "safe://aaa".to_string());
        let sk = safe.files_map_create(&cmk, &vec![Some(k)]).unwrap();
        let ver = safe.files_container_update(&url, sk).unwrap();
        assert_eq!(ver, k);
        let latest = safe.files_container_get_latest(&url).unwrap();
        assert_eq!(latest.len(), 1);
        let item = latest.get(&format!("./v{}.md", k)).unwrap();
        assert_eq!(item.get("size").unwrap(), &k.to_string());
    }
}

#[test]
fn empty_container_vs_absent() {
    let mut safe = Safe::new();
    let name = safe
        .safe_app
        .put_seq_appendable_data(Vec::new(), safe_files::FILES_CONTAINER_TYPE_TAG)
        .unwrap();
    let url = xorname_to_xorurl(&name);
    let latest = safe.files_container_get_latest(&url).unwrap();
    assert_eq!(latest.len(), 0);
    match safe.files_container_update(&url, "0:".to_string()) {
        Err(SafeError::Empty) => {}
        other => panic!("expected Empty, got {:?}", other),
    }
    let absent = xorname_to_xorurl(&name_from_bytes(vec![255u8; 32]));
    match safe.files_container_get_latest(&absent) {
        Err(SafeError::ContainerNotFound) => {}
        other => panic!("expected ContainerNotFound, got {:?}", other),
    }
    match safe.files_container_update(&absent, "0:".to_string()) {
        Err(SafeError::ContainerNotFound) => {}
        other => panic!("expected ContainerNotFound, got {:?}", other),
    }
}

#[test]
fn end_to_end_two_files() {
    let mut safe = Safe::new();
    let top = b"Something top level";
    let second = b"Something second level";
    let top_url = safe.files_put_published_immutable(top).unwrap();
    let second_url = safe.files_put_published_immutable(second).unwrap();
    assert_eq!(safe.files_get_published_immutable(&top_url).unwrap(), top.to_vec());
    assert_eq!(
        safe.files_get_published_immutable(&second_url).unwrap(),
        second.to_vec()
    );

    let mut cm = ContentMap::new();
    cm.insert("./test.md".to_string(), top_url.clone());
    cm.insert("./sub/sub.md".to_string(), second_url.clone());
    let sizes = vec![Some(second.len() as u64), Some(top.len() as u64)];
    let encoded = safe.files_map_create(&cm, &sizes).unwrap();
    let url = safe.files_container_create(encoded).unwrap();
    assert!(url.contains("safe://"));

    let latest = safe.files_container_get_latest(&url).unwrap();
    assert_eq!(latest.len(), 2);
    let t = latest.get("./test.md").unwrap();
    assert_eq!(t.get("link").unwrap(), &top_url);
    assert_eq!(t.get("type").unwrap(), "md");
    let s = latest.get("./sub/sub.md").unwrap();
    assert_eq!(s.get("link").unwrap(), &second_url);
    assert_eq!(s.get("type").unwrap(), "md");
}

#[test]
fn get_never_put_fails_not_found() {
    let safe = Safe::new();
    let url = xorname_to_xorurl(&name_from_bytes(vec![7u8; 32]));
    match safe.files_get_published_immutable(&url) {
        Err(SafeError::NotFound) => {}
        other => panic!("expected NotFound, got {:?}", other),
    }
    match safe.files_get_published_immutable("not a url") {
        Err(SafeError::AddressMalformed) => {}
        other => panic!("expected AddressMalformed, got {:?}", other),
    }
}

#[test]
fn content_map_replaces_equal_path() {
    let mut cm = ContentMap::new();
    cm.insert("./a".to_string(), "safe://old".to_string());
    cm.insert("./a".to_string(), "safe://new".to_string());
    assert_eq!(cm.len(), 1);
    let m = build_files_map(&cm, &vec![Some(1u64)], "t").unwrap();
    assert_eq!(m.get("./a").unwrap().get("link").unwrap(), "safe://new");
}
