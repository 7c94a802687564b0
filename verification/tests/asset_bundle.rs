use arachne::asset::bundle::{AssetBundle, BundleError};

#[test]
fn bundle_roundtrip_single() {
    let mut bundle = AssetBundle::new();
    bundle.add("test.txt", "text", b"Hello, bundle!");

    let bytes = bundle.to_bytes();
    let loaded = AssetBundle::from_bytes(&bytes).unwrap();

    assert_eq!(loaded.entries.len(), 1);
    assert_eq!(loaded.entries[0].path, "test.txt");
    assert_eq!(loaded.entries[0].type_tag, "text");
    assert_eq!(loaded.get("test.txt").unwrap(), b"Hello, bundle!");
}

#[test]
fn bundle_roundtrip_multiple() {
    let mut bundle = AssetBundle::new();
    bundle.add("image.png", "image", &[0x89, 0x50, 0x4E, 0x47]);
    bundle.add("mesh.obj", "mesh", b"v 0 0 0\n");
    bundle.add("scene.json", "scene", b"[{\"name\":\"test\",\"components\":{}}]");

    let bytes = bundle.to_bytes();
    let loaded = AssetBundle::from_bytes(&bytes).unwrap();

    assert_eq!(loaded.entries.len(), 3);
    assert_eq!(loaded.get("image.png").unwrap(), &[0x89, 0x50, 0x4E, 0x47]);
    assert_eq!(loaded.get("mesh.obj").unwrap(), b"v 0 0 0\n");
    assert_eq!(loaded.get("scene.json").unwrap(), b"[{\"name\":\"test\",\"components\":{}}]");

    assert_eq!(loaded.entries[0].type_tag, "image");
    assert_eq!(loaded.entries[1].type_tag, "mesh");
    assert_eq!(loaded.entries[2].type_tag, "scene");
}

#[test]
fn bundle_get_missing() {
    let bundle = AssetBundle::new();
    assert!(bundle.get("nonexistent").is_none());
}

#[test]
fn bundle_get_by_index() {
    let mut bundle = AssetBundle::new();
    bundle.add("a.txt", "text", b"AAA");
    bundle.add("b.txt", "text", b"BBB");

    assert_eq!(bundle.get_by_index(0).unwrap(), b"AAA");
    assert_eq!(bundle.get_by_index(1).unwrap(), b"BBB");
    assert!(bundle.get_by_index(2).is_none());
}

#[test]
fn bundle_build_index() {
    let mut bundle = AssetBundle::new();
    bundle.add("x.png", "image", b"X");
    bundle.add("y.obj", "mesh", b"Y");
    bundle.add("z.json", "scene", b"Z");

    let index = bundle.build_index();
    assert_eq!(index.len(), 3);
    assert_eq!(lookup(&index, "x.png"), 0);
    assert_eq!(lookup(&index, "y.obj"), 1);
    assert_eq!(lookup(&index, "z.json"), 2);
}

/// The entry index that `index` gives `path`.
fn lookup(index: &[(String, usize)], path: &str) -> usize {
    index.iter().find(|(p, _)| p == path).map(|(_, i)| *i).expect("path in index")
}

#[test]
fn bundle_invalid_magic() {
    let bytes = b"XXXX\x01\x00\x00\x00\x00\x00\x00\x00";
    assert!(AssetBundle::from_bytes(bytes).is_err());
}

#[test]
fn bundle_empty() {
    let bundle = AssetBundle::new();
    let bytes = bundle.to_bytes();
    let loaded = AssetBundle::from_bytes(&bytes).unwrap();
    assert_eq!(loaded.entries.len(), 0);
    assert!(loaded.data.is_empty());
}

#[test]
fn bundle_large_data() {
    let mut bundle = AssetBundle::new();
    let big_data = vec![0xAB; 100_000];
    bundle.add("big.bin", "binary", &big_data);

    let bytes = bundle.to_bytes();
    let loaded = AssetBundle::from_bytes(&bytes).unwrap();
    assert_eq!(loaded.get("big.bin").unwrap().len(), 100_000);
    assert!(loaded.get("big.bin").unwrap().iter().all(|&b| b == 0xAB));
}

#[test]
fn bundle_exact_bytes_of_one_entry() {
    let mut bundle = AssetBundle::new();
    bundle.add("p", "t", &[9, 8]);
    let bytes = bundle.to_bytes();
    let mut expected: Vec<u8> = b"ABND".to_vec();
    expected.extend_from_slice(&1u32.to_le_bytes());
    expected.extend_from_slice(&1u32.to_le_bytes());
    expected.extend_from_slice(&1u16.to_le_bytes());
    expected.extend_from_slice(b"t");
    expected.extend_from_slice(&1u16.to_le_bytes());
    expected.extend_from_slice(b"p");
    expected.extend_from_slice(&0u64.to_le_bytes());
    expected.extend_from_slice(&2u64.to_le_bytes());
    expected.extend_from_slice(&[9, 8]);
    assert_eq!(bytes, expected);
}

#[test]
fn bundle_errors() {
    assert_eq!(AssetBundle::from_bytes(b"ABND").err(), Some(BundleError::TooShort));
    let mut bad_version: Vec<u8> = b"ABND".to_vec();
    bad_version.extend_from_slice(&2u32.to_le_bytes());
    bad_version.extend_from_slice(&0u32.to_le_bytes());
    assert_eq!(AssetBundle::from_bytes(&bad_version).err(), Some(BundleError::UnsupportedVersion(2)));

    let mut truncated: Vec<u8> = b"ABND".to_vec();
    truncated.extend_from_slice(&1u32.to_le_bytes());
    truncated.extend_from_slice(&1u32.to_le_bytes());
    truncated.push(5);
    assert_eq!(AssetBundle::from_bytes(&truncated).err(), Some(BundleError::TruncatedTagLength(0)));

    let mut bundle = AssetBundle::new();
    bundle.add("a", "b", b"xyz");
    let mut bytes = bundle.to_bytes();
    bytes.pop();
    assert_eq!(AssetBundle::from_bytes(&bytes).err(), Some(BundleError::DataOutOfRange(0)));

    let mut bad_utf8: Vec<u8> = b"ABND".to_vec();
    bad_utf8.extend_from_slice(&1u32.to_le_bytes());
    bad_utf8.extend_from_slice(&1u32.to_le_bytes());
    bad_utf8.extend_from_slice(&1u16.to_le_bytes());
    bad_utf8.push(0xff);
    assert_eq!(AssetBundle::from_bytes(&bad_utf8).err(), Some(BundleError::InvalidTagUtf8(0)));
}

#[test]
fn bundle_get_returns_first_match() {
    let mut bundle = AssetBundle::new();
    bundle.add("same", "a", b"first");
    bundle.add("same", "b", b"second");
    assert_eq!(bundle.get("same").unwrap(), b"first");
    assert_eq!(lookup(&bundle.build_index(), "same"), 1);
    assert_eq!(bundle.build_index().len(), 1);
}
