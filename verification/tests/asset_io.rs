use arachne::asset::io::{AssetIo, MemoryIo, WasmIo};

#[test]
fn memory_io_read_existing() {
    let io = MemoryIo::new().with("hello.txt", b"Hello, World!".to_vec());
    let data = io.read("hello.txt").unwrap();
    assert_eq!(data, b"Hello, World!");
}

#[test]
fn memory_io_read_missing() {
    let io = MemoryIo::new();
    assert!(io.read("missing.txt").is_err());
}

#[test]
fn memory_io_missing_message_and_replace() {
    let mut io = MemoryIo::default();
    io.add("a", vec![1]);
    io.add("b", vec![2]);
    io.add("a", vec![3, 4]);
    assert_eq!(io.read("a").unwrap(), vec![3, 4]);
    assert_eq!(io.read("b").unwrap(), vec![2]);
    assert_eq!(io.read("c").unwrap_err().0, "file not found: c");
}

#[test]
fn wasm_io_always_fails() {
    let io = WasmIo::new("https://example.org/");
    let err = io.read("x.png").unwrap_err();
    assert_eq!(
        err.0,
        "WasmIo::read is not available as synchronous; use async load path for https://example.org/x.png"
    );
}
