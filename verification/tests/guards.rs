//! Validation before allocation, and the counting reader.
use octasoma::error::ErrorKind;
use octasoma::fileguard::{
    guard_count, guard_decompressed, guard_generated_component, guard_no_trailing_bytes,
    guard_payload_bounds, read_counted, read_lp_bytes, read_lp_string, read_u32_le, read_u64_le,
    read_u64_lp_string, write_lp_bytes, write_u64_lp, CountingReader,
};

#[test]
fn guard_count_rejects_impossible_declarations_without_allocating() {
    // u64::MAX records can never fit in a 24-byte file, and the check itself must not
    // overflow.
    assert!(guard_count("nodes", u64::MAX as usize, 52, 24).is_err());
    assert!(guard_count("nodes", 1, 52, 24).is_err());
    assert!(guard_count("nodes", 1, 52, 52).is_ok());
    assert!(guard_count("nodes", 0, 52, 0).is_ok());
}

#[test]
fn guard_decompressed_bounds_the_lz4_expansion() {
    assert!(guard_decompressed("arena", 10, 10).is_ok());
    assert!(guard_decompressed("arena", 2560, 10).is_ok()); // exactly 256 times
    assert!(guard_decompressed("arena", 2561, 10).is_err());
    assert!(guard_decompressed("arena", u64::MAX, u64::MAX).is_ok()); // no overflow
}

#[test]
fn generated_component_guard_is_exact() {
    assert!(guard_generated_component("shard", "shard_00000000", "shard_00000000").is_ok());
    let absolute = std::path::Path::new("/").join("tmp").join("escape");
    for hostile in [
        "../escape",
        &absolute.to_string_lossy().into_owned(),
        "shard_00000000/child",
        "shard_00000001",
    ] {
        assert!(guard_generated_component("shard", hostile, "shard_00000000").is_err());
    }
}

#[test]
fn component_errors_quote_the_names() {
    let e = guard_generated_component("shard", "a\"b", "c").err().unwrap();
    assert_eq!(e.kind(), ErrorKind::InvalidData);
    assert!(e.message().contains("\"a\\\"b\""), "{}", e.message());
    assert!(e.message().contains("\"c\""));
}

#[test]
fn trailing_bytes_are_rejected() {
    assert!(guard_no_trailing_bytes("manifest", 0).is_ok());
    assert!(guard_no_trailing_bytes("manifest", 1).is_err());
}

#[test]
fn guard_payload_bounds_catches_out_of_arena_records() {
    assert!(guard_payload_bounds("item", 0, 10, 10).is_ok());
    assert!(guard_payload_bounds("item", 5, 6, 10).is_err());
    assert!(guard_payload_bounds("item", usize::MAX, 1, 10).is_err()); // overflow
}

#[test]
fn counting_reader_counts() {
    let data = [0u8; 10];
    let mut r = CountingReader::new(&data[..]);
    let buf = r.read_exact(6).unwrap();
    assert_eq!(buf.len(), 6);
    assert_eq!(r.consumed(), 6);
    assert_eq!(r.remaining(), 4);
}

#[test]
fn a_read_past_the_end_is_an_error() {
    let data = [1u8, 2];
    let mut r = CountingReader::new(&data[..]);
    assert_eq!(r.read_exact(3).err().unwrap().kind(), ErrorKind::UnexpectedEof);
    let e = read_u64_le("seed", &mut CountingReader::new(&data[..])).err().unwrap();
    assert_eq!(e.kind(), ErrorKind::InvalidData);
    assert!(e.message().starts_with("seed: "), "{}", e.message());
    let e = read_counted("magic", 4, &mut CountingReader::new(&data[..])).err().unwrap();
    assert_eq!(e.kind(), ErrorKind::InvalidData);
    assert!(e.message().starts_with("magic: "), "{}", e.message());
}

#[test]
fn what_is_written_is_read_back() {
    let mut out = Vec::new();
    write_lp_bytes(&mut out, b"abc");
    write_u64_lp(&mut out, "héé".as_bytes());
    out.extend_from_slice(&7u32.to_le_bytes());
    let mut r = CountingReader::new(&out);
    assert_eq!(read_lp_bytes("x", &mut r).unwrap(), b"abc");
    assert_eq!(read_u64_lp_string("y", &mut r).unwrap(), "héé");
    assert_eq!(read_u32_le("z", &mut r).unwrap(), 7);
    assert_eq!(r.remaining(), 0);
}

#[test]
fn text_that_is_no_utf8_is_refused() {
    let mut out = Vec::new();
    write_lp_bytes(&mut out, &[0xff, 0xfe]);
    let e = read_lp_string("name", &mut CountingReader::new(&out)).err().unwrap();
    assert_eq!(e.kind(), ErrorKind::InvalidData);
    assert!(e.message().contains("utf-8"), "{}", e.message());
}

#[test]
fn a_declared_length_beyond_the_input_is_refused() {
    let mut out = Vec::new();
    out.extend_from_slice(&u32::MAX.to_le_bytes());
    out.push(1);
    let e = read_lp_bytes("payload", &mut CountingReader::new(&out)).err().unwrap();
    assert_eq!(e.kind(), ErrorKind::InvalidData);
    assert!(e.message().contains("payload"));
}
