use order_book::wire::{encode_frame, u32_from_be_bytes, u32_to_be_bytes};

#[test]
fn test_be_bytes_exact() {
    assert_eq!(u32_to_be_bytes(0), vec![0, 0, 0, 0]);
    assert_eq!(u32_to_be_bytes(1), vec![0, 0, 0, 1]);
    assert_eq!(u32_to_be_bytes(0x0102_0304), vec![1, 2, 3, 4]);
    assert_eq!(u32_to_be_bytes(u32::MAX), vec![255, 255, 255, 255]);
}

#[test]
fn test_be_round_trip() {
    for n in [0u32, 1, 2, 255, 256, 65535, 65536, 0xdead_beef, u32::MAX] {
        let b = u32_to_be_bytes(n);
        assert_eq!(u32_from_be_bytes(b[0], b[1], b[2], b[3]), n);
    }
}

#[test]
fn test_encode_frame() {
    let payload = vec![1u8, 2, 3];
    let frame = encode_frame(&payload);
    assert_eq!(frame, vec![0, 0, 0, 3, 1, 2, 3]);

    let empty: Vec<u8> = Vec::new();
    assert_eq!(encode_frame(&empty), vec![0, 0, 0, 0]);
}
