use rooch_store::keys::{decode_order_key, encode_order_key};

#[test]
fn order_key_is_big_endian() {
    assert_eq!(encode_order_key(0), [0u8; 8]);
    assert_eq!(encode_order_key(1), [0, 0, 0, 0, 0, 0, 0, 1]);
    assert_eq!(encode_order_key(0x0102_0304_0506_0708), [1, 2, 3, 4, 5, 6, 7, 8]);
    assert_eq!(encode_order_key(256), [0, 0, 0, 0, 0, 0, 1, 0]);
    assert_eq!(encode_order_key(u64::MAX), [255u8; 8]);
    for order in [0u64, 7, 255, 256, 65_535, 1 << 40, u64::MAX - 1, u64::MAX] {
        assert_eq!(encode_order_key(order), order.to_be_bytes());
    }
}

#[test]
fn order_key_round_trip() {
    for order in [0u64, 1, 2, 255, 256, 257, 1 << 32, (1 << 56) - 1, 1 << 56, u64::MAX] {
        assert_eq!(decode_order_key(&encode_order_key(order)), Some(order));
    }
    assert_eq!(decode_order_key(&[1, 2, 3, 4, 5, 6, 7, 8]), Some(0x0102_0304_0506_0708));
    assert_eq!(decode_order_key(&[255u8; 8]), Some(u64::MAX));
}

#[test]
fn order_key_has_eight_bytes() {
    assert_eq!(decode_order_key(&[]), None);
    assert_eq!(decode_order_key(&[0u8; 7]), None);
    assert_eq!(decode_order_key(&[0u8; 9]), None);
    assert_eq!(decode_order_key(&[0u8; 32]), None);
}

#[test]
fn order_keys_sort_as_orders() {
    let orders = [0u64, 1, 2, 255, 256, 257, 65_536, 1 << 33, u64::MAX - 1, u64::MAX];
    for a in orders {
        for b in orders {
            assert_eq!(a < b, encode_order_key(a) < encode_order_key(b));
            assert_eq!(a == b, encode_order_key(a) == encode_order_key(b));
        }
    }
}
