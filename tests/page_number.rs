use redb::PageNumber;

#[test]
fn round_trip_extremes() {
    for (index, order) in [(0u64, 0u8), (1, 0), (0xFFFF_FFFF_FFFF, 255), (12345, 3), (1 << 40, 128)] {
        let p = PageNumber::new(index, order);
        let q = PageNumber::from_be_bytes(p.to_be_bytes());
        assert_eq!(p, q);
        assert_eq!(q.page_index, index);
        assert_eq!(q.page_order, order);
    }
}

#[test]
fn to_be_bytes_layout() {
    let p = PageNumber::new(1, 2);
    assert_eq!(p.to_be_bytes(), [0, 2, 0, 0, 0, 0, 0, 1]);
    let p = PageNumber::new(0x0102_0304_0506, 0xFF);
    assert_eq!(p.to_be_bytes(), [0x00, 0xFF, 0x01, 0x02, 0x03, 0x04, 0x05, 0x06]);
}

#[test]
fn from_be_bytes_splits_order_and_index() {
    let p = PageNumber::from_be_bytes([0, 7, 0, 0, 0, 1, 0, 2]);
    assert_eq!(p.page_order, 7);
    assert_eq!(p.page_index, 0x1_0002);
    // The top byte lies outside both fields
    let q = PageNumber::from_be_bytes([9, 7, 0, 0, 0, 1, 0, 2]);
    assert_eq!(q.page_order, 7);
    assert_eq!(q.page_index, 0x1_0002);
}

#[test]
fn null_page_number() {
    let p = PageNumber::null();
    assert_eq!(p.page_index, 0);
    assert_eq!(p.page_order, 0);
    assert_eq!(p.to_be_bytes(), [0u8; 8]);
}

#[test]
fn address_range_and_size() {
    let p = PageNumber::new(3, 0);
    assert_eq!(p.address_range(4096), 12288..16384);
    assert_eq!(p.page_size_bytes(4096), 4096);
    let q = PageNumber::new(3, 1);
    assert_eq!(q.address_range(4096), 24576..32768);
    assert_eq!(q.page_size_bytes(4096), 8192);
}
