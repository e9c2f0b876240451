use cryptography_x509::types::{IPAddress, IPRange};

#[test]
fn test_iprange_from_bytes() {
    // 192.168.1.1/16
    let ipv4_with_extra = b"\xc0\xa8\x01\x01\xff\xff\x00\x00";
    assert_ne!(IPRange::from_bytes(ipv4_with_extra), None);

    // 192.168.0.0/16
    let ipv4_masked = b"\xc0\xa8\x00\x00\xff\xff\x00\x00";
    assert_eq!(
        IPRange::from_bytes(ipv4_with_extra),
        IPRange::from_bytes(ipv4_masked)
    );
}

#[test]
fn test_iprange_matches() {
    // 192.168.1.1/16
    let data_ipv4 = b"\xc0\xa8\x01\x01\xff\xff\x00\x00";
    let range = IPRange::from_bytes(data_ipv4).unwrap();

    // 192.168.0.50
    assert!(range.matches(&IPAddress::from_bytes(&[192, 168, 0, 50]).unwrap()));
}

#[test]
fn test_iprange_bad_masks() {
    // 192.168.1.1, mask 255.254.255.0
    let bad_mask_one_bit = b"\xc0\xa8\x01\x01\xff\xfe\xff\x00";
    // 192.168.1.1, mask 255.252.255.0
    let bad_mask_many_bits = b"\xc0\xa8\x01\x01\xff\xfc\xff\x00";
    // 192.168.1.1, mask 0.255.255.0
    let bad_mask_octet = b"\xc0\xa8\x01\x01\x00\xff\xff\xff";

    assert_eq!(IPRange::from_bytes(bad_mask_one_bit), None);
    assert_eq!(IPRange::from_bytes(bad_mask_many_bits), None);
    assert_eq!(IPRange::from_bytes(bad_mask_octet), None);
}

fn v4(a: u8, b: u8, c: u8, d: u8) -> IPAddress {
    IPAddress::from_bytes(&[a, b, c, d]).unwrap()
}

fn v6(octets: [u8; 16]) -> IPAddress {
    IPAddress::from_bytes(&octets).unwrap()
}

#[test]
fn ipaddress_from_bytes_takes_four_or_sixteen_octets() {
    assert_eq!(IPAddress::from_bytes(&[]), None);
    assert_eq!(IPAddress::from_bytes(&[1, 2, 3]), None);
    assert_eq!(IPAddress::from_bytes(&[1, 2, 3, 4, 5]), None);
    assert_eq!(IPAddress::from_bytes(&[0; 15]), None);
    assert_eq!(IPAddress::from_bytes(&[0; 17]), None);
    assert_eq!(IPAddress::from_bytes(&[0; 32]), None);

    match IPAddress::from_bytes(&[192, 168, 1, 1]).unwrap() {
        IPAddress::V4(octets) => assert_eq!(octets, [192, 168, 1, 1]),
        IPAddress::V6(_) => panic!("four octets were read as an IPv6 address"),
    }
    let sixteen: [u8; 16] = [0x20, 0x01, 0x0d, 0xb8, 0, 0, 0, 0, 0, 0, 0, 0, 0, 0, 0, 1];
    match IPAddress::from_bytes(&sixteen).unwrap() {
        IPAddress::V6(octets) => assert_eq!(octets, sixteen),
        IPAddress::V4(_) => panic!("sixteen octets were read as an IPv4 address"),
    }
}

#[test]
fn ipaddress_families_are_never_equal() {
    assert_ne!(v4(0, 0, 0, 0), v6([0; 16]));
    assert_eq!(v4(10, 0, 0, 1), v4(10, 0, 0, 1));
    assert_ne!(v4(10, 0, 0, 1), v4(10, 0, 0, 2));
    let mut other = [0u8; 16];
    other[15] = 1;
    assert_ne!(v6([0; 16]), v6(other));
    assert_eq!(v6(other), v6(other));
}

#[test]
fn ipaddress_as_prefix_counts_leading_ones() {
    assert_eq!(v4(0, 0, 0, 0).as_prefix(), Some(0));
    assert_eq!(v4(128, 0, 0, 0).as_prefix(), Some(1));
    assert_eq!(v4(255, 0, 0, 0).as_prefix(), Some(8));
    assert_eq!(v4(255, 128, 0, 0).as_prefix(), Some(9));
    assert_eq!(v4(255, 255, 0, 0).as_prefix(), Some(16));
    assert_eq!(v4(255, 255, 240, 0).as_prefix(), Some(20));
    assert_eq!(v4(255, 255, 255, 0).as_prefix(), Some(24));
    assert_eq!(v4(255, 255, 255, 252).as_prefix(), Some(30));
    assert_eq!(v4(255, 255, 255, 254).as_prefix(), Some(31));
    assert_eq!(v4(255, 255, 255, 255).as_prefix(), Some(32));

    assert_eq!(v6([0; 16]).as_prefix(), Some(0));
    assert_eq!(v6([0xff; 16]).as_prefix(), Some(128));
    let mut sixty_four = [0u8; 16];
    for octet in sixty_four.iter_mut().take(8) {
        *octet = 0xff;
    }
    assert_eq!(v6(sixty_four).as_prefix(), Some(64));
    sixty_four[8] = 0xe0;
    assert_eq!(v6(sixty_four).as_prefix(), Some(67));
}

#[test]
fn ipaddress_as_prefix_rejects_other_bit_patterns() {
    assert_eq!(v4(255, 254, 255, 0).as_prefix(), None);
    assert_eq!(v4(255, 252, 255, 0).as_prefix(), None);
    assert_eq!(v4(0, 255, 255, 0).as_prefix(), None);
    assert_eq!(v4(0, 0, 0, 1).as_prefix(), None);
    assert_eq!(v4(255, 255, 255, 253).as_prefix(), None);
    assert_eq!(v4(127, 0, 0, 0).as_prefix(), None);
    assert_eq!(v4(255, 160, 0, 0).as_prefix(), None);
    assert_eq!(v4(192, 168, 1, 1).as_prefix(), None);
    let mut hole = [0xffu8; 16];
    hole[7] = 0xfe;
    assert_eq!(v6(hole).as_prefix(), None);
    let mut late = [0u8; 16];
    late[15] = 0x80;
    assert_eq!(v6(late).as_prefix(), None);
}

#[test]
fn ipaddress_mask_keeps_the_leading_bits() {
    let addr = v4(192, 168, 1, 1);
    assert_eq!(addr.mask(0), v4(0, 0, 0, 0));
    assert_eq!(addr.mask(1), v4(128, 0, 0, 0));
    assert_eq!(addr.mask(2), v4(192, 0, 0, 0));
    assert_eq!(addr.mask(8), v4(192, 0, 0, 0));
    assert_eq!(addr.mask(12), v4(192, 160, 0, 0));
    assert_eq!(addr.mask(16), v4(192, 168, 0, 0));
    assert_eq!(addr.mask(24), v4(192, 168, 1, 0));
    assert_eq!(addr.mask(31), v4(192, 168, 1, 0));
    assert_eq!(addr.mask(32), v4(192, 168, 1, 1));
    // A prefix longer than the address leaves it unchanged.
    assert_eq!(addr.mask(33), v4(192, 168, 1, 1));
    assert_eq!(addr.mask(255), v4(192, 168, 1, 1));

    assert_eq!(v4(255, 255, 255, 255).mask(4), v4(240, 0, 0, 0));
    assert_eq!(v4(255, 255, 255, 255).mask(27), v4(255, 255, 255, 224));
}

#[test]
fn ipaddress_mask_of_an_ipv6_address() {
    let addr = v6([0xff; 16]);
    assert_eq!(addr.mask(0), v6([0; 16]));
    assert_eq!(addr.mask(128), v6([0xff; 16]));
    assert_eq!(addr.mask(200), v6([0xff; 16]));
    let mut want = [0u8; 16];
    want[0] = 0xff;
    want[1] = 0xf0;
    assert_eq!(addr.mask(12), v6(want));
    let mut want = [0xffu8; 16];
    want[15] = 0xfe;
    assert_eq!(addr.mask(127), v6(want));
    let mut want = [0u8; 16];
    for octet in want.iter_mut().take(8) {
        *octet = 0xff;
    }
    want[8] = 0x80;
    assert_eq!(addr.mask(65), v6(want));
}

#[test]
fn ipaddress_mask_is_idempotent() {
    let addr = v4(203, 0, 113, 77);
    for prefix in 0..=40u8 {
        let once = addr.mask(prefix);
        assert_eq!(once.mask(prefix), once);
    }
}

#[test]
fn iprange_from_bytes_takes_eight_or_thirty_two_octets() {
    assert_eq!(IPRange::from_bytes(&[]), None);
    assert_eq!(IPRange::from_bytes(&[192, 168, 0, 0]), None);
    assert_eq!(IPRange::from_bytes(&[192, 168, 0, 0, 255, 255, 0]), None);
    assert_eq!(IPRange::from_bytes(&[192, 168, 0, 0, 255, 255, 0, 0, 0]), None);
    assert_eq!(IPRange::from_bytes(&[0; 16]), None);
    assert_eq!(IPRange::from_bytes(&[0; 31]), None);
    assert_eq!(IPRange::from_bytes(&[0; 33]), None);
    assert!(IPRange::from_bytes(&[0; 8]).is_some());
    assert!(IPRange::from_bytes(&[0; 32]).is_some());
}

#[test]
fn iprange_tells_prefix_lengths_apart() {
    let slash_16 = IPRange::from_bytes(&[10, 0, 0, 0, 255, 255, 0, 0]).unwrap();
    let slash_8 = IPRange::from_bytes(&[10, 0, 0, 0, 255, 0, 0, 0]).unwrap();
    assert_ne!(slash_16, slash_8);
    let other = IPRange::from_bytes(&[10, 1, 0, 0, 255, 255, 0, 0]).unwrap();
    assert_ne!(slash_16, other);
    // Under the shorter prefix the second octet is dropped.
    assert_eq!(
        IPRange::from_bytes(&[10, 1, 0, 0, 255, 0, 0, 0]).unwrap(),
        slash_8
    );
}

#[test]
fn iprange_contains_its_block_only() {
    // 192.168.0.0/16
    let range = IPRange::from_bytes(b"\xc0\xa8\x00\x00\xff\xff\x00\x00").unwrap();
    assert!(range.matches(&v4(192, 168, 0, 50)));
    assert!(range.matches(&v4(192, 168, 0, 0)));
    assert!(range.matches(&v4(192, 168, 255, 255)));
    assert!(!range.matches(&v4(192, 169, 0, 50)));
    assert!(!range.matches(&v4(192, 167, 255, 255)));
    assert!(!range.matches(&v4(193, 168, 0, 50)));
    assert!(!range.matches(&v4(10, 0, 0, 1)));
    // An address of the other family is never in the range.
    let mut mapped = [0u8; 16];
    mapped[0] = 192;
    mapped[1] = 168;
    assert!(!range.matches(&v6(mapped)));
}

#[test]
fn iprange_with_a_short_prefix() {
    // 10.0.0.0/8: the block is told by the first octet alone.
    let range = IPRange::from_bytes(&[10, 0, 0, 0, 255, 0, 0, 0]).unwrap();
    assert!(range.matches(&v4(10, 200, 3, 4)));
    assert!(!range.matches(&v4(11, 0, 0, 0)));

    // 172.16.0.0/12
    let range = IPRange::from_bytes(&[172, 16, 0, 0, 255, 240, 0, 0]).unwrap();
    assert!(range.matches(&v4(172, 31, 255, 255)));
    assert!(!range.matches(&v4(172, 32, 0, 0)));
    assert!(!range.matches(&v4(172, 15, 255, 255)));
}

#[test]
fn iprange_of_all_addresses_and_of_one_address() {
    let all = IPRange::from_bytes(&[1, 2, 3, 4, 0, 0, 0, 0]).unwrap();
    assert!(all.matches(&v4(0, 0, 0, 0)));
    assert!(all.matches(&v4(255, 255, 255, 255)));
    assert_eq!(all, IPRange::from_bytes(&[0; 8]).unwrap());

    let one = IPRange::from_bytes(&[1, 2, 3, 4, 255, 255, 255, 255]).unwrap();
    assert!(one.matches(&v4(1, 2, 3, 4)));
    assert!(!one.matches(&v4(1, 2, 3, 5)));
}

#[test]
fn iprange_of_ipv6_addresses() {
    // 2001:db8::/32, given with bits set after the prefix.
    let mut data = [0u8; 32];
    data[..4].copy_from_slice(&[0x20, 0x01, 0x0d, 0xb8]);
    data[15] = 0x01;
    data[16..20].copy_from_slice(&[0xff; 4]);
    let range = IPRange::from_bytes(&data).unwrap();

    let mut clean = [0u8; 32];
    clean[..4].copy_from_slice(&[0x20, 0x01, 0x0d, 0xb8]);
    clean[16..20].copy_from_slice(&[0xff; 4]);
    assert_eq!(range, IPRange::from_bytes(&clean).unwrap());

    let mut inside = [0u8; 16];
    inside[..4].copy_from_slice(&[0x20, 0x01, 0x0d, 0xb8]);
    inside[9] = 0x42;
    assert!(range.matches(&v6(inside)));
    let mut outside = inside;
    outside[3] = 0xb9;
    assert!(!range.matches(&v6(outside)));
    assert!(!range.matches(&v4(0x20, 0x01, 0x0d, 0xb8)));

    let mut bad = clean;
    bad[21] = 0x01;
    assert_eq!(IPRange::from_bytes(&bad), None);
}
