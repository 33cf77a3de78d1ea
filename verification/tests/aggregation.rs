use ipcount::cidr::Cidr;
use ipcount::to_addrs::cidrs_to_addrs;
use ipcount::to_cidrs::{addrs_to_cidrs, range_to_cidrs};

fn addr(a: u8, b: u8, c: u8, d: u8) -> u32 {
    u32::from_be_bytes([a, b, c, d])
}

#[test]
fn test_to_grouped() {
    let groups = range_to_cidrs(addr(192, 168, 24, 90), addr(192, 168, 24, 99));
    assert_eq!(
        groups,
        vec![
            Cidr { start: addr(192, 168, 24, 90), mask: 31 },
            Cidr { start: addr(192, 168, 24, 92), mask: 30 },
            Cidr { start: addr(192, 168, 24, 96), mask: 30 },
        ]
    );
}

#[test]
fn test_expand_block() {
    let block = Cidr::new(addr(192, 168, 24, 92), 30);
    assert_eq!(
        block.expand(),
        vec![
            addr(192, 168, 24, 92),
            addr(192, 168, 24, 93),
            addr(192, 168, 24, 94),
            addr(192, 168, 24, 95),
        ]
    );
}

#[test]
fn test_expand_coverage() {
    let block = Cidr::new(addr(10, 1, 2, 16), 28);
    let addrs = block.expand();
    assert_eq!(addrs.len(), 16);
    for (k, &a) in addrs.iter().enumerate() {
        assert_eq!(a, addr(10, 1, 2, 16) + k as u32);
    }
}

#[test]
fn test_range_full_space() {
    let groups = range_to_cidrs(addr(0, 0, 0, 0), addr(255, 255, 255, 255));
    assert_eq!(groups, vec![Cidr { start: 0, mask: 0 }]);
}

#[test]
fn test_range_single_max_address() {
    let groups = range_to_cidrs(addr(255, 255, 255, 255), addr(255, 255, 255, 255));
    assert_eq!(groups, vec![Cidr { start: u32::MAX, mask: 32 }]);
}

#[test]
fn test_range_single_address() {
    let groups = range_to_cidrs(addr(10, 0, 0, 7), addr(10, 0, 0, 7));
    assert_eq!(groups, vec![Cidr { start: addr(10, 0, 0, 7), mask: 32 }]);
}

#[test]
fn test_range_round_trip() {
    let groups = range_to_cidrs(addr(192, 168, 24, 90), addr(192, 168, 24, 99));
    let flat = cidrs_to_addrs(&groups);
    let expected: Vec<u32> = (addr(192, 168, 24, 90)..=addr(192, 168, 24, 99)).collect();
    assert_eq!(flat, expected);
}

#[test]
fn test_addrs_empty() {
    assert_eq!(addrs_to_cidrs(&[]), vec![]);
}

#[test]
fn test_addrs_grouped_with_duplicates() {
    let addrs = [addr(10, 0, 0, 1), addr(10, 0, 0, 1), addr(10, 0, 0, 0), addr(10, 0, 0, 3)];
    assert_eq!(
        addrs_to_cidrs(&addrs),
        vec![
            Cidr { start: addr(10, 0, 0, 0), mask: 31 },
            Cidr { start: addr(10, 0, 0, 3), mask: 32 },
        ]
    );
}

#[test]
fn test_addrs_order_independent() {
    let one = [addr(10, 0, 0, 3), addr(10, 0, 0, 0), addr(10, 0, 0, 1)];
    let other = [
        addr(10, 0, 0, 0),
        addr(10, 0, 0, 1),
        addr(10, 0, 0, 3),
        addr(10, 0, 0, 1),
        addr(10, 0, 0, 3),
    ];
    assert_eq!(addrs_to_cidrs(&one), addrs_to_cidrs(&other));
}

#[test]
fn test_addrs_single() {
    let groups = addrs_to_cidrs(&[addr(172, 16, 0, 5)]);
    assert_eq!(groups, vec![Cidr { start: addr(172, 16, 0, 5), mask: 32 }]);
}

#[test]
fn test_addrs_top_of_space() {
    let addrs = [addr(255, 255, 255, 255), addr(255, 255, 255, 254)];
    assert_eq!(
        addrs_to_cidrs(&addrs),
        vec![Cidr { start: addr(255, 255, 255, 254), mask: 31 }]
    );
}

#[test]
fn test_set_round_trip() {
    let addrs = [
        addr(10, 0, 0, 9),
        addr(10, 0, 0, 4),
        addr(10, 0, 0, 5),
        addr(10, 0, 0, 4),
        addr(10, 0, 0, 6),
        addr(10, 0, 0, 7),
    ];
    let groups = addrs_to_cidrs(&addrs);
    let flat = cidrs_to_addrs(&groups);
    let mut expected: Vec<u32> = addrs.to_vec();
    expected.sort();
    expected.dedup();
    assert_eq!(flat, expected);
}

#[test]
fn test_cidrs_to_addrs_concatenates() {
    let blocks = [
        Cidr { start: addr(10, 0, 0, 0), mask: 31 },
        Cidr { start: addr(10, 0, 0, 3), mask: 32 },
    ];
    assert_eq!(
        cidrs_to_addrs(&blocks),
        vec![addr(10, 0, 0, 0), addr(10, 0, 0, 1), addr(10, 0, 0, 3)]
    );
}

#[test]
fn test_addrs_not_mergeable_neighbors() {
    // two consecutive addresses that straddle an alignment boundary must
    // stay two blocks rather than merge into one misaligned pair
    let addrs = [addr(10, 0, 0, 1), addr(10, 0, 0, 2)];
    assert_eq!(
        addrs_to_cidrs(&addrs),
        vec![
            Cidr { start: addr(10, 0, 0, 1), mask: 32 },
            Cidr { start: addr(10, 0, 0, 2), mask: 32 },
        ]
    );
}
