use lethal_potato::partition::partition;

fn ports(from: u16, to: u16) -> Vec<u16> {
    (from..=to).collect()
}

#[test]
fn hundred_ports_three_workers() {
    let all = ports(1, 100);
    let chunks = partition(&all, 3);
    // base chunk size 100 / 3 = 33, remainder 1 in one trailing chunk
    assert_eq!(chunks.len(), 4);
    assert_eq!(chunks[0].len(), 33);
    assert_eq!(chunks[1].len(), 33);
    assert_eq!(chunks[2].len(), 33);
    assert_eq!(chunks[3].len(), 1);
    // every port exactly once, in order
    let flat: Vec<u16> = chunks.into_iter().flatten().collect();
    assert_eq!(flat, all);
}

#[test]
fn even_split_has_no_extra_chunk() {
    let all = ports(1, 10);
    let chunks = partition(&all, 5);
    assert_eq!(chunks.len(), 5);
    for c in &chunks {
        assert_eq!(c.len(), 2);
    }
    let flat: Vec<u16> = chunks.into_iter().flatten().collect();
    assert_eq!(flat, all);
}

#[test]
fn big_remainder_gets_several_trailing_chunks() {
    // 11 ports over 4 workers: base size 2, remainder 3 -> two trailing chunks
    let all = ports(1, 11);
    let chunks = partition(&all, 4);
    assert_eq!(chunks.len(), 6);
    assert_eq!(chunks[0].len(), 2);
    assert_eq!(chunks[3].len(), 2);
    assert_eq!(chunks[4].len(), 2);
    assert_eq!(chunks[5].len(), 1);
    let flat: Vec<u16> = chunks.into_iter().flatten().collect();
    assert_eq!(flat, all);
}

#[test]
fn one_chunk_per_port_when_workers_equal_ports() {
    let all = ports(10, 14);
    let chunks = partition(&all, 5);
    assert_eq!(chunks.len(), 5);
    let flat: Vec<u16> = chunks.into_iter().flatten().collect();
    assert_eq!(flat, all);
}
