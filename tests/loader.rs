use std::collections::HashMap;

use serial_loader::loader::{LoadError, Loader, Request};

/// Bitwise CRC-32, kept apart from the library on purpose.
fn reference_crc(data: &[u8]) -> u32 {
    let mut c: u32 = 0xffff_ffff;
    for &b in data {
        c ^= b as u32;
        for _ in 0..8 {
            c = if c & 1 == 1 { (c >> 1) ^ 0xedb8_8320 } else { c >> 1 };
        }
    }
    !c
}

fn header(start: u32, segs: &[(u32, u32)], data_checksum: u32) -> Vec<u8> {
    let mut h = Vec::new();
    h.extend_from_slice(&start.to_le_bytes());
    h.extend_from_slice(&(segs.len() as u32).to_le_bytes());
    for &(addr, size) in segs {
        h.extend_from_slice(&addr.to_le_bytes());
        h.extend_from_slice(&size.to_le_bytes());
    }
    h.extend_from_slice(&data_checksum.to_le_bytes());
    let crc = reference_crc(&h);
    h.extend_from_slice(&crc.to_le_bytes());
    h
}

/// A well-formed image: header, then each segment's bytes in order.
fn image(start: u32, segs: &[(u32, Vec<u8>)]) -> Vec<u8> {
    let payload: Vec<u8> = segs.iter().flat_map(|(_, d)| d.iter().copied()).collect();
    let table: Vec<(u32, u32)> = segs.iter().map(|(a, d)| (*a, d.len() as u32)).collect();
    let mut out = header(start, &table, reference_crc(&payload));
    out.extend_from_slice(&payload);
    out
}

struct Run {
    outcome: Request,
    consumed: usize,
    stores: Vec<u64>,
}

/// Drives a loader over `link`, with `memory` standing for physical memory.
fn run(link: &[u8], memory: &mut HashMap<u64, u8>) -> Run {
    let mut loader = Loader::new();
    let mut consumed = 0;
    let mut stores = Vec::new();
    loop {
        match loader.request() {
            Request::HeaderByte => {
                let b = link[consumed];
                consumed += 1;
                loader.advance(b);
            }
            Request::CopyByte { addr } => {
                let b = link[consumed];
                consumed += 1;
                memory.insert(addr, b);
                stores.push(addr);
                loader.advance(b);
            }
            Request::CheckByte { addr } => {
                let b = *memory.get(&addr).unwrap_or(&0);
                loader.advance(b);
            }
            outcome => return Run { outcome, consumed, stores },
        }
    }
}

#[test]
fn image_is_copied_and_start_returned() {
    let segs = vec![(0x1000, vec![1, 2, 3]), (0x2000, vec![9, 8])];
    let link = image(0x1000_0000, &segs);
    let mut mem = HashMap::new();
    let r = run(&link, &mut mem);
    assert_eq!(r.outcome, Request::Done { start: 0x1000_0000 });
    assert_eq!(r.consumed, link.len());
    assert_eq!(r.stores, vec![0x1000, 0x1001, 0x1002, 0x2000, 0x2001]);
    assert_eq!(mem[&0x1000], 1);
    assert_eq!(mem[&0x1002], 3);
    assert_eq!(mem[&0x2000], 9);
    assert_eq!(mem[&0x2001], 8);
}

#[test]
fn sixteen_segments_are_accepted() {
    let segs: Vec<(u32, Vec<u8>)> = (0..16u32).map(|k| (0x8000 + 0x100 * k, vec![k as u8; 3])).collect();
    let link = image(0x8000, &segs);
    let mut mem = HashMap::new();
    let r = run(&link, &mut mem);
    assert_eq!(r.outcome, Request::Done { start: 0x8000 });
    assert_eq!(mem[&(0x8000 + 0x100 * 15 + 2)], 15);
}

#[test]
fn empty_segments_are_skipped() {
    let segs = vec![(0x10, vec![]), (0x20, vec![5]), (0x30, vec![]), (0x40, vec![6, 7])];
    let link = image(0x20, &segs);
    let mut mem = HashMap::new();
    let r = run(&link, &mut mem);
    assert_eq!(r.outcome, Request::Done { start: 0x20 });
    assert_eq!(r.stores, vec![0x20, 0x40, 0x41]);
}

#[test]
fn no_segments_completes_after_header() {
    let link = header(0xdead_beef, &[], 0);
    assert_eq!(link.len(), 16);
    let mut mem = HashMap::new();
    let r = run(&link, &mut mem);
    assert_eq!(r.outcome, Request::Done { start: 0xdead_beef });
    assert_eq!(r.consumed, 16);
    assert!(r.stores.is_empty());
}

#[test]
fn seventeen_segments_abort_after_the_count() {
    let table: Vec<(u32, u32)> = (0..17).map(|k| (0x1000 * k, 1)).collect();
    let mut link = header(0, &table, 0);
    link.extend_from_slice(&[0; 17]);
    let mut mem = HashMap::new();
    let r = run(&link, &mut mem);
    assert_eq!(r.outcome, Request::Fatal(LoadError::TooManySegments { count: 17 }));
    assert_eq!(r.consumed, 8);
    assert!(r.stores.is_empty());
}

#[test]
fn wrong_header_checksum_aborts_before_payload() {
    let mut link = image(0x4000, &[(0x4000, vec![1, 2, 3, 4])]);
    let hlen = 16 + 8;
    let good = u32::from_le_bytes([link[hlen - 4], link[hlen - 3], link[hlen - 2], link[hlen - 1]]);
    link[hlen - 4] ^= 0x01;
    let mut mem = HashMap::new();
    let r = run(&link, &mut mem);
    assert_eq!(
        r.outcome,
        Request::Fatal(LoadError::HeaderChecksum { expected: good ^ 0x01, computed: good })
    );
    assert_eq!(r.consumed, hlen);
    assert!(r.stores.is_empty());
    assert!(mem.is_empty());
}

#[test]
fn corrupted_payload_aborts_after_copy() {
    let payload = vec![0x10, 0x20, 0x30];
    let mut link = image(0x9000, &[(0x9000, payload.clone())]);
    let last = link.len() - 1;
    link[last] ^= 0x04;
    let mut mem = HashMap::new();
    let r = run(&link, &mut mem);
    let corrupted = vec![0x10, 0x20, 0x34];
    assert_eq!(
        r.outcome,
        Request::Fatal(LoadError::DataChecksum {
            expected: reference_crc(&payload),
            computed: reference_crc(&corrupted),
        })
    );
    assert_eq!(r.consumed, link.len());
    assert_eq!(mem[&0x9000], 0x10);
    assert_eq!(mem[&0x9002], 0x34);
}

#[test]
fn data_checksum_covers_memory_as_it_sits() {
    // The second segment overwrites the first one's last byte.
    let table = [(0x100u32, 2u32), (0x101u32, 2u32)];
    let wrong = [0xaa, 0xbb, 0xcc, 0xdd];
    let mut link = header(0x100, &table, reference_crc(&wrong));
    link.extend_from_slice(&[0xaa, 0xbb, 0xcc, 0xdd]);
    let mut mem = HashMap::new();
    let r = run(&link, &mut mem);
    assert_eq!(r.outcome, Request::Fatal(LoadError::DataChecksum {
        expected: reference_crc(&wrong),
        computed: reference_crc(&[0xaa, 0xcc, 0xcc, 0xdd]),
    }));
    let mut link = header(0x100, &table, reference_crc(&[0xaa, 0xcc, 0xcc, 0xdd]));
    link.extend_from_slice(&[0xaa, 0xbb, 0xcc, 0xdd]);
    let mut mem = HashMap::new();
    let r = run(&link, &mut mem);
    assert_eq!(r.outcome, Request::Done { start: 0x100 });
}

#[test]
fn loader_asks_for_header_bytes_first() {
    let mut loader = Loader::new();
    for b in [0u8, 0, 0, 0, 1, 0, 0] {
        assert_eq!(loader.request(), Request::HeaderByte);
        loader.advance(b);
    }
    assert_eq!(loader.request(), Request::HeaderByte);
}

#[test]
fn declared_segments_are_reported_once_header_is_accepted() {
    let segs = vec![(0x1000, vec![1, 2]), (0x3000, vec![3])];
    let link = image(0x1000, &segs);
    let mut loader = Loader::new();
    for &b in &link[..32] {
        assert_eq!(loader.request(), Request::HeaderByte);
        loader.advance(b);
    }
    assert_eq!(loader.request(), Request::CopyByte { addr: 0x1000 });
    assert_eq!(loader.start_address(), 0x1000);
    assert_eq!(loader.segment_count(), 2);
    assert_eq!(loader.segment(1).map(|s| (s.addr, s.size)), Some((0x3000, 1)));
    assert!(loader.segment(2).is_none());
}
