use clouddrive::byte::ByteGranularityProvider;
use clouddrive::counting::CountingProvider;
use clouddrive::lru::LRUProvider;
use clouddrive::memory::MemoryProvider;
use clouddrive::provider::{CloudProvider, IoError};
use clouddrive::bound_and_align_check;

const BS: usize = 4096;

#[test]
fn s1_in_memory_round_trip() {
    let mut p = MemoryProvider::new(16384);
    assert_eq!(p.total_size(), 16384);
    assert_eq!(p.block_size(), BS);
    let data = vec![0xABu8; BS];
    assert_eq!(p.write(8192, &data, false), Ok(()));
    let mut buf = vec![0u8; BS];
    assert_eq!(p.read(8192, &mut buf), Ok(()));
    assert_eq!(buf, data);
    let mut front = vec![0xFFu8; BS];
    assert_eq!(p.read(0, &mut front), Ok(()));
    assert_eq!(front, vec![0u8; BS]);
}

#[test]
fn memory_zero_initialized() {
    let mut p = MemoryProvider::new(16384);
    let mut buf = vec![0x55u8; 16384];
    assert_eq!(p.read(0, &mut buf), Ok(()));
    assert!(buf.iter().all(|b| *b == 0));
}

#[test]
fn round_trip_through_lru() {
    let mem = MemoryProvider::new(16384);
    let mut p = LRUProvider::new(mem, 2);
    let data: Vec<u8> = (0..BS).map(|i| (i % 251) as u8).collect();
    assert_eq!(p.write(4096, &data, false), Ok(()));
    let mut buf = vec![0u8; BS];
    assert_eq!(p.read(4096, &mut buf), Ok(()));
    assert_eq!(buf, data);
}

#[test]
fn round_trip_through_byte_adapter_unaligned() {
    let mem = MemoryProvider::new(16384);
    let lru = LRUProvider::new(mem, 2);
    let mut p = ByteGranularityProvider::new(lru);
    assert_eq!(p.block_size(), 1);
    assert_eq!(p.total_size(), 16384);
    let data = vec![9u8, 8, 7, 6, 5, 4, 3];
    assert_eq!(p.write(4093, &data, false), Ok(()));
    let mut buf = vec![0u8; 7];
    assert_eq!(p.read(4093, &mut buf), Ok(()));
    assert_eq!(buf, data);
}

#[test]
fn s2_lru_write_back_counts() {
    let lower = CountingProvider::new(MemoryProvider::new(16384));
    let mut p = LRUProvider::new(lower, 2);
    let a = vec![1u8; BS];
    let b = vec![2u8; BS];
    let c = vec![3u8; BS];
    assert_eq!(p.write(0, &a, false), Ok(()));
    assert_eq!(p.write(4096, &b, false), Ok(()));
    assert_eq!(p.write(8192, &c, false), Ok(()));
    // block 0 was evicted dirty: exactly one write reached the lower provider
    assert_eq!(p.lower().write_count(), 1);
    assert_eq!(p.flush(), Ok(()));
    // the two remaining dirty blocks were written through
    assert_eq!(p.lower().write_count(), 3);
}

#[test]
fn flush_twice_performs_no_lower_writes() {
    let lower = CountingProvider::new(MemoryProvider::new(16384));
    let mut p = LRUProvider::new(lower, 2);
    let a = vec![7u8; BS];
    assert_eq!(p.write(0, &a, false), Ok(()));
    assert_eq!(p.flush(), Ok(()));
    let after_first = p.lower().write_count();
    assert_eq!(p.flush(), Ok(()));
    assert_eq!(p.lower().write_count(), after_first);
}

#[test]
fn s3_byte_adapter_partial_write() {
    let lower = MemoryProvider::with_block_size(16, 4);
    let mut p = ByteGranularityProvider::new(lower);
    let data = vec![0x11u8, 0x22, 0x33];
    assert_eq!(p.write(2, &data, false), Ok(()));
    let mut buf = vec![0u8; 16];
    assert_eq!(p.read(0, &mut buf), Ok(()));
    let expected = vec![
        0x00u8, 0x00, 0x11, 0x22, 0x33, 0x00, 0x00, 0x00, 0x00, 0x00, 0x00, 0x00, 0x00, 0x00,
        0x00, 0x00,
    ];
    assert_eq!(buf, expected);
}

#[test]
fn p5_eviction_correctness() {
    let lower = CountingProvider::new(MemoryProvider::new(16384));
    let mut p = LRUProvider::new(lower, 2);
    let a = vec![0xA1u8; BS];
    let b = vec![0xB2u8; BS];
    let c = vec![0xC3u8; BS];
    assert_eq!(p.write(0, &a, false), Ok(()));
    assert_eq!(p.write(4096, &b, false), Ok(()));
    assert_eq!(p.write(8192, &c, false), Ok(()));
    assert_eq!(p.lower().write_count(), 1);
    let mut buf = vec![0u8; BS];
    assert_eq!(p.read(0, &mut buf), Ok(()));
    assert_eq!(buf, a);
}

#[test]
fn p7_rejects_misaligned_and_out_of_bounds() {
    let lower = CountingProvider::new(MemoryProvider::new(16384));
    let mut p = LRUProvider::new(lower, 2);
    let data = vec![1u8; BS];
    // misaligned offset
    assert_eq!(p.write(5, &data, false), Err(IoError::InvalidInput));
    // length not a multiple of the block size
    let short = vec![1u8; 100];
    assert_eq!(p.write(0, &short, false), Err(IoError::InvalidInput));
    let mut small = vec![0u8; 100];
    assert_eq!(p.read(0, &mut small), Err(IoError::InvalidInput));
    // past the end of the device
    assert_eq!(p.write(16384, &data, false), Err(IoError::InvalidInput));
    let two = vec![1u8; 2 * BS];
    assert_eq!(p.write(12288, &two, false), Err(IoError::InvalidInput));
    // no rejected request reached the lower provider
    assert_eq!(p.lower().write_count(), 0);
    assert_eq!(p.lower().read_count(), 0);
}

#[test]
fn bound_and_align_check_cases() {
    assert!(bound_and_align_check(4096, 16384, 0, 4096));
    assert!(bound_and_align_check(4096, 16384, 12288, 4096));
    assert!(!bound_and_align_check(4096, 16384, 100, 4096));
    assert!(!bound_and_align_check(4096, 16384, 0, 100));
    assert!(!bound_and_align_check(4096, 16384, 12288, 8192));
    assert!(!bound_and_align_check(4096, 16384, 16384, 0));
    assert!(bound_and_align_check(4096, 16384, 0, 0));
}

#[test]
fn write_through_reaches_lower_immediately() {
    let lower = CountingProvider::new(MemoryProvider::new(16384));
    let mut p = LRUProvider::new(lower, 2);
    let a = vec![4u8; BS];
    assert_eq!(p.write(0, &a, true), Ok(()));
    assert_eq!(p.lower().write_count(), 1);
    // and the entry is clean: flushing writes nothing more
    assert_eq!(p.flush(), Ok(()));
    assert_eq!(p.lower().write_count(), 1);
}

#[test]
fn p4_cache_transparency() {
    let mut plain = MemoryProvider::new(16384);
    let mut cached = LRUProvider::new(MemoryProvider::new(16384), 2);
    let a = vec![0x10u8; BS];
    let b = vec![0x20u8; BS];
    let c = vec![0x30u8; BS];
    assert_eq!(plain.write(0, &a, false), cached.write(0, &a, false));
    assert_eq!(plain.write(4096, &b, false), cached.write(4096, &b, false));
    assert_eq!(plain.write(8192, &c, true), cached.write(8192, &c, true));
    assert_eq!(plain.write(0, &c, false), cached.write(0, &c, false));
    for offset in [0usize, 4096, 8192, 12288] {
        let mut x = vec![0u8; BS];
        let mut y = vec![0u8; BS];
        assert_eq!(plain.read(offset, &mut x), cached.read(offset, &mut y));
        assert_eq!(x, y);
    }
}

#[test]
fn block_range_decomposition() {
    let slices = clouddrive::provider::block_range(4, 2, 7);
    assert_eq!(slices.len(), 3);
    assert_eq!(slices[0].block, 0);
    assert_eq!((slices[0].block_lo, slices[0].block_hi), (2, 4));
    assert_eq!((slices[0].req_lo, slices[0].req_hi), (0, 2));
    assert_eq!(slices[1].block, 1);
    assert_eq!((slices[1].block_lo, slices[1].block_hi), (0, 4));
    assert_eq!((slices[1].req_lo, slices[1].req_hi), (2, 6));
    assert_eq!(slices[2].block, 2);
    assert_eq!((slices[2].block_lo, slices[2].block_hi), (0, 1));
    assert_eq!((slices[2].req_lo, slices[2].req_hi), (6, 7));
}

#[test]
fn p6_byte_read_matches_truncated_block_reads() {
    let lower = MemoryProvider::with_block_size(16, 4);
    let mut p = ByteGranularityProvider::new(lower);
    let pattern: Vec<u8> = (0u8..16).collect();
    assert_eq!(p.write(0, &pattern, false), Ok(()));
    // byte-granular read of [2, 9)
    let mut narrow = vec![0u8; 7];
    assert_eq!(p.read(2, &mut narrow), Ok(()));
    // whole-block reads of the touched blocks 0..=2, truncated to [2, 9)
    let mut blocks = vec![0u8; 12];
    assert_eq!(p.read(0, &mut blocks), Ok(()));
    assert_eq!(narrow[..], blocks[2..9]);
}
