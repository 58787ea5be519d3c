use wfmpsc::{
    chunk_width, compress, decompress, fmask_udefault, queue_element_count,
    queue_leftover_capacity,
};

#[test]
fn chunk_width_of_small_and_large_queues() {
    assert_eq!(chunk_width(0), 0);
    assert_eq!(chunk_width(4), 0);
    assert_eq!(chunk_width(16), 0);
    assert_eq!(chunk_width(17), 1);
    assert_eq!(chunk_width(20), 4);
}

#[test]
fn compress_counts_chunks() {
    assert_eq!(compress(0x1234, 16), 0x1234);
    assert_eq!(compress(0x1234, 20), 0x123);
    assert_eq!(compress(0x1237, 20), 0x123);
    assert_eq!(compress(0xffff, 31), 1);
}

#[test]
fn decompress_gives_chunk_start() {
    assert_eq!(decompress(0x1234, 16), 0x1234);
    assert_eq!(decompress(0x123, 20), 0x1230);
    // bits shifted out of the 16-bit word are lost
    assert_eq!(decompress(0x1234, 20), 0x2340);
}

#[test]
fn compress_decompress_round_trips() {
    for qb in [4usize, 16, 18, 24] {
        let w = chunk_width(qb);
        for x in [0u16, 0x40, 0x1000, 0x8000] {
            if x as u32 % (1u32 << w) == 0 {
                assert_eq!(decompress(compress(x, qb), qb), x);
            }
        }
        for y in [0u16, 1, 3, 0x7f] {
            if (y as u32) << w < 0x10000 {
                assert_eq!(compress(decompress(y, qb), qb), y);
            }
        }
    }
}

#[test]
fn masks() {
    assert_eq!(fmask_udefault::<0>(), 0);
    assert_eq!(fmask_udefault::<4>(), 15);
    assert_eq!(fmask_udefault::<15>(), 0x7fff);
}

#[test]
fn leftover_capacity_values() {
    assert_eq!(queue_leftover_capacity::<4>(3, 3), 16);
    assert_eq!(queue_leftover_capacity::<4>(5, 3), 14);
    assert_eq!(queue_leftover_capacity::<4>(3, 5), 2);
    assert_eq!(queue_leftover_capacity::<4>(15, 0), 1);
    assert_eq!(queue_leftover_capacity::<4>(0, 1), 1);
}

#[test]
fn element_count_values() {
    assert_eq!(queue_element_count::<4>(3, 3), 0);
    assert_eq!(queue_element_count::<4>(5, 3), 2);
    assert_eq!(queue_element_count::<4>(3, 5), 14);
    assert_eq!(queue_element_count::<4>(15, 0), 15);
}

#[test]
fn count_and_capacity_fill_the_ring() {
    for h in 0u16..16 {
        for t in 0u16..16 {
            let free = queue_leftover_capacity::<4>(h, t);
            let used = queue_element_count::<4>(h, t);
            assert_eq!(free + used, 16);
            assert!(free >= 1);
            assert_eq!(used, (h + 16 - t) % 16);
        }
    }
}
