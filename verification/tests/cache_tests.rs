use cache_sim::cache::{Cache, CacheLine};

fn readme_cache() -> Cache {
    Cache::new(2, 3, 256, 2)
}

fn line(tag: u32, blocks: Vec<u8>) -> CacheLine {
    CacheLine { is_valid: true, is_dirty: false, tag, blocks }
}

#[test]
fn new_line_is_empty() {
    let l = CacheLine::new(3);
    assert!(!l.is_valid);
    assert!(!l.is_dirty);
    assert_eq!(l.tag, 0);
    assert_eq!(l.blocks, vec![0u8; 8]);
}

#[test]
fn new_cache_has_the_configured_shape() {
    let c = readme_cache();
    assert_eq!(c.byte_offset_bits, 2);
    assert_eq!(c.index_bits, 3);
    // a 256-byte address space has 8-bit addresses: 3 tag, 3 index and 2 offset bits
    assert_eq!(c.tag_bits, 3);
    assert_eq!(c.data_size, 64);
    assert_eq!(c.associativity, 2);
    assert_eq!(c.cache_lines.len(), 2);
    for way in &c.cache_lines {
        assert_eq!(way.len(), 8);
        for l in way {
            assert!(!l.is_valid && !l.is_dirty);
            assert_eq!(l.blocks, vec![0u8; 4]);
        }
    }
}

#[test]
fn address_splits_into_tag_index_and_offset() {
    let c = readme_cache();
    // 214 = 0b110_101_10
    assert_eq!(c.byte_offset(214), 2);
    assert_eq!(c.index(214), 5);
    assert_eq!(c.tag(214), 6);
    assert_eq!(c.tag(214) * 32 + c.index(214) * 4 + c.byte_offset(214), 214);
    assert_eq!(c.aligned_base(214), 212);
    let a = 0xdead_beefu32;
    assert_eq!((c.tag(a) << 5) | (c.index(a) << 2) | c.byte_offset(a), a);
}

#[test]
fn loads_miss_on_an_empty_cache() {
    let c = readme_cache();
    assert_eq!(c.lb(5), (None, 1));
    assert_eq!(c.lh(5), (None, 2));
    assert_eq!(c.lw(5), (None, 4));
}

#[test]
fn stores_miss_on_an_empty_cache() {
    let mut c = readme_cache();
    assert_eq!(c.sb(5, 1), 1);
    assert_eq!(c.sh(5, [1, 2]), 2);
    assert_eq!(c.sw(5, [1, 2, 3, 4]), 4);
    assert!(c.cache_lines.iter().all(|w| w.iter().all(|l| !l.is_dirty)));
}

#[test]
fn loads_read_a_placed_block() {
    let mut c = readme_cache();
    // block of address 20: set 5, tag 0
    c.place_block(1, 20, line(0, vec![10, 11, 12, 13]));
    assert_eq!(c.lb(21), (Some(11), 0));
    assert_eq!(c.lh(22), (Some([12, 13]), 0));
    assert_eq!(c.lw(20), (Some([10, 11, 12, 13]), 0));
}

#[test]
fn loads_stop_at_the_block_boundary() {
    let mut c = readme_cache();
    c.place_block(0, 20, line(0, vec![10, 11, 12, 13]));
    assert_eq!(c.lw(22), (Some([12, 13, 0, 0]), 2));
    assert_eq!(c.lh(23), (Some([13, 0]), 1));
    assert_eq!(c.lw(23), (Some([13, 0, 0, 0]), 3));
}

#[test]
fn a_block_with_another_tag_misses() {
    let mut c = readme_cache();
    c.place_block(0, 20, line(0, vec![10, 11, 12, 13]));
    // 52 is in set 5 too, with tag 1
    assert_eq!(c.lb(52), (None, 1));
}

#[test]
fn load_after_store_reads_the_stored_bytes() {
    let mut c = readme_cache();
    c.place_block(0, 20, line(0, vec![0; 4]));
    assert_eq!(c.sb(21, 0x7f), 0);
    assert_eq!(c.lb(21), (Some(0x7f), 0));
    assert!(c.cache_lines[0][5].is_dirty);
    assert_eq!(c.sw(20, [1, 2, 3, 4]), 0);
    assert_eq!(c.lw(20), (Some([1, 2, 3, 4]), 0));
    assert_eq!(c.sh(22, [9, 8]), 0);
    assert_eq!(c.lh(22), (Some([9, 8]), 0));
    assert_eq!(c.cache_lines[0][5].blocks, vec![1, 2, 9, 8]);
}

#[test]
fn stores_stop_at_the_block_boundary() {
    let mut c = readme_cache();
    c.place_block(0, 20, line(0, vec![0; 4]));
    assert_eq!(c.sw(22, [1, 2, 3, 4]), 2);
    assert_eq!(c.cache_lines[0][5].blocks, vec![0, 0, 1, 2]);
    assert_eq!(c.sh(23, [7, 7]), 1);
    assert_eq!(c.cache_lines[0][5].blocks, vec![0, 0, 1, 7]);
}

#[test]
fn the_first_way_that_holds_a_block_serves_it() {
    let mut c = readme_cache();
    c.place_block(0, 20, line(0, vec![1; 4]));
    c.place_block(1, 20, line(0, vec![2; 4]));
    assert_eq!(c.lb(20), (Some(1), 0));
    assert_eq!(c.sb(20, 9), 0);
    assert_eq!(c.cache_lines[0][5].blocks, vec![9, 1, 1, 1]);
    assert_eq!(c.cache_lines[1][5].blocks, vec![2, 2, 2, 2]);
}

#[test]
fn request_block_reads_the_aligned_block() {
    let c = readme_cache();
    let memory: Vec<u8> = (0..=255u8).collect();
    let l = c.request_block(214, &memory, 256);
    assert!(l.is_valid && !l.is_dirty);
    assert_eq!(l.tag, 6);
    assert_eq!(l.blocks, vec![212, 213, 214, 215]);
}

#[test]
fn request_block_wraps_around_the_address_space() {
    let c = readme_cache();
    let memory: Vec<u8> = vec![1, 2, 3];
    // block 4..8 wraps at 3: cells 1, 2, 0, 1
    let l = c.request_block(5, &memory, 3);
    assert_eq!(l.blocks, vec![2, 3, 1, 2]);
}

#[test]
fn write_block_then_request_block_round_trips() {
    let c = readme_cache();
    let mut memory = vec![0u8; 256];
    let l = line(3, vec![5, 6, 7, 8]);
    c.write_block(100, &mut memory, 256, &l);
    assert_eq!(&memory[100..104], &[5, 6, 7, 8]);
    let back = c.request_block(101, &memory, 256);
    assert_eq!(back.blocks, vec![5, 6, 7, 8]);
    assert!(memory.iter().enumerate().all(|(i, b)| (100..104).contains(&i) || *b == 0));
}

#[test]
fn write_block_keeps_the_later_byte_where_addresses_wrap() {
    let c = readme_cache();
    let mut memory = vec![0u8; 2];
    c.write_block(0, &mut memory, 2, &line(0, vec![1, 2, 3, 4]));
    assert_eq!(memory, vec![3, 4]);
}

#[test]
fn is_hit_reports_the_dirty_flag() {
    let mut c = readme_cache();
    let mut dirty = true;
    assert!(!c.is_hit(20, &mut dirty));
    assert!(!dirty);
    c.place_block(1, 20, line(0, vec![0; 4]));
    assert!(c.is_hit(20, &mut dirty));
    assert!(!dirty);
    c.sb(20, 1);
    assert!(c.is_hit(21, &mut dirty));
    assert!(dirty);
    // a miss in the same set with a dirty occupant
    dirty = false;
    assert!(!c.is_hit(52, &mut dirty));
    assert!(dirty);
}

#[test]
fn evict_dirty_writes_back_and_cleans() {
    let mut c = readme_cache();
    let mut memory = vec![0u8; 256];
    assert_eq!(c.evict_dirty(20, &mut memory, 256), None);
    // block 212..216: set 5, tag 6
    c.place_block(1, 212, line(6, vec![1, 2, 3, 4]));
    assert_eq!(c.evict_dirty(20, &mut memory, 256), None);
    c.sb(213, 9);
    assert_eq!(c.evict_dirty(20, &mut memory, 256), Some(212));
    assert_eq!(&memory[212..216], &[1, 9, 3, 4]);
    assert!(!c.cache_lines[1][5].is_dirty);
    assert!(c.cache_lines[1][5].is_valid);
    assert_eq!(c.evict_dirty(20, &mut memory, 256), None);
}

#[test]
fn write_back_then_fetch_gives_the_block_back() {
    let mut c = readme_cache();
    let mut memory = vec![0u8; 256];
    c.place_block(0, 44, line(1, vec![0; 4]));
    c.sw(44, [4, 3, 2, 1]);
    let base = c.evict_dirty(44, &mut memory, 256).unwrap();
    assert_eq!(base, 44);
    assert_eq!(c.request_block(44, &memory, 256).blocks, vec![4, 3, 2, 1]);
}

#[test]
fn place_block_replaces_one_line() {
    let mut c = readme_cache();
    c.place_block(1, 20, line(0, vec![1, 2, 3, 4]));
    let mut dirty = false;
    assert!(c.is_hit(20, &mut dirty));
    assert!(c.cache_lines[1][5].is_valid);
    assert!(!c.cache_lines[0][5].is_valid);
    assert!(c.cache_lines.iter().enumerate().all(|(w, way)| way
        .iter()
        .enumerate()
        .all(|(s, l)| (w == 1 && s == 5) || !l.is_valid)));
}

#[test]
fn load_block_puts_the_block_into_some_way_of_its_set() {
    for round in 0..50u32 {
        let mut c = Cache::new(2, 2, 32, 4);
        let memory: Vec<u8> = (0..=255u8).collect();
        let address = (round * 4) % 256;
        let l = c.request_block(address, &memory, 256);
        c.load_block(address, l);
        let set = c.index(address) as usize;
        let holders = c
            .cache_lines
            .iter()
            .filter(|way| way[set].is_valid && way[set].tag == c.tag(address))
            .count();
        assert_eq!(holders, 1);
        assert_eq!(c.lw(address).0, Some([address as u8, address as u8 + 1, address as u8 + 2, address as u8 + 3]));
        assert!(c.cache_lines.iter().all(|w| w.len() == 4 && w.iter().all(|l| l.blocks.len() == 4)));
    }
}

#[test]
fn tag_bits_fill_the_address_width() {
    assert_eq!(Cache::new(2, 3, 256, 2).tag_bits, 3);
    assert_eq!(Cache::new(2, 3, 200, 2).tag_bits, 3);
    assert_eq!(Cache::new(4, 4, 1 << 16, 1).tag_bits, 8);
    assert_eq!(Cache::new(2, 6, 256, 1).tag_bits, 0);
}

#[test]
fn valid_lines_lists_way_by_way_then_set_by_set() {
    let mut c = readme_cache();
    assert!(c.valid_lines().is_empty());
    c.place_block(1, 4, line(0, vec![1, 2, 3, 4]));
    c.place_block(0, 20, line(0, vec![5, 6, 7, 8]));
    c.place_block(1, 0, line(0, vec![9, 9, 9, 9]));
    c.place_block(0, 8, line(0, vec![0, 0, 0, 0]));
    assert_eq!(c.valid_lines(), vec![(0, 2), (0, 5), (1, 0), (1, 1)]);
}
