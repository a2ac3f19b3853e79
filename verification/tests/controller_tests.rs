use cache_sim::cache::Cache;
use cache_sim::controller::{CacheController, Event};
use cache_sim::instruction::{parse_line, Instruction, OPCODE};

const ADDRESS_SIZE: u32 = 256;

fn run(lines: &[&str], cache: &mut Cache, memory: &mut Vec<u8>, ctrl: &mut CacheController) -> Vec<Vec<Event>> {
    lines.iter().map(|l| ctrl.cpu_request(&parse_line(l), cache, memory, ADDRESS_SIZE)).collect()
}

#[test]
fn new_controller_counts_nothing() {
    let c = CacheController::new();
    assert_eq!((c.hits, c.misses, c.write_backs, c.double_allocations), (0, 0, 0, 0));
}

#[test]
fn nop_and_invalid_change_nothing() {
    let mut cache = Cache::new(2, 3, ADDRESS_SIZE, 2);
    let mut memory = vec![0u8; 256];
    let mut ctrl = CacheController::new();
    let ev = ctrl.cpu_request(&parse_line("nop"), &mut cache, &mut memory, ADDRESS_SIZE);
    assert!(matches!(ev.as_slice(), [Event::Nop]));
    let ev = ctrl.cpu_request(&parse_line("foo"), &mut cache, &mut memory, ADDRESS_SIZE);
    assert!(matches!(ev.as_slice(), [Event::Invalid]));
    assert_eq!((ctrl.hits, ctrl.misses), (0, 0));
}

#[test]
fn readme_example_counts() {
    let mut cache = Cache::new(2, 3, ADDRESS_SIZE, 2);
    let mut memory = vec![0u8; 256];
    let mut ctrl = CacheController::new();
    let evs = run(&["lw 0", "sw 10 255", "lw 8", "nop"], &mut cache, &mut memory, &mut ctrl);
    assert_eq!(ctrl.hits, 3);
    assert_eq!(ctrl.misses, 2);
    assert_eq!(ctrl.write_backs, 0);
    assert_eq!(ctrl.double_allocations, 1);
    // lw 0: miss, allocate, hit
    assert!(matches!(evs[0].as_slice(), [Event::Miss { addr: 0, index: 0, tag: 0, occupant_dirty: false }, Event::Allocate { addr: 0, block_base: 0, .. }, Event::Hit { opcode: OPCODE::LW, addr: 0, value: [0, 0, 0, 0], unfinished: 0 }]));
    // sw 10 255: miss, allocate, hit with two bytes past the block, boundary fetch and store
    assert!(matches!(evs[1].as_slice(), [Event::Miss { addr: 10, index: 2, .. }, Event::Allocate { block_base: 8, .. }, Event::Hit { opcode: OPCODE::SW, unfinished: 2, .. }, Event::BoundaryFetch { next_addr: 12, block_base: 12, .. }, Event::BoundaryStore { opcode: OPCODE::SW, addr: 10 }]));
    // lw 8 hits
    assert!(matches!(evs[2].as_slice(), [Event::Hit { opcode: OPCODE::LW, addr: 8, value: [0, 0, 0, 0], unfinished: 0 }]));
    assert!(matches!(evs[3].as_slice(), [Event::Nop]));
    // write-back: memory untouched until eviction
    assert!(memory.iter().all(|b| *b == 0));
    // the last two bytes of the word went into block 12; its other bytes came from memory
    assert_eq!(cache.lw(8), (Some([0, 0, 0, 0]), 0));
    assert_eq!(cache.lw(12), (Some([0, 255, 0, 0]), 0));
}

#[test]
fn a_hit_takes_one_step() {
    let mut cache = Cache::new(2, 3, ADDRESS_SIZE, 1);
    let mut memory: Vec<u8> = (0..=255u8).collect();
    let mut ctrl = CacheController::new();
    run(&["lb 40"], &mut cache, &mut memory, &mut ctrl);
    let ev = ctrl.cpu_request(&parse_line("lh 42"), &mut cache, &mut memory, ADDRESS_SIZE);
    assert!(matches!(ev.as_slice(), [Event::Hit { opcode: OPCODE::LH, addr: 42, value: [42, 43, _, _], unfinished: 0 }]));
    assert_eq!((ctrl.hits, ctrl.misses), (2, 1));
}

#[test]
fn a_dirty_miss_writes_back_first() {
    // one way: addresses 0 and 32 share set 0
    let mut cache = Cache::new(2, 3, ADDRESS_SIZE, 1);
    let mut memory = vec![0u8; 256];
    let mut ctrl = CacheController::new();
    run(&["sw 0 16909060"], &mut cache, &mut memory, &mut ctrl);
    assert!(memory.iter().all(|b| *b == 0));
    let ev = ctrl.cpu_request(&parse_line("lw 32"), &mut cache, &mut memory, ADDRESS_SIZE);
    assert!(matches!(ev.as_slice(), [Event::Miss { addr: 32, index: 0, tag: 1, occupant_dirty: true }, Event::WriteBack { evict_base: 0, tag: 0, addr: 32 }, Event::Allocate { block_base: 32, .. }, Event::Hit { .. }]));
    assert_eq!(&memory[0..4], &[1, 2, 3, 4]);
    assert_eq!(ctrl.write_backs, 1);
    assert_eq!(ctrl.misses, 2);
    assert_eq!(ctrl.hits, 2);
    // reading 0 again gets the written-back data from memory
    let ev = ctrl.cpu_request(&parse_line("lw 0"), &mut cache, &mut memory, ADDRESS_SIZE);
    assert!(matches!(ev.last(), Some(Event::Hit { value: [1, 2, 3, 4], .. })));
}

#[test]
fn a_load_across_a_block_boundary_completes_from_the_next_block() {
    let mut cache = Cache::new(2, 3, ADDRESS_SIZE, 2);
    let mut memory: Vec<u8> = (0..=255u8).collect();
    let mut ctrl = CacheController::new();
    let ev = ctrl.cpu_request(&parse_line("lw 6"), &mut cache, &mut memory, ADDRESS_SIZE);
    assert!(matches!(ev.as_slice(), [Event::Miss { .. }, Event::Allocate { block_base: 4, .. }, Event::Hit { unfinished: 2, .. }, Event::BoundaryFetch { next_addr: 8, block_base: 8, .. }, Event::BoundaryLoad { opcode: OPCODE::LW, addr: 6, value: [6, 7, 8, 9] }]));
    assert_eq!(ctrl.double_allocations, 1);
    if let Event::BoundaryFetch { data, .. } = &ev[3] {
        assert_eq!(data, &vec![8, 9, 10, 11]);
    }
}

#[test]
fn a_half_word_store_across_a_boundary_writes_only_its_tail() {
    let mut cache = Cache::new(2, 3, ADDRESS_SIZE, 1);
    let mut memory: Vec<u8> = vec![7u8; 256];
    let mut ctrl = CacheController::new();
    let ev = ctrl.cpu_request(&parse_line("sh 3 258"), &mut cache, &mut memory, ADDRESS_SIZE);
    assert!(matches!(ev.last(), Some(Event::BoundaryStore { opcode: OPCODE::SH, addr: 3 })));
    // 258 = [0, 0, 1, 2]: sh stores the low half-word [1, 2] at bytes 3 and 4
    assert_eq!(cache.lw(0).0, Some([7, 7, 7, 1]));
    assert_eq!(cache.lw(4).0, Some([2, 7, 7, 7]));
}

#[test]
fn a_word_store_across_a_boundary_keeps_the_rest_of_the_next_block() {
    let mut cache = Cache::new(2, 3, ADDRESS_SIZE, 2);
    let mut memory = vec![0u8; 256];
    memory[4..8].copy_from_slice(&[5, 6, 7, 8]);
    let mut ctrl = CacheController::new();
    let ev = ctrl.cpu_request(&parse_line("sw 2 16909060"), &mut cache, &mut memory, ADDRESS_SIZE);
    assert!(matches!(ev.as_slice(), [Event::Miss { .. }, Event::Allocate { block_base: 0, .. }, Event::Hit { unfinished: 2, .. }, Event::BoundaryFetch { next_addr: 4, block_base: 4, .. }, Event::BoundaryStore { opcode: OPCODE::SW, addr: 2 }]));
    assert_eq!(cache.lw(0).0, Some([0, 0, 1, 2]));
    assert_eq!(cache.lw(4).0, Some([3, 4, 7, 8]));
    assert_eq!(&memory[4..8], &[5, 6, 7, 8]);
}

#[test]
fn a_boundary_store_onto_a_cached_block_fetches_nothing() {
    let mut cache = Cache::new(2, 3, ADDRESS_SIZE, 2);
    let mut memory = vec![0u8; 256];
    let mut ctrl = CacheController::new();
    run(&["sw 4 16909060"], &mut cache, &mut memory, &mut ctrl);
    let ev = ctrl.cpu_request(&parse_line("sh 3 258"), &mut cache, &mut memory, ADDRESS_SIZE);
    assert!(matches!(ev.as_slice(), [Event::Miss { .. }, Event::Allocate { block_base: 0, .. }, Event::Hit { unfinished: 1, .. }, Event::BoundaryHit { next_addr: 4 }, Event::BoundaryStore { opcode: OPCODE::SH, addr: 3 }]));
    assert_eq!(cache.lw(4).0, Some([2, 2, 3, 4]));
    assert_eq!(cache.lw(0).0, Some([0, 0, 0, 1]));
    assert!(memory.iter().all(|b| *b == 0));
    assert_eq!(cache.valid_lines().len(), 2);
}

#[test]
fn byte_and_half_word_stores_take_the_low_bytes() {
    let mut cache = Cache::new(2, 3, ADDRESS_SIZE, 2);
    let mut memory = vec![0u8; 256];
    let mut ctrl = CacheController::new();
    run(&["sb 10 255", "sh 8 16909060"], &mut cache, &mut memory, &mut ctrl);
    let ev = ctrl.cpu_request(&parse_line("lb 10"), &mut cache, &mut memory, ADDRESS_SIZE);
    assert!(matches!(ev.as_slice(), [Event::Hit { opcode: OPCODE::LB, addr: 10, value: [255, _, _, _], unfinished: 0 }]));
    assert_eq!(cache.lw(8).0, Some([3, 4, 255, 0]));
}

#[test]
fn instruction_fields_are_public() {
    let i = Instruction { opcode: OPCODE::SB, value: [0, 0, 0, 1], addr: 9 };
    let mut cache = Cache::new(2, 3, ADDRESS_SIZE, 1);
    let mut memory = vec![0u8; 256];
    let mut ctrl = CacheController::new();
    ctrl.cpu_request(&i, &mut cache, &mut memory, ADDRESS_SIZE);
    assert_eq!(cache.lb(9), (Some(1), 0));
}

#[test]
fn a_boundary_load_reads_a_cached_next_block() {
    // The tail of a crossing load comes from the cached (dirty) copy of the next block.
    let mut cache = Cache::new(2, 3, ADDRESS_SIZE, 2);
    let mut memory = vec![0u8; 256];
    let mut ctrl = CacheController::new();
    run(&["sw 4 16909060"], &mut cache, &mut memory, &mut ctrl);
    assert_eq!(cache.lw(4), (Some([1, 2, 3, 4]), 0));
    let ev = ctrl.cpu_request(&parse_line("lw 2"), &mut cache, &mut memory, ADDRESS_SIZE);
    assert!(matches!(ev.as_slice(), [Event::Miss { .. }, Event::Allocate { block_base: 0, .. }, Event::Hit { unfinished: 2, .. }, Event::BoundaryHit { next_addr: 4 }, Event::BoundaryLoad { opcode: OPCODE::LW, addr: 2, value: [0, 0, 1, 2] }]));
    assert!(memory.iter().all(|b| *b == 0));
    // the dirty block is still cached, and only once
    assert_eq!(cache.lw(4), (Some([1, 2, 3, 4]), 0));
    assert_eq!(cache.valid_lines().len(), 2);
}

#[test]
fn counters_over_several_requests() {
    let mut cache = Cache::new(2, 3, ADDRESS_SIZE, 1);
    let mut memory = vec![0u8; 256];
    let mut ctrl = CacheController::new();
    run(&["sb 0 1", "lb 0", "lb 32", "lb 0", "nop", "bad"], &mut cache, &mut memory, &mut ctrl);
    // sb 0: miss + hit; lb 0: hit; lb 32: dirty miss, write-back, hit; lb 0: clean miss, hit
    assert_eq!(ctrl.hits, 4);
    assert_eq!(ctrl.misses, 3);
    assert_eq!(ctrl.write_backs, 1);
    assert_eq!(ctrl.double_allocations, 0);
    assert_eq!(memory[0], 1);
}

#[test]
fn no_store_is_lost_whatever_way_is_replaced() {
    // One set of two ways: three blocks compete for it, and the way replaced on each miss is
    // drawn at random. Every byte written must still be read back.
    for _ in 0..50 {
        let mut cache = Cache::new(2, 0, ADDRESS_SIZE, 2);
        let mut memory = vec![0u8; 256];
        let mut ctrl = CacheController::new();
        run(&["sw 0 16909060", "sw 4 84281096", "lw 8", "sb 9 170", "lw 2", "lh 6"], &mut cache, &mut memory, &mut ctrl);
        let ev = ctrl.cpu_request(&parse_line("lw 0"), &mut cache, &mut memory, ADDRESS_SIZE);
        assert!(matches!(ev.last(), Some(Event::Hit { value: [1, 2, 3, 4], .. })));
        let ev = ctrl.cpu_request(&parse_line("lw 4"), &mut cache, &mut memory, ADDRESS_SIZE);
        assert!(matches!(ev.last(), Some(Event::Hit { value: [5, 6, 7, 8], .. })));
        let ev = ctrl.cpu_request(&parse_line("lw 8"), &mut cache, &mut memory, ADDRESS_SIZE);
        assert!(matches!(ev.last(), Some(Event::Hit { value: [0, 170, 0, 0], .. })));
        let ev = ctrl.cpu_request(&parse_line("lw 2"), &mut cache, &mut memory, ADDRESS_SIZE);
        assert!(matches!(ev.last(), Some(Event::BoundaryLoad { value: [3, 4, 5, 6], .. })));
    }
}
