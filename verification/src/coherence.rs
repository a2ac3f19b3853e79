use vstd::prelude::*;
use vstd::arithmetic::power2::{pow2, lemma_pow2_pos, lemma_pow2_adds};
use vstd::arithmetic::div_mod::{lemma_fundamental_div_mod_converse, lemma_div_denominator, lemma_small_mod};
use crate::cache::{Cache, LineView, mem_block, mem_slot, mem_store, stored, fetched, run_len};
use crate::laws::law_address_split;
use crate::controller::{
    written_back, lines_written_back, placed, fetched_line, written, width, store_data, State,
    CacheController, Event, Snapshot, run,
};
use crate::instruction::{Instruction, is_store, is_memory_op};

verus! {

/// The first address of the block that a line tagged `tag` holds in `set`.
pub open spec fn line_start(c: Cache, tag: u32, set: int) -> int {
    tag * pow2((c.byte_offset_bits + c.index_bits) as nat) + set * c.block_size()
}

/// No set holds one block in two ways.
pub open spec fn unique_blocks(c: Cache) -> bool {
    forall|w1: int, w2: int, s: int|
        0 <= w1 < c@.len() && 0 <= w2 < c@.len() && 0 <= s < c.num_sets()
            && #[trigger] c@[w1][s].is_valid && #[trigger] c@[w2][s].is_valid
            && c@[w1][s].tag == c@[w2][s].tag ==> w1 == w2
}

/// Every valid line holds a block that lies inside the address space.
pub open spec fn blocks_in_space(c: Cache, address_size: u32) -> bool {
    forall|w: int, s: int|
        0 <= w < c@.len() && 0 <= s < c.num_sets() && #[trigger] c@[w][s].is_valid
            ==> line_start(c, c@[w][s].tag, s) + c.block_size() <= address_size
}

/// Every valid clean line holds what memory holds at its block.
pub open spec fn clean_lines_match(c: Cache, memory: Seq<u8>) -> bool {
    forall|w: int, s: int|
        0 <= w < c@.len() && 0 <= s < c.num_sets() && #[trigger] c@[w][s].is_valid && !c@[w][s].is_dirty
            ==> c@[w][s].blocks == memory.subrange(
                line_start(c, c@[w][s].tag, s),
                line_start(c, c@[w][s].tag, s) + c.block_size(),
            )
}

/// The cache and memory agree as a write-back cache needs them to: the address space fits in
/// memory, no block is held twice, every held block lies in the address space, and a clean
/// line is a copy of memory.
pub open spec fn coherent(c: Cache, memory: Seq<u8>, address_size: u32) -> bool {
    &&& c.wf()
    &&& 0 < address_size <= memory.len()
    &&& unique_blocks(c)
    &&& blocks_in_space(c, address_size)
    &&& clean_lines_match(c, memory)
}

/// The byte at `address` as the program sees it: the cached copy where a line holds the
/// block, else memory.
pub open spec fn byte_at(c: Cache, memory: Seq<u8>, address: u32) -> u8 {
    if c.hits(address) {
        let w = choose|w: int| 0 <= w < c@.len() && #[trigger] c.way_hits(w, address);
        c@[w][c.set_of(address) as int].blocks[c.offset_of(address) as int]
    } else {
        memory[address as int]
    }
}

/// Every byte of the address space as the program sees it.
pub open spec fn data_view(c: Cache, memory: Seq<u8>, address_size: u32) -> Seq<u8> {
    Seq::new(address_size as nat, |x: int| byte_at(c, memory, x as u32))
}

/// An address put together from a tag, a set and an offset splits back into them.
proof fn lemma_split_start(c: Cache, tag: u32, set: int, i: int)
    requires
        c.byte_offset_bits + c.index_bits < 32,
        0 <= set < c.num_sets(),
        0 <= i < c.block_size(),
        line_start(c, tag, set) + i <= u32::MAX,
    ensures
        c.tag_of((line_start(c, tag, set) + i) as u32) == tag,
        c.set_of((line_start(c, tag, set) + i) as u32) == set,
        c.offset_of((line_start(c, tag, set) + i) as u32) == i,
{
    let bs = c.block_size() as int;
    let ns = c.num_sets() as int;
    let x = line_start(c, tag, set) + i;
    lemma_pow2_pos(c.byte_offset_bits as nat);
    lemma_pow2_pos(c.index_bits as nat);
    lemma_pow2_adds(c.byte_offset_bits as nat, c.index_bits as nat);
    assert(pow2((c.byte_offset_bits + c.index_bits) as nat) == bs * ns);
    assert(x == (tag * ns + set) * bs + i) by (nonlinear_arith)
        requires
            x == tag * (bs * ns) + set * bs + i,
    ;
    lemma_fundamental_div_mod_converse(x, bs, tag * ns + set, i);
    lemma_fundamental_div_mod_converse(tag * ns + set, ns, tag as int, set);
    lemma_div_denominator(x, bs, ns);
}

/// A byte of a held block reads from the line that holds it.
pub proof fn lemma_byte_at_way(c: Cache, memory: Seq<u8>, address: u32, w: int)
    requires
        c.wf(),
        unique_blocks(c),
        0 <= w < c@.len(),
        c.way_hits(w, address),
    ensures
        c.hits(address),
        byte_at(c, memory, address) == c@[w][c.set_of(address) as int].blocks[c.offset_of(address) as int],
{
    law_address_split(c, address);
    assert(c.hits(address));
    let v = choose|v: int| 0 <= v < c@.len() && #[trigger] c.way_hits(v, address);
    let s = c.set_of(address) as int;
    assert(c@[v][s].is_valid && c@[w][s].is_valid);
}

/// An address of the address space that a line holds is that line's start plus its offset.
proof fn lemma_held_address(c: Cache, address: u32, w: int)
    requires
        c.wf(),
        0 <= w < c@.len(),
        c.way_hits(w, address),
    ensures
        line_start(c, c@[w][c.set_of(address) as int].tag, c.set_of(address) as int) + c.offset_of(address) == address,
        c.offset_of(address) < c.block_size(),
        c.set_of(address) < c.num_sets(),
{
    law_address_split(c, address);
}

/// Storing an `n`-byte block at `base` inside the address space writes exactly that block.
proof fn lemma_mem_store_frame(memory: Seq<u8>, base: int, data: Seq<u8>, n: nat, address_size: int)
    requires
        0 <= base,
        base + n <= address_size <= memory.len(),
        data.len() >= n,
    ensures
        mem_store(memory, base, data, n, address_size).len() == memory.len(),
        forall|y: int| 0 <= y < memory.len() ==> #[trigger] mem_store(memory, base, data, n, address_size)[y]
            == if base <= y < base + n { data[y - base] } else { memory[y] },
    decreases n,
{
    if n > 0 {
        let m = (n - 1) as nat;
        lemma_mem_store_frame(memory, base, data, m, address_size);
        lemma_small_mod((base + m) as nat, address_size as nat);
        assert(mem_slot(base, m as int, address_size) == base + m);
    }
}

/// The block memory holds at `base`, inside the address space, is a slice of memory.
proof fn lemma_mem_block_slice(memory: Seq<u8>, base: int, n: nat, address_size: int)
    requires
        0 <= base,
        base + n <= address_size <= memory.len(),
    ensures
        mem_block(memory, base, n, address_size) == memory.subrange(base, base + n),
{
    assert forall|i: int| 0 <= i < n implies #[trigger] mem_block(memory, base, n, address_size)[i]
        == memory.subrange(base, base + n)[i] by {
        lemma_small_mod((base + i) as nat, address_size as nat);
    }
    assert(mem_block(memory, base, n, address_size) =~= memory.subrange(base, base + n));
}

/// The base that a write-back rebuilds for a line is the line's start.
proof fn lemma_rebuilt_start(c: Cache, tag: u32, set: int)
    requires
        c.byte_offset_bits + c.index_bits < 32,
        0 <= set < c.num_sets(),
        line_start(c, tag, set) + c.block_size() <= u32::MAX,
    ensures
        c.rebuilt_base(tag, set as u32) == line_start(c, tag, set),
{
    lemma_pow2_pos(c.byte_offset_bits as nat);
    lemma_split_start(c, tag, set, 0);
    let x = line_start(c, tag, set) as u32;
    law_address_split(c, x);
}

/// A byte `j` places after `address`, still inside its block, is held by the same line.
proof fn lemma_in_block(c: Cache, w: int, address: u32, j: int)
    requires
        c.wf(),
        0 <= w < c@.len(),
        c.way_hits(w, address),
        0 <= j,
        c.offset_of(address) + j < c.block_size(),
        line_start(c, c@[w][c.set_of(address) as int].tag, c.set_of(address) as int) + c.block_size() <= u32::MAX,
    ensures
        c.way_hits(w, (address + j) as u32),
        c.set_of((address + j) as u32) == c.set_of(address),
        c.offset_of((address + j) as u32) == c.offset_of(address) + j,
{
    let s = c.set_of(address) as int;
    lemma_held_address(c, address, w);
    lemma_split_start(c, c@[w][s].tag, s, c.offset_of(address) + j);
}

/// The blocks of two different valid lines do not overlap.
proof fn lemma_blocks_apart(c: Cache, address_size: u32, w1: int, s1: int, w2: int, s2: int, y: int)
    requires
        c.wf(),
        unique_blocks(c),
        blocks_in_space(c, address_size),
        0 <= w1 < c@.len(),
        0 <= w2 < c@.len(),
        0 <= s1 < c.num_sets(),
        0 <= s2 < c.num_sets(),
        c@[w1][s1].is_valid,
        c@[w2][s2].is_valid,
        w1 != w2 || s1 != s2,
        line_start(c, c@[w1][s1].tag, s1) <= y < line_start(c, c@[w1][s1].tag, s1) + c.block_size(),
    ensures
        !(line_start(c, c@[w2][s2].tag, s2) <= y < line_start(c, c@[w2][s2].tag, s2) + c.block_size()),
{
    let t1 = c@[w1][s1].tag;
    let t2 = c@[w2][s2].tag;
    if line_start(c, t2, s2) <= y < line_start(c, t2, s2) + c.block_size() {
        lemma_split_start(c, t1, s1, y - line_start(c, t1, s1));
        lemma_split_start(c, t2, s2, y - line_start(c, t2, s2));
        assert(c@[w1][s1].is_valid && c@[w2][s1].is_valid);
    }
}

/// Writing back the line in `way` of `address`'s set keeps the cache coherent and every byte
/// as the program sees it; the line is clean afterwards and every address hits as before.
pub proof fn lemma_write_back_keeps_data(c0: Cache, c1: Cache, way: int, address: u32, m0: Seq<u8>, m1: Seq<u8>, address_size: u32)
    requires
        coherent(c0, m0, address_size),
        0 <= way < c0@.len(),
        c1.wf(),
        c1.same_config(c0),
        c1@ == lines_written_back(c0, way, address),
        m1 == written_back(c0, way, address, m0, address_size),
    ensures
        coherent(c1, m1, address_size),
        data_view(c1, m1, address_size) == data_view(c0, m0, address_size),
        !c1.way_dirty(way, address),
        forall|w: int, x: u32| 0 <= w < c1@.len() ==> #[trigger] c1.way_hits(w, x) == c0.way_hits(w, x),
{
    let s = c0.set_of(address) as int;
    law_address_split(c0, address);
    let line = c0@[way][s];
    assert(c0@[way].len() == c0.num_sets());
    let dirty = c0.way_dirty(way, address);
    let b = line_start(c0, line.tag, s);
    let bs = c0.block_size();
    assert(line.blocks.len() == bs);
    if dirty {
        lemma_rebuilt_start(c0, line.tag, s);
        lemma_mem_store_frame(m0, b, line.blocks, bs, address_size as int);
    }
    assert forall|w: int, t: int| 0 <= w < c1@.len() && 0 <= t < c1@[w].len()
        implies #[trigger] c1@[w][t] == if dirty && w == way && t == s { LineView { is_dirty: false, ..line } } else { c0@[w][t] } by {
    }
    assert forall|w: int, x: u32| 0 <= w < c1@.len() implies #[trigger] c1.way_hits(w, x) == c0.way_hits(w, x) by {
        law_address_split(c0, x);
        assert(c0@[w].len() == c0.num_sets());
    }
    assert(unique_blocks(c1)) by {
        assert forall|w1: int, w2: int, t: int|
            0 <= w1 < c1@.len() && 0 <= w2 < c1@.len() && 0 <= t < c1.num_sets()
                && #[trigger] c1@[w1][t].is_valid && #[trigger] c1@[w2][t].is_valid
                && c1@[w1][t].tag == c1@[w2][t].tag implies w1 == w2 by {
            assert(c0@[w1].len() == c0.num_sets() && c0@[w2].len() == c0.num_sets());
            assert(c0@[w1][t].is_valid && c0@[w2][t].is_valid);
        }
    }
    assert(blocks_in_space(c1, address_size)) by {
        assert forall|w: int, t: int| 0 <= w < c1@.len() && 0 <= t < c1.num_sets() && #[trigger] c1@[w][t].is_valid
            implies line_start(c1, c1@[w][t].tag, t) + c1.block_size() <= address_size by {
            assert(c0@[w].len() == c0.num_sets());
            assert(c0@[w][t].is_valid);
        }
    }
    // Memory changed only inside the written-back block.
    assert(clean_lines_match(c1, m1)) by {
        assert forall|w: int, t: int|
            0 <= w < c1@.len() && 0 <= t < c1.num_sets() && #[trigger] c1@[w][t].is_valid && !c1@[w][t].is_dirty
            implies c1@[w][t].blocks == m1.subrange(line_start(c1, c1@[w][t].tag, t), line_start(c1, c1@[w][t].tag, t) + c1.block_size()) by {
            assert(c0@[w].len() == c0.num_sets());
            let st = line_start(c0, c0@[w][t].tag, t);
            if dirty && w == way && t == s {
                assert(m1.subrange(b, b + bs) =~= line.blocks);
            } else if !dirty {
                assert(c0@[w][t].is_valid);
            } else {
                assert(c0@[w][t].is_valid);
                assert forall|y: int| st <= y < st + bs implies m1[y] == m0[y] by {
                    lemma_blocks_apart(c0, address_size, w, t, way, s, y);
                }
                assert(m1.subrange(st, st + bs) =~= m0.subrange(st, st + bs));
            }
        }
    }
    assert forall|x: int| 0 <= x < address_size implies #[trigger] data_view(c1, m1, address_size)[x]
        == data_view(c0, m0, address_size)[x] by {
        let a = x as u32;
        law_address_split(c0, a);
        if c0.hits(a) {
            let w = choose|w: int| 0 <= w < c0@.len() && #[trigger] c0.way_hits(w, a);
            lemma_byte_at_way(c0, m0, a, w);
            lemma_byte_at_way(c1, m1, a, w);
            assert(c0@[w].len() == c0.num_sets());
        } else {
            assert(!c1.hits(a)) by {
                if c1.hits(a) {
                    let w = choose|w: int| 0 <= w < c1@.len() && #[trigger] c1.way_hits(w, a);
                    assert(c0.way_hits(w, a));
                }
            }
            if dirty && b <= x < b + bs {
                lemma_split_start(c0, line.tag, s, x - b);
                assert(c0.way_hits(way, a));
            }
        }
    }
    assert(data_view(c1, m1, address_size) =~= data_view(c0, m0, address_size));
}

/// The block of an address starts where the line holding it starts.
proof fn lemma_block_start(c: Cache, address: u32)
    requires
        c.byte_offset_bits + c.index_bits < 32,
    ensures
        line_start(c, c.tag_of(address), c.set_of(address) as int) == c.block_base(address),
{
    law_address_split(c, address);
}

/// An access of `n` bytes at `address` touches its own block and, where it runs past its
/// end, the next one; it touches no more than two, and they lie in the address space.
pub open spec fn access_fits(c: Cache, address: u32, n: nat, address_size: u32) -> bool {
    &&& c.offset_of(address) + n <= 2 * c.block_size()
    &&& c.block_base(address) + if c.offset_of(address) + n > c.block_size() {
        2 * c.block_size()
    } else {
        c.block_size()
    } <= address_size
}

/// Filling an invalid or clean line of `address`'s set with `address`'s block, read from
/// memory, keeps the cache coherent and every byte as the program sees it; `way` then holds
/// the block.
pub proof fn lemma_fill_keeps_data(c0: Cache, c1: Cache, way: int, address: u32, m: Seq<u8>, address_size: u32)
    requires
        coherent(c0, m, address_size),
        c0.block_base(address) + c0.block_size() <= address_size,
        !c0.hits(address),
        0 <= way < c0@.len(),
        !c0.way_dirty(way, address),
        c1.wf(),
        c1.same_config(c0),
        c1@ == placed(c0@, way, c0.set_of(address) as int, fetched_line(c0, m, address, address_size)),
    ensures
        coherent(c1, m, address_size),
        data_view(c1, m, address_size) == data_view(c0, m, address_size),
        c1.way_hits(way, address),
        c1.first_hit(address, way),
{
    let s = c0.set_of(address) as int;
    let ta = c0.tag_of(address);
    let bs = c0.block_size();
    let old_line = c0@[way][s];
    let line = fetched_line(c0, m, address, address_size);
    let b = c0.block_base(address) as int;
    law_address_split(c0, address);
    lemma_block_start(c0, address);
    lemma_mem_block_slice(m, b, bs, address_size as int);
    assert(c0@[way].len() == c0.num_sets());
    assert(line.blocks == m.subrange(b, b + bs));
    assert forall|w: int, t: int| 0 <= w < c1@.len() && 0 <= t < c1@[w].len()
        implies #[trigger] c1@[w][t] == if w == way && t == s { line } else { c0@[w][t] } by {
    }
    // No other way of the set holds the block.
    assert forall|w: int| 0 <= w < c0@.len() implies !(#[trigger] c0@[w][s].is_valid && c0@[w][s].tag == ta) by {
        if c0@[w][s].is_valid && c0@[w][s].tag == ta {
            assert(c0.way_hits(w, address));
        }
    }
    assert(c1.way_hits(way, address));
    assert(c1.first_hit(address, way)) by {
        assert forall|v: int| 0 <= v < way implies !#[trigger] c1.way_hits(v, address) by {
            assert(c0@[v].len() == c0.num_sets());
            assert(!(c0@[v][s].is_valid && c0@[v][s].tag == ta));
        }
    }
    assert(unique_blocks(c1)) by {
        assert forall|w1: int, w2: int, t: int|
            0 <= w1 < c1@.len() && 0 <= w2 < c1@.len() && 0 <= t < c1.num_sets()
                && #[trigger] c1@[w1][t].is_valid && #[trigger] c1@[w2][t].is_valid
                && c1@[w1][t].tag == c1@[w2][t].tag implies w1 == w2 by {
            assert(c0@[w1].len() == c0.num_sets() && c0@[w2].len() == c0.num_sets());
            if t == s && (w1 == way || w2 == way) {
                if w1 != way {
                    assert(!(c0@[w1][s].is_valid && c0@[w1][s].tag == ta));
                }
                if w2 != way {
                    assert(!(c0@[w2][s].is_valid && c0@[w2][s].tag == ta));
                }
            } else {
                assert(c0@[w1][t].is_valid && c0@[w2][t].is_valid);
            }
        }
    }
    assert(blocks_in_space(c1, address_size)) by {
        assert forall|w: int, t: int| 0 <= w < c1@.len() && 0 <= t < c1.num_sets() && #[trigger] c1@[w][t].is_valid
            implies line_start(c1, c1@[w][t].tag, t) + c1.block_size() <= address_size by {
            assert(c0@[w].len() == c0.num_sets());
            if !(w == way && t == s) {
                assert(c0@[w][t].is_valid);
            }
        }
    }
    assert(clean_lines_match(c1, m)) by {
        assert forall|w: int, t: int|
            0 <= w < c1@.len() && 0 <= t < c1.num_sets() && #[trigger] c1@[w][t].is_valid && !c1@[w][t].is_dirty
            implies c1@[w][t].blocks == m.subrange(line_start(c1, c1@[w][t].tag, t), line_start(c1, c1@[w][t].tag, t) + c1.block_size()) by {
            assert(c0@[w].len() == c0.num_sets());
            if !(w == way && t == s) {
                assert(c0@[w][t].is_valid);
            }
        }
    }
    assert forall|x: int| 0 <= x < address_size implies #[trigger] data_view(c1, m, address_size)[x]
        == data_view(c0, m, address_size)[x] by {
        let a = x as u32;
        let sx = c0.set_of(a) as int;
        law_address_split(c0, a);
        if sx == s && c0.tag_of(a) == ta {
            // A byte of the fetched block: memory before, the same memory byte after.
            assert(!c0.hits(a)) by {
                if c0.hits(a) {
                    let w = choose|w: int| 0 <= w < c0@.len() && #[trigger] c0.way_hits(w, a);
                    assert(!(c0@[w][s].is_valid && c0@[w][s].tag == ta));
                }
            }
            lemma_byte_at_way(c1, m, a, way);
            lemma_held_address(c1, a, way);
        } else if sx == s && c0.way_hits(way, a) {
            // A byte of the replaced clean block: the line's copy before, memory after.
            lemma_byte_at_way(c0, m, a, way);
            lemma_held_address(c0, a, way);
            assert(old_line.is_valid && !old_line.is_dirty);
            assert(!c1.hits(a)) by {
                if c1.hits(a) {
                    let w = choose|w: int| 0 <= w < c1@.len() && #[trigger] c1.way_hits(w, a);
                    assert(c0@[w].len() == c0.num_sets());
                    assert(c0@[w][s].is_valid && c0@[way][s].is_valid);
                }
            }
        } else {
            assert forall|w: int| 0 <= w < c0@.len() implies #[trigger] c1.way_hits(w, a) == c0.way_hits(w, a) by {
                assert(c0@[w].len() == c0.num_sets());
            }
            if c0.hits(a) {
                let w = choose|w: int| 0 <= w < c0@.len() && #[trigger] c0.way_hits(w, a);
                lemma_byte_at_way(c0, m, a, w);
                lemma_byte_at_way(c1, m, a, w);
                assert(c0@[w].len() == c0.num_sets());
            } else {
                assert(!c1.hits(a)) by {
                    if c1.hits(a) {
                        let w = choose|w: int| 0 <= w < c1@.len() && #[trigger] c1.way_hits(w, a);
                        assert(c0.way_hits(w, a));
                    }
                }
            }
        }
    }
    assert(data_view(c1, m, address_size) =~= data_view(c0, m, address_size));
}

/// Storing `data` into the line of `way` that holds `address`'s block, from `address`'s
/// offset on, keeps the cache coherent and changes the bytes the program sees exactly at
/// the addresses written: those from `address` on, as far as the block reaches.
pub proof fn lemma_store_writes_data(c0: Cache, c1: Cache, way: int, address: u32, data: Seq<u8>, m: Seq<u8>, address_size: u32)
    requires
        coherent(c0, m, address_size),
        address < address_size,
        0 <= way < c0@.len(),
        c0.way_hits(way, address),
        c1.wf(),
        c1.same_config(c0),
        c1@ == written(c0@, way, c0.set_of(address) as int, c0.offset_of(address) as int, data),
    ensures
        coherent(c1, m, address_size),
        data_view(c1, m, address_size) == stored(
            data_view(c0, m, address_size),
            address as int,
            data.take(run_len(c0.block_size() as int, c0.offset_of(address) as int, data.len() as int)),
        ),
        forall|w: int, x: u32| 0 <= w < c1@.len() ==> #[trigger] c1.way_hits(w, x) == c0.way_hits(w, x),
{
    let s = c0.set_of(address) as int;
    let o = c0.offset_of(address) as int;
    let bs = c0.block_size();
    let r = run_len(bs as int, o, data.len() as int);
    let d = data.take(r);
    let old_line = c0@[way][s];
    let new_line = LineView { is_dirty: true, blocks: stored(old_line.blocks, o, data), ..old_line };
    law_address_split(c0, address);
    assert(c0@[way].len() == c0.num_sets());
    assert(old_line.blocks.len() == bs);
    assert forall|w: int, t: int| 0 <= w < c1@.len() && 0 <= t < c1@[w].len()
        implies #[trigger] c1@[w][t] == if w == way && t == s { new_line } else { c0@[w][t] } by {
    }
    assert forall|w: int, x: u32| 0 <= w < c1@.len() implies #[trigger] c1.way_hits(w, x) == c0.way_hits(w, x) by {
        law_address_split(c0, x);
        assert(c0@[w].len() == c0.num_sets());
    }
    assert(unique_blocks(c1)) by {
        assert forall|w1: int, w2: int, t: int|
            0 <= w1 < c1@.len() && 0 <= w2 < c1@.len() && 0 <= t < c1.num_sets()
                && #[trigger] c1@[w1][t].is_valid && #[trigger] c1@[w2][t].is_valid
                && c1@[w1][t].tag == c1@[w2][t].tag implies w1 == w2 by {
            assert(c0@[w1].len() == c0.num_sets() && c0@[w2].len() == c0.num_sets());
            assert(c0@[w1][t].is_valid && c0@[w2][t].is_valid);
        }
    }
    assert(blocks_in_space(c1, address_size)) by {
        assert forall|w: int, t: int| 0 <= w < c1@.len() && 0 <= t < c1.num_sets() && #[trigger] c1@[w][t].is_valid
            implies line_start(c1, c1@[w][t].tag, t) + c1.block_size() <= address_size by {
            assert(c0@[w].len() == c0.num_sets());
            assert(c0@[w][t].is_valid);
        }
    }
    assert(clean_lines_match(c1, m)) by {
        assert forall|w: int, t: int|
            0 <= w < c1@.len() && 0 <= t < c1.num_sets() && #[trigger] c1@[w][t].is_valid && !c1@[w][t].is_dirty
            implies c1@[w][t].blocks == m.subrange(line_start(c1, c1@[w][t].tag, t), line_start(c1, c1@[w][t].tag, t) + c1.block_size()) by {
            assert(c0@[w].len() == c0.num_sets());
            assert(c0@[w][t].is_valid);
        }
    }
    assert(old_line.is_valid);
    lemma_held_address(c0, address, way);
    assert forall|x: int| 0 <= x < address_size implies #[trigger] data_view(c1, m, address_size)[x]
        == stored(data_view(c0, m, address_size), address as int, d)[x] by {
        let a = x as u32;
        law_address_split(c0, a);
        if c0.set_of(a) == s && c0.way_hits(way, a) {
            lemma_byte_at_way(c0, m, a, way);
            lemma_byte_at_way(c1, m, a, way);
            lemma_held_address(c0, a, way);
            let ox = c0.offset_of(a) as int;
            assert(x - address == ox - o);
            assert(c1@[way][s].blocks[ox] == stored(old_line.blocks, o, data)[ox]);
            if address <= x < address + r {
                assert(d[x - address] == data[ox - o]);
            }
        } else {
            if address <= x < address + r {
                lemma_in_block(c0, way, address, x - address);
            }
            if c0.hits(a) {
                let w = choose|w: int| 0 <= w < c0@.len() && #[trigger] c0.way_hits(w, a);
                lemma_byte_at_way(c0, m, a, w);
                lemma_byte_at_way(c1, m, a, w);
                assert(c0@[w].len() == c0.num_sets());
            } else {
                assert(!c1.hits(a)) by {
                    if c1.hits(a) {
                        let w = choose|w: int| 0 <= w < c1@.len() && #[trigger] c1.way_hits(w, a);
                        assert(c0.way_hits(w, a));
                    }
                }
            }
        }
    }
    assert(data_view(c1, m, address_size) =~= stored(data_view(c0, m, address_size), address as int, d));
}

/// A load from the line that holds `address`'s block reads the bytes the program sees, as
/// far as the block reaches.
pub proof fn lemma_load_reads_data(c: Cache, way: int, address: u32, n: nat, m: Seq<u8>, address_size: u32)
    requires
        coherent(c, m, address_size),
        address < address_size,
        0 <= way < c@.len(),
        c.way_hits(way, address),
    ensures
        forall|j: int| 0 <= j < run_len(c.block_size() as int, c.offset_of(address) as int, n as int) ==> {
            &&& address + j < address_size
            &&& #[trigger] fetched(c@[way][c.set_of(address) as int].blocks, c.offset_of(address) as int, n)[j]
                == data_view(c, m, address_size)[address + j]
        },
{
    let s = c.set_of(address) as int;
    law_address_split(c, address);
    assert(c@[way].len() == c.num_sets());
    assert(c@[way][s].is_valid);
    assert(c@[way][s].blocks.len() == c.block_size());
    lemma_held_address(c, address, way);
    assert forall|j: int| 0 <= j < run_len(c.block_size() as int, c.offset_of(address) as int, n as int) implies {
        &&& address + j < address_size
        &&& #[trigger] fetched(c@[way][s].blocks, c.offset_of(address) as int, n)[j]
            == data_view(c, m, address_size)[address + j]
    } by {
        lemma_in_block(c, way, address, j);
        lemma_byte_at_way(c, m, (address + j) as u32, way);
    }
}

/// Two caches with the same lines and configuration show the same bytes.
proof fn lemma_same_lines_same_data(c0: Cache, c1: Cache, m: Seq<u8>, address_size: u32)
    requires
        coherent(c0, m, address_size),
        c1.wf(),
        c1.same_config(c0),
        c1@ == c0@,
    ensures
        coherent(c1, m, address_size),
        data_view(c1, m, address_size) == data_view(c0, m, address_size),
{
    assert forall|x: int| 0 <= x < address_size implies #[trigger] data_view(c1, m, address_size)[x]
        == data_view(c0, m, address_size)[x] by {
        let a = x as u32;
        if c0.hits(a) {
            let w = choose|w: int| 0 <= w < c0@.len() && #[trigger] c0.way_hits(w, a);
            lemma_byte_at_way(c0, m, a, w);
            lemma_byte_at_way(c1, m, a, w);
        } else {
            assert(!c1.hits(a)) by {
                if c1.hits(a) {
                    let w = choose|w: int| 0 <= w < c1@.len() && #[trigger] c1.way_hits(w, a);
                    assert(c0.way_hits(w, a));
                }
            }
        }
    }
    assert(data_view(c1, m, address_size) =~= data_view(c0, m, address_size));
}

/// Writing the front of `data` and then the rest is writing all of it.
proof fn lemma_stored_in_two(v: Seq<u8>, a: int, data: Seq<u8>, k: int)
    requires
        0 <= a,
        0 <= k <= data.len(),
        a + data.len() <= v.len(),
    ensures
        stored(stored(v, a, data.take(k)), a + k, data.subrange(k, data.len() as int)) == stored(v, a, data),
{
    assert(stored(stored(v, a, data.take(k)), a + k, data.subrange(k, data.len() as int)) =~= stored(v, a, data));
}

/// How far a request on `inst` has come, from what the program saw before it (`view0`):
/// the cache stays coherent; a store has written its first bytes, as many as are done; a
/// load holds the bytes it has read; and the way chosen for a missing block is clean
/// before the block is fetched into it.
pub open spec fn request_progress(
    s: CacheController,
    c: Cache,
    m: Seq<u8>,
    inst: Instruction,
    address_size: u32,
    c_start: Cache,
    view0: Seq<u8>,
) -> bool {
    let a = inst.addr;
    let op = inst.opcode;
    let n = width(op);
    let data = store_data(op, inst.value@);
    let done: int = if s.state == State::IDLE {
        n as int
    } else if s.state == State::ALLOCATE && s.unfinished > 0 {
        s.bytes_done as int
    } else {
        0
    };
    &&& s.wf()
    &&& coherent(c, m, address_size)
    &&& c.same_config(c_start)
    &&& view0.len() == address_size
    &&& 0 <= done <= n
    &&& data_view(c, m, address_size) == if is_store(op) { stored(view0, a as int, data.take(done)) } else { view0 }
    &&& !is_store(op) ==> s.fetch_value@.take(done) == view0.subrange(a as int, a + done)
    &&& s.state == State::WRITE_BACK ==> !c.hits(a) && s.victim < c@.len()
    &&& s.state == State::ALLOCATE && s.unfinished == 0 ==> {
        &&& !c.hits(a)
        &&& s.victim < c@.len()
        &&& !c.way_dirty(s.victim as int, a)
    }
    &&& s.state == State::ALLOCATE && s.unfinished > 0 ==> {
        &&& s.bytes_done >= 1
        &&& s.bytes_done + s.unfinished == n
        &&& s.unfinished <= c.block_size()
        &&& c.offset_of((a + s.bytes_done) as u32) == 0
        &&& a + s.bytes_done == c.block_base(a) + c.block_size()
    }
}

/// The address right after a block is the start of the next block.
proof fn lemma_next_start(c: Cache, address: u32)
    requires
        c.byte_offset_bits + c.index_bits < 32,
        c.block_base(address) + c.block_size() <= u32::MAX,
    ensures
        c.offset_of((c.block_base(address) + c.block_size()) as u32) == 0,
{
    let bs = c.block_size() as int;
    law_address_split(c, address);
    lemma_pow2_pos(c.byte_offset_bits as nat);
    vstd::arithmetic::div_mod::lemma_fundamental_div_mod(address as int, bs);
    let q = address as int / bs;
    assert(c.block_base(address) + bs == (q + 1) * bs) by (nonlinear_arith)
        requires
            c.block_base(address) == address - address as int % bs,
            address as int == bs * q + address as int % bs,
    ;
    lemma_fundamental_div_mod_converse(c.block_base(address) + bs, bs, q + 1, 0);
}

/// COMPARE_TAG keeps a request on its way.
proof fn lemma_compare_tag_progress(
    s0: CacheController,
    s1: CacheController,
    c0: Cache,
    c1: Cache,
    m: Seq<u8>,
    inst: Instruction,
    address_size: u32,
    log0: Seq<Event>,
    log1: Seq<Event>,
    c_start: Cache,
    view0: Seq<u8>,
)
    requires
        request_progress(s0, c0, m, inst, address_size, c_start, view0),
        s0.state == State::COMPARE_TAG,
        CacheController::compare_tag_post(s0, s1, c0, c1, inst, log0, log1),
        is_memory_op(inst.opcode),
        access_fits(c_start, inst.addr, width(inst.opcode), address_size),
    ensures
        request_progress(s1, c1, m, inst, address_size, c_start, view0),
{
    let a = inst.addr;
    let op = inst.opcode;
    let n = width(op);
    let data = store_data(op, inst.value@);
    let bs = c0.block_size();
    law_address_split(c0, a);
    assert(is_store(op) ==> data.len() == n);
    if c0.hits(a) {
        let w = c0.first_hit_way(a);
        let set = c0.set_of(a) as int;
        let o = c0.offset_of(a) as int;
        assert(c0@[w].len() == c0.num_sets());
        let line = c0@[w][set];
        assert(line.blocks.len() == bs);
        assert(line.is_valid);
        let r = run_len(bs as int, o, n as int);
        let u = n - r;
        assert(c0.first_hit(a, w));
        lemma_held_address(c0, a, w);
        if is_store(op) {
            lemma_store_writes_data(c0, c1, w, a, data, m, address_size);
            assert(data.take(0) =~= Seq::<u8>::empty());
            assert(stored(view0, a as int, data.take(0)) =~= view0);
            assert(data.take(r).take(r) =~= data.take(r));
        } else {
            lemma_same_lines_same_data(c0, c1, m, address_size);
            lemma_load_reads_data(c0, w, a, n, m, address_size);
            assert(s1.fetch_value@.take(r) =~= view0.subrange(a as int, a + r));
        }
        if u > 0 {
            lemma_next_start(c0, a);
            assert(a + r == c0.block_base(a) + bs);
        } else {
            assert(r == n);
        }
    } else {
        assert(c1 == c0);
    }
}

/// WRITE_BACK keeps a request on its way.
proof fn lemma_write_back_progress(
    s0: CacheController,
    s1: CacheController,
    c0: Cache,
    c1: Cache,
    m0: Seq<u8>,
    m1: Seq<u8>,
    inst: Instruction,
    address_size: u32,
    log0: Seq<Event>,
    log1: Seq<Event>,
    c_start: Cache,
    view0: Seq<u8>,
)
    requires
        request_progress(s0, c0, m0, inst, address_size, c_start, view0),
        s0.state == State::WRITE_BACK,
        CacheController::write_back_post(s0, s1, c0, c1, m0, m1, inst, address_size, log0, log1),
    ensures
        request_progress(s1, c1, m1, inst, address_size, c_start, view0),
{
    let a = inst.addr;
    lemma_write_back_keeps_data(c0, c1, s0.victim as int, a, m0, m1, address_size);
    assert(!c1.hits(a)) by {
        if c1.hits(a) {
            let w = choose|w: int| 0 <= w < c1@.len() && #[trigger] c1.way_hits(w, a);
            assert(c0.way_hits(w, a));
        }
    }
}

/// ALLOCATE of a missing block keeps a request on its way.
proof fn lemma_fill_progress(
    s0: CacheController,
    s1: CacheController,
    c0: Cache,
    c1: Cache,
    m0: Seq<u8>,
    m1: Seq<u8>,
    inst: Instruction,
    address_size: u32,
    log0: Seq<Event>,
    log1: Seq<Event>,
    c_start: Cache,
    view0: Seq<u8>,
)
    requires
        request_progress(s0, c0, m0, inst, address_size, c_start, view0),
        s0.state == State::ALLOCATE,
        s0.unfinished == 0,
        CacheController::allocate_post(s0, s1, c0, c1, m0, m1, inst, address_size, log0, log1),
        is_memory_op(inst.opcode),
        access_fits(c_start, inst.addr, width(inst.opcode), address_size),
    ensures
        request_progress(s1, c1, m1, inst, address_size, c_start, view0),
{
    lemma_fill_keeps_data(c0, c1, s0.victim as int, inst.addr, m0, address_size);
}

/// Finishing a request in the next block keeps it on its way, and completes it.
proof fn lemma_boundary_progress(
    s0: CacheController,
    s1: CacheController,
    c0: Cache,
    c1: Cache,
    m0: Seq<u8>,
    m1: Seq<u8>,
    inst: Instruction,
    address_size: u32,
    log0: Seq<Event>,
    log1: Seq<Event>,
    c_start: Cache,
    view0: Seq<u8>,
)
    requires
        request_progress(s0, c0, m0, inst, address_size, c_start, view0),
        s0.state == State::ALLOCATE,
        s0.unfinished > 0,
        CacheController::allocate_post(s0, s1, c0, c1, m0, m1, inst, address_size, log0, log1),
        is_memory_op(inst.opcode),
        access_fits(c_start, inst.addr, width(inst.opcode), address_size),
    ensures
        request_progress(s1, c1, m1, inst, address_size, c_start, view0),
{
    let a = inst.addr;
    let op = inst.opcode;
    let n = width(op);
    let data = store_data(op, inst.value@);
    let bd = s0.bytes_done as int;
    let u = s0.unfinished as nat;
    let next = (a + bd) as u32;
    let tail = data.subrange(bd, bd + u);
    let bs = c0.block_size();
    let f0 = s0.fetch_value@;
    assert(is_store(op) ==> data.len() == n);
    assert(next < address_size);
    if is_store(op) {
        lemma_stored_in_two(view0, a as int, data, bd);
        assert(data.take(n as int) =~= data);
        assert(tail.take(u as int) =~= tail);
    }
    if c0.hits(next) {
        let w = c0.first_hit_way(next);
        let set = c0.set_of(next) as int;
        law_address_split(c0, next);
        assert(c0.first_hit(next, w));
        if is_store(op) {
            lemma_store_writes_data(c0, c1, w, next, tail, m0, address_size);
        } else {
            lemma_same_lines_same_data(c0, c1, m0, address_size);
            lemma_load_reads_data(c0, w, next, u, m0, address_size);
            assert forall|j: int| 0 <= j < n implies #[trigger] s1.fetch_value@.take(n as int)[j]
                == view0.subrange(a as int, a + n)[j] by {
                if j < bd {
                    assert(f0.take(bd)[j] == view0.subrange(a as int, a + bd)[j]);
                }
            }
            assert(s1.fetch_value@.take(n as int) =~= view0.subrange(a as int, a + n));
        }
    } else {
        let v = s1.victim as int;
        let mw = written_back(c0, v, next, m0, address_size);
        let cw = choose|cw: Cache| #[trigger] cw.same_config(c0) && cw.wf() && cw@ == lines_written_back(c0, v, next);
        lemma_write_back_keeps_data(c0, cw, v, next, m0, mw, address_size);
        assert(!cw.hits(next)) by {
            if cw.hits(next) {
                let w = choose|w: int| 0 <= w < cw@.len() && #[trigger] cw.way_hits(w, next);
                assert(c0.way_hits(w, next));
            }
        }
        let set = c0.set_of(next) as int;
        if is_store(op) {
            let cm = choose|cm: Cache| #[trigger] cm.same_config(c1) && cm.wf() && cm@
                == placed(lines_written_back(c0, v, next), v, set, fetched_line(c0, mw, next, address_size));
            lemma_fill_keeps_data(cw, cm, v, next, mw, address_size);
            lemma_store_writes_data(cm, c1, v, next, tail, mw, address_size);
        } else {
            lemma_fill_keeps_data(cw, c1, v, next, mw, address_size);
            lemma_load_reads_data(c1, v, next, u, mw, address_size);
            law_address_split(c0, next);
            assert(cw@[v].len() == cw.num_sets());
            assert(c1@[v][set] == fetched_line(c0, mw, next, address_size));
            let line = fetched_line(c0, mw, next, address_size);
            assert(data_view(c1, mw, address_size) == view0);
            assert(c1.offset_of(next) == 0);
            assert forall|j: int| 0 <= j < n implies #[trigger] s1.fetch_value@.take(n as int)[j]
                == view0.subrange(a as int, a + n)[j] by {
                if j < bd {
                    assert(f0.take(bd)[j] == view0.subrange(a as int, a + bd)[j]);
                } else {
                    assert(s1.fetch_value@[j] == fetched(line.blocks, 0, u)[j - bd]);
                    assert(fetched(c1@[v][c1.set_of(next) as int].blocks, 0, u)[j - bd] == data_view(c1, mw, address_size)[next + (j - bd)]);
                }
            }
            assert(s1.fetch_value@.take(n as int) =~= view0.subrange(a as int, a + n));
        }
    }
}

/// One step of the state machine keeps a request on its way.
proof fn lemma_step_progress(
    s0: CacheController,
    s1: CacheController,
    c0: Cache,
    c1: Cache,
    m0: Seq<u8>,
    m1: Seq<u8>,
    inst: Instruction,
    address_size: u32,
    log0: Seq<Event>,
    log1: Seq<Event>,
    c_start: Cache,
    view0: Seq<u8>,
)
    requires
        request_progress(s0, c0, m0, inst, address_size, c_start, view0),
        CacheController::step_post(s0, s1, c0, c1, m0, m1, inst, address_size, log0, log1),
        is_memory_op(inst.opcode),
        access_fits(c_start, inst.addr, width(inst.opcode), address_size),
    ensures
        request_progress(s1, c1, m1, inst, address_size, c_start, view0),
{
    match s0.state {
        State::IDLE => {},
        State::COMPARE_TAG => {
            lemma_compare_tag_progress(s0, s1, c0, c1, m0, inst, address_size, log0, log1, c_start, view0);
        },
        State::WRITE_BACK => {
            lemma_write_back_progress(s0, s1, c0, c1, m0, m1, inst, address_size, log0, log1, c_start, view0);
        },
        State::ALLOCATE => {
            if s0.unfinished == 0 {
                lemma_fill_progress(s0, s1, c0, c1, m0, m1, inst, address_size, log0, log1, c_start, view0);
            } else {
                lemma_boundary_progress(s0, s1, c0, c1, m0, m1, inst, address_size, log0, log1, c_start, view0);
            }
        },
    }
}

/// Every snapshot of a run of a request is on its way.
proof fn lemma_run_progress(trace: Seq<Snapshot>, inst: Instruction, address_size: u32, c_start: Cache, view0: Seq<u8>, k: int)
    requires
        run(trace, inst, address_size),
        0 <= k < trace.len(),
        request_progress(trace[0].0, trace[0].1, trace[0].2, inst, address_size, c_start, view0),
        is_memory_op(inst.opcode),
        access_fits(c_start, inst.addr, width(inst.opcode), address_size),
    ensures
        request_progress(trace[k].0, trace[k].1, trace[k].2, inst, address_size, c_start, view0),
    decreases k,
{
    if k > 0 {
        lemma_run_progress(trace, inst, address_size, c_start, view0, k - 1);
        let p = trace[k - 1];
        let q = trace[k];
        lemma_step_progress(p.0, q.0, p.1, q.1, p.2, q.2, inst, address_size, p.3, q.3, c_start, view0);
    }
}

/// No data is lost and a load reads what was written: if the cache is coherent with memory
/// when a load or store starts, and the access touches no more than two blocks, both inside
/// the address space, then whatever ways are drawn along the way, when the request is done
/// the cache is still coherent, every byte as the program sees it (the cached copy where a
/// line holds it, else memory) is what it was, except that a store has written its bytes
/// (the low byte for `sb`, the low half-word for `sh`, the word for `sw`) from its address
/// on, and a load has read the bytes seen at its address.
pub proof fn law_request_keeps_data(trace: Seq<Snapshot>, inst: Instruction, address_size: u32)
    requires
        run(trace, inst, address_size),
        trace[0].0.state == State::COMPARE_TAG,
        trace[0].0.wf(),
        trace.last().0.state == State::IDLE,
        coherent(trace[0].1, trace[0].2, address_size),
        is_memory_op(inst.opcode),
        access_fits(trace[0].1, inst.addr, width(inst.opcode), address_size),
    ensures
        ({
            let view0 = data_view(trace[0].1, trace[0].2, address_size);
            let a = inst.addr as int;
            let n = width(inst.opcode) as int;
            let end = trace.last();
            &&& coherent(end.1, end.2, address_size)
            &&& data_view(end.1, end.2, address_size) == if is_store(inst.opcode) {
                stored(view0, a, store_data(inst.opcode, inst.value@))
            } else {
                view0
            }
            &&& !is_store(inst.opcode) ==> end.0.fetch_value@.take(n) == view0.subrange(a, a + n)
        }),
{
    let start = trace[0];
    let view0 = data_view(start.1, start.2, address_size);
    let a = inst.addr as int;
    let n = width(inst.opcode) as int;
    let data = store_data(inst.opcode, inst.value@);
    assert(stored(view0, a, data.take(0)) =~= view0);
    assert(start.0.fetch_value@.take(0) =~= view0.subrange(a, a));
    lemma_run_progress(trace, inst, address_size, start.1, view0, trace.len() - 1);
    assert(is_store(inst.opcode) ==> data.take(n) =~= data);
}

/// An empty cache is coherent with any memory that covers the address space, and the program
/// sees memory as it is.
pub proof fn law_empty_cache_is_coherent(c: Cache, memory: Seq<u8>, address_size: u32)
    requires
        c.wf(),
        forall|w: int, s: int| 0 <= w < c@.len() && 0 <= s < c@[w].len() ==> !(#[trigger] c@[w][s]).is_valid,
        0 < address_size <= memory.len(),
    ensures
        coherent(c, memory, address_size),
        data_view(c, memory, address_size) == memory.take(address_size as int),
{
    assert forall|x: int| 0 <= x < address_size implies #[trigger] data_view(c, memory, address_size)[x]
        == memory.take(address_size as int)[x] by {
        let a = x as u32;
        law_address_split(c, a);
        if c.hits(a) {
            let w = choose|w: int| 0 <= w < c@.len() && #[trigger] c.way_hits(w, a);
            assert(c@[w].len() == c.num_sets());
        }
    }
    assert(data_view(c, memory, address_size) =~= memory.take(address_size as int));
}

} // verus!
