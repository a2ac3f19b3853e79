use vstd::prelude::*;
use vstd::arithmetic::power2::{pow2, lemma_pow2_pos, lemma_pow2_adds};
use vstd::arithmetic::div_mod::{lemma_fundamental_div_mod, lemma_div_denominator, lemma_mod_bound};
use vstd::arithmetic::mul::{lemma_mul_is_associative, lemma_mul_is_distributive_add};
use vstd::bits::{lemma_u32_shr_is_div, lemma_u32_shl_is_mul, lemma_u32_low_bits_mask_is_mod, lemma_u32_pow2_no_overflow};
use crate::cache::{Cache, LineView, block_fits, fetched, mem_block, mem_slot, mem_store, run_len, stored};

verus! {

/// An address is its tag, its set and its offset put back together:
/// `address == tag * 2^(offset bits + index bits) + set * 2^(offset bits) + offset`,
/// with the set below the number of sets and the offset below the block size; and the base
/// that `evict_dirty` rebuilds from a tag and a set, applied to an address's own tag and set,
/// is the first address of that address's block.
pub proof fn law_address_split(c: Cache, address: u32)
    requires
        c.byte_offset_bits + c.index_bits < 32,
    ensures
        address == c.tag_of(address) * pow2((c.byte_offset_bits + c.index_bits) as nat)
            + c.set_of(address) * c.block_size() + c.offset_of(address),
        c.set_of(address) < c.num_sets(),
        c.offset_of(address) < c.block_size(),
        c.rebuilt_base(c.tag_of(address), c.set_of(address)) == c.block_base(address),
{
    let b = c.byte_offset_bits;
    let k = c.index_bits;
    let bs = c.block_size() as int;
    let ns = c.num_sets() as int;
    let a = address as int;
    lemma_pow2_pos(b as nat);
    lemma_pow2_pos(k as nat);
    lemma_pow2_adds(b as nat, k as nat);
    lemma_u32_pow2_no_overflow(b as nat);
    lemma_u32_pow2_no_overflow(k as nat);
    lemma_u32_pow2_no_overflow((b + k) as nat);
    lemma_fundamental_div_mod(a, bs);
    lemma_fundamental_div_mod(a / bs, ns);
    lemma_div_denominator(a, bs, ns);
    lemma_mod_bound(a, bs);
    lemma_mod_bound(a / bs, ns);
    let q = a / bs;
    assert(a == bs * (ns * (q / ns) + q % ns) + a % bs);
    lemma_mul_is_distributive_add(bs, ns * (q / ns), q % ns);
    lemma_mul_is_associative(bs, ns, q / ns);
    assert(a == (q / ns) * (bs * ns) + (q % ns) * bs + a % bs) by (nonlinear_arith)
        requires
            a == bs * (ns * (q / ns)) + bs * (q % ns) + a % bs,
            bs * (ns * (q / ns)) == (bs * ns) * (q / ns),
    ;
    // The rebuilt base in bit form.
    let t = c.tag_of(address);
    let s = c.set_of(address);
    lemma_u32_shr_is_div(address, (b + k) as u32);
    lemma_u32_shr_is_div(address, b);
    lemma_u32_shl_is_mul(1u32, k);
    lemma_u32_shl_is_mul(1u32, b);
    lemma_u32_low_bits_mask_is_mod(address >> b, k as nat);
    lemma_u32_low_bits_mask_is_mod(address, b as nat);
    assert(t == address >> ((b + k) as u32));
    assert(((1u32 << k) - 1) as u32 == vstd::bits::low_bits_mask(k as nat) as u32);
    assert(s == (address >> b) & (((1u32 << k) - 1) as u32));
    assert(((address >> ((b + k) as u32)) << ((b + k) as u32)) | (((address >> b) & (((1u32 << k) - 1) as u32)) << b)
        == address & !(((1u32 << b) - 1) as u32)) by (bit_vector)
        requires
            b + k < 32,
    ;
    assert(address & !(((1u32 << b) - 1) as u32) == address - (address & (((1u32 << b) - 1) as u32)))
        by (bit_vector);
    assert(((1u32 << b) - 1) as u32 == vstd::bits::low_bits_mask(b as nat) as u32);
}

/// Reading back what a store wrote: if `d` is the cache `c` after a store of `data` at
/// `address` (into the first way `w` that holds the block, as `sb`, `sh` and `sw` do), then
/// `w` is still the first way that holds the block, and a load of `data.len()` bytes from
/// `address` reads each stored byte back, as far as the block reaches.
pub proof fn law_load_after_store(c: Cache, d: Cache, address: u32, data: Seq<u8>, w: int)
    requires
        c.wf(),
        c.first_hit(address, w),
        d.same_config(c),
        d@ == c@.update(w, c@[w].update(c.set_of(address) as int, LineView {
            is_dirty: true,
            blocks: stored(c@[w][c.set_of(address) as int].blocks, c.offset_of(address) as int, data),
            ..c@[w][c.set_of(address) as int]
        })),
    ensures
        d.first_hit(address, w),
        forall|i: int| 0 <= i < run_len(c.block_size() as int, c.offset_of(address) as int, data.len() as int)
            ==> #[trigger] fetched(d@[w][d.set_of(address) as int].blocks, d.offset_of(address) as int, data.len())[i] == data[i],
{
    let s = c.set_of(address) as int;
    law_address_split(c, address);
    assert(c@[w].len() == c.num_sets());
    assert(c@[w][s].blocks.len() == c.block_size());
    assert forall|v: int| 0 <= v < w implies !#[trigger] d.way_hits(v, address) by {
        assert(!c.way_hits(v, address));
    }
}

/// A block put into a way makes its address hit: if `d` is the cache `c` with a valid line
/// tagged with `address`'s tag put into `way` at `address`'s set (as `place_block` and
/// `load_block` do), then `d` holds `address`'s block; and if `c` held it nowhere, `way` is
/// the first way that holds it.
pub proof fn law_hit_after_fill(c: Cache, d: Cache, address: u32, line: LineView, way: int)
    requires
        c.wf(),
        0 <= way < c.associativity,
        line.is_valid,
        line.tag == c.tag_of(address),
        d.same_config(c),
        d@ == c@.update(way, c@[way].update(c.set_of(address) as int, line)),
    ensures
        d.hits(address),
        !c.hits(address) ==> d.first_hit(address, way),
{
    law_address_split(c, address);
    assert(c@[way].len() == c.num_sets());
    assert(d.way_hits(way, address));
    if !c.hits(address) {
        assert forall|v: int| 0 <= v < way implies !#[trigger] d.way_hits(v, address) by {
            assert(!c.way_hits(v, address));
        }
    }
}

/// Two bytes of one block, fewer than `address_size` apart, land in different memory cells.
proof fn lemma_slots_differ(base: int, i: int, j: int, address_size: int)
    requires
        0 <= i < j,
        j - i < address_size,
    ensures
        mem_slot(base, i, address_size) != mem_slot(base, j, address_size),
{
    let x = base + i;
    let y = base + j;
    lemma_fundamental_div_mod(x, address_size);
    lemma_fundamental_div_mod(y, address_size);
    if x % address_size == y % address_size {
        assert(y - x == address_size * (y / address_size - x / address_size)) by (nonlinear_arith)
            requires
                x == address_size * (x / address_size) + x % address_size,
                y == address_size * (y / address_size) + y % address_size,
                x % address_size == y % address_size,
        ;
        assert(false) by (nonlinear_arith)
            requires
                y - x == address_size * (y / address_size - x / address_size),
                0 < y - x < address_size,
        ;
    }
}

/// What storing a block leaves in memory: every cell keeps its length, and a byte stored
/// from position `i < n` sits in its cell as long as no later byte wrapped onto it.
proof fn lemma_mem_store_reads(memory: Seq<u8>, base: int, data: Seq<u8>, n: nat, address_size: int)
    requires
        n <= address_size,
        data.len() >= n,
        block_fits(memory.len() as int, base, n, address_size),
    ensures
        mem_store(memory, base, data, n, address_size).len() == memory.len(),
        forall|i: int| 0 <= i < n ==> #[trigger] mem_store(memory, base, data, n, address_size)[mem_slot(base, i, address_size)] == data[i],
    decreases n,
{
    if n > 0 {
        let m = (n - 1) as nat;
        assert(block_fits(memory.len() as int, base, m, address_size)) by {
            assert forall|i: int| 0 <= i < m implies #[trigger] mem_slot(base, i, address_size) < memory.len() by {
                assert(mem_slot(base, i, address_size) < memory.len());
            }
        }
        lemma_mem_store_reads(memory, base, data, m, address_size);
        assert(mem_slot(base, m as int, address_size) < memory.len());
        assert forall|i: int| 0 <= i < n implies #[trigger] mem_store(memory, base, data, n, address_size)[mem_slot(base, i, address_size)] == data[i] by {
            if i < m {
                lemma_slots_differ(base, i, m as int, address_size);
                assert(mem_slot(base, i, address_size) < memory.len());
            }
        }
    }
}

/// Memory gives back a stored block: after the first `n` bytes of `data` are stored at
/// `base` (as `write_block` and `evict_dirty` do), the block at `base` (as `request_block`
/// reads it) is those `n` bytes, provided the block is no larger than the address space.
pub proof fn law_memory_round_trip(memory: Seq<u8>, base: int, data: Seq<u8>, n: nat, address_size: int)
    requires
        n <= address_size,
        data.len() >= n,
        block_fits(memory.len() as int, base, n, address_size),
    ensures
        mem_block(mem_store(memory, base, data, n, address_size), base, n, address_size) == data.take(n as int),
{
    lemma_mem_store_reads(memory, base, data, n, address_size);
    assert(mem_block(mem_store(memory, base, data, n, address_size), base, n, address_size) =~= data.take(n as int));
}

/// A written-back block is fetched back unchanged: if the first dirty line of `address`'s set
/// holds `address`'s block, then after `evict_dirty` stores it at the base it rebuilds, the
/// block that `request_block` reads for `address` is that line's data.
pub proof fn law_fetch_after_write_back(c: Cache, address: u32, w: int, memory: Seq<u8>, address_size: int)
    requires
        c.wf(),
        c.first_dirty(address, w),
        c@[w][c.set_of(address) as int].tag == c.tag_of(address),
        c.block_size() <= address_size,
        block_fits(memory.len() as int, c.block_base(address) as int, c.block_size(), address_size),
    ensures
        ({
            let line = c@[w][c.set_of(address) as int];
            let base = c.rebuilt_base(line.tag, c.set_of(address));
            mem_block(
                mem_store(memory, base as int, line.blocks, c.block_size(), address_size),
                c.block_base(address) as int,
                c.block_size(),
                address_size,
            ) == line.blocks
        }),
{
    let s = c.set_of(address) as int;
    law_address_split(c, address);
    assert(c@[w].len() == c.num_sets());
    assert(c@[w][s].blocks.len() == c.block_size());
    law_memory_round_trip(memory, c.block_base(address) as int, c@[w][s].blocks, c.block_size(), address_size);
    assert(c@[w][s].blocks.take(c.block_size() as int) =~= c@[w][s].blocks);
}

} // verus!
