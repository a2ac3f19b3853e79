use vstd::prelude::*;
use rand::Rng;
use vstd::arithmetic::power2::{
    pow2, lemma_pow2_pos, lemma_pow2_adds, lemma_pow2_strictly_increases, lemma2_to64,
};
use vstd::bits::{
    lemma_u32_shr_is_div, lemma_u32_shl_is_mul, lemma_u32_low_bits_mask_is_mod,
    lemma_u32_pow2_no_overflow, lemma_usize_pow2_no_overflow, lemma_usize_shl_is_mul,
};

verus! {

/// One line of the cache: flags, the tag of the block it holds, and the block's bytes.
#[derive(Clone, Debug)]
pub struct CacheLine {
    pub is_valid: bool,
    pub is_dirty: bool,
    pub tag: u32,
    pub blocks: Vec<u8>,
}

impl CacheLine {
    /// An invalid, clean line with tag 0 and a block of `2^byte_offset` zero bytes.
    pub fn new(byte_offset: u32) -> (r: Self)
        requires
            byte_offset < usize::BITS,
        ensures
            r@ == empty_line(byte_offset),
    {
        proof {
            lemma_usize_pow2_no_overflow(byte_offset as nat);
            lemma_usize_shl_is_mul(1usize, byte_offset as usize);
        }
        let n = 1usize << byte_offset;
        let mut blocks: Vec<u8> = Vec::new();
        let mut i: usize = 0;
        while i < n
            invariant
                i <= n,
                n == pow2(byte_offset as nat),
                blocks@ == Seq::new(i as nat, |j: int| 0u8),
            decreases n - i,
        {
            blocks.push(0);
            i += 1;
            assert(blocks@ =~= Seq::new(i as nat, |j: int| 0u8));
        }
        CacheLine { is_valid: false, is_dirty: false, tag: 0, blocks }
    }
}

/// The line a new cache starts with: invalid, clean, tag 0, `2^byte_offset` zero bytes.
pub open spec fn empty_line(byte_offset: u32) -> LineView {
    LineView {
        is_valid: false,
        is_dirty: false,
        tag: 0,
        blocks: Seq::new(pow2(byte_offset as nat), |j: int| 0u8),
    }
}

/// The number of bits it takes to write every address below `n`: the least `w` with
/// `2^w >= n`.
pub open spec fn address_bits(n: nat) -> nat
    decreases n,
{
    if n <= 1 {
        0
    } else {
        1 + address_bits((n / 2 + n % 2) as nat)
    }
}

/// `2^address_bits(n)` reaches `n`, and `2^(address_bits(n) - 1)` does not.
pub proof fn lemma_address_bits(n: nat)
    ensures
        pow2(address_bits(n)) >= n,
        address_bits(n) > 0 ==> pow2((address_bits(n) - 1) as nat) < n,
        address_bits(n) <= 32 || n > u32::MAX,
    decreases n,
{
    lemma2_to64();
    if n > 1 {
        let m = (n / 2 + n % 2) as nat;
        lemma_address_bits(m);
        vstd::arithmetic::power2::lemma_pow2_unfold(address_bits(n));
        if address_bits(m) > 0 {
            vstd::arithmetic::power2::lemma_pow2_unfold(address_bits(m));
        }
        if n <= u32::MAX && address_bits(n) > 32 {
            assert(address_bits(m) > 31);
            lemma_pow2_strictly_increases(31, (address_bits(m) - 1) as nat);
        }
    }
}

/// The address width of an address space of `n` bytes.
fn address_width(n: u32) -> (r: u32)
    ensures
        r == address_bits(n as nat),
{
    let mut x = n;
    let mut w: u32 = 0;
    proof { lemma_address_bits(n as nat); }
    while x > 1
        invariant
            address_bits(n as nat) == w + address_bits(x as nat),
            address_bits(n as nat) <= 32,
        decreases x,
    {
        x = x / 2 + x % 2;
        w = w + 1;
    }
    w
}

/// `x` is a power of two.
pub open spec fn is_power_of_two(x: u32) -> bool {
    exists|k: nat| pow2(k) == x
}

/// What a cache line holds, as mathematical values.
pub ghost struct LineView {
    pub is_valid: bool,
    pub is_dirty: bool,
    pub tag: u32,
    pub blocks: Seq<u8>,
}

impl View for CacheLine {
    type V = LineView;

    open spec fn view(&self) -> LineView {
        LineView {
            is_valid: self.is_valid,
            is_dirty: self.is_dirty,
            tag: self.tag,
            blocks: self.blocks@,
        }
    }
}

/// A set-associative cache: `cache_lines[way][set]`, `2^index_bits` sets per way and
/// `2^byte_offset_bits` bytes per block. An address splits into its tag (the high bits),
/// its set (the next `index_bits` bits) and its offset in the block (the low
/// `byte_offset_bits` bits).
pub struct Cache {
    pub byte_offset_bits: u32,
    pub index_bits: u32,
    pub tag_bits: u32,
    pub data_size: u32,
    pub associativity: u32,
    pub cache_lines: Vec<Vec<CacheLine>>,
}

/// A block of at most 2^31 bytes.
proof fn lemma_block_size_bound(bits: u32)
    requires
        bits < 32,
    ensures
        pow2(bits as nat) <= 0x8000_0000,
{
    lemma2_to64();
    if bits < 31 {
        lemma_pow2_strictly_increases(bits as nat, 31);
    }
}

/// Clearing the low `b` bits of `a` leaves room to add any `i` below `2^b`.
proof fn lemma_aligned_add(a: u32, b: u32, i: u32)
    requires
        b < 32,
        i <= ((1u32 << b) - 1) as u32,
    ensures
        (a & !(((1u32 << b) - 1) as u32)) as int + i as int <= u32::MAX,
        (a & !(((1u32 << b) - 1) as u32)) == a - (a & (((1u32 << b) - 1) as u32)),
{
    assert((a & !(((1u32 << b) - 1) as u32)) as int + i as int <= u32::MAX) by (bit_vector)
        requires
            b < 32,
            i <= ((1u32 << b) - 1) as u32,
    ;
    assert((a & !(((1u32 << b) - 1) as u32)) == a - (a & (((1u32 << b) - 1) as u32)))
        by (bit_vector);
}

/// The base address rebuilt from a tag and a set has its low `b` bits clear, so any
/// offset below `2^b` can be added to it.
proof fn lemma_rebuilt_base_add(t: u32, s: u32, b: u32, k: u32, i: u32)
    requires
        b + k < 32,
        s < (1u32 << k),
        i <= ((1u32 << b) - 1) as u32,
    ensures
        ((t << ((b + k) as u32)) | (s << b)) as int + i as int <= u32::MAX,
{
    assert(((t << ((b + k) as u32)) | (s << b)) as int + i as int <= u32::MAX) by (bit_vector)
        requires
            b + k < 32,
            s < (1u32 << k),
            i <= ((1u32 << b) - 1) as u32,
    ;
}

/// `(1 << k) - 1` is the mask of the low `k` bits, and masking with it is taking the
/// remainder by `2^k`.
proof fn lemma_mask(x: u32, k: u32)
    requires
        k < 32,
    ensures
        (1u32 << k) == pow2(k as nat),
        1 <= (1u32 << k),
        x & (((1u32 << k) - 1) as u32) == x % (pow2(k as nat) as u32),
        x % (pow2(k as nat) as u32) == x as nat % pow2(k as nat),
{
    lemma_u32_pow2_no_overflow(k as nat);
    lemma_u32_shl_is_mul(1u32, k);
    lemma_u32_low_bits_mask_is_mod(x, k as nat);
}

/// Lines of every way, as mathematical values: `lines[way][set]`.
pub open spec fn lines_view(lines: Seq<Vec<CacheLine>>) -> Seq<Seq<LineView>> {
    Seq::new(lines.len(), |w: int| Seq::new(lines[w]@.len(), |s: int| lines[w]@[s]@))
}

/// Writing one line of the stored vectors updates one entry of the view.
proof fn lemma_line_write(old: Seq<Vec<CacheLine>>, new: Seq<Vec<CacheLine>>, w: int, s: int)
    requires
        0 <= w < old.len(),
        0 <= s < old[w]@.len(),
        new.len() == old.len(),
        forall|v: int| 0 <= v < old.len() && v != w ==> #[trigger] new[v] == old[v],
        new[w]@.len() == old[w]@.len(),
        forall|t: int| 0 <= t < old[w]@.len() && t != s ==> #[trigger] new[w]@[t] == old[w]@[t],
    ensures
        lines_view(new) == lines_view(old).update(w, lines_view(old)[w].update(s, new[w]@[s]@)),
{
    let a = lines_view(new);
    let b = lines_view(old).update(w, lines_view(old)[w].update(s, new[w]@[s]@));
    assert forall|v: int| 0 <= v < a.len() implies a[v] =~= b[v] by {
        if v == w {
            assert forall|t: int| 0 <= t < a[v].len() implies a[v][t] == b[v][t] by {
                if t != s {
                    assert(new[w]@[t] == old[w]@[t]);
                }
            }
        } else {
            assert(new[v] == old[v]);
        }
    }
    assert(a =~= b);
}

/// How many of the `n` bytes from `offset` on lie inside a block of `len` bytes.
pub open spec fn run_len(len: int, offset: int, n: int) -> int {
    if offset >= len {
        0
    } else if len - offset >= n {
        n
    } else {
        len - offset
    }
}

/// The `n` bytes of `blocks` from `offset` on; a byte past the end reads as 0.
pub open spec fn fetched(blocks: Seq<u8>, offset: int, n: nat) -> Seq<u8> {
    Seq::new(n, |i: int| if offset + i < blocks.len() { blocks[offset + i] } else { 0u8 })
}

/// `blocks` with `data` written from `offset` on; bytes that would fall past the end are
/// dropped.
pub open spec fn stored(blocks: Seq<u8>, offset: int, data: Seq<u8>) -> Seq<u8> {
    Seq::new(
        blocks.len(),
        |j: int| if offset <= j < offset + data.len() { data[j - offset] } else { blocks[j] },
    )
}

/// Reads up to `n` bytes of `blocks` from `offset` on, stopping at the end of the block;
/// returns them padded with zeros to `n`, and how many could not be read.
fn read_run(blocks: &Vec<u8>, offset: usize, n: usize) -> (r: (Vec<u8>, usize))
    requires
        offset + n <= usize::MAX,
    ensures
        r.0@ == fetched(blocks@, offset as int, n as nat),
        r.1 == n - run_len(blocks@.len() as int, offset as int, n as int),
{
    let mut bytes: Vec<u8> = Vec::new();
    let mut unfinished = n;
    let mut i: usize = 0;
    while i < n
        invariant
            offset + n <= usize::MAX,
            i <= n,
            i <= run_len(blocks@.len() as int, offset as int, n as int),
            bytes@ == fetched(blocks@, offset as int, n as nat).take(i as int),
            unfinished == n - i,
        ensures
            i == run_len(blocks@.len() as int, offset as int, n as int),
            bytes@ == fetched(blocks@, offset as int, n as nat).take(i as int),
            unfinished == n - i,
        decreases n - i,
    {
        if offset + i < blocks.len() {
            bytes.push(blocks[offset + i]);
            unfinished -= 1;
            i += 1;
            assert(bytes@ =~= fetched(blocks@, offset as int, n as nat).take(i as int));
        } else {
            break;
        }
    }
    let ghost k = i as int;
    while i < n
        invariant
            k <= i <= n,
            k == run_len(blocks@.len() as int, offset as int, n as int),
            bytes@ == fetched(blocks@, offset as int, n as nat).take(i as int),
        decreases n - i,
    {
        bytes.push(0);
        i += 1;
        assert(bytes@ =~= fetched(blocks@, offset as int, n as nat).take(i as int));
    }
    assert(bytes@ =~= fetched(blocks@, offset as int, n as nat));
    (bytes, unfinished)
}

/// Writes `data` into `line` from `offset` on, stopping at the end of the block; the line
/// turns dirty once a byte is written. Returns how many bytes could not be written.
fn write_run(line: &mut CacheLine, offset: usize, data: &[u8]) -> (unfinished: usize)
    requires
        offset + data@.len() <= usize::MAX,
    ensures
        final(line)@ == (LineView {
            is_dirty: old(line).is_dirty || run_len(
                old(line)@.blocks.len() as int,
                offset as int,
                data@.len() as int,
            ) > 0,
            blocks: stored(old(line)@.blocks, offset as int, data@),
            ..old(line)@
        }),
        unfinished == data@.len() - run_len(
            old(line)@.blocks.len() as int,
            offset as int,
            data@.len() as int,
        ),
{
    let n = data.len();
    let mut unfinished = n;
    let mut i: usize = 0;
    while i < n
        invariant
            n == data@.len(),
            offset + n <= usize::MAX,
            i <= n,
            i <= run_len(old(line)@.blocks.len() as int, offset as int, n as int),
            line.blocks@ == stored(old(line)@.blocks, offset as int, data@.take(i as int)),
            line.is_dirty == (old(line).is_dirty || i > 0),
            line.is_valid == old(line).is_valid,
            line.tag == old(line).tag,
            unfinished == n - i,
        ensures
            i == run_len(old(line)@.blocks.len() as int, offset as int, n as int),
            line.blocks@ == stored(old(line)@.blocks, offset as int, data@.take(i as int)),
            line.is_dirty == (old(line).is_dirty || i > 0),
            line.is_valid == old(line).is_valid,
            line.tag == old(line).tag,
            unfinished == n - i,
        decreases n - i,
    {
        if offset + i < line.blocks.len() {
            line.blocks[offset + i] = data[i];
            unfinished -= 1;
            line.is_dirty = true;
            i += 1;
            assert(line.blocks@ =~= stored(old(line)@.blocks, offset as int, data@.take(i as int)));
        } else {
            break;
        }
    }
    assert(line.blocks@ =~= stored(old(line)@.blocks, offset as int, data@));
    unfinished
}

/// The memory cell that byte `i` of a block at `base` occupies: addresses wrap around at
/// `address_size`.
pub open spec fn mem_slot(base: int, i: int, address_size: int) -> int {
    (base + i) % address_size
}

/// Every byte of an `n`-byte block at `base` lands inside a memory of `mem_len` bytes.
pub open spec fn block_fits(mem_len: int, base: int, n: nat, address_size: int) -> bool {
    &&& address_size > 0
    &&& forall|i: int| 0 <= i < n ==> #[trigger] mem_slot(base, i, address_size) < mem_len
}

/// The `n` bytes of memory that a block at `base` covers.
pub open spec fn mem_block(memory: Seq<u8>, base: int, n: nat, address_size: int) -> Seq<u8> {
    Seq::new(n, |i: int| memory[mem_slot(base, i, address_size)])
}

/// Memory after writing the first `n` bytes of `data`, in order, to the block at `base`;
/// where addresses wrap onto each other the later byte stays.
pub open spec fn mem_store(
    memory: Seq<u8>,
    base: int,
    data: Seq<u8>,
    n: nat,
    address_size: int,
) -> Seq<u8>
    decreases n,
{
    if n == 0 {
        memory
    } else {
        mem_store(memory, base, data, (n - 1) as nat, address_size).update(
            mem_slot(base, n - 1, address_size),
            data[n - 1],
        )
    }
}

/// Writes the first `n` bytes of `data` to the block at `base`, byte by byte.
fn write_run_to_memory(memory: &mut [u8], base: u32, n: u32, address_size: u32, data: &Vec<u8>)
    requires
        base + n <= u32::MAX + 1,
        block_fits(old(memory)@.len() as int, base as int, n as nat, address_size as int),
        data@.len() >= n,
    ensures
        final(memory)@ == mem_store(old(memory)@, base as int, data@, n as nat, address_size as int),
        final(memory)@.len() == old(memory)@.len(),
{
    let mut i: u32 = 0;
    while i < n
        invariant
            i <= n,
            base + n <= u32::MAX + 1,
            block_fits(old(memory)@.len() as int, base as int, n as nat, address_size as int),
            data@.len() >= n,
            memory@.len() == old(memory)@.len(),
            memory@ == mem_store(old(memory)@, base as int, data@, i as nat, address_size as int),
        decreases n - i,
    {
        assert(mem_slot(base as int, i as int, address_size as int) < memory@.len());
        memory[((base + i) as usize) % address_size as usize] = data[i as usize];
        i += 1;
    }
}

/// A number drawn uniformly from `0..bound` by the thread-local generator of `rand`
/// (`rand::thread_rng` and `Rng::gen_range`). The draw is random: all that is claimed of it
/// is that it lies in the range.
#[verifier::external_body]
fn random_below(bound: usize) -> (r: usize)
    requires
        0 < bound,
    ensures
        r < bound,
{
    rand::thread_rng().gen_range(0..bound)
}

/// `a` comes before `b` when the lines are taken way by way and within a way set by set.
pub open spec fn way_major_before(a: (usize, usize), b: (usize, usize)) -> bool {
    a.0 < b.0 || (a.0 == b.0 && a.1 < b.1)
}

/// The line at `(way, set)` of `lines` is valid and tagged `tag`.
pub open spec fn holds(lines: Seq<Seq<LineView>>, way: int, set: int, tag: u32) -> bool {
    lines[way][set].is_valid && lines[way][set].tag == tag
}

/// `way` is the first way of `lines` whose line at `set` is valid and tagged `tag`.
pub open spec fn first_holder(lines: Seq<Seq<LineView>>, set: int, tag: u32, way: int) -> bool {
    &&& 0 <= way < lines.len()
    &&& holds(lines, way, set, tag)
    &&& forall|v: int| 0 <= v < way ==> !#[trigger] holds(lines, v, set, tag)
}

/// A memory no smaller than the address space holds every block.
pub proof fn lemma_fits_in_memory(mem_len: int, base: int, n: nat, address_size: int)
    requires
        0 < address_size <= mem_len,
        0 <= base,
    ensures
        block_fits(mem_len, base, n, address_size),
{
    assert forall|i: int| 0 <= i < n implies #[trigger] mem_slot(base, i, address_size) < mem_len by {
        vstd::arithmetic::div_mod::lemma_mod_bound(base + i, address_size);
    }
}

impl View for Cache {
    type V = Seq<Seq<LineView>>;

    open spec fn view(&self) -> Seq<Seq<LineView>> {
        lines_view(self.cache_lines@)
    }
}

impl Cache {
    /// A cache of `associativity` ways, each of `2^index` sets of `2^byte_offset`-byte lines,
    /// all empty, for an address space of `address_size` bytes. `tag_bits` is what is left of
    /// the address width (the bits it takes to address `address_size` bytes) after the index
    /// and the offset.
    pub fn new(byte_offset: u32, index: u32, address_size: u32, associativity: u32) -> (r: Self)
        requires
            is_power_of_two(associativity),
            byte_offset < 32,
            index < 32,
            index + byte_offset <= address_bits(address_size as nat),
            pow2(byte_offset as nat) * pow2(index as nat) * associativity <= u32::MAX,
        ensures
            r.wf(),
            r.byte_offset_bits == byte_offset,
            r.index_bits == index,
            r.tag_bits == address_bits(address_size as nat) - index - byte_offset,
            r.data_size == pow2(byte_offset as nat) * pow2(index as nat) * associativity,
            r.associativity == associativity,
            r@ == Seq::new(
                associativity as nat,
                |w: int| Seq::new(pow2(index as nat), |s: int| empty_line(byte_offset)),
            ),
    {
        proof {
            lemma_pow2_pos(byte_offset as nat);
            lemma_pow2_pos(index as nat);
            lemma_pow2_adds(byte_offset as nat, index as nat);
            lemma2_to64();
            if byte_offset + index > 32 {
                lemma_pow2_strictly_increases(32, (byte_offset + index) as nat);
            }
            let a = pow2(byte_offset as nat);
            let b = pow2(index as nat);
            let c = associativity as int;
            assert(1 <= c) by {
                if c < 1 {
                    let k = choose|k: nat| pow2(k) == associativity;
                    lemma_pow2_pos(k);
                }
            }
            assert(a * b <= a * b * c) by (nonlinear_arith)
                requires 1 <= c, 0 < a, 0 < b;
            lemma_usize_pow2_no_overflow(index as nat);
            lemma_usize_shl_is_mul(1usize, index as usize);
            lemma_u32_pow2_no_overflow(index as nat);
            lemma_u32_shl_is_mul(1u32, index);
            lemma_u32_pow2_no_overflow(byte_offset as nat);
            lemma_u32_shl_is_mul(1u32, byte_offset);
        }
        let width = address_width(address_size);
        let sets = 1usize << index;
        let data_size = (1u32 << byte_offset) * (1u32 << index) * associativity;
        let ghost full = Seq::new(
            associativity as nat,
            |w: int| Seq::new(pow2(index as nat), |s: int| empty_line(byte_offset)),
        );
        let mut cache_lines: Vec<Vec<CacheLine>> = Vec::new();
        let mut w: usize = 0;
        while w < associativity as usize
            invariant
                sets == pow2(index as nat),
                byte_offset < 32,
                w <= associativity,
                full == Seq::new(
                    associativity as nat,
                    |w: int| Seq::new(pow2(index as nat), |s: int| empty_line(byte_offset)),
                ),
                lines_view(cache_lines@) == full.take(w as int),
            decreases associativity - w,
        {
            let mut way: Vec<CacheLine> = Vec::new();
            let mut s: usize = 0;
            while s < sets
                invariant
                    s <= sets,
                    byte_offset < 32,
                    way@.len() == s,
                    forall|j: int| 0 <= j < s ==> #[trigger] way@[j]@ == empty_line(byte_offset),
                decreases sets - s,
            {
                way.push(CacheLine::new(byte_offset));
                s += 1;
            }
            let ghost before = cache_lines@;
            cache_lines.push(way);
            w += 1;
            proof {
                assert(lines_view(before) == full.take(w - 1));
                assert forall|v: int| 0 <= v < w implies #[trigger] lines_view(cache_lines@)[v] =~= full.take(w as int)[v] by {
                    if v < w - 1 {
                        assert(cache_lines@[v] == before[v]);
                        assert(lines_view(before)[v] == full[v]);
                    }
                }
                assert(lines_view(cache_lines@) =~= full.take(w as int));
            }
        }
        assert(full.take(associativity as int) =~= full);
        let r = Cache {
            byte_offset_bits: byte_offset,
            index_bits: index,
            tag_bits: width - index - byte_offset,
            data_size,
            associativity,
            cache_lines,
        };
        proof {
            assert forall|v: int, t: int| 0 <= v < r@.len() && 0 <= t < r@[v].len() implies #[trigger] r@[v][t].blocks.len() == r.block_size() by {
                assert(r@[v] == full[v]);
            }
            assert forall|v: int| 0 <= v < r@.len() implies #[trigger] r@[v].len() == r.num_sets() by {
                assert(r@[v] == full[v]);
            }
        }
        r
    }

    /// Bytes per block.
    pub open spec fn block_size(self) -> nat {
        pow2(self.byte_offset_bits as nat)
    }

    /// Lines per way.
    pub open spec fn num_sets(self) -> nat {
        pow2(self.index_bits as nat)
    }

    /// The set an address maps to: the `index_bits` bits above the byte offset.
    pub open spec fn set_of(self, address: u32) -> u32 {
        ((address as nat / self.block_size()) % self.num_sets()) as u32
    }

    /// The tag of an address: the bits above the offset and the index.
    pub open spec fn tag_of(self, address: u32) -> u32 {
        (address as nat / pow2((self.byte_offset_bits + self.index_bits) as nat)) as u32
    }

    /// The position of an address within its block.
    pub open spec fn offset_of(self, address: u32) -> u32 {
        (address as nat % self.block_size()) as u32
    }

    /// The shape the configuration promises: the address split fits in 32 bits, there is one
    /// way per unit of associativity, `2^index_bits` sets per way and `2^byte_offset_bits`
    /// bytes per line.
    pub open spec fn wf(self) -> bool {
        &&& self.byte_offset_bits + self.index_bits < 32
        &&& 1 <= self.associativity
        &&& self.cache_lines@.len() == self.associativity
        &&& forall|w: int| 0 <= w < self@.len() ==> #[trigger] self@[w].len() == self.num_sets()
        &&& forall|w: int, s: int|
            0 <= w < self@.len() && 0 <= s < self@[w].len() ==> #[trigger] self@[w][s].blocks.len()
                == self.block_size()
    }

    /// Nothing but the lines changed.
    pub open spec fn same_config(self, other: Cache) -> bool {
        &&& self.byte_offset_bits == other.byte_offset_bits
        &&& self.index_bits == other.index_bits
        &&& self.tag_bits == other.tag_bits
        &&& self.data_size == other.data_size
        &&& self.associativity == other.associativity
    }

    /// The line at `(way, set)` holds `address`'s block.
    pub open spec fn way_hits(self, way: int, address: u32) -> bool {
        let line = self@[way][self.set_of(address) as int];
        line.is_valid && line.tag == self.tag_of(address)
    }

    /// Some way holds `address`'s block.
    pub open spec fn hits(self, address: u32) -> bool {
        exists|w: int| 0 <= w < self@.len() && #[trigger] self.way_hits(w, address)
    }

    /// `way` is the first way, in order, that holds `address`'s block.
    pub open spec fn first_hit(self, address: u32, way: int) -> bool {
        &&& 0 <= way < self@.len()
        &&& self.way_hits(way, address)
        &&& forall|v: int| 0 <= v < way ==> !#[trigger] self.way_hits(v, address)
    }

    /// The line at `(way, set of address)` is valid and dirty.
    pub open spec fn way_dirty(self, way: int, address: u32) -> bool {
        let line = self@[way][self.set_of(address) as int];
        line.is_valid && line.is_dirty
    }

    /// Some way holds a valid dirty line in `address`'s set.
    pub open spec fn set_has_dirty(self, address: u32) -> bool {
        exists|w: int| 0 <= w < self@.len() && #[trigger] self.way_dirty(w, address)
    }

    /// `way` is the first way, in order, whose line in `address`'s set is valid and dirty.
    pub open spec fn first_dirty(self, address: u32, way: int) -> bool {
        &&& 0 <= way < self@.len()
        &&& self.way_dirty(way, address)
        &&& forall|v: int| 0 <= v < way ==> !#[trigger] self.way_dirty(v, address)
    }

    pub fn index(&self, address: u32) -> (r: u32)
        requires
            self.byte_offset_bits < 32,
            self.index_bits < 32,
        ensures
            r == self.set_of(address),
    {
        let shifted = address >> self.byte_offset_bits;
        proof {
            lemma_u32_shr_is_div(address, self.byte_offset_bits);
            lemma_mask(shifted, self.index_bits);
        }
        shifted & ((1u32 << self.index_bits) - 1)
    }

    pub fn tag(&self, address: u32) -> (r: u32)
        requires
            self.byte_offset_bits + self.index_bits < 32,
        ensures
            r == self.tag_of(address),
    {
        proof {
            lemma_u32_shr_is_div(address, (self.byte_offset_bits + self.index_bits) as u32);
        }
        address >> (self.byte_offset_bits + self.index_bits)
    }

    pub fn byte_offset(&self, address: u32) -> (r: u32)
        requires
            self.byte_offset_bits < 32,
        ensures
            r == self.offset_of(address),
    {
        proof {
            lemma_mask(address, self.byte_offset_bits);
        }
        address & ((1u32 << self.byte_offset_bits) - 1)
    }

    pub fn lb(&self, address: u32) -> (r: (Option<u8>, usize))
        requires
            self.wf(),
        ensures
            !self.hits(address) ==> r == (None::<u8>, 1usize),
            forall|w: int| #[trigger] self.first_hit(address, w) ==> {
                let blocks = self@[w][self.set_of(address) as int].blocks;
                let o = self.offset_of(address) as int;
                r == if o < blocks.len() { (Some(blocks[o]), 0usize) } else { (Some(0u8), 1usize) }
            },
    {
        let set = self.index(address) as usize;
        let offset = self.byte_offset(address) as usize;
        match self.find_hit(address) {
            Some(w) => {
                proof {
                    self.lemma_first_hit_unique(address, w as int);
                    self.lemma_line(w as int, set as int);
                }
                let line = &self.cache_lines[w][set];
                if offset < line.blocks.len() {
                    (Some(line.blocks[offset]), 0)
                } else {
                    (Some(0), 1)
                }
            }
            None => (None, 1),
        }
    }

    pub fn sb(&mut self, address: u32, byte: u8) -> (r: usize)
        requires
            old(self).wf(),
        ensures
            final(self).wf(),
            final(self).same_config(*old(self)),
            !old(self).hits(address) ==> r == 1 && final(self)@ == old(self)@,
            forall|w: int| #[trigger] old(self).first_hit(address, w) ==> {
                let s = old(self).set_of(address) as int;
                let line = old(self)@[w][s];
                &&& r == 0
                &&& final(self)@ == old(self)@.update(w, old(self)@[w].update(s, LineView {
                    is_dirty: true,
                    blocks: line.blocks.update(old(self).offset_of(address) as int, byte),
                    ..line
                }))
            },
    {
        let set = self.index(address) as usize;
        let offset = self.byte_offset(address) as usize;
        match self.find_hit(address) {
            Some(w) => {
                proof {
                    self.lemma_first_hit_unique(address, w as int);
                    self.lemma_line(w as int, set as int);
                }
                let ghost old_lines = self.cache_lines@;
                self.cache_lines[w][set].blocks[offset] = byte;
                self.cache_lines[w][set].is_dirty = true;
                proof {
                    lemma_line_write(old_lines, self.cache_lines@, w as int, set as int);
                    old(self).lemma_wf_after_line_write(*self, w as int, set as int);
                }
                0
            }
            None => 1,
        }
    }

    pub fn lh(&self, address: u32) -> (r: (Option<[u8; 2]>, usize))
        requires
            self.wf(),
        ensures
            !self.hits(address) ==> r.0 is None && r.1 == 2,
            forall|w: int| #[trigger] self.first_hit(address, w) ==> {
                let blocks = self@[w][self.set_of(address) as int].blocks;
                let o = self.offset_of(address) as int;
                &&& r.0 matches Some(bytes) && bytes@ == fetched(blocks, o, 2)
                &&& r.1 == 2 - run_len(blocks.len() as int, o, 2)
            },
    {
        let set = self.index(address) as usize;
        let offset = self.byte_offset(address) as usize;
        match self.find_hit(address) {
            Some(w) => {
                proof {
                    self.lemma_first_hit_unique(address, w as int);
                    self.lemma_line(w as int, set as int);
                }
                let (v, unfinished) = read_run(&self.cache_lines[w][set].blocks, offset, 2);
                let bytes = [v[0], v[1]];
                assert(bytes@ =~= v@);
                (Some(bytes), unfinished)
            }
            None => (None, 2),
        }
    }

    pub fn lw(&self, address: u32) -> (r: (Option<[u8; 4]>, usize))
        requires
            self.wf(),
        ensures
            !self.hits(address) ==> r.0 is None && r.1 == 4,
            forall|w: int| #[trigger] self.first_hit(address, w) ==> {
                let blocks = self@[w][self.set_of(address) as int].blocks;
                let o = self.offset_of(address) as int;
                &&& r.0 matches Some(bytes) && bytes@ == fetched(blocks, o, 4)
                &&& r.1 == 4 - run_len(blocks.len() as int, o, 4)
            },
    {
        let set = self.index(address) as usize;
        let offset = self.byte_offset(address) as usize;
        match self.find_hit(address) {
            Some(w) => {
                proof {
                    self.lemma_first_hit_unique(address, w as int);
                    self.lemma_line(w as int, set as int);
                }
                let (v, unfinished) = read_run(&self.cache_lines[w][set].blocks, offset, 4);
                let bytes = [v[0], v[1], v[2], v[3]];
                assert(bytes@ =~= v@);
                (Some(bytes), unfinished)
            }
            None => (None, 4),
        }
    }

    pub fn sh(&mut self, address: u32, half_word: [u8; 2]) -> (r: usize)
        requires
            old(self).wf(),
        ensures
            final(self).wf(),
            final(self).same_config(*old(self)),
            !old(self).hits(address) ==> r == 2 && final(self)@ == old(self)@,
            forall|w: int| #[trigger] old(self).first_hit(address, w) ==> {
                let s = old(self).set_of(address) as int;
                let line = old(self)@[w][s];
                let o = old(self).offset_of(address) as int;
                &&& r == 2 - run_len(line.blocks.len() as int, o, 2)
                &&& final(self)@ == old(self)@.update(w, old(self)@[w].update(s, LineView {
                    is_dirty: true,
                    blocks: stored(line.blocks, o, half_word@),
                    ..line
                }))
            },
    {
        self.store_run(address, half_word.as_slice())
    }

    pub fn sw(&mut self, address: u32, word: [u8; 4]) -> (r: usize)
        requires
            old(self).wf(),
        ensures
            final(self).wf(),
            final(self).same_config(*old(self)),
            !old(self).hits(address) ==> r == 4 && final(self)@ == old(self)@,
            forall|w: int| #[trigger] old(self).first_hit(address, w) ==> {
                let s = old(self).set_of(address) as int;
                let line = old(self)@[w][s];
                let o = old(self).offset_of(address) as int;
                &&& r == 4 - run_len(line.blocks.len() as int, o, 4)
                &&& final(self)@ == old(self)@.update(w, old(self)@[w].update(s, LineView {
                    is_dirty: true,
                    blocks: stored(line.blocks, o, word@),
                    ..line
                }))
            },
    {
        self.store_run(address, word.as_slice())
    }

    /// Stores `data` from `address` on into the first way that holds the block, as far as
    /// the block reaches; returns how many bytes were left over.
    pub fn store_run(&mut self, address: u32, data: &[u8]) -> (r: usize)
        requires
            old(self).wf(),
            1 <= data@.len() <= 4,
        ensures
            final(self).wf(),
            final(self).same_config(*old(self)),
            !old(self).hits(address) ==> r == data@.len() && final(self)@ == old(self)@,
            forall|w: int| #[trigger] old(self).first_hit(address, w) ==> {
                let s = old(self).set_of(address) as int;
                let line = old(self)@[w][s];
                let o = old(self).offset_of(address) as int;
                &&& r == data@.len() - run_len(line.blocks.len() as int, o, data@.len() as int)
                &&& final(self)@ == old(self)@.update(w, old(self)@[w].update(s, LineView {
                    is_dirty: true,
                    blocks: stored(line.blocks, o, data@),
                    ..line
                }))
            },
    {
        let set = self.index(address) as usize;
        let offset = self.byte_offset(address) as usize;
        match self.find_hit(address) {
            Some(w) => {
                proof {
                    self.lemma_first_hit_unique(address, w as int);
                    self.lemma_line(w as int, set as int);
                    lemma_u32_pow2_no_overflow(self.byte_offset_bits as nat);
                }
                let ghost old_lines = self.cache_lines@;
                let unfinished = write_run(&mut self.cache_lines[w][set], offset, data);
                proof {
                    lemma_line_write(old_lines, self.cache_lines@, w as int, set as int);
                    old(self).lemma_wf_after_line_write(*self, w as int, set as int);
                }
                unfinished
            }
            None => data.len(),
        }
    }

    /// The first address of `address`'s block.
    pub open spec fn block_base(self, address: u32) -> u32 {
        (address - self.offset_of(address)) as u32
    }

    /// The start of the block that a line with `tag` in `set` holds, as the shifts and the
    /// bitwise or compute it in 32 bits.
    pub open spec fn rebuilt_base(self, tag: u32, set: u32) -> u32 {
        (tag << ((self.byte_offset_bits + self.index_bits) as u32)) | (set << self.byte_offset_bits)
    }

    /// The block aligned base of `address`, computed by clearing its offset bits.
    pub fn aligned_base(&self, address: u32) -> (r: u32)
        requires
            self.byte_offset_bits < 32,
        ensures
            r == self.block_base(address),
            r + self.block_size() <= u32::MAX + 1,
    {
        proof {
            lemma_mask(address, self.byte_offset_bits);
            lemma_aligned_add(address, self.byte_offset_bits, ((1u32 << self.byte_offset_bits) - 1) as u32);
        }
        address & !((1u32 << self.byte_offset_bits) - 1)
    }

    pub fn request_block(&self, address: u32, memory: &[u8], address_size: u32) -> (r: CacheLine)
        requires
            self.byte_offset_bits + self.index_bits < 32,
            block_fits(memory@.len() as int, self.block_base(address) as int, self.block_size(), address_size as int),
        ensures
            r@ == (LineView {
                is_valid: true,
                is_dirty: false,
                tag: self.tag_of(address),
                blocks: mem_block(memory@, self.block_base(address) as int, self.block_size(), address_size as int),
            }),
    {
        let block_aligned_address = self.aligned_base(address);
        let n = 1u32 << self.byte_offset_bits;
        proof { lemma_mask(address, self.byte_offset_bits); }
        let mut block: Vec<u8> = Vec::new();
        let mut i: u32 = 0;
        while i < n
            invariant
                n == self.block_size(),
                i <= n,
                block_aligned_address + n <= u32::MAX + 1,
                block_fits(memory@.len() as int, block_aligned_address as int, self.block_size(), address_size as int),
                block@ == mem_block(memory@, block_aligned_address as int, self.block_size(), address_size as int).take(i as int),
            decreases n - i,
        {
            assert(mem_slot(block_aligned_address as int, i as int, address_size as int) < memory@.len());
            block.push(memory[((block_aligned_address + i) as usize) % address_size as usize]);
            i += 1;
            assert(block@ =~= mem_block(memory@, block_aligned_address as int, self.block_size(), address_size as int).take(i as int));
        }
        assert(block@ =~= mem_block(memory@, block_aligned_address as int, self.block_size(), address_size as int));
        CacheLine { is_valid: true, is_dirty: false, tag: self.tag(address), blocks: block }
    }

    pub fn write_block(&self, address: u32, memory: &mut [u8], address_size: u32, cache_line: &CacheLine)
        requires
            self.byte_offset_bits < 32,
            block_fits(old(memory)@.len() as int, self.block_base(address) as int, self.block_size(), address_size as int),
            cache_line.blocks@.len() >= self.block_size(),
        ensures
            final(memory)@ == mem_store(old(memory)@, self.block_base(address) as int, cache_line.blocks@, self.block_size(), address_size as int),
            final(memory)@.len() == old(memory)@.len(),
    {
        let block_aligned_address = self.aligned_base(address);
        proof { lemma_mask(address, self.byte_offset_bits); }
        write_run_to_memory(memory, block_aligned_address, 1u32 << self.byte_offset_bits, address_size, &cache_line.blocks);
    }

    pub fn is_hit(&self, address: u32, is_dirty: &mut bool) -> (r: bool)
        requires
            self.wf(),
        ensures
            r == self.hits(address),
            forall|w: int| #[trigger] self.first_hit(address, w) ==> *final(is_dirty) == self@[w][self.set_of(address) as int].is_dirty,
            !r ==> *final(is_dirty) == self.set_has_dirty(address),
    {
        match self.find_hit(address) {
            Some(w) => {
                let set = self.index(address) as usize;
                proof {
                    self.lemma_first_hit_unique(address, w as int);
                    self.lemma_line(w as int, set as int);
                }
                *is_dirty = self.cache_lines[w][set].is_dirty;
                true
            }
            None => {
                // On a miss, the set's dirty occupant (if any) has to be written back first.
                *is_dirty = self.find_dirty(address).is_some();
                false
            }
        }
    }

    /// Writes the first dirty line in `address`'s set back to memory and marks it clean;
    /// returns the base address of the block written back, or `None` when the set is clean.
    pub fn evict_dirty(&mut self, address: u32, memory: &mut [u8], address_size: u32) -> (r: Option<u32>)
        requires
            old(self).wf(),
            address_size > 0,
            forall|w: int| #[trigger] old(self).first_dirty(address, w) ==> block_fits(
                old(memory)@.len() as int,
                old(self).rebuilt_base(old(self)@[w][old(self).set_of(address) as int].tag, old(self).set_of(address)) as int,
                old(self).block_size(),
                address_size as int,
            ),
        ensures
            final(self).wf(),
            final(self).same_config(*old(self)),
            final(memory)@.len() == old(memory)@.len(),
            !old(self).set_has_dirty(address) ==> r is None && final(self)@ == old(self)@ && final(memory)@ == old(memory)@,
            forall|w: int| #[trigger] old(self).first_dirty(address, w) ==> {
                let s = old(self).set_of(address);
                let line = old(self)@[w][s as int];
                let base = old(self).rebuilt_base(line.tag, s);
                &&& r == Some(base)
                &&& final(memory)@ == mem_store(old(memory)@, base as int, line.blocks, old(self).block_size(), address_size as int)
                &&& final(self)@ == old(self)@.update(w, old(self)@[w].update(s as int, LineView { is_dirty: false, ..line }))
            },
    {
        match self.find_dirty(address) {
            Some(w) => {
                proof {
                    self.lemma_first_dirty_unique(address, w as int);
                }
                self.write_back_way(w, address, memory, address_size)
            }
            None => None,
        }
    }

    /// Writes the line in `way` at `address`'s set back to memory and marks it clean, if it is
    /// valid and dirty; returns the base address of the block written back, else `None`.
    pub fn write_back_way(&mut self, way: usize, address: u32, memory: &mut [u8], address_size: u32) -> (r: Option<u32>)
        requires
            old(self).wf(),
            way < old(self).associativity,
            address_size > 0,
            old(self).way_dirty(way as int, address) ==> block_fits(
                old(memory)@.len() as int,
                old(self).rebuilt_base(old(self)@[way as int][old(self).set_of(address) as int].tag, old(self).set_of(address)) as int,
                old(self).block_size(),
                address_size as int,
            ),
        ensures
            final(self).wf(),
            final(self).same_config(*old(self)),
            final(memory)@.len() == old(memory)@.len(),
            !old(self).way_dirty(way as int, address) ==> r is None && final(self)@ == old(self)@ && final(memory)@ == old(memory)@,
            old(self).way_dirty(way as int, address) ==> {
                let s = old(self).set_of(address);
                let line = old(self)@[way as int][s as int];
                let base = old(self).rebuilt_base(line.tag, s);
                &&& r == Some(base)
                &&& final(memory)@ == mem_store(old(memory)@, base as int, line.blocks, old(self).block_size(), address_size as int)
                &&& final(self)@ == old(self)@.update(way as int, old(self)@[way as int].update(s as int, LineView { is_dirty: false, ..line }))
            },
    {
        let set = self.index(address) as usize;
        proof {
            lemma_mask(address, self.byte_offset_bits);
            lemma_pow2_pos(self.index_bits as nat);
            self.lemma_line(way as int, set as int);
        }
        if !(self.cache_lines[way][set].is_valid && self.cache_lines[way][set].is_dirty) {
            return None;
        }
        proof {
            lemma_mask(set as u32, self.index_bits);
            lemma_rebuilt_base_add(
                self.cache_lines@[way as int]@[set as int].tag,
                set as u32,
                self.byte_offset_bits,
                self.index_bits,
                ((1u32 << self.byte_offset_bits) - 1) as u32,
            );
        }
        let evict_base = (self.cache_lines[way][set].tag << (self.byte_offset_bits + self.index_bits))
            | ((set as u32) << self.byte_offset_bits);
        write_run_to_memory(memory, evict_base, 1u32 << self.byte_offset_bits, address_size, &self.cache_lines[way][set].blocks);
        let ghost old_lines = self.cache_lines@;
        self.cache_lines[way][set].is_dirty = false;
        proof {
            lemma_line_write(old_lines, self.cache_lines@, way as int, set as int);
            old(self).lemma_wf_after_line_write(*self, way as int, set as int);
        }
        Some(evict_base)
    }

    /// A way drawn at random, to be replaced.
    pub fn choose_way(&self) -> (r: usize)
        requires
            self.wf(),
        ensures
            r < self.associativity,
    {
        random_below(self.associativity as usize)
    }

    /// The valid lines, as `(way, set)` pairs, way by way and within a way set by set.
    pub fn valid_lines(&self) -> (r: Vec<(usize, usize)>)
        requires
            self.wf(),
        ensures
            forall|i: int| 0 <= i < r@.len() ==> {
                let (w, s) = #[trigger] r@[i];
                w < self@.len() && s < self.num_sets() && self@[w as int][s as int].is_valid
            },
            forall|w: int, s: int| 0 <= w < self@.len() && 0 <= s < self.num_sets() && #[trigger] self@[w][s].is_valid
                ==> r@.contains((w as usize, s as usize)),
            forall|i: int, j: int| 0 <= i < j < r@.len() ==> way_major_before(#[trigger] r@[i], #[trigger] r@[j]),
    {
        let mut r: Vec<(usize, usize)> = Vec::new();
        let mut w: usize = 0;
        while w < self.cache_lines.len()
            invariant
                self.wf(),
                w <= self@.len(),
                forall|i: int| 0 <= i < r@.len() ==> {
                    let (x, y) = #[trigger] r@[i];
                    x < w && y < self.num_sets() && self@[x as int][y as int].is_valid
                },
                forall|x: int, y: int| 0 <= x < w && 0 <= y < self.num_sets() && #[trigger] self@[x][y].is_valid
                    ==> r@.contains((x as usize, y as usize)),
                forall|i: int, j: int| 0 <= i < j < r@.len() ==> way_major_before(#[trigger] r@[i], #[trigger] r@[j]),
            decreases self@.len() - w,
        {
            proof { lemma_pow2_pos(self.index_bits as nat); self.lemma_line(w as int, 0); }
            let n = self.cache_lines[w].len();
            let mut s: usize = 0;
            let ghost start = r@.len();
            while s < n
                invariant
                    self.wf(),
                    w < self@.len(),
                    n == self.num_sets(),
                    s <= n,
                    start <= r@.len(),
                    forall|i: int| 0 <= i < r@.len() ==> {
                        let (x, y) = #[trigger] r@[i];
                        x <= w && y < self.num_sets() && self@[x as int][y as int].is_valid
                            && (i >= start ==> x == w && y < s)
                            && (i < start ==> x < w)
                    },
                    forall|x: int, y: int| 0 <= x < w && 0 <= y < self.num_sets() && #[trigger] self@[x][y].is_valid
                        ==> r@.contains((x as usize, y as usize)),
                    forall|y: int| 0 <= y < s && #[trigger] self@[w as int][y].is_valid
                        ==> r@.contains((w, y as usize)),
                    forall|i: int, j: int| 0 <= i < j < r@.len() ==> way_major_before(#[trigger] r@[i], #[trigger] r@[j]),
                decreases n - s,
            {
                proof { self.lemma_line(w as int, s as int); }
                if self.cache_lines[w][s].is_valid {
                    let ghost before = r@;
                    r.push((w, s));
                    proof {
                        assert forall|x: int, y: int| 0 <= x < w && 0 <= y < self.num_sets() && #[trigger] self@[x][y].is_valid
                            implies r@.contains((x as usize, y as usize)) by {
                            let k = choose|k: int| 0 <= k < before.len() && before[k] == (x as usize, y as usize);
                            assert(r@[k] == before[k]);
                        }
                        assert forall|y: int| 0 <= y < s + 1 && #[trigger] self@[w as int][y].is_valid
                            implies r@.contains((w, y as usize)) by {
                            if y < s {
                                let k = choose|k: int| 0 <= k < before.len() && before[k] == (w, y as usize);
                                assert(r@[k] == before[k]);
                            } else {
                                assert(r@[before.len() as int] == (w, s));
                            }
                        }
                    }
                }
                s += 1;
            }
            w += 1;
        }
        r
    }

    /// The first way whose line in `address`'s set is valid and dirty, if any.
    fn find_dirty(&self, address: u32) -> (r: Option<usize>)
        requires
            self.wf(),
        ensures
            r is None <==> !self.set_has_dirty(address),
            r matches Some(w) ==> self.first_dirty(address, w as int),
            self.set_of(address) < self.num_sets(),
    {
        let set = self.index(address) as usize;
        proof {
            lemma_mask(address, self.byte_offset_bits);
            lemma_pow2_pos(self.index_bits as nat);
        }
        let mut w: usize = 0;
        while w < self.cache_lines.len()
            invariant
                self.wf(),
                w <= self@.len(),
                set == self.set_of(address),
                set < self.num_sets(),
                forall|v: int| 0 <= v < w ==> !#[trigger] self.way_dirty(v, address),
            decreases self@.len() - w,
        {
            proof { self.lemma_line(w as int, set as int); }
            let line = &self.cache_lines[w][set];
            if line.is_valid && line.is_dirty {
                assert(self.way_dirty(w as int, address));
                return Some(w);
            }
            w += 1;
        }
        None
    }

    pub proof fn lemma_first_dirty_unique(self, address: u32, w: int)
        requires
            self.first_dirty(address, w),
        ensures
            self.set_has_dirty(address),
            forall|x: int| #[trigger] self.first_dirty(address, x) ==> x == w,
    {
        assert forall|x: int| #[trigger] self.first_dirty(address, x) implies x == w by {
            if x < w {
                assert(!self.way_dirty(x, address));
            } else if x > w {
                assert(!self.way_dirty(w, address));
            }
        }
    }

    /// Puts `cache_line` into `way` at `address`'s set, replacing what was there.
    pub fn place_block(&mut self, way: usize, address: u32, cache_line: CacheLine)
        requires
            old(self).wf(),
            way < old(self).associativity,
            cache_line.blocks@.len() == old(self).block_size(),
        ensures
            final(self).wf(),
            final(self).same_config(*old(self)),
            final(self)@ == old(self)@.update(way as int, old(self)@[way as int].update(old(self).set_of(address) as int, cache_line@)),
    {
        let index = self.index(address) as usize;
        proof {
            lemma_mask(address, self.byte_offset_bits);
            lemma_pow2_pos(self.index_bits as nat);
            self.lemma_line(way as int, index as int);
        }
        let ghost old_lines = self.cache_lines@;
        self.cache_lines[way][index] = cache_line;
        proof {
            lemma_line_write(old_lines, self.cache_lines@, way as int, index as int);
            old(self).lemma_wf_after_line_write(*self, way as int, index as int);
        }
    }

    /// Puts `cache_line` into a randomly chosen way at `address`'s set.
    pub fn load_block(&mut self, address: u32, cache_line: CacheLine)
        requires
            old(self).wf(),
            cache_line.blocks@.len() == old(self).block_size(),
        ensures
            final(self).wf(),
            final(self).same_config(*old(self)),
            exists|way: int| 0 <= way < old(self).associativity && final(self)@ == old(self)@.update(way, old(self)@[way].update(old(self).set_of(address) as int, cache_line@)),
    {
        let way = self.choose_way();
        self.place_block(way, address, cache_line);
    }

    /// The first way that holds `address`'s block, if any.
    fn find_hit(&self, address: u32) -> (r: Option<usize>)
        requires
            self.wf(),
        ensures
            r is None <==> !self.hits(address),
            r matches Some(w) ==> self.first_hit(address, w as int),
            self.set_of(address) < self.num_sets(),
            self.offset_of(address) < self.block_size(),
            self.block_size() <= 0x8000_0000,
    {
        let set = self.index(address) as usize;
        let tag = self.tag(address);
        proof {
            lemma_block_size_bound(self.byte_offset_bits);
            lemma_mask(address, self.byte_offset_bits);
            lemma_pow2_pos(self.index_bits as nat);
            lemma_pow2_pos(self.byte_offset_bits as nat);
        }
        let mut w: usize = 0;
        while w < self.cache_lines.len()
            invariant
                self.wf(),
                w <= self@.len(),
                set == self.set_of(address),
                set < self.num_sets(),
                tag == self.tag_of(address),
                self.offset_of(address) < self.block_size(),
                self.block_size() <= 0x8000_0000,
                forall|v: int| 0 <= v < w ==> !#[trigger] self.way_hits(v, address),
            decreases self@.len() - w,
        {
            proof { self.lemma_line(w as int, set as int); }
            let line = &self.cache_lines[w][set];
            if line.tag == tag && line.is_valid {
                assert(self.way_hits(w as int, address));
                return Some(w);
            }
            w += 1;
        }
        None
    }

    /// What `wf` says of one line, in terms of the stored vectors.
    pub proof fn lemma_line(self, w: int, s: int)
        requires
            self.wf(),
            0 <= w < self@.len(),
            0 <= s < self.num_sets(),
        ensures
            self.cache_lines@[w]@.len() == self.num_sets(),
            self.cache_lines@[w]@[s]@ == self@[w][s],
            self.cache_lines@[w]@[s].blocks@.len() == self.block_size(),
    {
        assert(self@[w].len() == self.num_sets());
        assert(self@[w][s].blocks.len() == self.block_size());
    }

    /// Rewriting one line with a block of the same size keeps the shape.
    proof fn lemma_wf_after_line_write(self, new: Cache, w: int, s: int)
        requires
            self.wf(),
            new.same_config(self),
            0 <= w < self@.len(),
            0 <= s < self.num_sets(),
            new@ == self@.update(w, self@[w].update(s, new@[w][s])),
            new.cache_lines@.len() == self.cache_lines@.len(),
            new@[w][s].blocks.len() == self.block_size(),
        ensures
            new.wf(),
    {
        assert forall|v: int| 0 <= v < new@.len() implies #[trigger] new@[v].len() == new.num_sets() by {
            assert(self@[v].len() == self.num_sets());
        }
        assert forall|v: int, t: int|
            0 <= v < new@.len() && 0 <= t < new@[v].len() implies #[trigger] new@[v][t].blocks.len()
                == new.block_size() by {
            assert(self@[v].len() == self.num_sets());
            if v != w || t != s {
                assert(self@[v][t].blocks.len() == self.block_size());
            }
        }
    }

    /// `first_hit` is `first_holder` on the cache's lines, at the address's set and tag.
    pub proof fn lemma_first_hit_is_first_holder(self, address: u32, w: int)
        ensures
            self.first_hit(address, w) <==> first_holder(self@, self.set_of(address) as int, self.tag_of(address), w),
    {
        let s = self.set_of(address) as int;
        let t = self.tag_of(address);
        if self.first_hit(address, w) {
            assert forall|v: int| 0 <= v < w implies !#[trigger] holds(self@, v, s, t) by {
                assert(!self.way_hits(v, address));
            }
        }
        if first_holder(self@, s, t, w) {
            assert forall|v: int| 0 <= v < w implies !#[trigger] self.way_hits(v, address) by {
                assert(!holds(self@, v, s, t));
            }
        }
    }

    /// Where some way holds `address`'s block, a first one does.
    pub proof fn first_hit_way(self, address: u32) -> (w: int)
        requires
            self.hits(address),
        ensures
            self.first_hit(address, w),
    {
        let h = choose|h: int| 0 <= h < self@.len() && #[trigger] self.way_hits(h, address);
        self.first_hit_from(address, 0, h)
    }

    proof fn first_hit_from(self, address: u32, v: int, h: int) -> (w: int)
        requires
            0 <= v <= h < self@.len(),
            self.way_hits(h, address),
            forall|u: int| 0 <= u < v ==> !#[trigger] self.way_hits(u, address),
        ensures
            self.first_hit(address, w),
        decreases h - v,
    {
        if self.way_hits(v, address) {
            v
        } else {
            self.first_hit_from(address, v + 1, h)
        }
    }

    /// Where some way of `address`'s set is dirty, a first one is.
    pub proof fn first_dirty_way(self, address: u32) -> (w: int)
        requires
            self.set_has_dirty(address),
        ensures
            self.first_dirty(address, w),
    {
        let h = choose|h: int| 0 <= h < self@.len() && #[trigger] self.way_dirty(h, address);
        self.first_dirty_from(address, 0, h)
    }

    proof fn first_dirty_from(self, address: u32, v: int, h: int) -> (w: int)
        requires
            0 <= v <= h < self@.len(),
            self.way_dirty(h, address),
            forall|u: int| 0 <= u < v ==> !#[trigger] self.way_dirty(u, address),
        ensures
            self.first_dirty(address, w),
        decreases h - v,
    {
        if self.way_dirty(v, address) {
            v
        } else {
            self.first_dirty_from(address, v + 1, h)
        }
    }

    pub proof fn lemma_first_hit_unique(self, address: u32, w: int)
        requires
            self.first_hit(address, w),
        ensures
            self.hits(address),
            forall|x: int| #[trigger] self.first_hit(address, x) ==> x == w,
    {
        assert forall|x: int| #[trigger] self.first_hit(address, x) implies x == w by {
            if x < w {
                assert(!self.way_hits(x, address));
            } else if x > w {
                assert(!self.way_hits(w, address));
            }
        }
    }
}

} // verus!
