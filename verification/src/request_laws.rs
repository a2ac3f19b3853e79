use vstd::prelude::*;
use crate::cache::{Cache, mem_block, lemma_fits_in_memory};
use crate::controller::{CacheController, Event, Snapshot, State, run, written_back};
use crate::instruction::{Instruction, OPCODE, is_store, is_memory_op};
use crate::laws::{law_address_split, law_memory_round_trip};

verus! {

/// The bookkeeping a request keeps between steps: the cache keeps its shape, nothing is
/// pending in COMPARE_TAG or WRITE_BACK, and the way chosen for a missing block is a way of
/// the cache.
pub open spec fn on_track(s: CacheController, c: Cache) -> bool {
    &&& c.wf()
    &&& (s.state == State::COMPARE_TAG || s.state == State::WRITE_BACK) ==> s.unfinished == 0
    &&& (s.state == State::WRITE_BACK || (s.state == State::ALLOCATE && s.unfinished == 0))
        ==> s.victim < c.associativity
}

/// No line of the cache is valid and dirty.
pub open spec fn all_clean(c: Cache) -> bool {
    forall|w: int, s: int|
        0 <= w < c@.len() && 0 <= s < c@[w].len() ==> !(#[trigger] c@[w][s].is_valid && c@[w][s].is_dirty)
}

/// Every valid dirty line of `c1` is, unchanged, the line `c0` has in its place.
pub open spec fn dirty_lines_kept(c0: Cache, c1: Cache) -> bool {
    forall|w: int, s: int|
        0 <= w < c1@.len() && 0 <= s < c1@[w].len() && #[trigger] c1@[w][s].is_valid && c1@[w][s].is_dirty
            ==> c1@[w][s] == c0@[w][s]
}

/// The steps of a request keep its bookkeeping on track.
proof fn lemma_step_on_track(
    s0: CacheController,
    s1: CacheController,
    c0: Cache,
    c1: Cache,
    m0: Seq<u8>,
    m1: Seq<u8>,
    inst: Instruction,
    address_size: u32,
    l0: Seq<Event>,
    l1: Seq<Event>,
)
    requires
        CacheController::step_post(s0, s1, c0, c1, m0, m1, inst, address_size, l0, l1),
        on_track(s0, c0),
    ensures
        on_track(s1, c1),
        c1.same_config(c0),
{
    if s0.state == State::COMPARE_TAG && c0.hits(inst.addr) {
        let w = c0.first_hit_way(inst.addr);
        assert(c0.first_hit(inst.addr, w));
    }
}

/// A byte load touches one byte, inside one block: whatever its address, an `lb` request
/// never has bytes pending for a next block, so it is never counted as a boundary crossing
/// and never fetches a second block.
pub proof fn law_byte_load_stays_in_its_block(trace: Seq<Snapshot>, inst: Instruction, address_size: u32)
    requires
        run(trace, inst, address_size),
        inst.opcode == OPCODE::LB,
        trace[0].0.state == State::COMPARE_TAG,
        trace[0].0.unfinished == 0,
        trace[0].1.wf(),
    ensures
        forall|k: int| 0 <= k < trace.len() ==> {
            &&& (#[trigger] trace[k]).0.unfinished == 0
            &&& trace[k].0.double_allocations == trace[0].0.double_allocations
        },
{
    assert forall|k: int| 0 <= k < trace.len() implies {
        &&& (#[trigger] trace[k]).0.unfinished == 0
        &&& trace[k].0.double_allocations == trace[0].0.double_allocations
    } by {
        lemma_byte_load_run(trace, inst, address_size, k);
    }
}

proof fn lemma_byte_load_run(trace: Seq<Snapshot>, inst: Instruction, address_size: u32, k: int)
    requires
        run(trace, inst, address_size),
        inst.opcode == OPCODE::LB,
        trace[0].0.unfinished == 0,
        trace[0].1.wf(),
        0 <= k < trace.len(),
    ensures
        trace[k].0.unfinished == 0,
        trace[k].0.double_allocations == trace[0].0.double_allocations,
        trace[k].1.wf(),
    decreases k,
{
    if k > 0 {
        lemma_byte_load_run(trace, inst, address_size, k - 1);
        let p = trace[k - 1];
        let q = trace[k];
        let a = inst.addr;
        if p.0.state == State::COMPARE_TAG && p.1.hits(a) {
            let c0 = p.1;
            let w = c0.first_hit_way(a);
            law_address_split(c0, a);
            assert(c0@[w].len() == c0.num_sets());
            assert(c0@[w][c0.set_of(a) as int].blocks.len() == c0.block_size());
            assert(c0.first_hit(a, w));
        }
    }
}

/// A load never turns a line dirty: in a run of `lb`, `lh` or `lw`, every valid dirty line
/// is the very line that was there when the request started. So loads alone never write
/// anything back: if no line was dirty at the start, memory and the write-back count stay
/// as they were.
pub proof fn law_load_dirties_nothing(trace: Seq<Snapshot>, inst: Instruction, address_size: u32)
    requires
        run(trace, inst, address_size),
        is_memory_op(inst.opcode),
        !is_store(inst.opcode),
        on_track(trace[0].0, trace[0].1),
    ensures
        forall|k: int| 0 <= k < trace.len() ==> dirty_lines_kept(trace[0].1, (#[trigger] trace[k]).1),
        all_clean(trace[0].1) ==> forall|k: int| 0 <= k < trace.len() ==> {
            &&& (#[trigger] trace[k]).2 == trace[0].2
            &&& trace[k].0.write_backs == trace[0].0.write_backs
        },
{
    assert forall|k: int| 0 <= k < trace.len() implies dirty_lines_kept(trace[0].1, (#[trigger] trace[k]).1) by {
        lemma_load_run(trace, inst, address_size, k);
    }
    if all_clean(trace[0].1) {
        assert forall|k: int| 0 <= k < trace.len() implies {
            &&& (#[trigger] trace[k]).2 == trace[0].2
            &&& trace[k].0.write_backs == trace[0].0.write_backs
        } by {
            lemma_load_run(trace, inst, address_size, k);
        }
    }
}

proof fn lemma_load_run(trace: Seq<Snapshot>, inst: Instruction, address_size: u32, k: int)
    requires
        run(trace, inst, address_size),
        is_memory_op(inst.opcode),
        !is_store(inst.opcode),
        on_track(trace[0].0, trace[0].1),
        0 <= k < trace.len(),
    ensures
        on_track(trace[k].0, trace[k].1),
        trace[k].1.same_config(trace[0].1),
        dirty_lines_kept(trace[0].1, trace[k].1),
        all_clean(trace[0].1) ==> trace[k].2 == trace[0].2 && trace[k].0.write_backs == trace[0].0.write_backs
            && all_clean(trace[k].1),
    decreases k,
{
    if k > 0 {
        lemma_load_run(trace, inst, address_size, k - 1);
        let p = trace[k - 1];
        let q = trace[k];
        lemma_step_on_track(p.0, q.0, p.1, q.1, p.2, q.2, inst, address_size, p.3, q.3);
        lemma_load_step(p.0, q.0, p.1, q.1, p.2, q.2, inst, address_size, p.3, q.3);
        let c0 = trace[0].1;
        assert forall|w: int, s: int|
            0 <= w < q.1@.len() && 0 <= s < q.1@[w].len() && #[trigger] q.1@[w][s].is_valid && q.1@[w][s].is_dirty
            implies q.1@[w][s] == c0@[w][s] by {
            assert(p.1@[w].len() == p.1.num_sets());
            assert(q.1@[w][s] == p.1@[w][s]);
        }
        if all_clean(c0) {
            assert forall|w: int, s: int| 0 <= w < q.1@.len() && 0 <= s < q.1@[w].len()
                implies !(#[trigger] q.1@[w][s].is_valid && q.1@[w][s].is_dirty) by {
                assert(p.1@[w].len() == p.1.num_sets());
                if q.1@[w][s].is_valid && q.1@[w][s].is_dirty {
                    assert(q.1@[w][s] == p.1@[w][s]);
                }
            }
        }
    }
}

/// One step of a load changes no line but to put a clean one in its place, and writes
/// memory only when a dirty line is there to write back.
proof fn lemma_load_step(
    s0: CacheController,
    s1: CacheController,
    c0: Cache,
    c1: Cache,
    m0: Seq<u8>,
    m1: Seq<u8>,
    inst: Instruction,
    address_size: u32,
    l0: Seq<Event>,
    l1: Seq<Event>,
)
    requires
        CacheController::step_post(s0, s1, c0, c1, m0, m1, inst, address_size, l0, l1),
        on_track(s0, c0),
        is_memory_op(inst.opcode),
        !is_store(inst.opcode),
    ensures
        forall|w: int, s: int| 0 <= w < c1@.len() && 0 <= s < c1@[w].len() ==>
            (#[trigger] c1@[w][s]) == c0@[w][s] || !(c1@[w][s].is_valid && c1@[w][s].is_dirty),
        all_clean(c0) ==> m1 == m0 && s1.write_backs == s0.write_backs,
{
    let a = inst.addr;
    lemma_step_on_track(s0, s1, c0, c1, m0, m1, inst, address_size, l0, l1);
    match s0.state {
        State::IDLE => {},
        State::COMPARE_TAG => {
            if c0.hits(a) {
                let w = c0.first_hit_way(a);
                assert(c0.first_hit(a, w));
            }
        },
        State::WRITE_BACK => {
            let v = s0.victim as int;
            law_address_split(c0, a);
            assert(c0@[v].len() == c0.num_sets());
            if all_clean(c0) {
                assert(!(c0@[v][c0.set_of(a) as int].is_valid && c0@[v][c0.set_of(a) as int].is_dirty));
            }
        },
        State::ALLOCATE => {
            if s0.unfinished == 0 {
                let v = s0.victim as int;
                law_address_split(c0, a);
                assert(c0@[v].len() == c0.num_sets());
            } else {
                let next = (a + s0.bytes_done) as u32;
                law_address_split(c0, next);
                if c0.hits(next) {
                    let w = c0.first_hit_way(next);
                    assert(c0.first_hit(next, w));
                } else {
                    let v = s1.victim as int;
                    assert(c0@[v].len() == c0.num_sets());
                    if all_clean(c0) {
                        assert(!(c0@[v][c0.set_of(next) as int].is_valid && c0@[v][c0.set_of(next) as int].is_dirty));
                    }
                }
            }
        },
    }
}

/// How many `WriteBack` events a log holds.
pub open spec fn write_back_events(log: Seq<Event>) -> nat
    decreases log.len(),
{
    if log.len() == 0 {
        0
    } else {
        write_back_events(log.drop_last()) + if log.last() is WriteBack { 1nat } else { 0nat }
    }
}

proof fn lemma_count_push(log: Seq<Event>, e: Event)
    ensures
        write_back_events(log.push(e)) == write_back_events(log) + if e is WriteBack { 1nat } else { 0nat },
{
    assert(log.push(e).drop_last() =~= log);
}

/// The write-back count counts write-backs: along any run of the state machine (short
/// enough that the count cannot pass `usize::MAX`) it grows by exactly the number of
/// `WriteBack` events added to the log, and memory changes only in a step that logs one.
pub proof fn law_write_backs_count_events(trace: Seq<Snapshot>, inst: Instruction, address_size: u32)
    requires
        run(trace, inst, address_size),
        trace[0].0.write_backs + trace.len() <= usize::MAX + 1,
    ensures
        forall|k: int| 0 <= k < trace.len() ==> (#[trigger] trace[k]).0.write_backs
            == trace[0].0.write_backs + write_back_events(trace[k].3) - write_back_events(trace[0].3),
        forall|k: int| 0 <= k < trace.len() - 1 && (#[trigger] trace[k]).2 != trace[k + 1].2
            ==> write_back_events(trace[k + 1].3) == write_back_events(trace[k].3) + 1,
{
    assert forall|k: int| 0 <= k < trace.len() implies (#[trigger] trace[k]).0.write_backs
        == trace[0].0.write_backs + write_back_events(trace[k].3) - write_back_events(trace[0].3) by {
        lemma_count_run(trace, inst, address_size, k);
    }
    assert forall|k: int| 0 <= k < trace.len() - 1 && (#[trigger] trace[k]).2 != trace[k + 1].2
        implies write_back_events(trace[k + 1].3) == write_back_events(trace[k].3) + 1 by {
        lemma_count_run(trace, inst, address_size, k);
        let p = trace[k];
        let q = trace[k + 1];
        lemma_count_step(p.0, q.0, p.1, q.1, p.2, q.2, inst, address_size, p.3, q.3);
    }
}

proof fn lemma_count_run(trace: Seq<Snapshot>, inst: Instruction, address_size: u32, k: int)
    requires
        run(trace, inst, address_size),
        trace[0].0.write_backs + trace.len() <= usize::MAX + 1,
        0 <= k < trace.len(),
    ensures
        trace[k].0.write_backs == trace[0].0.write_backs + write_back_events(trace[k].3) - write_back_events(trace[0].3),
        write_back_events(trace[k].3) <= write_back_events(trace[0].3) + k,
    decreases k,
{
    if k > 0 {
        lemma_count_run(trace, inst, address_size, k - 1);
        let p = trace[k - 1];
        let q = trace[k];
        lemma_count_step(p.0, q.0, p.1, q.1, p.2, q.2, inst, address_size, p.3, q.3);
    }
}

/// One step adds to the write-back count what it logs as `WriteBack` events, and writes
/// memory only in a step that logs one.
proof fn lemma_count_step(
    s0: CacheController,
    s1: CacheController,
    c0: Cache,
    c1: Cache,
    m0: Seq<u8>,
    m1: Seq<u8>,
    inst: Instruction,
    address_size: u32,
    l0: Seq<Event>,
    l1: Seq<Event>,
)
    requires
        CacheController::step_post(s0, s1, c0, c1, m0, m1, inst, address_size, l0, l1),
        s0.write_backs < usize::MAX,
    ensures
        s1.write_backs == s0.write_backs + write_back_events(l1) - write_back_events(l0),
        write_back_events(l1) <= write_back_events(l0) + 1,
        m1 != m0 ==> write_back_events(l1) == write_back_events(l0) + 1,
{
    let a = inst.addr;
    let n = l0.len();
    match s0.state {
        State::IDLE => {
            assert(l1 == l0 && s1 == s0);
        },
        State::COMPARE_TAG => {
            if c0.hits(a) {
                let w = c0.first_hit_way(a);
                assert(c0.first_hit(a, w));
                lemma_count_push(l0, l1.last());
                assert(l1 == l0.push(l1.last()));
            } else {
                lemma_count_push(l0, l1.last());
                assert(l1 == l0.push(l1.last()));
            }
        },
        State::WRITE_BACK => {
            lemma_count_push(l0, l1.last());
            assert(l1 == l0.push(l1.last()));
        },
        State::ALLOCATE => {
            if s0.unfinished == 0 {
                assert(l1 =~= l0.push(l1[n as int]));
                assert(l1[n as int] is Allocate);
                lemma_count_push(l0, l1[n as int]);
                assert(write_back_events(l1) == write_back_events(l0));
            } else {
                let next = (a + s0.bytes_done) as u32;
                if c0.hits(next) {
                    let e1 = l1[n as int];
                    let e2 = l1[n as int + 1];
                    assert(l1 == l0.push(e1).push(e2));
                    lemma_count_push(l0, e1);
                    lemma_count_push(l0.push(e1), e2);
                } else {
                    let v = s1.victim as int;
                    let dirty = c0.way_dirty(v, next);
                    let k = n + if dirty { 1int } else { 0 };
                    let e1 = l1[k];
                    let e2 = l1[k + 1];
                    if dirty {
                        let e0 = l1[n as int];
                        assert(l1 =~= l0.push(e0).push(e1).push(e2));
                        lemma_count_push(l0, e0);
                        lemma_count_push(l0.push(e0), e1);
                        lemma_count_push(l0.push(e0).push(e1), e2);
                        } else {
                        assert(l1 =~= l0.push(e1).push(e2));
                        lemma_count_push(l0, e1);
                        lemma_count_push(l0.push(e1), e2);
                        assert(m1 == written_back(c0, v, next, m0, address_size));
                        }
                }
            }
        },
    }
}

/// A fill logs the block it fetched: in a run, a step taken in ALLOCATE with no boundary
/// crossing pending adds one `Allocate` event, for the request's address and its block's
/// base, whose data is the block memory holds at that base; the way chosen for it now holds
/// the block, clean, with exactly those bytes.
pub proof fn law_allocate_logs_fetched_block(trace: Seq<Snapshot>, inst: Instruction, address_size: u32, k: int)
    requires
        run(trace, inst, address_size),
        0 <= k < trace.len() - 1,
        trace[k].0.state == State::ALLOCATE,
        trace[k].0.unfinished == 0,
        trace[k].0.victim < trace[k].1.associativity,
        trace[k].1.wf(),
    ensures
        ({
            let (s, c, m, l) = trace[k];
            let (s1, c1, m1, l1) = trace[k + 1];
            let a = inst.addr;
            let base = c.block_base(a);
            let line = c1@[s.victim as int][c.set_of(a) as int];
            &&& l1.len() == l.len() + 1
            &&& l1.last() matches Event::Allocate { addr, block_base, data }
                && addr == a
                && block_base == base
                && data@ == mem_block(m, base as int, c.block_size(), address_size as int)
                && line.blocks == data@
            &&& c1.way_hits(s.victim as int, a)
            &&& !line.is_dirty
            &&& m1 == m
        }),
{
    let p = trace[k];
    let q = trace[k + 1];
    let c = p.1;
    let a = inst.addr;
    law_address_split(c, a);
    assert(c@[p.0.victim as int].len() == c.num_sets());
    assert(q.3.last() == q.3[p.3.len() as int]);
}

/// A store that hits reports its operand and writes it: in a run, a COMPARE_TAG step of a
/// store whose block the cache holds adds one `Hit` event for the store's operation and
/// address whose value is the operand, and the line that holds the block then has, from the
/// address on (as far as the block reaches), the operand's low byte for `sb`, its low
/// half-word for `sh`, and the whole word for `sw`.
pub proof fn law_store_hit_writes_operand(trace: Seq<Snapshot>, inst: Instruction, address_size: u32, k: int)
    requires
        run(trace, inst, address_size),
        0 <= k < trace.len() - 1,
        is_store(inst.opcode),
        trace[k].0.state == State::COMPARE_TAG,
        trace[k].1.hits(inst.addr),
        trace[k].1.wf(),
    ensures
        ({
            let (s, c, m, l) = trace[k];
            let (s1, c1, m1, l1) = trace[k + 1];
            let a = inst.addr;
            let op = inst.opcode;
            let v = inst.value@;
            let o = c.offset_of(a) as int;
            let bs = c.block_size() as int;
            &&& l1.len() == l.len() + 1
            &&& l1.last() matches Event::Hit { opcode, addr, value, .. }
                && opcode == op && addr == a && value == inst.value
            &&& forall|w: int| #[trigger] c.first_hit(a, w) ==> {
                let blocks = c1@[w][c.set_of(a) as int].blocks;
                &&& op is SW ==> forall|j: int| 0 <= j < 4 && o + j < bs ==> #[trigger] blocks[o + j] == v[j]
                &&& op is SH ==> forall|j: int| 0 <= j < 2 && o + j < bs ==> #[trigger] blocks[o + j] == v[2 + j]
                &&& op is SB ==> blocks[o] == v[3]
            }
        }),
{
    let p = trace[k];
    let q = trace[k + 1];
    let c = p.1;
    let a = inst.addr;
    law_address_split(c, a);
    let w0 = c.first_hit_way(a);
    assert(c.first_hit(a, w0));
    assert forall|w: int| #[trigger] c.first_hit(a, w) implies {
        let blocks = q.1@[w][c.set_of(a) as int].blocks;
        let o = c.offset_of(a) as int;
        let bs = c.block_size() as int;
        let v = inst.value@;
        &&& inst.opcode is SW ==> forall|j: int| 0 <= j < 4 && o + j < bs ==> #[trigger] blocks[o + j] == v[j]
        &&& inst.opcode is SH ==> forall|j: int| 0 <= j < 2 && o + j < bs ==> #[trigger] blocks[o + j] == v[2 + j]
        &&& inst.opcode is SB ==> blocks[o] == v[3]
    } by {
        assert(c@[w].len() == c.num_sets());
        assert(c@[w][c.set_of(a) as int].blocks.len() == c.block_size());
    }
}

/// How many `Hit` events a log holds.
pub open spec fn hit_events(log: Seq<Event>) -> nat
    decreases log.len(),
{
    if log.len() == 0 {
        0
    } else {
        hit_events(log.drop_last()) + if log.last() is Hit { 1nat } else { 0nat }
    }
}

/// How many `Miss` events a log holds.
pub open spec fn miss_events(log: Seq<Event>) -> nat
    decreases log.len(),
{
    if log.len() == 0 {
        0
    } else {
        miss_events(log.drop_last()) + if log.last() is Miss { 1nat } else { 0nat }
    }
}

/// How many `Hit` events of a log report bytes past the end of the block.
pub open spec fn crossing_events(log: Seq<Event>) -> nat
    decreases log.len(),
{
    if log.len() == 0 {
        0
    } else {
        crossing_events(log.drop_last()) + if log.last() matches Event::Hit { unfinished, .. } && unfinished > 0 {
            1nat
        } else {
            0nat
        }
    }
}

proof fn lemma_counts_push(log: Seq<Event>, e: Event)
    ensures
        hit_events(log.push(e)) == hit_events(log) + if e is Hit { 1nat } else { 0nat },
        miss_events(log.push(e)) == miss_events(log) + if e is Miss { 1nat } else { 0nat },
        crossing_events(log.push(e)) == crossing_events(log) + if e matches Event::Hit { unfinished, .. } && unfinished > 0 {
            1nat
        } else {
            0nat
        },
{
    assert(log.push(e).drop_last() =~= log);
}

/// The counters count what the log shows: along any run of the state machine, `hits` grows
/// by the number of `Hit` events added to the log, `misses` by the number of `Miss` events,
/// and `double_allocations` by the number of `Hit` events that report bytes past the end of
/// their block.
pub proof fn law_counters_count_events(trace: Seq<Snapshot>, inst: Instruction, address_size: u32)
    requires
        run(trace, inst, address_size),
    ensures
        forall|k: int| 0 <= k < trace.len() ==> {
            let (s, c, m, l) = #[trigger] trace[k];
            let (s0, c0, m0, l0) = trace[0];
            &&& s.hits == s0.hits + hit_events(l) - hit_events(l0)
            &&& s.misses == s0.misses + miss_events(l) - miss_events(l0)
            &&& s.double_allocations == s0.double_allocations + crossing_events(l) - crossing_events(l0)
        },
{
    assert forall|k: int| 0 <= k < trace.len() implies {
        let (s, c, m, l) = #[trigger] trace[k];
        let (s0, c0, m0, l0) = trace[0];
        &&& s.hits == s0.hits + hit_events(l) - hit_events(l0)
        &&& s.misses == s0.misses + miss_events(l) - miss_events(l0)
        &&& s.double_allocations == s0.double_allocations + crossing_events(l) - crossing_events(l0)
    } by {
        lemma_counters_run(trace, inst, address_size, k);
    }
}

proof fn lemma_counters_run(trace: Seq<Snapshot>, inst: Instruction, address_size: u32, k: int)
    requires
        run(trace, inst, address_size),
        0 <= k < trace.len(),
    ensures
        trace[k].0.hits == trace[0].0.hits + hit_events(trace[k].3) - hit_events(trace[0].3),
        trace[k].0.misses == trace[0].0.misses + miss_events(trace[k].3) - miss_events(trace[0].3),
        trace[k].0.double_allocations == trace[0].0.double_allocations + crossing_events(trace[k].3)
            - crossing_events(trace[0].3),
    decreases k,
{
    if k > 0 {
        lemma_counters_run(trace, inst, address_size, k - 1);
        let p = trace[k - 1];
        let q = trace[k];
        lemma_counters_step(p.0, q.0, p.1, q.1, p.2, q.2, inst, address_size, p.3, q.3);
    }
}

/// One step adds to each counter what it logs.
proof fn lemma_counters_step(
    s0: CacheController,
    s1: CacheController,
    c0: Cache,
    c1: Cache,
    m0: Seq<u8>,
    m1: Seq<u8>,
    inst: Instruction,
    address_size: u32,
    l0: Seq<Event>,
    l1: Seq<Event>,
)
    requires
        CacheController::step_post(s0, s1, c0, c1, m0, m1, inst, address_size, l0, l1),
    ensures
        s1.hits == s0.hits + hit_events(l1) - hit_events(l0),
        s1.misses == s0.misses + miss_events(l1) - miss_events(l0),
        s1.double_allocations == s0.double_allocations + crossing_events(l1) - crossing_events(l0),
{
    let a = inst.addr;
    let n = l0.len();
    match s0.state {
        State::IDLE => {},
        State::COMPARE_TAG => {
            if c0.hits(a) {
                let w = c0.first_hit_way(a);
                assert(c0.first_hit(a, w));
            }
            lemma_counts_push(l0, l1.last());
            assert(l1 == l0.push(l1.last()));
        },
        State::WRITE_BACK => {
            lemma_counts_push(l0, l1.last());
            assert(l1 == l0.push(l1.last()));
        },
        State::ALLOCATE => {
            if s0.unfinished == 0 {
                assert(l1 =~= l0.push(l1[n as int]));
                assert(l1[n as int] is Allocate);
                lemma_counts_push(l0, l1[n as int]);
            } else {
                let next = (a + s0.bytes_done) as u32;
                if c0.hits(next) {
                    let e1 = l1[n as int];
                    let e2 = l1[n as int + 1];
                    assert(l1 == l0.push(e1).push(e2));
                    lemma_counts_push(l0, e1);
                    lemma_counts_push(l0.push(e1), e2);
                } else {
                    let v = s1.victim as int;
                    let dirty = c0.way_dirty(v, next);
                    let k = n + if dirty { 1int } else { 0 };
                    let e1 = l1[k];
                    let e2 = l1[k + 1];
                    if dirty {
                        let e0 = l1[n as int];
                        assert(l1 =~= l0.push(e0).push(e1).push(e2));
                        lemma_counts_push(l0, e0);
                        lemma_counts_push(l0.push(e0), e1);
                        lemma_counts_push(l0.push(e0).push(e1), e2);
                    } else {
                        assert(l1 =~= l0.push(e1).push(e2));
                        lemma_counts_push(l0, e1);
                        lemma_counts_push(l0.push(e1), e2);
                    }
                }
            }
        },
    }
}

/// A miss reports the request and the line it will replace: in a run, a COMPARE_TAG step
/// whose block the cache does not hold adds one `Miss` event with the request's address,
/// set and tag, telling whether the line in the way drawn for the block is valid and dirty;
/// the controller goes on to WRITE_BACK exactly when it is, and nothing else changes.
pub proof fn law_miss_reports_victim(trace: Seq<Snapshot>, inst: Instruction, address_size: u32, k: int)
    requires
        run(trace, inst, address_size),
        0 <= k < trace.len() - 1,
        trace[k].0.state == State::COMPARE_TAG,
        !trace[k].1.hits(inst.addr),
    ensures
        ({
            let (s, c, m, l) = trace[k];
            let (s1, c1, m1, l1) = trace[k + 1];
            let a = inst.addr;
            let line = c@[s1.victim as int][c.set_of(a) as int];
            let dirty = line.is_valid && line.is_dirty;
            &&& l1 == l.push(Event::Miss { addr: a, index: c.set_of(a), tag: c.tag_of(a), occupant_dirty: dirty })
            &&& s1.victim < c.associativity
            &&& (s1.state == State::WRITE_BACK) == dirty
            &&& dirty || s1.state == State::ALLOCATE
            &&& c1 == c
            &&& m1 == m
        }),
{
    let p = trace[k];
    let q = trace[k + 1];
}

/// WRITE_BACK writes the replaced line's block back: in a run, if the line in the way drawn
/// is valid and dirty, the step logs a `WriteBack` event for the request's address whose
/// base is where memory now holds exactly that line's bytes, tagged with that base's tag,
/// and the line, otherwise unchanged, is clean; if it is not, the step logs
/// `NoDirtyOccupant` and changes neither memory nor the cache.
pub proof fn law_write_back_stores_victim(trace: Seq<Snapshot>, inst: Instruction, address_size: u32, k: int)
    requires
        run(trace, inst, address_size),
        0 <= k < trace.len() - 1,
        trace[k].0.state == State::WRITE_BACK,
        trace[k].0.victim < trace[k].1.associativity,
        trace[k].1.wf(),
        trace[k].1.block_size() <= address_size,
        0 < address_size <= trace[k].2.len(),
    ensures
        ({
            let (s, c, m, l) = trace[k];
            let (s1, c1, m1, l1) = trace[k + 1];
            let a = inst.addr;
            let v = s.victim as int;
            let set = c.set_of(a) as int;
            let line = c@[v][set];
            &&& l1.len() == l.len() + 1
            &&& line.is_valid && line.is_dirty ==> {
                &&& l1.last() matches Event::WriteBack { evict_base, tag, addr }
                    && addr == a
                    && tag == c.tag_of(evict_base)
                    && mem_block(m1, evict_base as int, c.block_size(), address_size as int) == line.blocks
                &&& c1@[v][set].blocks == line.blocks
                &&& c1@[v][set].tag == line.tag
                &&& c1@[v][set].is_valid
                &&& !c1@[v][set].is_dirty
            }
            &&& !(line.is_valid && line.is_dirty) ==> {
                &&& l1.last() is NoDirtyOccupant
                &&& m1 == m
                &&& c1@ == c@
            }
        }),
{
    let p = trace[k];
    let q = trace[k + 1];
    let c = p.1;
    let a = inst.addr;
    let v = p.0.victim as int;
    law_address_split(c, a);
    let set = c.set_of(a) as int;
    assert(c@[v].len() == c.num_sets());
    let line = c@[v][set];
    assert(line.blocks.len() == c.block_size());
    if line.is_valid && line.is_dirty {
        let base = c.rebuilt_base(line.tag, set as u32);
        lemma_fits_in_memory(p.2.len() as int, base as int, c.block_size(), address_size as int);
        law_memory_round_trip(p.2, base as int, line.blocks, c.block_size(), address_size as int);
        assert(line.blocks.take(c.block_size() as int) =~= line.blocks);
    }
}

/// A load that hits reports the bytes of its block: in a run, a COMPARE_TAG step of a load
/// whose block the cache holds adds one `Hit` event for the load's operation and address
/// whose value is what the controller now holds, starting with the bytes the line holds
/// from the address on (one for `lb`, two for `lh`, four for `lw`, as far as the block
/// reaches), and which counts the bytes that fall past the block's end.
pub proof fn law_load_hit_reports_bytes(trace: Seq<Snapshot>, inst: Instruction, address_size: u32, k: int)
    requires
        run(trace, inst, address_size),
        0 <= k < trace.len() - 1,
        is_memory_op(inst.opcode),
        !is_store(inst.opcode),
        trace[k].0.state == State::COMPARE_TAG,
        trace[k].1.hits(inst.addr),
        trace[k].1.wf(),
    ensures
        ({
            let (s, c, m, l) = trace[k];
            let (s1, c1, m1, l1) = trace[k + 1];
            let a = inst.addr;
            let op = inst.opcode;
            let o = c.offset_of(a) as int;
            let bs = c.block_size() as int;
            &&& l1.len() == l.len() + 1
            &&& forall|w: int| #[trigger] c.first_hit(a, w) ==> {
                let blocks = c@[w][c.set_of(a) as int].blocks;
                l1.last() matches Event::Hit { opcode, addr, value, unfinished }
                    && opcode == op && addr == a && value == s1.fetch_value
                    && (op is LB ==> value[0] == blocks[o] && unfinished == 0)
                    && (op is LH ==> (forall|j: int| 0 <= j < 2 && o + j < bs ==> #[trigger] value@[j] == blocks[o + j])
                        && unfinished == if o + 2 > bs { o + 2 - bs } else { 0 })
                    && (op is LW ==> (forall|j: int| 0 <= j < 4 && o + j < bs ==> #[trigger] value@[j] == blocks[o + j])
                        && unfinished == if o + 4 > bs { o + 4 - bs } else { 0 })
            }
        }),
{
    let p = trace[k];
    let q = trace[k + 1];
    let c = p.1;
    let a = inst.addr;
    law_address_split(c, a);
    let w0 = c.first_hit_way(a);
    assert(c.first_hit(a, w0));
    assert forall|w: int| #[trigger] c.first_hit(a, w) implies {
        let blocks = c@[w][c.set_of(a) as int].blocks;
        let o = c.offset_of(a) as int;
        let bs = c.block_size() as int;
        let op = inst.opcode;
        q.3.last() matches Event::Hit { opcode, addr, value, unfinished }
            && opcode == op && addr == a && value == q.0.fetch_value
            && (op is LB ==> value[0] == blocks[o] && unfinished == 0)
            && (op is LH ==> (forall|j: int| 0 <= j < 2 && o + j < bs ==> #[trigger] value@[j] == blocks[o + j])
                && unfinished == if o + 2 > bs { o + 2 - bs } else { 0 })
            && (op is LW ==> (forall|j: int| 0 <= j < 4 && o + j < bs ==> #[trigger] value@[j] == blocks[o + j])
                && unfinished == if o + 4 > bs { o + 4 - bs } else { 0 })
    } by {
        assert(c@[w].len() == c.num_sets());
        assert(c@[w][c.set_of(a) as int].blocks.len() == c.block_size());
    }
}

/// A load that crossed a block boundary reports what it read: in a run, the ALLOCATE step
/// that finishes a load ends its log with a `BoundaryLoad` event for the load's operation
/// and address whose value is what the controller now holds, and keeps the bytes read
/// from the first block.
pub proof fn law_boundary_load_reports_value(trace: Seq<Snapshot>, inst: Instruction, address_size: u32, k: int)
    requires
        run(trace, inst, address_size),
        0 <= k < trace.len() - 1,
        is_memory_op(inst.opcode),
        !is_store(inst.opcode),
        trace[k].0.state == State::ALLOCATE,
        trace[k].0.unfinished > 0,
        trace[k].0.bytes_done + trace[k].0.unfinished <= 4,
    ensures
        ({
            let (s, c, m, l) = trace[k];
            let (s1, c1, m1, l1) = trace[k + 1];
            &&& l1.len() > l.len()
            &&& l1.take(l.len() as int) == l
            &&& l1.last() == Event::BoundaryLoad { opcode: inst.opcode, addr: inst.addr, value: s1.fetch_value }
            &&& s1.fetch_value@.take(s.bytes_done as int) == s.fetch_value@.take(s.bytes_done as int)
            &&& s1.state == State::IDLE
        }),
{
    let p = trace[k];
    let q = trace[k + 1];
    let bd = p.0.bytes_done as int;
    let next = (inst.addr + p.0.bytes_done) as u32;
    if p.1.hits(next) {
        let w = p.1.first_hit_way(next);
        assert(p.1.first_hit(next, w));
    }
    assert(q.0.fetch_value@.take(bd) =~= p.0.fetch_value@.take(bd));
}

/// The rest of a crossing access fetched from memory is logged as fetched: in a run, the
/// ALLOCATE step that finishes an access whose next block the cache does not hold logs,
/// just before its last event, a `BoundaryFetch` event for the next block's address and
/// base whose data is the block memory holds there after the step; for a load, the way
/// drawn for it now holds the block, clean, with exactly those bytes.
pub proof fn law_boundary_fetch_logs_fetched_block(trace: Seq<Snapshot>, inst: Instruction, address_size: u32, k: int)
    requires
        run(trace, inst, address_size),
        0 <= k < trace.len() - 1,
        trace[k].0.state == State::ALLOCATE,
        trace[k].0.unfinished > 0,
        !trace[k].1.hits((inst.addr + trace[k].0.bytes_done) as u32),
        trace[k].1.wf(),
    ensures
        ({
            let (s, c, m, l) = trace[k];
            let (s1, c1, m1, l1) = trace[k + 1];
            let next = (inst.addr + s.bytes_done) as u32;
            let base = c.block_base(next);
            let line = c1@[s1.victim as int][c.set_of(next) as int];
            &&& l1.len() >= l.len() + 2
            &&& s1.victim < c.associativity
            &&& l1[l1.len() - 2] matches Event::BoundaryFetch { next_addr, block_base, data }
                && next_addr == next
                && block_base == base
                && data@ == mem_block(m1, base as int, c.block_size(), address_size as int)
                && (!is_store(inst.opcode) ==> line.blocks == data@ && line.is_valid && !line.is_dirty)
            &&& !is_store(inst.opcode) ==> c1.way_hits(s1.victim as int, next)
        }),
{
    let p = trace[k];
    let q = trace[k + 1];
    let c = p.1;
    let next = (inst.addr + p.0.bytes_done) as u32;
    law_address_split(c, next);
    assert(c@[q.0.victim as int].len() == c.num_sets());
}

} // verus!
