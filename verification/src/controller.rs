use vstd::prelude::*;
use crate::cache::{
    Cache, LineView, fetched, run_len, stored, mem_block, mem_store, lemma_fits_in_memory,
};
use crate::instruction::{Instruction, OPCODE, is_memory_op, is_store};

verus! {

/// The states of the controller's finite state machine.
#[allow(non_camel_case_types)]
#[derive(PartialEq, Eq, Debug, Clone, Copy, Structural)]
pub enum State {
    IDLE,
    COMPARE_TAG,
    WRITE_BACK,
    ALLOCATE,
}

/// What one step of the controller did, for the trace that the simulator prints.
#[derive(Debug)]
pub enum Event {
    /// A `nop` instruction.
    Nop,
    /// An instruction that could not be read.
    Invalid,
    /// The access hit. `value` holds the bytes read (a load) or the operand (a store);
    /// `unfinished` counts the bytes that fell past the end of the block (0 if none).
    Hit { opcode: OPCODE, addr: u32, value: [u8; 4], unfinished: usize },
    /// The access missed; `occupant_dirty` tells whether the line chosen for replacement is
    /// dirty.
    Miss { addr: u32, index: u32, tag: u32, occupant_dirty: bool },
    /// A dirty block was written back to make room for `addr`.
    WriteBack { evict_base: u32, tag: u32, addr: u32 },
    /// Write-back was asked for but the line chosen for replacement was not dirty.
    NoDirtyOccupant { index: u32 },
    /// The block of `addr` was fetched from memory and put into the cache.
    Allocate { addr: u32, block_base: u32, data: Vec<u8> },
    /// The next block, holding the rest of an access that crossed a block boundary, is in
    /// the cache.
    BoundaryHit { next_addr: u32 },
    /// The next block, holding the rest of an access that crossed a block boundary, was
    /// fetched from memory.
    BoundaryFetch { next_addr: u32, block_base: u32, data: Vec<u8> },
    /// A load that crossed a block boundary is complete; `value` holds the bytes read.
    BoundaryLoad { opcode: OPCODE, addr: u32, value: [u8; 4] },
    /// The tail of a store that crossed a block boundary was written.
    BoundaryStore { opcode: OPCODE, addr: u32 },
}

/// A write-back cache controller with write-allocate: it runs each load or store through
/// COMPARE_TAG, WRITE_BACK and ALLOCATE until it is back in IDLE, and counts what happened.
pub struct CacheController {
    /// The state the controller is in.
    pub state: State,
    /// Bytes of a boundary-crossing access still to be done in the next block.
    pub unfinished: usize,
    /// Bytes of a boundary-crossing access already done in the first block.
    pub bytes_done: usize,
    /// The bytes of the current load, or the operand of the current store.
    pub fetch_value: [u8; 4],
    /// The way chosen at random to receive the block that is being fetched.
    pub victim: usize,
    pub hits: usize,
    pub misses: usize,
    pub write_backs: usize,
    pub double_allocations: usize,
}

/// How many bytes an operation reads or writes.
pub open spec fn width(op: OPCODE) -> nat {
    match op {
        OPCODE::LB | OPCODE::SB => 1,
        OPCODE::LH | OPCODE::SH => 2,
        OPCODE::LW | OPCODE::SW => 4,
        _ => 0,
    }
}

/// The bytes a store writes, from its 32-bit operand held most significant byte first: a
/// byte store writes the low byte, a half-word store the low half-word, a word store all four.
pub open spec fn store_data(op: OPCODE, value: Seq<u8>) -> Seq<u8> {
    match op {
        OPCODE::SB => value.subrange(3, 4),
        OPCODE::SH => value.subrange(2, 4),
        OPCODE::SW => value,
        _ => Seq::empty(),
    }
}

/// How many bytes of an access at `address` fall past the end of its block.
pub open spec fn overflow_bytes(c: Cache, address: u32, op: OPCODE) -> int {
    width(op) - run_len(c.block_size() as int, c.offset_of(address) as int, width(op) as int)
}

/// The line that a fetch of `address`'s block from memory yields.
pub open spec fn fetched_line(c: Cache, memory: Seq<u8>, address: u32, address_size: u32) -> LineView {
    LineView {
        is_valid: true,
        is_dirty: false,
        tag: c.tag_of(address),
        blocks: mem_block(memory, c.block_base(address) as int, c.block_size(), address_size as int),
    }
}

/// `lines` with `line` put into `way` at `set`.
pub open spec fn placed(lines: Seq<Seq<LineView>>, way: int, set: int, line: LineView) -> Seq<Seq<LineView>> {
    lines.update(way, lines[way].update(set, line))
}

/// `lines` with the line at `(way, set)` marked clean.
pub open spec fn cleaned(lines: Seq<Seq<LineView>>, way: int, set: int) -> Seq<Seq<LineView>> {
    placed(lines, way, set, LineView { is_dirty: false, ..lines[way][set] })
}

/// `lines` with `data` stored into the line at `(way, set)` from `offset` on, which turns
/// dirty.
pub open spec fn written(lines: Seq<Seq<LineView>>, way: int, set: int, offset: int, data: Seq<u8>) -> Seq<Seq<LineView>> {
    placed(lines, way, set, LineView {
        is_dirty: true,
        blocks: stored(lines[way][set].blocks, offset, data),
        ..lines[way][set]
    })
}

/// The memory after the line at `(way, set of address)` of `c` is written back, if it is
/// dirty.
pub open spec fn written_back(c: Cache, way: int, address: u32, memory: Seq<u8>, address_size: u32) -> Seq<u8> {
    let set = c.set_of(address);
    let line = c@[way][set as int];
    if c.way_dirty(way, address) {
        mem_store(memory, c.rebuilt_base(line.tag, set) as int, line.blocks, c.block_size(), address_size as int)
    } else {
        memory
    }
}

/// The lines after the line at `(way, set of address)` of `c` is written back, if it is
/// dirty.
pub open spec fn lines_written_back(c: Cache, way: int, address: u32) -> Seq<Seq<LineView>> {
    if c.way_dirty(way, address) {
        cleaned(c@, way, c.set_of(address) as int)
    } else {
        c@
    }
}

/// The event that writing back the line at `(way, set of address)` logs.
pub open spec fn write_back_event(c: Cache, way: int, address: u32) -> Event {
    let set = c.set_of(address);
    let base = c.rebuilt_base(c@[way][set as int].tag, set);
    Event::WriteBack { evict_base: base, tag: c.tag_of(base), addr: address }
}

impl CacheController {
    /// Bookkeeping of a boundary crossing stays within a word and is clear outside ALLOCATE.
    pub open spec fn wf(self) -> bool {
        &&& self.unfinished + self.bytes_done <= 4
        &&& self.unfinished == 0 ==> self.bytes_done == 0
        &&& self.state != State::ALLOCATE ==> self.unfinished == 0
    }

    /// A controller in IDLE with all counters at 0.
    pub fn new() -> (r: Self)
        ensures
            r.wf(),
            r.state == State::IDLE,
            r.unfinished == 0,
            r.bytes_done == 0,
            r.fetch_value@ == seq![0u8, 0u8, 0u8, 0u8],
            r.victim == 0,
            r.hits == 0,
            r.misses == 0,
            r.write_backs == 0,
            r.double_allocations == 0,
    {
        let r = CacheController {
            state: State::IDLE,
            unfinished: 0,
            bytes_done: 0,
            fetch_value: [0u8; 4],
            victim: 0,
            hits: 0,
            misses: 0,
            write_backs: 0,
            double_allocations: 0,
        };
        assert(r.fetch_value@ =~= seq![0u8, 0u8, 0u8, 0u8]);
        r
    }

    /// What COMPARE_TAG does. On a hit, counted in `hits`: the access is done in the first
    /// way that holds the block; a load fills the front of the buffer, a store writes its
    /// bytes; if bytes fell past the block's end the controller goes to ALLOCATE to finish
    /// them (counted in `double_allocations`), else to IDLE. On a miss, counted in `misses`:
    /// a way is drawn for the new block (`victim`), and the controller goes to WRITE_BACK if
    /// the line there is dirty, else to ALLOCATE.
    pub open spec fn compare_tag_post(
        s0: Self,
        s1: Self,
        c0: Cache,
        c1: Cache,
        inst: Instruction,
        log0: Seq<Event>,
        log1: Seq<Event>,
    ) -> bool {
        let a = inst.addr;
        let op = inst.opcode;
        let n = width(op);
        let set = c0.set_of(a) as int;
        let o = c0.offset_of(a) as int;
        &&& c1.wf()
        &&& c1.same_config(c0)
        &&& s1.write_backs == s0.write_backs
        &&& c0.hits(a) ==> {
            &&& s1.hits == s0.hits + 1
            &&& s1.misses == s0.misses
            &&& s1.victim == s0.victim
            &&& forall|w: int| #[trigger] c0.first_hit(a, w) ==> {
                let line = c0@[w][set];
                let u = n - run_len(line.blocks.len() as int, o, n as int);
                &&& s1.unfinished == u
                &&& s1.bytes_done == if u > 0 { n - u } else { s0.bytes_done as int }
                &&& s1.state == if u > 0 { State::ALLOCATE } else { State::IDLE }
                &&& s1.double_allocations == s0.double_allocations + if u > 0 { 1int } else { 0 }
                &&& !is_store(op) ==> {
                    &&& c1@ == c0@
                    &&& s1.fetch_value@ == stored(s0.fetch_value@, 0, fetched(line.blocks, o, n))
                }
                &&& is_store(op) ==> {
                    &&& c1@ == written(c0@, w, set, o, store_data(op, inst.value@))
                    &&& s1.fetch_value == inst.value
                }
                &&& log1 == log0.push(Event::Hit { opcode: op, addr: a, value: s1.fetch_value, unfinished: u as usize })
            }
        }
        &&& !c0.hits(a) ==> {
            &&& s1.hits == s0.hits
            &&& s1.misses == s0.misses + 1
            &&& c1 == c0
            &&& s1.fetch_value == s0.fetch_value
            &&& s1.unfinished == s0.unfinished
            &&& s1.bytes_done == s0.bytes_done
            &&& s1.double_allocations == s0.double_allocations
            &&& s1.victim < c0.associativity
            &&& s1.state == if c0.way_dirty(s1.victim as int, a) { State::WRITE_BACK } else { State::ALLOCATE }
            &&& log1 == log0.push(Event::Miss {
                addr: a,
                index: c0.set_of(a),
                tag: c0.tag_of(a),
                occupant_dirty: c0.way_dirty(s1.victim as int, a),
            })
        }
    }

    /// What WRITE_BACK does: the line chosen for replacement is written back to memory and
    /// marked clean if it is dirty, counted in `write_backs`. The controller goes to ALLOCATE.
    pub open spec fn write_back_post(
        s0: Self,
        s1: Self,
        c0: Cache,
        c1: Cache,
        m0: Seq<u8>,
        m1: Seq<u8>,
        inst: Instruction,
        address_size: u32,
        log0: Seq<Event>,
        log1: Seq<Event>,
    ) -> bool {
        let a = inst.addr;
        let v = s0.victim as int;
        let dirty = c0.way_dirty(v, a);
        &&& c1.wf()
        &&& c1.same_config(c0)
        &&& s1 == (CacheController {
            state: State::ALLOCATE,
            write_backs: (s0.write_backs + if dirty { 1int } else { 0 }) as usize,
            ..s0
        })
        &&& c1@ == lines_written_back(c0, v, a)
        &&& m1 == written_back(c0, v, a, m0, address_size)
        &&& log1 == log0.push(if dirty { write_back_event(c0, v, a) } else { Event::NoDirtyOccupant { index: c0.set_of(a) } })
    }

    fn compare_tag(&mut self, inst: &Instruction, cache: &mut Cache, log: &mut Vec<Event>)
        requires
            old(self).wf(),
            old(self).state == State::COMPARE_TAG,
            old(cache).wf(),
            is_memory_op(inst.opcode),
            old(self).hits < usize::MAX,
            !old(cache).hits(inst.addr) ==> old(self).misses < usize::MAX,
            old(cache).hits(inst.addr) && overflow_bytes(*old(cache), inst.addr, inst.opcode) > 0
                ==> old(self).double_allocations < usize::MAX,
        ensures
            Self::compare_tag_post(*old(self), *final(self), *old(cache), *final(cache), *inst, old(log)@, final(log)@),
    {
        let ghost c0 = *cache;
        let ghost f0 = self.fetch_value@;
        let mut is_dirty = false;
        if cache.is_hit(inst.addr, &mut is_dirty) {
            let ghost w = c0.first_hit_way(inst.addr);
            let ghost line = c0@[w][c0.set_of(inst.addr) as int];
            let ghost o = c0.offset_of(inst.addr) as int;
            let ghost n = width(inst.opcode);
            proof {
                c0.lemma_first_hit_unique(inst.addr, w);
                crate::laws::law_address_split(c0, inst.addr);
                c0.lemma_line(w, c0.set_of(inst.addr) as int);
            }
            self.hits += 1;
            let unfinished: usize = match inst.opcode {
                OPCODE::LB => {
                    let (val_opt, unfinished) = cache.lb(inst.addr);
                    if let Some(b) = val_opt {
                        self.fetch_value[0] = b;
                    }
                    assert(self.fetch_value@ =~= stored(f0, 0, fetched(line.blocks, o, n)));
                    unfinished
                },
                OPCODE::LH => {
                    let (val_opt, unfinished) = cache.lh(inst.addr);
                    if let Some(bytes) = val_opt {
                        self.fetch_value[0] = bytes[0];
                        self.fetch_value[1] = bytes[1];
                    }
                    assert(self.fetch_value@ =~= stored(f0, 0, fetched(line.blocks, o, n)));
                    unfinished
                },
                OPCODE::LW => {
                    let (val_opt, unfinished) = cache.lw(inst.addr);
                    if let Some(bytes) = val_opt {
                        self.fetch_value = bytes;
                    }
                    assert(self.fetch_value@ =~= stored(f0, 0, fetched(line.blocks, o, n)));
                    unfinished
                },
                OPCODE::SB => {
                    let unfinished = cache.sb(inst.addr, inst.value[3]);
                    assert(stored(line.blocks, o, store_data(inst.opcode, inst.value@)) =~= line.blocks.update(o, inst.value[3]));
                    self.fetch_value = inst.value;
                    unfinished
                },
                OPCODE::SH => {
                    let half_word = [inst.value[2], inst.value[3]];
                    assert(half_word@ =~= store_data(inst.opcode, inst.value@));
                    let unfinished = cache.sh(inst.addr, half_word);
                    self.fetch_value = inst.value;
                    unfinished
                },
                OPCODE::SW => {
                    let unfinished = cache.sw(inst.addr, inst.value);
                    assert(store_data(inst.opcode, inst.value@) =~= inst.value@);
                    self.fetch_value = inst.value;
                    unfinished
                },
                _ => {
                    proof {
                        assert(false);
                    }
                    0
                },
            };
            assert(unfinished == n - run_len(line.blocks.len() as int, o, n as int));
            if unfinished != 0 {
                self.unfinished = unfinished;
                self.bytes_done = match inst.opcode {
                    OPCODE::LB | OPCODE::SB => 1 - unfinished,
                    OPCODE::LH | OPCODE::SH => 2 - unfinished,
                    _ => 4 - unfinished,
                };
                self.double_allocations += 1;
                self.state = State::ALLOCATE;
            } else {
                self.state = State::IDLE;
            }
            log.push(Event::Hit { opcode: inst.opcode, addr: inst.addr, value: self.fetch_value, unfinished });
        } else {
            self.misses += 1;
            let v = cache.choose_way();
            self.victim = v;
            let set = cache.index(inst.addr) as usize;
            proof {
                crate::laws::law_address_split(c0, inst.addr);
                c0.lemma_line(v as int, set as int);
            }
            let dirty = cache.cache_lines[v][set].is_valid && cache.cache_lines[v][set].is_dirty;
            log.push(Event::Miss {
                addr: inst.addr,
                index: cache.index(inst.addr),
                tag: cache.tag(inst.addr),
                occupant_dirty: dirty,
            });
            if dirty {
                self.state = State::WRITE_BACK;
            } else {
                self.state = State::ALLOCATE;
            }
        }
    }

    fn write_back(
        &mut self,
        inst: &Instruction,
        cache: &mut Cache,
        memory: &mut [u8],
        address_size: u32,
        log: &mut Vec<Event>,
    )
        requires
            old(self).wf(),
            old(self).state == State::WRITE_BACK,
            old(self).victim < old(cache).associativity,
            old(cache).wf(),
            0 < address_size <= old(memory)@.len(),
            old(self).write_backs < usize::MAX,
        ensures
            Self::write_back_post(
                *old(self),
                *final(self),
                *old(cache),
                *final(cache),
                old(memory)@,
                final(memory)@,
                *inst,
                address_size,
                old(log)@,
                final(log)@,
            ),
            final(memory)@.len() == old(memory)@.len(),
    {
        let ghost c0 = *cache;
        proof {
            lemma_fits_in_memory(
                memory@.len() as int,
                c0.rebuilt_base(c0@[self.victim as int][c0.set_of(inst.addr) as int].tag, c0.set_of(inst.addr)) as int,
                c0.block_size(),
                address_size as int,
            );
        }
        if let Some(evict_base) = cache.write_back_way(self.victim, inst.addr, memory, address_size) {
            self.write_backs += 1;
            log.push(Event::WriteBack { evict_base, tag: cache.tag(evict_base), addr: inst.addr });
        } else {
            log.push(Event::NoDirtyOccupant { index: cache.index(inst.addr) });
        }
        self.state = State::ALLOCATE;
    }

    /// What ALLOCATE does. With no boundary crossing pending, the block of the address is
    /// fetched from memory into the way chosen at the miss, and the controller goes back to
    /// COMPARE_TAG. With one pending, the rest of the access is done in the next block: if the
    /// cache holds it, in the first way that holds it; else a way is drawn (`victim`), its
    /// line written back if dirty (counted in `write_backs`), and the next block fetched from
    /// memory into it. A load copies the missing bytes into the buffer, a store writes its
    /// tail bytes. The crossing is cleared and the controller goes to IDLE. The cache passes
    /// through the states in between: after the write-back, and (for a store) after the fetch.
    pub open spec fn allocate_post(
        s0: Self,
        s1: Self,
        c0: Cache,
        c1: Cache,
        m0: Seq<u8>,
        m1: Seq<u8>,
        inst: Instruction,
        address_size: u32,
        log0: Seq<Event>,
        log1: Seq<Event>,
    ) -> bool {
        let a = inst.addr;
        let op = inst.opcode;
        let n = log0.len();
        &&& c1.wf()
        &&& c1.same_config(c0)
        &&& log1.take(n as int) == log0
        &&& s0.unfinished == 0 ==> {
            let line = fetched_line(c0, m0, a, address_size);
            &&& s1 == (CacheController { state: State::COMPARE_TAG, ..s0 })
            &&& c1@ == placed(c0@, s0.victim as int, c0.set_of(a) as int, line)
            &&& m1 == m0
            &&& log1.len() == n + 1
            &&& log1[n as int] matches Event::Allocate { addr, block_base, data }
                && addr == a && block_base == c0.block_base(a) && data@ == line.blocks
        }
        &&& s0.unfinished > 0 ==> {
            let next = (a + s0.bytes_done) as u32;
            let set = c0.set_of(next) as int;
            let u = s0.unfinished as nat;
            let tail = store_data(op, inst.value@).subrange(s0.bytes_done as int, s0.bytes_done + u);
            let finish = if is_store(op) {
                Event::BoundaryStore { opcode: op, addr: a }
            } else {
                Event::BoundaryLoad { opcode: op, addr: a, value: s1.fetch_value }
            };
            &&& s1.state == State::IDLE
            &&& s1.unfinished == 0
            &&& s1.bytes_done == 0
            &&& s1.hits == s0.hits
            &&& s1.misses == s0.misses
            &&& s1.double_allocations == s0.double_allocations
            &&& is_store(op) ==> s1.fetch_value == s0.fetch_value
            &&& c0.hits(next) ==> {
                &&& s1.victim == s0.victim
                &&& s1.write_backs == s0.write_backs
                &&& m1 == m0
                &&& log1 == log0.push(Event::BoundaryHit { next_addr: next }).push(finish)
                &&& forall|w: int| #[trigger] c0.first_hit(next, w) ==> {
                    &&& !is_store(op) ==> c1@ == c0@
                        && s1.fetch_value@ == stored(s0.fetch_value@, s0.bytes_done as int, fetched(c0@[w][set].blocks, 0, u))
                    &&& is_store(op) ==> c1@ == written(c0@, w, set, 0, tail)
                }
            }
            &&& !c0.hits(next) ==> {
                let v = s1.victim as int;
                let dirty = c0.way_dirty(v, next);
                let mw = written_back(c0, v, next, m0, address_size);
                let line = fetched_line(c0, mw, next, address_size);
                let mid = placed(lines_written_back(c0, v, next), v, set, line);
                let k = n + if dirty { 1int } else { 0 };
                &&& 0 <= v < c0.associativity
                &&& s1.write_backs == s0.write_backs + if dirty { 1int } else { 0 }
                &&& m1 == mw
                &&& dirty ==> log1[n as int] == write_back_event(c0, v, next)
                &&& log1.len() == k + 2
                &&& log1[k] matches Event::BoundaryFetch { next_addr, block_base, data }
                    && next_addr == next && block_base == c0.block_base(next) && data@ == line.blocks
                &&& log1[k + 1] == finish
                &&& !is_store(op) ==> c1@ == mid
                    && s1.fetch_value@ == stored(s0.fetch_value@, s0.bytes_done as int, fetched(line.blocks, 0, u))
                &&& is_store(op) ==> c1@ == written(mid, v, set, 0, tail)
                &&& exists|cw: Cache| #[trigger] cw.same_config(c0) && cw.wf() && cw@ == lines_written_back(c0, v, next)
                &&& is_store(op) ==> exists|cm: Cache| #[trigger] cm.same_config(c1) && cm.wf() && cm@ == mid
            }
        }
    }

    fn allocate(
        &mut self,
        inst: &Instruction,
        cache: &mut Cache,
        memory: &mut [u8],
        address_size: u32,
        log: &mut Vec<Event>,
    )
        requires
            old(self).wf(),
            old(self).state == State::ALLOCATE,
            old(cache).wf(),
            is_memory_op(inst.opcode),
            0 < address_size <= old(memory)@.len(),
            old(self).unfinished == 0 ==> old(self).victim < old(cache).associativity,
            old(self).unfinished > 0 ==> {
                &&& old(self).bytes_done >= 1
                &&& old(self).unfinished + old(self).bytes_done == width(inst.opcode)
                &&& inst.addr + old(self).bytes_done <= u32::MAX
                &&& old(cache).offset_of((inst.addr + old(self).bytes_done) as u32) == 0
                &&& old(self).write_backs < usize::MAX
            },
        ensures
            Self::allocate_post(
                *old(self),
                *final(self),
                *old(cache),
                *final(cache),
                old(memory)@,
                final(memory)@,
                *inst,
                address_size,
                old(log)@,
                final(log)@,
            ),
            final(memory)@.len() == old(memory)@.len(),
    {
        let ghost c0 = *cache;
        let ghost log0 = log@;
        if self.unfinished == 0 {
            proof {
                lemma_fits_in_memory(memory@.len() as int, c0.block_base(inst.addr) as int, c0.block_size(), address_size as int);
            }
            let req_line = cache.request_block(inst.addr, memory, address_size);
            let block_base = cache.aligned_base(inst.addr);
            let data = req_line.blocks.clone();
            assert(data@ =~= req_line.blocks@);
            log.push(Event::Allocate { addr: inst.addr, block_base, data });
            cache.place_block(self.victim, inst.addr, req_line);
            self.state = State::COMPARE_TAG;
            assert(log@.take(log0.len() as int) =~= log0);
            return;
        }
        let next_addr = inst.addr + self.bytes_done as u32;
        let bd = self.bytes_done;
        let u = self.unfinished;
        let is_store = match inst.opcode {
            OPCODE::SB | OPCODE::SH | OPCODE::SW => true,
            _ => false,
        };
        let ghost f0 = self.fetch_value@;
        let mut next_dirty = false;
        if cache.is_hit(next_addr, &mut next_dirty) {
            let ghost w = c0.first_hit_way(next_addr);
            proof {
                c0.lemma_first_hit_unique(next_addr, w);
                crate::laws::law_address_split(c0, next_addr);
                c0.lemma_line(w, c0.set_of(next_addr) as int);
            }
            log.push(Event::BoundaryHit { next_addr });
            if !is_store {
                let (bytes, _) = cache.lw(next_addr);
                let b = match bytes {
                    Some(b) => b,
                    None => [0u8; 4],
                };
                let ghost blocks = c0@[w][c0.set_of(next_addr) as int].blocks;
                let mut fv = self.fetch_value;
                let mut i: usize = 0;
                while i < u
                    invariant
                        u + bd <= 4,
                        i <= u,
                        b@ == fetched(blocks, 0, 4),
                        fv@ == stored(f0, bd as int, fetched(blocks, 0, u as nat).take(i as int)),
                    decreases u - i,
                {
                    fv[bd + i] = b[i];
                    i += 1;
                    assert(fv@ =~= stored(f0, bd as int, fetched(blocks, 0, u as nat).take(i as int)));
                }
                assert(fetched(blocks, 0, u as nat).take(i as int) =~= fetched(blocks, 0, u as nat));
                self.fetch_value = fv;
                log.push(Event::BoundaryLoad { opcode: inst.opcode, addr: inst.addr, value: self.fetch_value });
            } else {
                let data = store_bytes(inst.opcode, inst.value);
                let tail = copy_range(&data, bd, bd + u);
                cache.store_run(next_addr, tail.as_slice());
                log.push(Event::BoundaryStore { opcode: inst.opcode, addr: inst.addr });
            }
        } else {
            let v = cache.choose_way();
            self.victim = v;
            proof {
                crate::laws::law_address_split(c0, next_addr);
                lemma_fits_in_memory(
                    memory@.len() as int,
                    c0.rebuilt_base(c0@[v as int][c0.set_of(next_addr) as int].tag, c0.set_of(next_addr)) as int,
                    c0.block_size(),
                    address_size as int,
                );
            }
            if let Some(evict_base) = cache.write_back_way(v, next_addr, memory, address_size) {
                self.write_backs += 1;
                log.push(Event::WriteBack { evict_base, tag: cache.tag(evict_base), addr: next_addr });
            }
            let ghost cw = *cache;
            assert(cw.same_config(c0) && cw.wf());
            let ghost k = log@.len();
            proof {
                lemma_fits_in_memory(memory@.len() as int, c0.block_base(next_addr) as int, c0.block_size(), address_size as int);
            }
            let req_line = cache.request_block(next_addr, memory, address_size);
            let block_base = cache.aligned_base(next_addr);
            let fetched_data = req_line.blocks.clone();
            assert(fetched_data@ =~= req_line.blocks@);
            log.push(Event::BoundaryFetch { next_addr, block_base, data: fetched_data });
            if !is_store {
                let mut fv = self.fetch_value;
                let mut i: usize = 0;
                while i < u
                    invariant
                        u + bd <= 4,
                        i <= u,
                        fv@ == stored(f0, bd as int, fetched(req_line.blocks@, 0, u as nat).take(i as int)),
                    decreases u - i,
                {
                    let b = if i < req_line.blocks.len() { req_line.blocks[i] } else { 0 };
                    fv[bd + i] = b;
                    i += 1;
                    assert(fv@ =~= stored(f0, bd as int, fetched(req_line.blocks@, 0, u as nat).take(i as int)));
                }
                assert(fetched(req_line.blocks@, 0, u as nat).take(i as int) =~= fetched(req_line.blocks@, 0, u as nat));
                self.fetch_value = fv;
            }
            let ghost line = req_line@;
            cache.place_block(v, next_addr, req_line);
            if !is_store {
                log.push(Event::BoundaryLoad { opcode: inst.opcode, addr: inst.addr, value: self.fetch_value });
            } else {
                let ghost mid = *cache;
                assert(mid.wf());
                proof {
                    lemma_hit_after_write_back_and_fill(c0, cw, mid, next_addr, v as int, line);
                }
                let data = store_bytes(inst.opcode, inst.value);
                let tail = copy_range(&data, bd, bd + u);
                cache.store_run(next_addr, tail.as_slice());
                assert(mid.same_config(*cache));
                log.push(Event::BoundaryStore { opcode: inst.opcode, addr: inst.addr });
            }
        }
        self.unfinished = 0;
        self.bytes_done = 0;
        self.state = State::IDLE;
        assert(log@.take(log0.len() as int) =~= log0);
    }
}

impl CacheController {
    /// Requirements of one step that hold across the whole run of a request.
    pub open spec fn step_ready(self, inst: Instruction, cache: Cache) -> bool {
        &&& self.wf()
        &&& self.state == State::COMPARE_TAG ==> {
            &&& self.hits < usize::MAX
            &&& !cache.hits(inst.addr) ==> self.misses < usize::MAX
            &&& cache.hits(inst.addr) && overflow_bytes(cache, inst.addr, inst.opcode) > 0
                ==> self.double_allocations < usize::MAX
        }
        &&& self.state == State::WRITE_BACK ==> self.write_backs < usize::MAX && self.victim < cache.associativity
        &&& self.state == State::ALLOCATE && self.unfinished == 0 ==> self.victim < cache.associativity
        &&& self.state == State::ALLOCATE && self.unfinished > 0 ==> {
            &&& self.bytes_done >= 1
            &&& self.unfinished + self.bytes_done == width(inst.opcode)
            &&& inst.addr + self.bytes_done <= u32::MAX
            &&& cache.offset_of((inst.addr + self.bytes_done) as u32) == 0
            &&& self.write_backs < usize::MAX
        }
    }

    /// One step of the state machine, from `(s0, c0, m0, log0)` to `(s1, c1, m1, log1)`: the
    /// work of the state the controller is in.
    pub open spec fn step_post(
        s0: Self,
        s1: Self,
        c0: Cache,
        c1: Cache,
        m0: Seq<u8>,
        m1: Seq<u8>,
        inst: Instruction,
        address_size: u32,
        log0: Seq<Event>,
        log1: Seq<Event>,
    ) -> bool {
        match s0.state {
            State::IDLE => s1 == s0 && c1 == c0 && m1 == m0 && log1 == log0,
            State::COMPARE_TAG => Self::compare_tag_post(s0, s1, c0, c1, inst, log0, log1) && m1 == m0,
            State::WRITE_BACK => Self::write_back_post(s0, s1, c0, c1, m0, m1, inst, address_size, log0, log1),
            State::ALLOCATE => Self::allocate_post(s0, s1, c0, c1, m0, m1, inst, address_size, log0, log1),
        }
    }

    /// One step of the state machine: the work of the state the controller is in.
    fn tick(
        &mut self,
        inst: &Instruction,
        cache: &mut Cache,
        memory: &mut [u8],
        address_size: u32,
        log: &mut Vec<Event>,
    )
        requires
            old(self).step_ready(*inst, *old(cache)),
            old(cache).wf(),
            is_memory_op(inst.opcode),
            0 < address_size <= old(memory)@.len(),
        ensures
            final(self).wf(),
            final(memory)@.len() == old(memory)@.len(),
            Self::step_post(*old(self), *final(self), *old(cache), *final(cache), old(memory)@, final(memory)@, *inst, address_size, old(log)@, final(log)@),
    {
        match self.state {
            State::IDLE => {},
            State::COMPARE_TAG => self.compare_tag(inst, cache, log),
            State::WRITE_BACK => self.write_back(inst, cache, memory, address_size, log),
            State::ALLOCATE => self.allocate(inst, cache, memory, address_size, log),
        }
        proof {
            if old(self).state == State::COMPARE_TAG && old(cache).hits(inst.addr) {
                let w = old(cache).first_hit_way(inst.addr);
            }
        }
    }
}

/// What the controller, the cache, memory and the log hold at one point of a request.
pub type Snapshot = (CacheController, Cache, Seq<u8>, Seq<Event>);

/// `trace` is a run of the state machine on `inst`: each snapshot follows from the one
/// before it by one step.
pub open spec fn run(trace: Seq<Snapshot>, inst: Instruction, address_size: u32) -> bool {
    &&& trace.len() >= 1
    &&& forall|i: int| #![trigger trace[i]] 0 <= i < trace.len() - 1 ==> CacheController::step_post(
        trace[i].0, trace[i + 1].0, trace[i].1, trace[i + 1].1, trace[i].2, trace[i + 1].2,
        inst, address_size, trace[i].3, trace[i + 1].3,
    )
}

/// A run followed by one more step is a run.
proof fn lemma_run_step(trace: Seq<Snapshot>, next: Snapshot, inst: Instruction, address_size: u32)
    requires
        run(trace, inst, address_size),
        CacheController::step_post(
            trace.last().0, next.0, trace.last().1, next.1, trace.last().2, next.2,
            inst, address_size, trace.last().3, next.3,
        ),
    ensures
        run(trace.push(next), inst, address_size),
{
    let t2 = trace.push(next);
    assert forall|i: int| #![trigger t2[i]] 0 <= i < t2.len() - 1 implies CacheController::step_post(
        t2[i].0, t2[i + 1].0, t2[i].1, t2[i + 1].1, t2[i].2, t2[i + 1].2,
        inst, address_size, t2[i].3, t2[i + 1].3,
    ) by {
        assert(t2[i] == trace[i]);
        if i < trace.len() - 1 {
            assert(t2[i + 1] == trace[i + 1]);
            assert(trace[i] == trace[i]);
        } else {
            assert(t2[i + 1] == next);
        }
    }
}

/// How many steps a request has left at most, from where the controller stands.
pub open spec fn steps_left(s: CacheController, c: Cache, address: u32) -> nat {
    match s.state {
        State::IDLE => 0,
        State::ALLOCATE => if s.unfinished > 0 { 1 } else { 3 },
        State::COMPARE_TAG => if c.hits(address) { 2 } else { 5 },
        State::WRITE_BACK => 4,
    }
}

/// The block after `address`'s block starts at offset 0.
proof fn lemma_next_block(c: Cache, address: u32)
    requires
        c.byte_offset_bits + c.index_bits < 32,
        c.block_base(address) + c.block_size() <= u32::MAX,
    ensures
        c.offset_of((c.block_base(address) + c.block_size()) as u32) == 0,
{
    let bs = c.block_size() as int;
    crate::laws::law_address_split(c, address);
    vstd::arithmetic::power2::lemma_pow2_pos(c.byte_offset_bits as nat);
    vstd::arithmetic::div_mod::lemma_fundamental_div_mod(address as int, bs);
    let q = address as int / bs;
    assert(c.block_base(address) + bs == bs * (q + 1)) by (nonlinear_arith)
        requires
            c.block_base(address) == address - address as int % bs,
            address as int == bs * q + address as int % bs;
    vstd::arithmetic::div_mod::lemma_mod_multiples_basic(q + 1, bs);
    assert((q + 1) * bs == bs * (q + 1)) by (nonlinear_arith);
}

/// The bytes a store of `op` writes from the operand `value`.
fn store_bytes(op: OPCODE, value: [u8; 4]) -> (r: Vec<u8>)
    ensures
        r@ == store_data(op, value@),
{
    let mut r: Vec<u8> = Vec::new();
    match op {
        OPCODE::SB => {
            r.push(value[3]);
        },
        OPCODE::SH => {
            r.push(value[2]);
            r.push(value[3]);
        },
        OPCODE::SW => {
            r.push(value[0]);
            r.push(value[1]);
            r.push(value[2]);
            r.push(value[3]);
        },
        _ => {},
    }
    assert(r@ =~= store_data(op, value@));
    r
}

/// The bytes `[start, end)` of `v`.
fn copy_range(v: &Vec<u8>, start: usize, end: usize) -> (r: Vec<u8>)
    requires
        start <= end <= v@.len(),
    ensures
        r@ == v@.subrange(start as int, end as int),
{
    let mut r: Vec<u8> = Vec::new();
    let mut i = start;
    while i < end
        invariant
            start <= i <= end <= v@.len(),
            r@ == v@.subrange(start as int, i as int),
        decreases end - i,
    {
        r.push(v[i]);
        i += 1;
        assert(r@ =~= v@.subrange(start as int, i as int));
    }
    r
}

/// A block that no way held, put into `way` after that way's line was written back, is held
/// first by `way`.
proof fn lemma_hit_after_write_back_and_fill(c0: Cache, cw: Cache, mid: Cache, address: u32, way: int, line: LineView)
    requires
        c0.wf(),
        !c0.hits(address),
        cw.same_config(c0),
        cw@ == lines_written_back(c0, way, address),
        0 <= way < c0.associativity,
        line.is_valid,
        line.tag == c0.tag_of(address),
        mid.same_config(c0),
        mid@ == placed(cw@, way, c0.set_of(address) as int, line),
    ensures
        mid.first_hit(address, way),
        forall|x: int| #[trigger] mid.first_hit(address, x) ==> x == way,
{
    crate::laws::law_address_split(c0, address);
    c0.lemma_line(way, c0.set_of(address) as int);
    assert forall|v: int| 0 <= v < way implies !#[trigger] mid.way_hits(v, address) by {
        assert(!c0.way_hits(v, address));
    }
    assert(mid.way_hits(way, address));
    mid.lemma_first_hit_unique(address, way);
}

impl CacheController {
    /// Runs one instruction through the state machine until the controller is back in
    /// IDLE, and returns what each step did. `nop` and an unreadable instruction change
    /// nothing.
    pub fn cpu_request(&mut self, inst: &Instruction, cache: &mut Cache, memory: &mut [u8], address_size: u32) -> (log: Vec<Event>)
        requires
            old(self).wf(),
            old(self).unfinished == 0,
            is_memory_op(inst.opcode) ==> {
                let c = *old(cache);
                let a = inst.addr;
                &&& c.wf()
                &&& 0 < address_size <= old(memory)@.len()
                &&& old(self).hits < usize::MAX
                &&& !c.hits(a) ==> old(self).misses < usize::MAX
                &&& old(self).write_backs + 2 <= usize::MAX
                &&& overflow_bytes(c, a, inst.opcode) > 0 ==> {
                    &&& old(self).double_allocations < usize::MAX
                    &&& c.block_base(a) + c.block_size() <= u32::MAX
                }
            },
        ensures
            final(self).wf(),
            final(self).unfinished == 0,
            final(memory)@.len() == old(memory)@.len(),
            inst.opcode is NOP ==> log@ == seq![Event::Nop],
            inst.opcode is INVALID ==> log@ == seq![Event::Invalid],
            !is_memory_op(inst.opcode) ==> *final(self) == *old(self) && *final(cache) == *old(cache)
                && final(memory)@ == old(memory)@,
            is_memory_op(inst.opcode) ==> {
                let a = inst.addr;
                let c0 = *old(cache);
                let hit = c0.hits(a);
                let start = CacheController { state: State::COMPARE_TAG, ..*old(self) };
                &&& final(self).state == State::IDLE
                &&& final(cache).wf()
                &&& final(cache).same_config(c0)
                &&& final(self).hits == old(self).hits + 1
                &&& final(self).misses == old(self).misses + if hit { 0int } else { 1 }
                &&& final(self).double_allocations == old(self).double_allocations
                    + if overflow_bytes(c0, a, inst.opcode) > 0 { 1int } else { 0 }
                &&& old(self).write_backs <= final(self).write_backs <= old(self).write_backs + 2
                &&& exists|t: Seq<Snapshot>| {
                    &&& #[trigger] run(t, *inst, address_size)
                    &&& t.len() <= 6
                    &&& t[0] == (start, c0, old(memory)@, Seq::<Event>::empty())
                    &&& t.last() == (*final(self), *final(cache), final(memory)@, log@)
                }
            },
    {
        let mut log: Vec<Event> = Vec::new();
        match inst.opcode {
            OPCODE::NOP => {
                log.push(Event::Nop);
                return log;
            },
            OPCODE::INVALID => {
                log.push(Event::Invalid);
                return log;
            },
            _ => {
                self.state = State::COMPARE_TAG;
            },
        }
        let ghost s0 = *self;
        let ghost c0 = *cache;
        let ghost m0 = memory@;
        let ghost a = inst.addr;
        let ghost op = inst.opcode;
        let ghost hit0 = c0.hits(a);
        let ghost ob = overflow_bytes(c0, a, op);
        let ghost mut steps: nat = 0;
        let ghost mut trace: Seq<Snapshot> = seq![(s0, c0, m0, Seq::<Event>::empty())];
        proof {
            crate::laws::law_address_split(c0, a);
            assert(log@ =~= Seq::<Event>::empty());
            if hit0 {
                let w = c0.first_hit_way(a);
                c0.lemma_first_hit_unique(a, w);
                c0.lemma_line(w, c0.set_of(a) as int);
            }
        }
        while self.state != State::IDLE
            invariant
                self.wf(),
                cache.wf(),
                cache.same_config(c0),
                c0.wf(),
                is_memory_op(op),
                op == inst.opcode,
                a == inst.addr,
                hit0 == c0.hits(a),
                ob == overflow_bytes(c0, a, op),
                0 <= ob < width(op),
                ob > 0 ==> c0.block_base(a) + c0.block_size() <= u32::MAX,
                0 < address_size <= memory@.len(),
                memory@.len() == m0.len(),
                s0.state == State::COMPARE_TAG,
                run(trace, *inst, address_size),
                trace.len() == steps + 1,
                trace[0] == (s0, c0, m0, Seq::<Event>::empty()),
                trace.last() == (*self, *cache, memory@, log@),
                steps + steps_left(*self, *cache, a) <= 5,
                steps == 0 ==> *self == s0 && *cache == c0,
                self.hits == s0.hits + if self.state == State::IDLE || (self.state == State::ALLOCATE && self.unfinished > 0) { 1int } else { 0 },
                self.misses == s0.misses + if !hit0 && steps > 0 { 1int } else { 0 },
                self.double_allocations == s0.double_allocations
                    + if ob > 0 && (self.state == State::IDLE || (self.state == State::ALLOCATE && self.unfinished > 0)) { 1int } else { 0 },
                s0.write_backs <= self.write_backs <= s0.write_backs + if self.state == State::IDLE { 2int } else { 1 },
                self.state == State::WRITE_BACK ==> self.write_backs == s0.write_backs,
                s0.hits < usize::MAX,
                !hit0 ==> s0.misses < usize::MAX,
                s0.write_backs + 2 <= usize::MAX,
                ob > 0 ==> s0.double_allocations < usize::MAX,
                self.state == State::COMPARE_TAG && steps > 0 ==> cache.hits(a) && !hit0,
                self.state == State::WRITE_BACK ==> !hit0 && self.victim < c0.associativity,
                self.state == State::ALLOCATE && self.unfinished == 0 ==> !hit0 && self.victim < c0.associativity,
                self.state == State::ALLOCATE && self.unfinished > 0 ==> {
                    &&& self.unfinished == ob
                    &&& self.bytes_done >= 1
                    &&& self.unfinished + self.bytes_done == width(op)
                    &&& a + self.bytes_done == c0.block_base(a) + c0.block_size()
                },
            decreases steps_left(*self, *cache, a),
        {
            let ghost sb = *self;
            let ghost cb = *cache;
            let ghost mb = memory@;
            let ghost lb = log@;
            let ghost k0 = steps;
            proof {
                if sb.state == State::COMPARE_TAG && cb.hits(a) {
                    let w = cb.first_hit_way(a);
                    crate::laws::law_address_split(cb, a);
                    cb.lemma_first_hit_unique(a, w);
                    cb.lemma_line(w, cb.set_of(a) as int);
                }
                if sb.state == State::ALLOCATE && sb.unfinished > 0 {
                    lemma_next_block(c0, a);
                }
            }
            self.tick(inst, cache, memory, address_size, &mut log);
            proof {
                if sb.state == State::ALLOCATE && sb.unfinished == 0 {
                    let line = fetched_line(cb, mb, a, address_size);
                    crate::laws::law_hit_after_fill(cb, *cache, a, line, sb.victim as int);
                }
                if sb.state == State::COMPARE_TAG && cb.hits(a) {
                    crate::laws::law_address_split(cb, a);
                }
                lemma_run_step(trace, (*self, *cache, memory@, log@), *inst, address_size);
                trace = trace.push((*self, *cache, memory@, log@));
                steps = k0 + 1;
            }
        }
        log
    }
}

} // verus!
