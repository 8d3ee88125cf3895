//! Carving along sector chains: the bytes a FAT or mini-FAT chain still holds,
//! walked with a loop guard, and the counting of non-zero residue.
use vstd::prelude::*;
use crate::layout::MAXREGSECT;
use crate::raw::spec_next;

verus! {

/// The `unit`-byte block `sid` of `src`, which starts at `(sid + skip) * unit`
/// (`skip` is 1 for regular sectors, whose numbering skips the header, and 0
/// for mini-sectors), when it lies wholly inside `src`.
pub open spec fn spec_block(src: Seq<u8>, unit: int, skip: int, sid: int) -> Option<Seq<u8>> {
    let start = (sid + skip) * unit;
    if 0 <= sid && 0 < unit && 0 <= skip && start + unit <= src.len() {
        Some(src.subrange(start, start + unit))
    } else {
        None
    }
}

/// The walk goes on from `sid`: bytes are still wanted, `sid` names a data
/// block, the table has not led to it before, and the block is inside `src`.
pub open spec fn spec_carve_goes_on(
    src: Seq<u8>,
    unit: int,
    skip: int,
    table: Seq<u32>,
    sid: u32,
    remaining: int,
    visited: Set<u32>,
) -> bool {
    &&& remaining > 0
    &&& sid <= MAXREGSECT
    &&& !((sid as int) < table.len() && visited.contains(sid))
    &&& spec_block(src, unit, skip, sid as int) is Some
}

/// The bytes carved along the chain from `sid`: each block of the chain in
/// turn, the last one cut to the `remaining` bytes still wanted. The carve
/// stops early at a marker id, at a block outside `src`, or where the chain
/// loops back to a block it already gave.
pub open spec fn spec_carve(
    src: Seq<u8>,
    unit: int,
    skip: int,
    table: Seq<u32>,
    sid: u32,
    remaining: int,
    visited: Set<u32>,
) -> Seq<u8>
    decreases remaining,
{
    if spec_carve_goes_on(src, unit, skip, table, sid, remaining, visited) {
        let t = if unit < remaining {
            unit
        } else {
            remaining
        };
        spec_block(src, unit, skip, sid as int).unwrap().take(t) + spec_carve(
            src,
            unit,
            skip,
            table,
            spec_next(table, sid),
            remaining - t,
            visited.insert(sid),
        )
    } else {
        Seq::empty()
    }
}

/// The carve from `sid` stopped because the chain looped back to a block it
/// had already given while bytes were still wanted.
pub open spec fn spec_carve_loops(
    src: Seq<u8>,
    unit: int,
    skip: int,
    table: Seq<u32>,
    sid: u32,
    remaining: int,
    visited: Set<u32>,
) -> bool
    decreases remaining,
{
    if remaining > 0 && sid <= MAXREGSECT && (sid as int) < table.len() && visited.contains(sid) {
        true
    } else if spec_carve_goes_on(src, unit, skip, table, sid, remaining, visited) {
        let t = if unit < remaining {
            unit
        } else {
            remaining
        };
        spec_carve_loops(
            src,
            unit,
            skip,
            table,
            spec_next(table, sid),
            remaining - t,
            visited.insert(sid),
        )
    } else {
        false
    }
}

/// `s` without its first `from` items, or nothing when it is shorter.
pub open spec fn spec_tail(s: Seq<u8>, from: int) -> Seq<u8> {
    if 0 <= from <= s.len() {
        s.skip(from)
    } else {
        Seq::empty()
    }
}

proof fn lemma_tail_push(s: Seq<u8>, from: int, x: u8)
    requires
        0 <= from,
    ensures
        spec_tail(s.push(x), from) == (if from <= s.len() {
            spec_tail(s, from).push(x)
        } else {
            Seq::empty()
        }),
{
    if from <= s.len() {
        assert(s.push(x).skip(from) =~= s.skip(from).push(x));
    } else if from == s.len() + 1 {
        assert(s.push(x).skip(from) =~= Seq::<u8>::empty());
    }
}

/// The result of a carve: the carved bytes from an offset on, how many bytes
/// the carve gave in all, and whether the chain looped.
pub struct Carve {
    pub tail: Vec<u8>,
    pub carved: u64,
    pub looped: bool,
}

/// Carves up to `total` bytes along the chain from `start` through `table`,
/// keeping only the bytes from offset `from` on (so a length-only carve keeps
/// nothing). Loop-guarded by a visited mark per table slot.
pub fn carve_chain(
    src: &[u8],
    unit: usize,
    skip: u64,
    table: &[u32],
    start: u32,
    total: u64,
    from: u64,
) -> (c: Carve)
    requires
        0 < unit <= 1048576,
        skip <= 1,
    ensures
        c.carved == spec_carve(src@, unit as int, skip as int, table@, start, total as int, Set::empty()).len(),
        c.tail@ == spec_tail(
            spec_carve(src@, unit as int, skip as int, table@, start, total as int, Set::empty()),
            from as int,
        ),
        c.looped == spec_carve_loops(src@, unit as int, skip as int, table@, start, total as int, Set::empty()),
{
    let ghost full = spec_carve(src@, unit as int, skip as int, table@, start, total as int, Set::empty());
    let ghost loops = spec_carve_loops(src@, unit as int, skip as int, table@, start, total as int, Set::empty());
    let mut tail: Vec<u8> = Vec::new();
    let mut sid = start;
    let mut remaining = total;
    let mut pos: u64 = 0;
    let mut visited = vec![false; table.len()];
    let ghost mut done: Seq<u8> = Seq::empty();
    let ghost mut vset: Set<u32> = Set::empty();
    assert(done + spec_carve(src@, unit as int, skip as int, table@, sid, remaining as int, vset) =~= full);
    loop
        invariant
            0 < unit <= 1048576,
            skip <= 1,
            full == spec_carve(src@, unit as int, skip as int, table@, start, total as int, Set::empty()),
            loops == spec_carve_loops(src@, unit as int, skip as int, table@, start, total as int, Set::empty()),
            full == done + spec_carve(src@, unit as int, skip as int, table@, sid, remaining as int, vset),
            loops == spec_carve_loops(src@, unit as int, skip as int, table@, sid, remaining as int, vset),
            pos == done.len(),
            pos + remaining <= total,
            tail@ == spec_tail(done, from as int),
            visited@.len() == table@.len(),
            forall|j: u32| (j as int) < table@.len() ==> visited@[j as int] == vset.contains(j),
        decreases remaining,
    {
        if !(remaining > 0 && sid <= MAXREGSECT) {
            assert(full =~= done);
            return Carve { tail, carved: pos, looped: false };
        }
        if (sid as usize) < visited.len() {
            if visited[sid as usize] {
                assert(full =~= done);
                return Carve { tail, carved: pos, looped: true };
            }
            visited.set(sid as usize, true);
        }
        assert((sid as u64 + skip) * (unit as u64) <= 0x10_0000_0000_0000) by (nonlinear_arith)
            requires
                sid as u64 + skip <= 0x1_0000_0000,
                unit <= 1048576,
        ;
        let block_start: u64 = (sid as u64 + skip) * (unit as u64);
        if !(block_start <= src.len() as u64 && (src.len() as u64) - block_start >= unit as u64) {
            assert(spec_block(src@, unit as int, skip as int, sid as int) is None);
            assert(full =~= done);
            return Carve { tail, carved: pos, looped: false };
        }
        let b = block_start as usize;
        let block = vstd::slice::slice_subrange(src, b, b + unit);
        let t: u64 = if (unit as u64) < remaining {
            unit as u64
        } else {
            remaining
        };
        let ghost before = done;
        let ghost next_carve = spec_carve(
            src@,
            unit as int,
            skip as int,
            table@,
            spec_next(table@, sid),
            remaining - t,
            vset.insert(sid),
        );
        assert(block@ == spec_block(src@, unit as int, skip as int, sid as int).unwrap());
        assert(full == before + (block@.take(t as int) + next_carve));
        let tu = t as usize;
        for i in 0..tu
            invariant
                tu == t,
                t <= unit,
                pos + t <= total,
                block@.len() == unit,
                pos == before.len(),
                tail@ == spec_tail(before + block@.take(i as int), from as int),
        {
            proof {
                assert(before + block@.take(i + 1) =~= (before + block@.take(i as int)).push(block@[i as int]));
                lemma_tail_push(before + block@.take(i as int), from as int, block@[i as int]);
            }
            if pos + (i as u64) >= from {
                tail.push(block[i]);
            }
        }
        proof {
            done = before + block@.take(t as int);
            vset = vset.insert(sid);
            assert(full =~= done + next_carve);
        }
        pos = pos + t;
        remaining = remaining - t;
        sid = crate::raw::next_in_fat(table, sid);
    }
}

/// The number of non-zero bytes of `s`.
pub open spec fn spec_count_nonzero(s: Seq<u8>) -> nat
    decreases s.len(),
{
    if s.len() == 0 {
        0
    } else {
        spec_count_nonzero(s.drop_last()) + if s.last() != 0 {
            1nat
        } else {
            0nat
        }
    }
}

/// Counts the non-zero bytes of `s`.
pub fn count_nonzero(s: &[u8]) -> (n: usize)
    ensures
        n == spec_count_nonzero(s@),
{
    let mut n: usize = 0;
    for i in 0..s.len()
        invariant
            n == spec_count_nonzero(s@.take(i as int)),
            n <= i,
    {
        proof {
            assert(s@.take(i + 1).drop_last() =~= s@.take(i as int));
        }
        if s[i] != 0 {
            n = n + 1;
        }
    }
    assert(s@.take(s@.len() as int) =~= s@);
    n
}

} // verus!
