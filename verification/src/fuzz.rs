//! Deterministic pseudo-randomness for fuzzing the fabric: a seeded
//! xorshift64* generator, and the corpus statistics a fuzz run reports.

use vstd::prelude::*;
use vstd::arithmetic::power2::{lemma2_to64, lemma2_to64_rest, lemma_pow2_strictly_increases, lemma_pow2_unfold, pow2};
use crate::cell::{ArithOp, Cell, CellKind, CellV, CmpOp, KindV, copy_ids, kind_is_terminator};
use crate::constfold::operands_in_slab;
use crate::dec::{dec, push_dec};
use crate::fabric::{Fabric, Region, cell_at, cell_ty, refers_into, region_succs, same_content, ty_walk, ty_walk_ends};
use crate::id::{CellId, RegionId};
use crate::tally::{bump, key_pos, unique_keys};
use crate::ty::{ConstVal, Type, const_ty};
use crate::usetables::{copy_regions, row_at};

verus! {

/// One xorshift64 state transition.
pub open spec fn xorshift(x: u64) -> u64 {
    let a = x ^ (x >> 12u64);
    let b = a ^ (a << 25u64);
    b ^ (b >> 27u64)
}

/// The output scrambler of xorshift64*.
pub open spec fn scramble(x: u64) -> u64 {
    x.wrapping_mul(0x2545F4914F6CDD1D)
}

/// xorshift64*: deterministic, fast, good enough for a fuzzer.
pub struct Rng(pub u64);

impl Rng {
    /// A generator seeded with `seed` (0 is replaced by 1: the state must
    /// never be 0).
    pub fn new(seed: u64) -> (r: Rng)
        ensures
            r.0 == if seed == 0 { 1 } else { seed },
    {
        Rng(if seed == 0 { 1 } else { seed })
    }

    /// Advance the state and return the scrambled new state.
    pub fn next_u64(&mut self) -> (r: u64)
        ensures
            final(self).0 == xorshift(old(self).0),
            r == scramble(xorshift(old(self).0)),
    {
        let mut x = self.0;
        x = x ^ (x >> 12u64);
        x = x ^ (x << 25u64);
        x = x ^ (x >> 27u64);
        self.0 = x;
        x.wrapping_mul(0x2545F4914F6CDD1D)
    }

    /// A value below `n` (0 when `n` is 0, and then the state is left as
    /// it was).
    pub fn below(&mut self, n: u64) -> (r: u64)
        ensures
            n == 0 ==> r == 0 && final(self).0 == old(self).0,
            n > 0 ==> r == scramble(xorshift(old(self).0)) % n && final(self).0 == xorshift(old(self).0),
    {
        if n == 0 {
            0
        } else {
            self.next_u64() % n
        }
    }

    /// A uniformly-ish chosen element of `xs`, or `None` when it is
    /// empty (then the state is left as it was).
    pub fn pick<'a, T>(&mut self, xs: &'a [T]) -> (r: Option<&'a T>)
        ensures
            xs@.len() == 0 ==> r is None && final(self).0 == old(self).0,
            xs@.len() > 0 ==> r == Some(&xs@[(scramble(xorshift(old(self).0)) % (xs@.len() as u64)) as int])
                && final(self).0 == xorshift(old(self).0),
    {
        if xs.len() == 0 {
            None
        } else {
            let i = self.below(xs.len() as u64);
            Some(&xs[i as usize])
        }
    }

    /// True with probability about `pct` percent.
    pub fn chance(&mut self, pct: u64) -> (b: bool)
        ensures
            b == (scramble(xorshift(old(self).0)) % 100 < pct),
            final(self).0 == xorshift(old(self).0),
    {
        self.below(100) < pct
    }
}

/// The generator's state never becomes 0 (a zero state would stay zero
/// forever): a nonzero state steps to a nonzero state.
pub proof fn lemma_xorshift_nonzero(x: u64)
    requires
        x != 0,
    ensures
        xorshift(x) != 0,
{
    assert(x != 0 ==> ((x ^ (x >> 12u64)) ^ ((x ^ (x >> 12u64)) << 25u64)) ^ (((x ^ (x >> 12u64)) ^ ((x
        ^ (x >> 12u64)) << 25u64)) >> 27u64) != 0) by (bit_vector);
}

/// What a corpus run reports.
#[derive(Debug, Default)]
pub struct CorpusStats {
    pub iters: u64,
    pub valid: u64,
    /// provenance walks performed (one per cell)
    pub cells_walked: u64,
    pub mutated: u64,
    pub mutated_still_valid: u64,
    /// rejection counts per verifier code, each code once
    pub rejected: Vec<(String, u64)>,
    pub roundtrip_fail: u64,
    pub prov_fail: u64,
    pub replay_fail: u64,
    /// can only be observed as a crash; kept for the report
    pub panics: u64,
}

/// The sum of the counts.
pub open spec fn counts_sum(s: Seq<(String, u64)>) -> nat
    decreases s.len(),
{
    if s.len() == 0 {
        0
    } else {
        counts_sum(s.drop_last()) + s.last().1 as nat
    }
}

impl CorpusStats {
    /// Each verifier code is counted under one entry.
    pub open spec fn wf(&self) -> bool {
        unique_keys(self.rejected@)
    }

    /// Count one rejection with verifier code `code`.
    pub fn note_rejection(&mut self, code: &str)
        requires
            old(self).wf(),
            forall|i: int| 0 <= i < old(self).rejected@.len() ==> (#[trigger] old(self).rejected@[i]).1 < u64::MAX,
        ensures
            final(self).wf(),
            match key_pos(old(self).rejected@, code@, old(self).rejected@.len() as int) {
                Some(i) => final(self).rejected@.len() == old(self).rejected@.len()
                    && final(self).rejected@[i].1 == old(self).rejected@[i].1 + 1
                    && forall|j: int| 0 <= j < old(self).rejected@.len() && j != i
                        ==> #[trigger] final(self).rejected@[j] == old(self).rejected@[j],
                None => final(self).rejected@.len() == old(self).rejected@.len() + 1
                    && final(self).rejected@[old(self).rejected@.len() as int].0@ == code@
                    && final(self).rejected@[old(self).rejected@.len() as int].1 == 1
                    && forall|j: int| 0 <= j < old(self).rejected@.len()
                        ==> #[trigger] final(self).rejected@[j] == old(self).rejected@[j],
            },
            final(self).iters == old(self).iters,
            final(self).valid == old(self).valid,
    {
        bump(&mut self.rejected, code);
    }

    /// All rejections, whatever the code.
    pub fn rejected_total(&self) -> (t: u64)
        requires
            counts_sum(self.rejected@) <= u64::MAX,
        ensures
            t == counts_sum(self.rejected@),
    {
        let mut t: u64 = 0;
        let mut i: usize = 0;
        while i < self.rejected.len()
            invariant
                i <= self.rejected@.len(),
                counts_sum(self.rejected@) <= u64::MAX,
                t == counts_sum(self.rejected@.take(i as int)),
            decreases self.rejected@.len() - i,
        {
            proof {
                assert(self.rejected@.take(i + 1).drop_last() =~= self.rejected@.take(i as int));
                lemma_counts_prefix(self.rejected@, i + 1);
            }
            t = t + self.rejected[i].1;
            i = i + 1;
        }
        assert(self.rejected@.take(i as int) =~= self.rejected@);
        t
    }
}

/// A prefix sums to no more than the whole.
proof fn lemma_counts_prefix(s: Seq<(String, u64)>, k: int)
    requires
        0 <= k <= s.len(),
    ensures
        counts_sum(s.take(k)) <= counts_sum(s),
    decreases s.len(),
{
    if k < s.len() {
        assert(s.drop_last().take(k) =~= s.take(k));
        lemma_counts_prefix(s.drop_last(), k);
    } else {
        assert(s.take(k) =~= s);
    }
}


/// `g` holds `f`'s regions and cells, except that cell `i` is `c`.
pub open spec fn cell_replaced(f: Fabric, g: Fabric, i: int, c: Option<CellV>) -> bool {
    &&& g.regions@.len() == f.regions@.len()
    &&& forall|r: int| 0 <= r < f.regions@.len() ==> (#[trigger] g.regions@[r]).name@ == f.regions@[r].name@
        && g.regions@[r].cells@ == f.regions@[r].cells@
    &&& g.slab@.len() == f.slab@.len()
    &&& forall|j: int| j != i ==> #[trigger] cell_at(g, j) == cell_at(f, j)
    &&& cell_at(g, i) == c
}

/// `g` is `f` with cell `i` replaced by `c` when `cond` holds, and holds
/// `f`'s content otherwise.
pub open spec fn replaced_if(f: Fabric, g: Fabric, i: int, cond: bool, c: CellV) -> bool {
    if cond {
        cell_replaced(f, g, i, Some(c))
    } else {
        same_content(f, g)
    }
}

/// The next type of the corruption cycle i1, i32, i64, f64.
pub open spec fn next_ty(t: Type) -> Type {
    match t {
        Type::I1 => Type::I32,
        Type::I32 => Type::I64,
        Type::I64 => Type::F64,
        Type::F64 => Type::I1,
    }
}

/// Region `r` of `f` ends in a present terminator.
pub open spec fn ends_in_terminator(f: Fabric, r: int) -> bool {
    let cells = f.regions@[r].cells@;
    cells.len() > 0 && cell_at(f, cells.last().0 as int) is Some && kind_is_terminator(cell_at(f, cells.last().0 as int)->0.kind)
}

/// `g` is `f` with the terminator of region `r` dropped from the region's
/// list (the cell stays in the slab), or `f`'s content when `r` does not
/// end in a terminator.
pub open spec fn terminator_dropped(f: Fabric, g: Fabric, r: int) -> bool {
    if ends_in_terminator(f, r) {
        &&& g.regions@.len() == f.regions@.len()
        &&& forall|q: int| 0 <= q < f.regions@.len() && q != r ==> (#[trigger] g.regions@[q]).name@ == f.regions@[q].name@
            && g.regions@[q].cells@ == f.regions@[q].cells@
        &&& g.regions@[r].name@ == f.regions@[r].name@
        &&& g.regions@[r].cells@ == f.regions@[r].cells@.drop_last()
        &&& g.slab@.len() == f.slab@.len()
        &&& forall|j: int| #[trigger] cell_at(g, j) == cell_at(f, j)
    } else {
        same_content(f, g)
    }
}

/// `g` is `f` with a copy of terminator `t` added under a fresh id just
/// before the last cell of its region.
pub open spec fn terminator_copied(f: Fabric, g: Fabric, t: int) -> bool {
    let c = cell_at(f, t)->0;
    let r = c.region.0 as int;
    let cells = f.regions@[r].cells@;
    let at = if cells.len() == 0 { 0 } else { cells.len() - 1 };
    &&& g.regions@.len() == f.regions@.len()
    &&& forall|q: int| 0 <= q < f.regions@.len() && q != r ==> (#[trigger] g.regions@[q]).name@ == f.regions@[q].name@
        && g.regions@[q].cells@ == f.regions@[q].cells@
    &&& g.regions@[r].name@ == f.regions@[r].name@
    &&& g.regions@[r].cells@ == cells.insert(at, CellId(f.slab@.len() as u32))
    &&& g.slab@.len() == f.slab@.len() + 1
    &&& forall|j: int| j != f.slab@.len() ==> #[trigger] cell_at(g, j) == cell_at(f, j)
    &&& cell_at(g, f.slab@.len() as int) == Some(c)
}

/// Cell `t` of `f` is a present terminator.
pub open spec fn is_terminator_at(f: Fabric, t: int) -> bool {
    cell_at(f, t) is Some && kind_is_terminator(cell_at(f, t)->0.kind)
}

/// Cell `w` of `f` is present and produces an `i32`.
pub open spec fn is_i32_at(f: Fabric, w: int) -> bool {
    cell_at(f, w) is Some && cell_ty(f, cell_at(f, w)->0) == Some(Type::I32)
}

/// Operand `s` of victim `v` (when it has operands) now names present
/// cell `o`.
pub open spec fn operand_moved(f: Fabric, g: Fabric, v: int, o: int, s: int) -> bool {
    let c = cell_at(f, v)->0;
    &&& cell_at(f, o) is Some
    &&& (c.operands.len() > 0 ==> 0 <= s < c.operands.len())
    &&& replaced_if(f, g, v, c.operands.len() > 0, CellV { operands: c.operands.update(s, CellId(o as u32)), ..c })
}

/// The first join of victim `v` (when it is a phi with joins) now names
/// region `j`, one of the regions or one of three past them.
pub open spec fn join_moved(f: Fabric, g: Fabric, v: int, j: int) -> bool {
    let c = cell_at(f, v)->0;
    &&& 0 <= j < f.regions@.len() + 3
    &&& replaced_if(
        f,
        g,
        v,
        c.kind is Phi && c.kind->joins.len() > 0,
        CellV { kind: KindV::Phi { joins: c.kind->joins.update(0, RegionId(j as u32)) }, ..c },
    )
}

pub(crate) proof fn lemma_walk_same(f: Fabric, g: Fabric, k: KindV, ops: Seq<CellId>, fuel: nat)
    requires
        forall|j: int| #[trigger] cell_at(g, j) == cell_at(f, j),
    ensures
        ty_walk(f, k, ops, fuel) == ty_walk(g, k, ops, fuel),
    decreases fuel,
{
    if k is Phi && ops.len() > 0 && cell_at(f, ops[0].0 as int) is Some && fuel > 0 {
        let c = cell_at(f, ops[0].0 as int)->0;
        assert(cell_at(g, ops[0].0 as int) == cell_at(f, ops[0].0 as int));
        lemma_walk_same(f, g, c.kind, c.operands, (fuel - 1) as nat);
    }
}

/// The corruption numbered `m` applied to victim `v` of `f` gave `g`.
pub open spec fn corrupted(f: Fabric, g: Fabric, m: u64, v: int) -> bool {
    let c = cell_at(f, v)->0;
    if m == 0 {
        // an operand points past the slab
        replaced_if(f, g, v, c.operands.len() > 0, CellV { operands: c.operands.update(0, CellId((f.slab@.len() + 7) as u32)), ..c })
    } else if m == 1 {
        // an operand retargeted to some present cell
        exists|o: int, s: int| #[trigger] operand_moved(f, g, v, o, s)
    } else if m == 2 {
        // a hole punched in the slab
        cell_replaced(f, g, v, None)
    } else if m == 3 {
        // a constant's declared type changed
        replaced_if(f, g, v, c.kind is Const, CellV { kind: KindV::Const { ty: next_ty(c.kind->Const_ty), val: c.kind->Const_val }, ..c })
    } else if m == 4 {
        // a region's terminator dropped
        exists|r: int| 0 <= r < f.regions@.len() && #[trigger] terminator_dropped(f, g, r)
    } else if m == 5 {
        // a terminator duplicated mid-region
        if exists|t: int| #[trigger] is_terminator_at(f, t) {
            exists|t: int| #[trigger] is_terminator_at(f, t) && terminator_copied(f, g, t)
        } else {
            same_content(f, g)
        }
    } else if m == 6 {
        // an arith cell retyped
        replaced_if(f, g, v, c.kind is Arith, CellV { kind: KindV::Arith { op: c.kind->Arith_op, ty: next_ty(c.kind->Arith_ty) }, ..c })
    } else if m == 7 {
        // a phi's first join pointed at some region, maybe a missing one
        exists|j: int| #[trigger] join_moved(f, g, v, j)
    } else {
        // a branch condition replaced by an i32 value
        if c.kind is Branch && exists|w: int| #[trigger] is_i32_at(f, w) {
            exists|w: int| #[trigger] is_i32_at(f, w) && cell_replaced(f, g, v, Some(CellV { operands: seq![CellId(w as u32)], ..c }))
        } else {
            same_content(f, g)
        }
    }
}

/// The corruption a mutation draws from generator state `s` (after the
/// victim was picked from state `s0`, `s == xorshift(s0)`).
pub open spec fn corruption_drawn(s: u64) -> u64 {
    scramble(xorshift(s)) % 9
}

/// Every present cell's type is known: no cycle of phis through first
/// operands.
pub open spec fn types_known(f: Fabric) -> bool {
    forall|i: int| #[trigger] cell_at(f, i) is Some ==> ty_walk_ends(f, cell_at(f, i)->0)
}

/// One corruption mutation of a copy of `f`: a victim among the present
/// cells is picked, then one of nine corruptions (see `corrupted`). With
/// no present cell or no region, the copy comes back unchanged. The
/// result may (rarely) still be well formed.
/// One of `xs`, drawn by `rng.pick`.
pub(crate) fn pick_id(rng: &mut Rng, xs: &Vec<CellId>) -> (r: CellId)
    requires
        xs@.len() > 0,
    ensures
        xs@.contains(r),
{
    let ghost s = old(rng).0;
    let n = xs.len();
    let r = *rng.pick(xs.as_slice()).unwrap();
    proof {
        assert(n as u64 == xs@.len());
        let i = (scramble(xorshift(s)) % (xs@.len() as u64)) as int;
        assert(0 <= i < xs@.len());
        assert(xs@[i] == r);
    }
    r
}

/// Corruptions 0, 1, 2, 3, 6 and 7: an edit of the victim cell alone.
fn corrupt_cell(f: &Fabric, g: &mut Fabric, present: &Vec<CellId>, rng: &mut Rng, victim: CellId, case: u64)
    requires
        same_content(*f, *old(g)),
        f.wf(),
        f.regions@.len() > 0,
        f.slab@.len() + 7 <= u32::MAX,
        forall|id: CellId| #[trigger] present@.contains(id) <==> cell_at(*f, id.0 as int) is Some,
        cell_at(*f, victim.0 as int) is Some,
        case == 0 || case == 1 || case == 2 || case == 3 || case == 6 || case == 7,
    ensures
        corrupted(*f, *final(g), case, victim.0 as int),
{
    proof {
        assert forall|j: int| #[trigger] cell_at(*g, j) == cell_at(*f, j) by {}
    }
    let ghost vi = victim.0 as int;
    let ghost c = cell_at(*f, vi)->0;
    let vu = victim.0 as usize;
    assert(present@.contains(victim));
    if case == 0 {
        let bad = CellId((g.slab.len() + 7) as u32);
        let mut c2 = g.cell(victim).unwrap().copy();
        if c2.operands.len() > 0 {
            c2.operands.set(0, bad);
            g.slab.set(vu, Some(c2));
        }
        proof { assert(corrupted(*f, *g, case, vi)); }
    } else if case == 1 {
        let other = pick_id(rng, present);
        let mut c2 = g.cell(victim).unwrap().copy();
        if c2.operands.len() > 0 {
            let slot = rng.below(c2.operands.len() as u64) as usize;
            c2.operands.set(slot, other);
            g.slab.set(vu, Some(c2));
            proof {
                assert(cell_at(*f, other.0 as int) is Some);
                assert(operand_moved(*f, *g, vi, other.0 as int, slot as int));
            }
        } else {
            proof {
                assert(cell_at(*f, other.0 as int) is Some);
                assert(operand_moved(*f, *g, vi, other.0 as int, 0));
            }
        }
    } else if case == 2 {
        g.slab.set(vu, None);
        proof { assert(corrupted(*f, *g, case, vi)); }
    } else if case == 3 {
        let mut c2 = g.cell(victim).unwrap().copy();
        match c2.kind {
            CellKind::Const { ty, val } => {
                let t2 = match ty {
                    Type::I1 => Type::I32,
                    Type::I32 => Type::I64,
                    Type::I64 => Type::F64,
                    Type::F64 => Type::I1,
                };
                c2.kind = CellKind::Const { ty: t2, val };
                g.slab.set(vu, Some(c2));
            },
            _ => {},
        }
        proof { assert(corrupted(*f, *g, case, vi)); }
    } else if case == 6 {
        let mut c2 = g.cell(victim).unwrap().copy();
        match c2.kind {
            CellKind::Arith { op, ty } => {
                let t2 = match ty {
                    Type::I1 => Type::I32,
                    Type::I32 => Type::I64,
                    Type::I64 => Type::F64,
                    Type::F64 => Type::I1,
                };
                c2.kind = CellKind::Arith { op, ty: t2 };
                g.slab.set(vu, Some(c2));
            },
            _ => {},
        }
        proof { assert(corrupted(*f, *g, case, vi)); }
    } else {
        let n = g.regions.len() as u64 + 3;
        let j = rng.below(n);
        let mut c2 = g.cell(victim).unwrap().copy();
        let mut changed = false;
        match &c2.kind {
            CellKind::Phi { joins } => {
                if joins.len() > 0 {
                    let mut js = copy_regions(joins);
                    js.set(0, RegionId(j as u32));
                    c2.kind = CellKind::Phi { joins: js };
                    changed = true;
                }
            },
            _ => {},
        }
        if changed {
            g.slab.set(vu, Some(c2));
        }
        proof {
            assert(join_moved(*f, *g, vi, j as int));
            assert(corrupted(*f, *g, case, vi));
        }
    }
}
/// Corruption 4: a region's terminator dropped from its list.
fn drop_terminator(f: &Fabric, g: &mut Fabric, present: &Vec<CellId>, rng: &mut Rng)
    requires
        same_content(*f, *old(g)),
        f.wf(),
        f.regions@.len() > 0,
        f.slab@.len() + 7 <= u32::MAX,
        forall|id: CellId| #[trigger] present@.contains(id) <==> cell_at(*f, id.0 as int) is Some,
    ensures
        corrupted(*f, *final(g), 4, 0),
{
    proof {
        assert forall|j: int| #[trigger] cell_at(*g, j) == cell_at(*f, j) by {}
    }
    let case: u64 = 4;
    let ghost vi: int = 0;
        let r = rng.below(g.regions.len() as u64) as usize;
        let n = g.regions[r].cells.len();
        let last_is_term = if n > 0 {
            match g.cell(g.regions[r].cells[n - 1]) {
                Some(lc) => lc.is_terminator(),
                None => false,
            }
        } else {
            false
        };
        if last_is_term {
            let mut cells = copy_ids(&g.regions[r].cells);
            cells.pop();
            let name = g.regions[r].name.clone();
            g.regions.set(r, Region { name, cells });
        }
        proof {
            assert(terminator_dropped(*f, *g, r as int));
            assert(corrupted(*f, *g, case, vi));
        }
}
/// Corruption 5: a terminator duplicated mid-region.
fn copy_terminator(f: &Fabric, g: &mut Fabric, present: &Vec<CellId>, rng: &mut Rng)
    requires
        same_content(*f, *old(g)),
        f.wf(),
        f.regions@.len() > 0,
        f.slab@.len() + 7 <= u32::MAX,
        forall|id: CellId| #[trigger] present@.contains(id) <==> cell_at(*f, id.0 as int) is Some,
    ensures
        corrupted(*f, *final(g), 5, 0),
{
    proof {
        assert forall|j: int| #[trigger] cell_at(*g, j) == cell_at(*f, j) by {}
    }
    let case: u64 = 5;
    let ghost vi: int = 0;
        let mut terms: Vec<CellId> = Vec::new();
        let mut k: usize = 0;
        while k < present.len()
            invariant
                k <= present@.len(),
                forall|j: int| 0 <= j < terms@.len() ==> is_terminator_at(*f, #[trigger] terms@[j].0 as int),
                forall|j: int| 0 <= j < k && is_terminator_at(*f, #[trigger] present@[j].0 as int) ==> terms@.contains(present@[j]),
                forall|j: int| #[trigger] cell_at(*g, j) == cell_at(*f, j),
            decreases present@.len() - k,
        {
            let id = present[k];
            let ghost t0 = terms@;
            match g.cell(id) {
                Some(tc) => {
                    if tc.is_terminator() {
                        terms.push(id);
                    }
                },
                None => {},
            }
            proof {
                assert forall|j: int| 0 <= j < k + 1 && is_terminator_at(*f, #[trigger] present@[j].0 as int) implies terms@.contains(
                    present@[j],
                ) by {
                    if j < k {
                        let q = choose|q: int| 0 <= q < t0.len() && t0[q] == present@[j];
                        assert(terms@[q] == t0[q]);
                    } else {
                        assert(terms@[terms@.len() - 1] == id);
                    }
                }
            }
            k = k + 1;
        }
        let picked: Option<CellId> = if terms.len() > 0 { Some(pick_id(rng, &terms)) } else { None };
        match picked {
            Some(t) => {
                proof {
                    let q = choose|q: int| 0 <= q < terms@.len() && terms@[q] == t;
                    assert(is_terminator_at(*f, terms@[q].0 as int));
                    assert(cell_at(*g, t.0 as int) == cell_at(*f, t.0 as int));
                }
                let tc = g.cell(t).unwrap().copy();
                let region = tc.region;
                let len = g.regions[region.0 as usize].cells.len();
                let at = if len > 0 { len - 1 } else { 0 };
                g.insert_cell(region, at, tc);
                proof {
                    assert(is_terminator_at(*f, t.0 as int));
                    assert(terminator_copied(*f, *g, t.0 as int));
                }
            },
            None => {
                proof {
                    if exists|t: int| #[trigger] is_terminator_at(*f, t) {
                        let t = choose|t: int| #[trigger] is_terminator_at(*f, t);
                        assert(present@.contains(CellId(t as u32)));
                        let j = choose|j: int| 0 <= j < present@.len() && present@[j] == CellId(t as u32);
                        assert(terms@.contains(present@[j]));
                    }
                }
            },
        }
        proof { assert(corrupted(*f, *g, case, vi)); }
}
/// Corruption 8: a branch condition replaced by an i32 value.
fn branch_on_i32(f: &Fabric, g: &mut Fabric, present: &Vec<CellId>, rng: &mut Rng, victim: CellId)
    requires
        same_content(*f, *old(g)),
        f.wf(),
        f.regions@.len() > 0,
        f.slab@.len() + 7 <= u32::MAX,
        forall|id: CellId| #[trigger] present@.contains(id) <==> cell_at(*f, id.0 as int) is Some,
        types_known(*f),
        cell_at(*f, victim.0 as int) is Some,
    ensures
        corrupted(*f, *final(g), 8, victim.0 as int),
{
    proof {
        assert forall|j: int| #[trigger] cell_at(*g, j) == cell_at(*f, j) by {}
    }
    let case: u64 = 8;
    let ghost vi = victim.0 as int;
    let ghost c = cell_at(*f, vi)->0;
    let vu = victim.0 as usize;
        let mut pool: Vec<CellId> = Vec::new();
        let mut k: usize = 0;
        while k < present.len()
            invariant
                k <= present@.len(),
                types_known(*f),
                forall|j: int| 0 <= j < pool@.len() ==> is_i32_at(*f, #[trigger] pool@[j].0 as int),
                forall|j: int| 0 <= j < k && is_i32_at(*f, #[trigger] present@[j].0 as int) ==> pool@.contains(present@[j]),
                forall|j: int| #[trigger] cell_at(*g, j) == cell_at(*f, j),
                g.slab@.len() == f.slab@.len(),
            decreases present@.len() - k,
        {
            let id = present[k];
            proof {
                if cell_at(*g, id.0 as int) is Some {
                    assert(ty_walk_ends(*f, cell_at(*f, id.0 as int)->0));
                    lemma_walk_same(*f, *g, cell_at(*f, id.0 as int)->0.kind, cell_at(*f, id.0 as int)->0.operands, f.slab@.len());
                }
            }
            let ghost p0 = pool@;
            match g.ty_of(id) {
                Some(Type::I32) => {
                    pool.push(id);
                },
                _ => {},
            }
            proof {
                assert forall|j: int| 0 <= j < k + 1 && is_i32_at(*f, #[trigger] present@[j].0 as int) implies pool@.contains(
                    present@[j],
                ) by {
                    if j < k {
                        let q = choose|q: int| 0 <= q < p0.len() && p0[q] == present@[j];
                        assert(pool@[q] == p0[q]);
                    } else {
                        assert(pool@[pool@.len() - 1] == id);
                    }
                }
            }
            k = k + 1;
        }
        let v: Option<CellId> = if pool.len() > 0 { Some(pick_id(rng, &pool)) } else { None };
        let c0 = g.cell(victim).unwrap();
        match (v, &c0.kind) {
            (Some(w), CellKind::Branch { .. }) => {
                proof {
                    let q = choose|q: int| 0 <= q < pool@.len() && pool@[q] == w;
                    assert(is_i32_at(*f, pool@[q].0 as int));
                }
                let mut c2 = c0.copy();
                let mut ops: Vec<CellId> = Vec::new();
                ops.push(w);
                c2.operands = ops;
                g.slab.set(vu, Some(c2));
                proof {
                    assert(is_i32_at(*f, w.0 as int));
                    assert(cell_replaced(*f, *g, vi, Some(CellV { operands: seq![CellId(((w.0 as int) as u32))], ..c })));
                }
            },
            _ => {
                proof {
                    if c.kind is Branch && exists|w: int| #[trigger] is_i32_at(*f, w) {
                        let w = choose|w: int| #[trigger] is_i32_at(*f, w);
                        assert(present@.contains(CellId(w as u32)));
                        let j = choose|j: int| 0 <= j < present@.len() && present@[j] == CellId(w as u32);
                        assert(pool@.contains(present@[j]));
                    }
                }
            },
        }
        proof { assert(corrupted(*f, *g, case, vi)); }
}
pub fn mutate(f: &Fabric, rng: &mut Rng) -> (g: Fabric)
    requires
        f.wf(),
        types_known(*f),
        f.slab@.len() + 7 <= u32::MAX,
    ensures
        if (exists|i: int| #[trigger] cell_at(*f, i) is Some) && f.regions@.len() > 0 {
            exists|v: int| #[trigger] cell_at(*f, v) is Some && corrupted(*f, g, corruption_drawn(xorshift(old(rng).0)), v)
        } else {
            same_content(*f, g)
        },
{
    let mut g = f.copy();
    proof {
        assert forall|j: int| #[trigger] cell_at(g, j) == cell_at(*f, j) by {}
    }
    let present = g.cells();
    if present.len() == 0 || g.regions.len() == 0 {
        proof {
            if exists|i: int| #[trigger] cell_at(*f, i) is Some {
                let i = choose|i: int| #[trigger] cell_at(*f, i) is Some;
                assert(present@.contains(CellId(i as u32)));
            }
        }
        return g;
    }
    let victim = *rng.pick(present.as_slice()).unwrap();
    let case = rng.below(9);
    assert(present@.contains(victim));
    proof {
        assert forall|id: CellId| #[trigger] present@.contains(id) <==> cell_at(*f, id.0 as int) is Some by {}
    }
    if case == 4 {
        drop_terminator(f, &mut g, &present, rng);
        proof { assert(corrupted(*f, g, case, victim.0 as int)); }
    } else if case == 5 {
        copy_terminator(f, &mut g, &present, rng);
        proof { assert(corrupted(*f, g, case, victim.0 as int)); }
    } else if case == 8 {
        branch_on_i32(f, &mut g, &present, rng, victim);
    } else {
        corrupt_cell(f, &mut g, &present, rng, victim, case);
    }
    g
}


/// The position of the highest set bit of `a` (0 for 0 and 1).
pub open spec fn top_bit(a: nat) -> nat
    decreases a,
{
    if a <= 1 {
        0
    } else {
        1 + top_bit(a / 2)
    }
}

/// The IEEE-754 double bit pattern of `m / 8`: sign, biased exponent and
/// the fraction bits below the leading one.
pub open spec fn eighths_bits(m: int) -> int {
    if m == 0 {
        0
    } else {
        let a: nat = if m < 0 { (-m) as nat } else { m as nat };
        let e = top_bit(a);
        (if m < 0 { pow2(63) as int } else { 0 }) + (e + 1020) * pow2(52) + (a - pow2(e)) * pow2((52 - e) as nat)
    }
}

proof fn lemma_top_bit(a: nat, e: nat)
    requires
        pow2(e) <= a < pow2(e + 1),
    ensures
        top_bit(a) == e,
    decreases e,
{
    lemma_pow2_unfold(e + 1);
    if e > 0 {
        lemma_pow2_unfold(e);
        lemma_top_bit(a / 2, (e - 1) as nat);
    } else {
        lemma2_to64();
    }
}

/// The bits of the double `m / 8`, for `|m| < 1024`.
fn eighths_to_bits(m: i64) -> (b: u64)
    requires
        -1024 < m < 1024,
    ensures
        b == eighths_bits(m as int),
{
    if m == 0 {
        return 0;
    }
    let neg = m < 0;
    let a: u64 = if neg { (0 - m) as u64 } else { m as u64 };
    let mut e: u64 = 0;
    let mut p: u64 = 1;
    proof { lemma2_to64(); }
    while p * 2 <= a
        invariant
            1 <= a < 1024,
            p == pow2(e as nat),
            1 <= p <= a,
            e <= 10,
        decreases a - p,
    {
        proof {
            lemma_pow2_unfold((e + 1) as nat);
            lemma2_to64();
            if e + 1 > 10 {
                lemma_pow2_strictly_increases(10, (e + 1) as nat);
            }
        }
        p = p * 2;
        e = e + 1;
    }
    proof {
        lemma_pow2_unfold((e + 1) as nat);
        lemma_top_bit(a as nat, e as nat);
    }
    let mut frac: u64 = a - p;
    let mut k: u64 = e;
    assert((a - p) * pow2(0) == a - p) by {
        lemma2_to64();
    }
    while k < 52
        invariant
            e <= k <= 52,
            e <= 10,
            p == pow2(e as nat),
            a - p < p,
            frac == (a - p) * pow2((k - e) as nat),
            frac < pow2(k as nat),
        decreases 52 - k,
    {
        proof {
            lemma_pow2_unfold((k - e + 1) as nat);
            lemma_pow2_unfold((k + 1) as nat);
            assert(frac * 2 == (a - p) * pow2((k + 1 - e) as nat)) by (nonlinear_arith)
                requires
                    frac == (a - p) * pow2((k - e) as nat),
                    pow2((k + 1 - e) as nat) == 2 * pow2((k - e) as nat);
            if k + 1 < 52 {
                lemma_pow2_strictly_increases((k + 1) as nat, 52);
            }
            lemma2_to64_rest();
        }
        frac = frac * 2;
        k = k + 1;
    }
    proof {
        lemma2_to64_rest();
        lemma2_to64();
    }
    let expo: u64 = (e + 1020) * 4503599627370496;
    let sign: u64 = if neg { 9223372036854775808 } else { 0 };
    proof {
        assert((e + 1020) * pow2(52) + pow2(52) <= pow2(63)) by (nonlinear_arith)
            requires
                e <= 10,
                pow2(52) == 4503599627370496,
                pow2(63) == 9223372036854775808;
    }
    sign + expo + frac
}

/// A random constant as the generator draws it: an `i1`, an `i32` in
/// [-500, 500), an `i64` in [0, 10^6), or an `f64` in eighths from -12.5
/// to 12.375.
fn rand_const(rng: &mut Rng) -> (r: (Type, ConstVal))
    ensures
        const_ty(r.1) == r.0,
{
    match rng.below(4) {
        0 => (Type::I1, ConstVal::I1(rng.below(2) == 0)),
        1 => (Type::I32, ConstVal::I32(rng.below(1000) as i32 - 500)),
        2 => (Type::I64, ConstVal::I64(rng.below(1_000_000) as i64)),
        _ => (Type::F64, ConstVal::F64(eighths_to_bits(rng.below(200) as i64 - 100))),
    }
}

/// Region `i` is named `r` and `i` in decimal, for every region.
#[verifier::opaque]
pub open spec fn named_in_order(f: Fabric) -> bool {
    forall|i: int| 0 <= i < f.regions@.len() ==> (#[trigger] f.regions@[i]).name@ == seq!['r'] + dec(i as nat)
}

proof fn lemma_names_kept(a: Fabric, b: Fabric)
    requires
        named_in_order(a),
        b.regions@.len() == a.regions@.len(),
        forall|q: int| 0 <= q < a.regions@.len() ==> (#[trigger] b.regions@[q]).name == a.regions@[q].name,
    ensures
        named_in_order(b),
{
    reveal(named_in_order);
    assert forall|i: int| 0 <= i < b.regions@.len() implies (#[trigger] b.regions@[i]).name@ == seq!['r'] + dec(i as nat) by {
        assert(b.regions@[i].name == a.regions@[i].name);
    }
}

/// The generator's fabric so far: well formed, every operand naming an
/// earlier cell, regions named `r0`, `r1`, ... and every value cell it has
/// seen (with its type and region index) present.
pub open spec fn gen_ok(f: Fabric, seen: Seq<(CellId, Type, usize)>, n: int) -> bool {
    &&& f.wf()
    &&& operands_in_slab(f)
    &&& f.regions@.len() == n
    &&& 1 <= n <= 6
    &&& named_in_order(f)
    &&& forall|j: int| 0 <= j < seen.len() ==> (#[trigger] seen[j]).0.0 < f.slab@.len() && (seen[j].2 as int) < n
}

/// No present cell is a terminator.
pub open spec fn no_terminators(f: Fabric) -> bool {
    forall|i: int| #[trigger] cell_at(f, i) is Some ==> !kind_is_terminator(cell_at(f, i)->0.kind)
}

/// A fabric without terminators has no region edges, so no region has a
/// predecessor.
proof fn lemma_no_preds(f: Fabric, t: int)
    requires
        f.wf(),
        no_terminators(f),
    ensures
        row_at(f.tables.preds@, t).len() == 0,
{
    if 0 <= t < f.tables.preds@.len() && f.tables.preds@[t]@.len() > 0 {
        let r = f.tables.preds@[t]@[0];
        assert(f.tables.preds@[t]@.contains(r));
        let ri = r.0 as int;
        assert(f.tables.succs@[ri]@.contains(RegionId(t as u32)));
        if ri < f.regions@.len() {
            let cells = f.regions@[ri].cells@;
            if cells.len() > 0 && cell_at(f, cells.last().0 as int) is Some {
                assert(!kind_is_terminator(cell_at(f, cells.last().0 as int)->0.kind));
            }
            assert(region_succs(f, ri).len() == 0);
        }
    }
}

/// Append `c` to region `r` of the generator's fabric.
fn gen_add(f: &mut Fabric, r: RegionId, c: Cell) -> (id: CellId)
    requires
        old(f).wf(),
        operands_in_slab(*old(f)),
        c.region == r,
        (r.0 as int) < old(f).regions@.len(),
        old(f).slab@.len() < 1000,
        c.operands@.len() <= 2,
        forall|k: int| 0 <= k < c.operands@.len() ==> (#[trigger] c.operands@[k]).0 < old(f).slab@.len(),
    ensures
        final(f).wf(),
        operands_in_slab(*final(f)),
        id.0 == old(f).slab@.len(),
        final(f).slab@.len() == old(f).slab@.len() + 1,
        final(f).regions@.len() == old(f).regions@.len(),
        forall|q: int| 0 <= q < old(f).regions@.len() ==> (#[trigger] final(f).regions@[q]).name == old(f).regions@[q].name,
        named_in_order(*old(f)) ==> named_in_order(*final(f)),
        cell_at(*final(f), id.0 as int) == Some(c@),
        forall|i: int| 0 <= i < old(f).slab@.len() ==> #[trigger] cell_at(*final(f), i) == cell_at(*old(f), i),
{
    let ghost f0 = *f;
    proof {
        if refers_into(f0, f0.slab@.len() as int, f0.slab@.len() as int + 1) {
            let (i, k) = choose|i: int, k: int| #[trigger] cell_at(f0, i) is Some && 0 <= k < cell_at(f0, i)->0.operands.len()
                && f0.slab@.len() <= (#[trigger] cell_at(f0, i)->0.operands[k]).0 < f0.slab@.len() + 1;
            assert(cell_at(f0, i)->0.operands[k].0 < f0.slab@.len());
        }
    }
    let id = f.add_cell(r, c);
    proof {
        let f1 = *f;
        assert forall|i: int| 0 <= i < f0.slab@.len() implies #[trigger] cell_at(f1, i) == cell_at(f0, i) by {}
        assert forall|i: int, k: int| #[trigger] cell_at(f1, i) is Some && 0 <= k < cell_at(f1, i)->0.operands.len()
            implies (#[trigger] cell_at(f1, i)->0.operands[k]).0 < f1.slab@.len() by {
            if i < f0.slab@.len() {
                assert(cell_at(f1, i) == cell_at(f0, i));
            }
        }
        assert forall|q: int| 0 <= q < f0.regions@.len() implies (#[trigger] f1.regions@[q]).name == f0.regions@[q].name by {
            if q != r.0 {
                assert(f1.regions@[q] == f0.regions@[q]);
            }
        }
        if named_in_order(f0) {
            lemma_names_kept(f0, f1);
        }
    }
    id
}

/// The value cells seen in the entry and in region `r` whose type is
/// `ty`: the entry's first, each in the order seen.
fn visible(seen: &Vec<(CellId, Type, usize)>, r: usize, ty: Type, bound: usize) -> (out: Vec<CellId>)
    requires
        forall|j: int| 0 <= j < seen@.len() ==> (#[trigger] seen@[j]).0.0 < bound,
    ensures
        forall|k: int| 0 <= k < out@.len() ==> (#[trigger] out@[k]).0 < bound,
{
    let mut out: Vec<CellId> = Vec::new();
    let mut pass: usize = 0;
    while pass < 2
        invariant
            pass <= 2,
            forall|j: int| 0 <= j < seen@.len() ==> (#[trigger] seen@[j]).0.0 < bound,
            forall|k: int| 0 <= k < out@.len() ==> (#[trigger] out@[k]).0 < bound,
        decreases 2 - pass,
    {
        let want = if pass == 0 { 0 } else { r };
        if pass == 0 || r != 0 {
            let mut j: usize = 0;
            while j < seen.len()
                invariant
                    j <= seen@.len(),
                    forall|j: int| 0 <= j < seen@.len() ==> (#[trigger] seen@[j]).0.0 < bound,
                    forall|k: int| 0 <= k < out@.len() ==> (#[trigger] out@[k]).0 < bound,
                decreases seen@.len() - j,
            {
                let (id, t, reg) = seen[j];
                if reg == want && t == ty {
                    out.push(id);
                }
                j = j + 1;
            }
        }
        pass = pass + 1;
    }
    out
}

/// A region's terminator as the generator plans it.
enum Term {
    Br(RegionId, RegionId),
    Jmp(RegionId),
    Ret,
}

/// Generate a structured fabric that is well formed by construction:
/// one to six regions named `r0`, `r1`, ..., entry params, constants and
/// arith and compare cells over values visible in the region or the
/// entry, and one terminator per region. Phis would join a region's
/// predecessors, but they are considered before any terminator exists,
/// when no region has one, so none is made.
pub fn gen_fabric(rng: &mut Rng) -> (f: Fabric)
    ensures
        f.wf(),
        operands_in_slab(f),
        1 <= f.regions@.len() <= 6,
        forall|i: int| 0 <= i < f.regions@.len() ==> (#[trigger] f.regions@[i]).name@ == seq!['r'] + dec(i as nat),
{
    let f = gen_build(rng);
    proof {
        reveal(named_in_order);
    }
    f
}

fn gen_build(rng: &mut Rng) -> (f: Fabric)
    ensures
        f.wf(),
        operands_in_slab(f),
        1 <= f.regions@.len() <= 6,
        named_in_order(f),
{
    let mut f = Fabric::empty();
    let n = 1 + rng.below(6) as usize;
    let mut i: usize = 0;
    while i < n
        invariant
            1 <= n <= 6,
            i <= n,
            f.wf(),
            operands_in_slab(f),
            f.slab@.len() == 0,
            f.regions@.len() == i,
            forall|q: int| 0 <= q < i ==> (#[trigger] f.regions@[q]).name@ == seq!['r'] + dec(q as nat),
        decreases n - i,
    {
        let mut name = String::new();
        name.push('r');
        push_dec(&mut name, i as u64);
        let ghost f0 = f;
        f.add_region(name.as_str());
        proof {
            assert(name@ =~= seq!['r'] + dec(i as nat));
            assert forall|q: int| 0 <= q < i + 1 implies (#[trigger] f.regions@[q]).name@ == seq!['r'] + dec(q as nat) by {
                if q < i {
                    assert(f.regions@[q] == f0.regions@[q]);
                }
            }
        }
        i = i + 1;
    }
    proof {
        reveal(named_in_order);
    }
    let entry = RegionId(0);
    // 1. the terminators, planned up front
    let mut terms: Vec<Term> = Vec::new();
    let nn = n as u64;
    let mut i: usize = 0;
    while i < n
        invariant
            1 <= n <= 6,
            nn == n,
            i <= n,
            terms@.len() == i,
            forall|k: int| 0 <= k < i ==> match #[trigger] terms@[k] {
                Term::Br(a, b) => (a.0 as int) < n && (b.0 as int) < n,
                Term::Jmp(t) => (t.0 as int) < n,
                Term::Ret => true,
            },
        decreases n - i,
    {
        let term = if n == 1 || (i > 0 && rng.chance(20)) {
            Term::Ret
        } else if rng.chance(45) {
            let mut a = RegionId(rng.below(nn) as u32);
            let mut b = RegionId(rng.below(nn) as u32);
            if a == b && n > 1 {
                b = RegionId((rng.below(nn - 1) + 1) as u32);
            }
            if rng.chance(50) {
                let t = a;
                a = b;
                b = t;
            }
            Term::Br(a, b)
        } else {
            Term::Jmp(RegionId(rng.below(nn) as u32))
        };
        terms.push(term);
        i = i + 1;
    }
    // 2. bodies: params in the entry, then constants and operations per
    //    region over the values visible there
    let mut seen: Vec<(CellId, Type, usize)> = Vec::new();
    let n_params = rng.below(4);
    let mut p: u64 = 0;
    while p < n_params
        invariant
            gen_ok(f, seen@, n as int),
            no_terminators(f),
            n_params < 4,
            p <= n_params,
            entry.0 == 0,
            f.slab@.len() <= p,
        decreases n_params - p,
    {
        let (ty0, _) = rand_const(rng);
        let ty = if rng.chance(30) { ty0 } else { Type::I32 };
        let id = gen_add(&mut f, entry, Cell::new(entry, CellKind::Param { ty }));
        seen.push((id, ty, 0));
        p = p + 1;
    }
    let mut ri: usize = 0;
    while ri < n
        invariant
            gen_ok(f, seen@, n as int),
            no_terminators(f),
            ri <= n,
            f.slab@.len() <= 3 + 30 * ri,
        decreases n - ri,
    {
        let r = RegionId(ri as u32);
        let n_const = 1 + rng.below(3);
        let mut c: u64 = 0;
        while c < n_const
            invariant
                gen_ok(f, seen@, n as int),
                no_terminators(f),
                ri < n,
                r.0 == ri,
                n_const <= 3,
                c <= n_const,
                f.slab@.len() <= 3 + 30 * ri + c,
            decreases n_const - c,
        {
            let (ty, val) = rand_const(rng);
            let id = gen_add(&mut f, r, Cell::new(r, CellKind::Const { ty, val }));
            seen.push((id, ty, ri));
            c = c + 1;
        }
        let n_ops = rng.below(6);
        let mut o: u64 = 0;
        while o < n_ops
            invariant
                gen_ok(f, seen@, n as int),
                no_terminators(f),
                ri < n,
                r.0 == ri,
                n_ops < 6,
                o <= n_ops,
                f.slab@.len() <= 3 + 30 * ri + 3 + 3 * o,
            decreases n_ops - o,
        {
            let ty = match rng.below(4) {
                0 => Type::I32,
                1 => Type::I64,
                2 => Type::F64,
                _ => Type::I1,
            };
            let vis = visible(&seen, ri, ty, f.slab.len());
            if rng.chance(35) {
                // compare: operands of one type, result i1
                let vis_t = if vis.len() >= 2 { ty } else { Type::I32 };
                let pool = visible(&seen, ri, vis_t, f.slab.len());
                if pool.len() < 2 {
                    let id = gen_add(&mut f, r, Cell::new(r, CellKind::Const { ty: vis_t, val: ConstVal::I32(7) }));
                    seen.push((id, vis_t, ri));
                }
                let pool = visible(&seen, ri, vis_t, f.slab.len());
                if pool.len() >= 2 {
                    let a = pool[pool.len() - 1];
                    let b = pool[pool.len() - 2];
                    let op = match rng.below(6) {
                        0 => CmpOp::Eq,
                        1 => CmpOp::Ne,
                        2 => CmpOp::Lt,
                        3 => CmpOp::Le,
                        4 => CmpOp::Gt,
                        _ => CmpOp::Ge,
                    };
                    let mut cell = Cell::new(r, CellKind::Cmp { op });
                    let mut ops: Vec<CellId> = Vec::new();
                    ops.push(a);
                    ops.push(b);
                    cell.operands = ops;
                    let id = gen_add(&mut f, r, cell);
                    seen.push((id, Type::I1, ri));
                }
            } else {
                // arith: two visible values of `ty`, minting constants
                // while there are fewer
                let mut have = vis.len();
                let ghost start = f.slab@.len();
                let ghost have0 = have;
                while have < 2
                    invariant
                        gen_ok(f, seen@, n as int),
                        no_terminators(f),
                        ri < n,
                        r.0 == ri,
                        o < n_ops < 6,
                        start <= 3 + 30 * ri + 3 + 3 * o,
                        have >= have0,
                        have <= 2 || have == have0,
                        f.slab@.len() == start + (have - have0),
                    decreases 2 - have,
                {
                    let _ = rand_const(rng);
                    let val = match ty {
                        Type::I1 => ConstVal::I1(rng.below(2) == 0),
                        Type::I32 => ConstVal::I32(rng.below(100) as i32),
                        Type::I64 => ConstVal::I64(rng.below(100) as i64),
                        Type::F64 => ConstVal::F64(eighths_to_bits(8 * rng.below(50) as i64)),
                    };
                    let id = gen_add(&mut f, r, Cell::new(r, CellKind::Const { ty, val }));
                    seen.push((id, ty, ri));
                    have = have + 1;
                }
                let pool = visible(&seen, ri, ty, f.slab.len());
                if pool.len() > 0 {
                    let a = pool[pool.len() - 1];
                    let b = if pool.len() >= 2 && rng.chance(70) { pool[pool.len() - 2] } else { pool[pool.len() - 1] };
                    let op = match rng.below(4) {
                        0 => ArithOp::Add,
                        1 => ArithOp::Sub,
                        2 => ArithOp::Mul,
                        _ => ArithOp::Div,
                    };
                    let mut cell = Cell::new(r, CellKind::Arith { op, ty });
                    let mut ops: Vec<CellId> = Vec::new();
                    ops.push(a);
                    ops.push(b);
                    cell.operands = ops;
                    let id = gen_add(&mut f, r, cell);
                    seen.push((id, ty, ri));
                }
            }
            o = o + 1;
        }
        ri = ri + 1;
    }
    // 3. phis, joining each region's predecessors (none yet: terminators
    //    come last, so the region graph is still empty here)
    let mut ri: usize = 0;
    while ri < n
        invariant
            gen_ok(f, seen@, n as int),
            no_terminators(f),
            ri <= n,
            f.slab@.len() <= 3 + 30 * n,
        decreases n - ri,
    {
        let preds = f.predecessors(RegionId(ri as u32));
        proof {
            lemma_no_preds(f, ri as int);
        }
        if preds.len() == 0 || !rng.chance(60) {
            ri = ri + 1;
            continue;
        }
        ri = ri + 1;
    }
    // 4. terminators last; a branch tests an i1 visible in its region
    let mut i: usize = 0;
    while i < n
        invariant
            gen_ok(f, seen@, n as int),
            i <= n,
            terms@.len() == n,
            forall|k: int| 0 <= k < n ==> match #[trigger] terms@[k] {
                Term::Br(a, b) => (a.0 as int) < n && (b.0 as int) < n,
                Term::Jmp(t) => (t.0 as int) < n,
                Term::Ret => true,
            },
            f.slab@.len() <= 3 + 30 * n + 2 * i,
        decreases n - i,
    {
        let r = RegionId(i as u32);
        match &terms[i] {
            Term::Ret => {
                let mut c = Cell::new(r, CellKind::Ret);
                let cells = &f.regions[i].cells;
                if cells.len() > 0 {
                    let v = cells[cells.len() - 1];
                    if rng.chance(70) {
                        proof {
                            assert(f.regions@[i as int].cells@[cells@.len() - 1] == v);
                            assert(cell_at(f, v.0 as int) is Some);
                        }
                        let mut ops: Vec<CellId> = Vec::new();
                        ops.push(v);
                        c.operands = ops;
                    }
                }
                gen_add(&mut f, r, c);
            },
            Term::Jmp(t) => {
                gen_add(&mut f, r, Cell::new(r, CellKind::Jump { target: *t }));
            },
            Term::Br(a, b) => {
                let pool = visible(&seen, i, Type::I1, f.slab.len());
                let cond = if pool.len() > 0 {
                    pool[pool.len() - 1]
                } else {
                    let id = gen_add(&mut f, r, Cell::new(r, CellKind::Const { ty: Type::I1, val: ConstVal::I1(true) }));
                    seen.push((id, Type::I1, i));
                    id
                };
                let mut c = Cell::new(r, CellKind::Branch { then_r: *a, else_r: *b });
                let mut ops: Vec<CellId> = Vec::new();
                ops.push(cond);
                c.operands = ops;
                gen_add(&mut f, r, c);
            },
        }
        i = i + 1;
    }
    f
}

} // verus!
