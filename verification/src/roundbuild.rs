//! The parser's second pass over a printed fabric places every listed
//! cell under its own id, and the result prints as the original did.

use vstd::prelude::*;
use crate::cell::CellV;
use crate::fabric::{Fabric, cell_at, content_wf};
use crate::id::{CellId, RegionId};
use crate::roundparse::{kind_tokens, lemma_kind_parses};
use crate::roundscan::{
    cell_tokens, listed, pend_ok, tag, region_lines, region_line, cell_lines, print_lines, lemma_print_lines,
    lemma_cell_line, lemma_scan_regions,
};
use crate::roundtrip::{lemma_text_lines_of, plain_line, name_ok};
use crate::lex::is_ws;
use crate::cell::KindV;
use crate::text::{
    print_text, parse_result, scannable, scan, region_lists, slab_view, fabric_model, cell_text, kind_text,
    regions_text, cells_text, region_text, joins_text, min_len, HEADER,
};
use crate::roundtrip::{cid, kind_words, lemma_kind_words, names_ok, names_distinct, printable, cell_printable};
use crate::text::{Built, build, build_one, place, cell_id_of, cell_line, region_names};

verus! {

/// The ids listed for region `r`, in order.
pub open spec fn ids_in(l: Seq<(nat, CellId)>, r: nat) -> Seq<CellId>
    decreases l.len(),
{
    if l.len() == 0 {
        Seq::empty()
    } else {
        let prev = ids_in(l.drop_last(), r);
        if l.last().0 == r {
            prev.push(l.last().1)
        } else {
            prev
        }
    }
}

pub open spec fn ids_of(l: Seq<(nat, CellId)>) -> Seq<CellId> {
    l.map_values(|e: (nat, CellId)| e.1)
}

/// After placing the first `k` listed cells: each region lists its
/// placed ids, the slab holds exactly the placed cells.
pub open spec fn build_inv(f: Fabric, l: Seq<(nat, CellId)>, k: int, b: Built) -> bool {
    &&& b.0.len() == f.regions@.len()
    &&& forall|r: int| 0 <= r < f.regions@.len() ==> #[trigger] b.0[r] == ids_in(l.take(k), r as nat)
    &&& forall|i: int| 0 <= i < b.1.len() && (#[trigger] b.1[i]) is Some ==> ids_of(l.take(k)).contains(
        CellId(i as u32),
    )
    &&& forall|j: int| 0 <= j < k ==> ((#[trigger] l[j]).1.0 as int) < b.1.len() && b.1[l[j].1.0 as int]
        == cell_at(f, l[j].1.0 as int)
}

/// Facts about each listed entry: its region exists, the cell is present
/// there and listed there.
pub open spec fn listed_ok(f: Fabric, l: Seq<(nat, CellId)>, m: nat) -> bool {
    forall|k: int| 0 <= k < l.len() ==> {
        let (r, id) = #[trigger] l[k];
        &&& r < m
        &&& cell_at(f, id.0 as int) is Some
        &&& cell_at(f, id.0 as int)->0.region.0 == r
    }
}

pub open spec fn distinct_ids(l: Seq<(nat, CellId)>) -> bool {
    forall|j: int, k: int| 0 <= j < k < l.len() ==> (#[trigger] l[j]).1 != (#[trigger] l[k]).1
}

proof fn lemma_listed_facts(f: Fabric, n: nat)
    requires
        n <= f.regions@.len(),
        content_wf(f),
    ensures
        listed_ok(f, listed(f, n), n),
        distinct_ids(listed(f, n)),
    decreases n,
{
    if n > 0 {
        let q = (n - 1) as nat;
        lemma_listed_facts(f, q);
        let a = listed(f, q);
        let cs = f.regions@[q as int].cells@;
        let t = tag(q, cs);
        let l = listed(f, n);
        assert(l == a + t);
        assert forall|k: int| 0 <= k < l.len() implies {
            let (r, id) = #[trigger] l[k];
            &&& r < n
            &&& cell_at(f, id.0 as int) is Some
            &&& cell_at(f, id.0 as int)->0.region.0 == r
        } by {
            if k < a.len() {
                assert(l[k] == a[k]);
            } else {
                assert(l[k] == t[k - a.len()]);
                assert(t[k - a.len()] == (q, cs[k - a.len()]));
                assert(f.regions@[q as int].cells@[k - a.len()] == cs[k - a.len()]);
            }
        }
        assert forall|j: int, k: int| 0 <= j < k < l.len() implies (#[trigger] l[j]).1 != (#[trigger] l[k]).1 by {
            if k < a.len() {
                assert(l[j] == a[j] && l[k] == a[k]);
            } else if j >= a.len() {
                assert(l[j] == t[j - a.len()] && l[k] == t[k - a.len()]);
                assert(f.regions@[q as int].cells@[j - a.len()] != f.regions@[q as int].cells@[k - a.len()]);
            } else {
                assert(l[j] == a[j]);
                assert(l[k] == t[k - a.len()]);
                let idk = cs[k - a.len()];
                assert(f.regions@[q as int].cells@[k - a.len()] == idk);
                assert(cell_at(f, idk.0 as int)->0.region.0 == q);
                assert(a[j].0 < q);
            }
        }
    }
}

proof fn lemma_ids_in_tag(a: Seq<(nat, CellId)>, q: nat, cs: Seq<CellId>, r: nat)
    ensures
        ids_in(a + tag(q, cs), r) == ids_in(a, r) + (if q == r { cs } else { Seq::<CellId>::empty() }),
    decreases cs.len(),
{
    if cs.len() == 0 {
        assert(a + tag(q, cs) =~= a);
        assert(ids_in(a, r) + Seq::<CellId>::empty() =~= ids_in(a, r));
        assert(ids_in(a, r) + cs =~= ids_in(a, r));
    } else {
        let cs0 = cs.drop_last();
        lemma_ids_in_tag(a, q, cs0, r);
        assert((a + tag(q, cs)).drop_last() =~= a + tag(q, cs0));
        assert((a + tag(q, cs)).last() == (q, cs.last()));
        if q == r {
            assert(ids_in(a, r) + cs =~= (ids_in(a, r) + cs0).push(cs.last()));
        }
    }
}

/// Region `r`'s listed ids are its cells.
proof fn lemma_ids_in_listed(f: Fabric, n: nat, r: nat)
    requires
        n <= f.regions@.len(),
    ensures
        ids_in(listed(f, n), r) == if r < n { f.regions@[r as int].cells@ } else { Seq::<CellId>::empty() },
    decreases n,
{
    if n > 0 {
        let q = (n - 1) as nat;
        lemma_ids_in_listed(f, q, r);
        lemma_ids_in_tag(listed(f, q), q, f.regions@[q as int].cells@, r);
        if r < q {
            assert(ids_in(listed(f, q), r) + Seq::<CellId>::empty() =~= ids_in(listed(f, q), r));
        } else if r == q {
            assert(Seq::<CellId>::empty() + f.regions@[q as int].cells@ =~= f.regions@[q as int].cells@);
        } else {
            assert(Seq::<CellId>::empty() + Seq::<CellId>::empty() =~= Seq::<CellId>::empty());
        }
    }
}

/// Where a region's cell sits in the listing.
proof fn lemma_listed_index(f: Fabric, n: nat, r: int, p: int) -> (j: int)
    requires
        n <= f.regions@.len(),
        0 <= r < n,
        0 <= p < f.regions@[r].cells@.len(),
    ensures
        0 <= j < listed(f, n).len(),
        listed(f, n)[j] == (r as nat, f.regions@[r].cells@[p]),
    decreases n,
{
    let q = (n - 1) as nat;
    let a = listed(f, q);
    let t = tag(q, f.regions@[q as int].cells@);
    assert(listed(f, n) == a + t);
    if r == q {
        let j = a.len() + p;
        assert((a + t)[j] == t[p]);
        j
    } else {
        let j = lemma_listed_index(f, q, r, p);
        assert((a + t)[j] == a[j]);
        j
    }
}

/// What placing the `k`-th listed cell gives.
pub open spec fn place_next(f: Fabric, l: Seq<(nat, CellId)>, k: int, b: Built) -> Built {
    place(b, l[k].0, l[k].1, cell_at(f, l[k].1.0 as int)->0)->Ok_0
}

#[verifier::spinoff_prover]
#[verifier::rlimit(100)]
proof fn lemma_build_step(f: Fabric, pend: Seq<(nat, nat, Seq<Seq<char>>)>, l: Seq<(nat, CellId)>, k: int, b: Built)
    requires
        printable(f),
        pend_ok(f, pend, l),
        listed_ok(f, l, f.regions@.len()),
        distinct_ids(l),
        build_inv(f, l, k, b),
        0 <= k < l.len(),
    ensures
        build_one(region_names(f), pend[k], b) == Ok::<Built, (nat, Seq<char>)>(place_next(f, l, k, b)),
        build_inv(f, l, k + 1, place_next(f, l, k, b)),
{
    reveal(build_one);
    let (r, id) = l[k];
    let c = cell_at(f, id.0 as int)->0;
    let toks = pend[k].2;
    assert(toks == cell_tokens(f, id));
    assert(pend[k].1 == r);
    assert(cell_printable(f, c)) by {
        assert(f.regions@[r as int].cells@.contains(id));
        let p = choose|p: int| 0 <= p < f.regions@[r as int].cells@.len() && f.regions@[r as int].cells@[p] == id;
        assert(f.regions@[r as int].cells@[p] == id);
    }
    lemma_kind_words(f, c);
    let kt = kind_tokens(f, c);
    assert(kt.len() == kind_words(f, c).len());
    assert(toks.len() >= 3);
    assert(toks[1] == "="@);
    assert(toks[0] == cid(id));
    crate::roundparse::lemma_operand_back(id);
    assert(toks.skip(2) =~= kt);
    assert(c.region.0 == r);
    assert(RegionId(r as u32) == c.region);
    lemma_kind_parses(f, c);
    let i = id.0 as int;
    if i < b.1.len() && b.1[i] is Some {
        assert(ids_of(l.take(k)).contains(CellId(i as u32)));
        let j = choose|j: int| 0 <= j < ids_of(l.take(k)).len() && ids_of(l.take(k))[j] == CellId(i as u32);
        assert(l[j].1 == id);
        assert(false);
    }
    let b2 = place_next(f, l, k, b);
    let lk = l.take(k + 1);
    assert(lk.drop_last() =~= l.take(k));
    assert(lk.last() == (r, id));
    assert forall|q: int| 0 <= q < f.regions@.len() implies #[trigger] b2.0[q] == ids_in(lk, q as nat) by {
        assert(b.0[q] == ids_in(l.take(k), q as nat));
    }
    assert(ids_of(lk) =~= ids_of(l.take(k)).push(id));
    assert forall|x: int| 0 <= x < b2.1.len() && (#[trigger] b2.1[x]) is Some implies ids_of(lk).contains(
        CellId(x as u32),
    ) by {
        if x == i {
            assert(ids_of(lk)[k] == id);
        } else {
            assert(b2.1[x] == b.1[x]);
            assert(ids_of(l.take(k)).contains(CellId(x as u32)));
            let j = choose|j: int| 0 <= j < ids_of(l.take(k)).len() && ids_of(l.take(k))[j] == CellId(x as u32);
            assert(ids_of(lk)[j] == CellId(x as u32));
        }
    }
    assert forall|j: int| 0 <= j < k + 1 implies ((#[trigger] l[j]).1.0 as int) < b2.1.len() && b2.1[l[j].1.0 as int]
        == cell_at(f, l[j].1.0 as int) by {
        if j < k {
            assert(l[j].1 != l[k].1);
        }
    }
}

/// Placing the listed cells from the `k`-th on succeeds.
proof fn lemma_build_from(f: Fabric, pend: Seq<(nat, nat, Seq<Seq<char>>)>, l: Seq<(nat, CellId)>, k: int, b: Built)
    requires
        printable(f),
        pend_ok(f, pend, l),
        listed_ok(f, l, f.regions@.len()),
        distinct_ids(l),
        build_inv(f, l, k, b),
        0 <= k <= l.len(),
    ensures
        build(region_names(f), pend.skip(k), b) matches Ok(bf) && build_inv(f, l, l.len() as int, bf),
    decreases l.len() - k,
{
    if k == l.len() {
        assert(pend.skip(k) =~= Seq::<(nat, nat, Seq<Seq<char>>)>::empty());
    } else {
        lemma_build_step(f, pend, l, k, b);
        lemma_build_from(f, pend, l, k + 1, place_next(f, l, k, b));
        assert(pend.skip(k)[0] == pend[k]);
        assert(pend.skip(k).skip(1) =~= pend.skip(k + 1));
    }
}

/// The second pass over a printed fabric's listed cells: each region
/// gets its cells, each listed id its cell.
pub proof fn lemma_build_listed(f: Fabric, pend: Seq<(nat, nat, Seq<Seq<char>>)>)
    requires
        printable(f),
        pend_ok(f, pend, listed(f, f.regions@.len())),
    ensures
        build(
            region_names(f),
            pend,
            (Seq::new(f.regions@.len(), |k: int| Seq::<CellId>::empty()), Seq::empty()),
        ) matches Ok(bf) && bf.0 == crate::text::region_lists(f) && (forall|r: int, p: int|
            0 <= r < f.regions@.len() && 0 <= p < f.regions@[r].cells@.len() ==> {
                let id = #[trigger] f.regions@[r].cells@[p];
                (id.0 as int) < bf.1.len() && bf.1[id.0 as int] == cell_at(f, id.0 as int)
            }),
{
    let n = f.regions@.len();
    let l = listed(f, n);
    lemma_listed_facts(f, n);
    let b0: Built = (Seq::new(n, |k: int| Seq::<CellId>::empty()), Seq::empty());
    assert(build_inv(f, l, 0, b0)) by {
        assert(l.take(0) =~= Seq::<(nat, CellId)>::empty());
        assert(ids_of(l.take(0)) =~= Seq::<CellId>::empty());
    }
    lemma_build_from(f, pend, l, 0, b0);
    assert(pend.skip(0) =~= pend);
    let bf = build(region_names(f), pend, b0)->Ok_0;
    assert(l.take(l.len() as int) =~= l);
    assert forall|r: int| 0 <= r < n implies #[trigger] bf.0[r] == crate::text::region_lists(f)[r] by {
        lemma_ids_in_listed(f, n, r as nat);
    }
    assert(bf.0 =~= crate::text::region_lists(f));
    assert forall|r: int, p: int| 0 <= r < n && 0 <= p < f.regions@[r].cells@.len() implies {
        let id = #[trigger] f.regions@[r].cells@[p];
        (id.0 as int) < bf.1.len() && bf.1[id.0 as int] == cell_at(f, id.0 as int)
    } by {
        let j = lemma_listed_index(f, n, r, p);
        assert(l[j].1 == f.regions@[r].cells@[p]);
    }
}

proof fn lemma_plain_lines(f: Fabric, n: nat)
    requires
        n <= f.regions@.len(),
        printable(f),
    ensures
        forall|k: int| 0 <= k < region_lines(f, n).len() ==> plain_line(#[trigger] region_lines(f, n)[k]),
    decreases n,
{
    if n > 0 {
        let q = (n - 1) as nat;
        lemma_plain_lines(f, q);
        let prev = region_lines(f, q);
        let rl = region_line(f, q as int);
        let cs = f.regions@[q as int].cells@;
        let cl = cell_lines(f, cs, cs.len());
        reveal_strlit("region ");
        assert("region "@ =~= seq!['r', 'e', 'g', 'i', 'o', 'n', ' ']);
        let nm = f.regions@[q as int].name@;
        assert(name_ok(nm));
        assert(plain_line(rl)) by {
            assert forall|k: int| 0 <= k < rl.len() implies #[trigger] rl[k] != '\n' by {
                if k >= 7 {
                    assert(rl[k] == nm[k - 7]);
                    assert(!is_ws(nm[k - 7]));
                }
            }
            assert(rl.last() == nm.last());
            assert(!is_ws(nm[nm.len() - 1]));
        }
        lemma_plain_cells(f, q as int, cs.len());
        let all = region_lines(f, n);
        assert(all == prev.push(rl) + cl);
        assert forall|k: int| 0 <= k < all.len() implies plain_line(#[trigger] all[k]) by {
            if k < prev.len() {
                assert(all[k] == prev[k]);
            } else if k == prev.len() {
                assert(all[k] == rl);
            } else {
                assert(all[k] == cl[k - prev.len() - 1]);
            }
        }
    }
}

proof fn lemma_plain_cells(f: Fabric, r: int, j: nat)
    requires
        0 <= r < f.regions@.len(),
        j <= f.regions@[r].cells@.len(),
        printable(f),
    ensures
        forall|k: int| 0 <= k < cell_lines(f, f.regions@[r].cells@, j).len() ==> plain_line(
            #[trigger] cell_lines(f, f.regions@[r].cells@, j)[k],
        ),
        cell_lines(f, f.regions@[r].cells@, j).len() == j,
    decreases j,
{
    if j > 0 {
        let cs = f.regions@[r].cells@;
        lemma_plain_cells(f, r, (j - 1) as nat);
        let id = cs[j - 1];
        assert(cell_at(f, id.0 as int) is Some);
        assert(cell_printable(f, cell_at(f, id.0 as int)->0));
        lemma_cell_line(f, id);
        let all = cell_lines(f, cs, j);
        assert forall|k: int| 0 <= k < all.len() implies plain_line(#[trigger] all[k]) by {
            if k < j - 1 {
                assert(all[k] == cell_lines(f, cs, (j - 1) as nat)[k]);
            }
        }
    }
}

/// A printable fabric's print reads back: the first pass never gets
/// stuck, and the parse gives the region names, the cell lists, and every
/// listed cell under its id.
pub proof fn lemma_printed_parses(f: Fabric)
    requires
        printable(f),
    ensures
        scannable(print_text(f)),
        parse_result(print_text(f)) matches Ok((names, bf)) && names == region_names(f) && bf.0 == region_lists(f)
            && (forall|r: int, p: int|
            0 <= r < f.regions@.len() && 0 <= p < f.regions@[r].cells@.len() ==> {
                let id = #[trigger] f.regions@[r].cells@[p];
                (id.0 as int) < bf.1.len() && bf.1[id.0 as int] == cell_at(f, id.0 as int)
            }),
{
    let n = f.regions@.len();
    lemma_print_lines(f);
    lemma_plain_lines(f, n);
    let pl = print_lines(f);
    reveal_strlit("fabric v0");
    assert(HEADER@ =~= seq!['f', 'a', 'b', 'r', 'i', 'c', ' ', 'v', '0']);
    assert forall|k: int| 0 <= k < pl.len() implies plain_line(#[trigger] pl[k]) by {
        if k > 0 {
            assert(pl[k] == region_lines(f, n)[k - 1]);
        } else {
            assert(pl[k] == HEADER@);
        }
    }
    lemma_text_lines_of(pl);
    lemma_scan_regions(f, n);
    let st = scan(pl);
    assert(region_names(f).take(n as int) =~= region_names(f));
    lemma_build_listed(f, st->pending);
}

/// What print shows of a fabric: region names, cell lists, and the
/// listed cells.
pub proof fn lemma_print_same(f: Fabric, g: Fabric)
    requires
        region_names(g) == region_names(f),
        region_lists(g) == region_lists(f),
        forall|r: int, p: int| 0 <= r < f.regions@.len() && 0 <= p < f.regions@[r].cells@.len() ==> {
            let id = #[trigger] f.regions@[r].cells@[p];
            cell_at(g, id.0 as int) == cell_at(f, id.0 as int)
        },
    ensures
        print_text(g) == print_text(f),
{
    let n = f.regions@.len();
    assert(g.regions@.len() == n) by {
        assert(region_names(g).len() == g.regions@.len());
        assert(region_names(f).len() == f.regions@.len());
        assert(region_names(g).len() == region_names(f).len());
    }
    assert forall|r: RegionId| #[trigger] region_text(g, r) == region_text(f, r) by {
        if (r.0 as int) < n {
            assert(region_names(g)[r.0 as int] == region_names(f)[r.0 as int]);
        }
    }
    lemma_regions_same(f, g, n);
}

proof fn lemma_joins_same(f: Fabric, g: Fabric, joins: Seq<RegionId>, ops: Seq<CellId>, n: nat)
    requires
        forall|r: RegionId| #[trigger] region_text(g, r) == region_text(f, r),
    ensures
        joins_text(g, joins, ops, n) == joins_text(f, joins, ops, n),
    decreases n,
{
    if n > 0 {
        lemma_joins_same(f, g, joins, ops, (n - 1) as nat);
        assert(region_text(g, joins[n - 1]) == region_text(f, joins[n - 1]));
    }
}

pub proof fn lemma_cell_text_same(f: Fabric, g: Fabric, id: CellId)
    requires
        forall|r: RegionId| #[trigger] region_text(g, r) == region_text(f, r),
        cell_at(g, id.0 as int) == cell_at(f, id.0 as int),
    ensures
        cell_text(g, id) == cell_text(f, id),
{
    if let Some(c) = cell_at(f, id.0 as int) {
        if let KindV::Phi { joins } = c.kind {
            lemma_joins_same(f, g, joins, c.operands, min_len(joins.len(), c.operands.len()));
        }
        match c.kind {
            KindV::Branch { then_r, else_r } => {
                assert(region_text(g, then_r) == region_text(f, then_r));
                assert(region_text(g, else_r) == region_text(f, else_r));
            },
            KindV::Jump { target } => {
                assert(region_text(g, target) == region_text(f, target));
            },
            _ => {},
        }
        assert(kind_text(g, c) == kind_text(f, c));
    }
}

proof fn lemma_regions_same(f: Fabric, g: Fabric, n: nat)
    requires
        n <= f.regions@.len(),
        g.regions@.len() == f.regions@.len(),
        region_names(g) == region_names(f),
        region_lists(g) == region_lists(f),
        forall|r: RegionId| #[trigger] region_text(g, r) == region_text(f, r),
        forall|r: int, p: int| 0 <= r < f.regions@.len() && 0 <= p < f.regions@[r].cells@.len() ==> {
            let id = #[trigger] f.regions@[r].cells@[p];
            cell_at(g, id.0 as int) == cell_at(f, id.0 as int)
        },
    ensures
        regions_text(g, n) == regions_text(f, n),
    decreases n,
{
    if n > 0 {
        let q = n - 1;
        lemma_regions_same(f, g, (n - 1) as nat);
        assert(region_names(g)[q] == region_names(f)[q]);
        assert(region_lists(g)[q] == region_lists(f)[q]);
        let cs = f.regions@[q].cells@;
        assert(g.regions@[q].cells@ == cs);
        lemma_cells_same(f, g, q, cs.len());
    }
}

proof fn lemma_cells_same(f: Fabric, g: Fabric, r: int, j: nat)
    requires
        0 <= r < f.regions@.len(),
        j <= f.regions@[r].cells@.len(),
        forall|x: RegionId| #[trigger] region_text(g, x) == region_text(f, x),
        forall|q: int, p: int| 0 <= q < f.regions@.len() && 0 <= p < f.regions@[q].cells@.len() ==> {
            let id = #[trigger] f.regions@[q].cells@[p];
            cell_at(g, id.0 as int) == cell_at(f, id.0 as int)
        },
    ensures
        cells_text(g, f.regions@[r].cells@, j) == cells_text(f, f.regions@[r].cells@, j),
    decreases j,
{
    if j > 0 {
        lemma_cells_same(f, g, r, (j - 1) as nat);
        let id = f.regions@[r].cells@[j - 1];
        lemma_cell_text_same(f, g, id);
    }
}

/// The canonical print round-trips: printing what parsing a printable
/// fabric's print gives yields the same text.
pub proof fn lemma_print_parse_print(f: Fabric, g: Fabric)
    requires
        printable(f),
        parse_result(print_text(f)) == Ok::<(Seq<Seq<char>>, Built), (nat, Seq<char>)>(fabric_model(g)),
    ensures
        print_text(g) == print_text(f),
{
    lemma_printed_parses(f);
    assert forall|r: int, p: int| 0 <= r < f.regions@.len() && 0 <= p < f.regions@[r].cells@.len() implies {
        let id = #[trigger] f.regions@[r].cells@[p];
        cell_at(g, id.0 as int) == cell_at(f, id.0 as int)
    } by {
        let id = f.regions@[r].cells@[p];
        assert(slab_view(g)[id.0 as int] == cell_at(g, id.0 as int));
    }
    lemma_print_same(f, g);
}

} // verus!
