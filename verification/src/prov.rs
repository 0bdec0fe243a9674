//! Provenance trees: a value's def chain, one node per cell, rendered as
//! an indented tree.

use vstd::prelude::*;
use crate::chars::push_str;
use crate::cell::{KindV, kind_is_terminator};
use crate::dec::{dec, push_dec};
use crate::diff::{History, history_mentions, mentions_view};
use crate::fabric::{Fabric, cell_at};
use crate::id::{CellId, cell_id_text};
use crate::text::{cell_text, render_cell};
use crate::ty::ConstVal;

verus! {

/// One node of a provenance tree: the cell, its source line, and the
/// trees of its operands.
#[derive(PartialEq, Debug)]
pub struct ProvNode {
    pub id: CellId,
    pub line: String,
    pub children: Vec<ProvNode>,
}

/// `depth` levels of two-space indent.
pub open spec fn indent(depth: nat) -> Seq<char>
    decreases depth,
{
    if depth == 0 {
        Seq::empty()
    } else {
        indent((depth - 1) as nat) + seq![' ', ' ']
    }
}

/// The rendered tree: the node's line at `depth`, then its children one
/// level deeper.
pub open spec fn prov_text(node: ProvNode, depth: nat) -> Seq<char>
    decreases node, node.children@.len() + 1,
{
    indent(depth) + node.line@ + seq!['\n'] + kids_text(node, node.children@.len(), depth + 1)
}

/// The first `k` children of `node`, rendered at `depth`.
pub open spec fn kids_text(node: ProvNode, k: nat, depth: nat) -> Seq<char>
    decreases node, k,
{
    if k == 0 || k > node.children@.len() {
        Seq::empty()
    } else {
        proof { assert(decreases_to!(node => node.children@[k - 1])); }
        kids_text(node, (k - 1) as nat, depth) + prov_text(node.children@[k - 1], depth)
    }
}

/// The number of levels of the tree.
pub open spec fn height(node: ProvNode) -> nat
    decreases node, node.children@.len() + 1,
{
    1 + kids_height(node, node.children@.len())
}

/// The greatest height among the first `k` children.
pub open spec fn kids_height(node: ProvNode, k: nat) -> nat
    decreases node, k,
{
    if k == 0 || k > node.children@.len() {
        0
    } else {
        proof { assert(decreases_to!(node => node.children@[k - 1])); }
        let a = kids_height(node, (k - 1) as nat);
        let b = height(node.children@[k - 1]);
        if a < b { b } else { a }
    }
}

proof fn lemma_kids_height(node: ProvNode, k: nat, i: int)
    requires
        0 <= i < k <= node.children@.len(),
    ensures
        height(node.children@[i]) <= kids_height(node, k),
    decreases k,
{
    if i < k - 1 {
        lemma_kids_height(node, (k - 1) as nat, i);
    }
}

/// Render as an indented tree: the root first, operands indented under
/// their users.
pub fn render(node: &ProvNode) -> (s: String)
    requires
        height(*node) < usize::MAX,
    ensures
        s@ == prov_text(*node, 0),
{
    let mut out = String::new();
    render_into(node, 0, &mut out);
    assert(out@ =~= prov_text(*node, 0));
    out
}

fn render_into(node: &ProvNode, depth: usize, out: &mut String)
    requires
        depth + height(*node) < usize::MAX,
    ensures
        final(out)@ == old(out)@ + prov_text(*node, depth as nat),
    decreases node,
{
    let mut d: usize = 0;
    while d < depth
        invariant
            d <= depth,
            out@ == old(out)@ + indent(d as nat),
        decreases depth - d,
    {
        out.push(' ');
        out.push(' ');
        d = d + 1;
        assert(out@ =~= old(out)@ + indent(d as nat));
    }
    push_str(out, node.line.as_str());
    out.push('\n');
    let ghost base = out@;
    assert(base =~= old(out)@ + indent(depth as nat) + node.line@ + seq!['\n']);
    let mut k: usize = 0;
    while k < node.children.len()
        invariant
            k <= node.children@.len(),
            depth + height(*node) < usize::MAX,
            out@ == base + kids_text(*node, k as nat, (depth + 1) as nat),
        decreases node.children@.len() - k,
    {
        let ch = &node.children[k];
        proof { assert(decreases_to!(*node => node.children@[k as int])); }
        proof { lemma_kids_height(*node, node.children@.len(), k as int); }
        render_into(ch, depth + 1, out);
        k = k + 1;
        assert(out@ =~= base + kids_text(*node, k as nat, (depth + 1) as nat));
    }
}


/// How deep a provenance walk may go before it gives up.
pub const PROV_DEPTH_LIMIT: u32 = 100_000;

/// Params and consts are the roots of every def chain.
pub open spec fn is_root_kind(k: KindV) -> bool {
    k is Param || k is Const
}

/// Why the walk from `id` fails, with `visiting` the cells on the path
/// above it and `depth` its depth; `None` when it succeeds.
pub open spec fn walk_err(f: Fabric, id: CellId, visiting: Seq<CellId>, depth: int) -> Option<Seq<char>>
    decreases PROV_DEPTH_LIMIT + 2 - depth, 0int,
{
    if depth > PROV_DEPTH_LIMIT {
        Some("provenance depth guard at "@ + cell_id_text(id))
    } else if visiting.contains(id) {
        Some("cycle in provenance through "@ + cell_id_text(id))
    } else {
        match cell_at(f, id.0 as int) {
            None => Some("no such cell "@ + cell_id_text(id)),
            Some(c) => if is_root_kind(c.kind) {
                None
            } else {
                kids_err(f, c.operands, c.operands.len() as int, visiting.push(id), depth + 1)
            },
        }
    }
}

/// The first failure among the walks of the first `k` operands.
pub open spec fn kids_err(f: Fabric, ops: Seq<CellId>, k: int, visiting: Seq<CellId>, depth: int) -> Option<Seq<char>>
    decreases PROV_DEPTH_LIMIT + 2 - depth, k + 1,
{
    if k <= 0 || k > ops.len() {
        None
    } else {
        match kids_err(f, ops, k - 1, visiting, depth) {
            Some(e) => Some(e),
            None => walk_err(f, ops[k - 1], visiting, depth),
        }
    }
}

/// Cell `id` is no float constant (its line can be rendered here).
pub open spec fn line_printable(f: Fabric, id: CellId) -> bool {
    match cell_at(f, id.0 as int) {
        Some(c) => !(c.kind matches KindV::Const { val: ConstVal::F64(_), .. }),
        None => true,
    }
}

/// Every cell whose line the walk from `id` renders is no float
/// constant (the walk stops at its first failure).
pub open spec fn walk_printable(f: Fabric, id: CellId, visiting: Seq<CellId>, depth: int) -> bool
    decreases PROV_DEPTH_LIMIT + 2 - depth, 0int,
{
    if depth > PROV_DEPTH_LIMIT || visiting.contains(id) {
        true
    } else {
        match cell_at(f, id.0 as int) {
            None => true,
            Some(c) => line_printable(f, id) && (is_root_kind(c.kind) || kids_printable(
                f,
                c.operands,
                c.operands.len() as int,
                visiting.push(id),
                depth + 1,
            )),
        }
    }
}

/// The walks of the first `k` operands render no float constant, up to
/// the first that fails.
pub open spec fn kids_printable(f: Fabric, ops: Seq<CellId>, k: int, visiting: Seq<CellId>, depth: int) -> bool
    decreases PROV_DEPTH_LIMIT + 2 - depth, k + 1,
{
    if k <= 0 || k > ops.len() {
        true
    } else {
        kids_printable(f, ops, k - 1, visiting, depth) && (kids_err(f, ops, k - 1, visiting, depth) is Some
            || walk_printable(f, ops[k - 1], visiting, depth))
    }
}

proof fn lemma_kids_printable(f: Fabric, ops: Seq<CellId>, k: int, n: int, visiting: Seq<CellId>, depth: int)
    requires
        0 <= k < n <= ops.len(),
        kids_printable(f, ops, n, visiting, depth),
        kids_err(f, ops, k, visiting, depth) is None,
    ensures
        walk_printable(f, ops[k], visiting, depth),
    decreases n - k,
{
    if k + 1 < n {
        lemma_kids_printable(f, ops, k, n - 1, visiting, depth);
    }
}

/// `node` is the def-chain tree of `id`: the cell's line, and under a
/// non-root cell one subtree per operand, in operand order.
pub open spec fn walk_tree(f: Fabric, node: ProvNode, id: CellId) -> bool
    decreases node, node.children@.len() + 1,
{
    &&& node.id == id
    &&& node.line@ == cell_text(f, id)
    &&& match cell_at(f, id.0 as int) {
        None => false,
        Some(c) => if is_root_kind(c.kind) {
            node.children@.len() == 0
        } else {
            node.children@.len() == c.operands.len() && kids_tree(f, node, c.operands, node.children@.len())
        },
    }
}

/// The first `k` children of `node` are the trees of the first `k` operands.
pub open spec fn kids_tree(f: Fabric, node: ProvNode, ops: Seq<CellId>, k: nat) -> bool
    decreases node, k,
{
    if k == 0 || k > node.children@.len() {
        true
    } else {
        proof { assert(decreases_to!(node => node.children@[k - 1])); }
        kids_tree(f, node, ops, (k - 1) as nat) && walk_tree(f, node.children@[k - 1], ops[k - 1])
    }
}

proof fn lemma_kids_tree(f: Fabric, node: ProvNode, ops: Seq<CellId>, k: nat)
    requires
        k <= node.children@.len(),
        forall|j: int| 0 <= j < k ==> walk_tree(f, #[trigger] node.children@[j], ops[j]),
    ensures
        kids_tree(f, node, ops, k),
    decreases k,
{
    if k > 0 {
        lemma_kids_tree(f, node, ops, (k - 1) as nat);
    }
}

proof fn lemma_kids_err_sticks(f: Fabric, ops: Seq<CellId>, k: int, n: int, visiting: Seq<CellId>, depth: int)
    requires
        0 <= k <= n <= ops.len(),
        kids_err(f, ops, k, visiting, depth) is Some,
    ensures
        kids_err(f, ops, n, visiting, depth) == kids_err(f, ops, k, visiting, depth),
    decreases n - k,
{
    if k < n {
        lemma_kids_err_sticks(f, ops, k, n - 1, visiting, depth);
    }
}

fn contains_cell(v: &Vec<CellId>, x: CellId) -> (b: bool)
    ensures
        b == v@.contains(x),
{
    let mut i: usize = 0;
    while i < v.len()
        invariant
            i <= v@.len(),
            forall|k: int| 0 <= k < i ==> v@[k] != x,
        decreases v@.len() - i,
    {
        if v[i].0 == x.0 {
            assert(v@[i as int] == x);
            return true;
        }
        i = i + 1;
    }
    false
}

fn msg_at(pre: &str, id: CellId) -> (m: String)
    ensures
        m@ == pre@ + cell_id_text(id),
{
    let mut m = String::new();
    push_str(&mut m, pre);
    let t = id.to_text();
    push_str(&mut m, t.as_str());
    m
}

/// Walk the def chain of `target`. Every leaf is a param or a const, the
/// fabric's roots. A cycle, a missing cell, or a chain deeper than
/// `PROV_DEPTH_LIMIT` is an error, not a hang.
pub fn provenance(f: &Fabric, target: CellId) -> (r: Result<ProvNode, String>)
    requires
        walk_printable(*f, target, Seq::empty(), 0),
    ensures
        match r {
            Ok(n) => walk_err(*f, target, Seq::empty(), 0) is None && walk_tree(*f, n, target),
            Err(e) => walk_err(*f, target, Seq::empty(), 0) == Some(e@),
        },
{
    let mut visiting: Vec<CellId> = Vec::new();
    walk(f, target, &mut visiting, 0)
}

fn walk(f: &Fabric, id: CellId, visiting: &mut Vec<CellId>, depth: u32) -> (r: Result<ProvNode, String>)
    requires
        walk_printable(*f, id, old(visiting)@, depth as int),
        depth <= PROV_DEPTH_LIMIT + 1,
    ensures
        final(visiting)@ == old(visiting)@,
        match r {
            Ok(n) => walk_err(*f, id, old(visiting)@, depth as int) is None && walk_tree(*f, n, id),
            Err(e) => walk_err(*f, id, old(visiting)@, depth as int) == Some(e@),
        },
    decreases PROV_DEPTH_LIMIT + 1 - depth,
{
    if depth > PROV_DEPTH_LIMIT {
        return Err(msg_at("provenance depth guard at ", id));
    }
    if contains_cell(visiting, id) {
        return Err(msg_at("cycle in provenance through ", id));
    }
    let c = match f.cell(id) {
        Some(c) => c,
        None => return Err(msg_at("no such cell ", id)),
    };
    assert(cell_at(*f, id.0 as int) == Some(c@));
    let line = render_cell(f, id);
    let root = match &c.kind {
        crate::cell::CellKind::Param { .. } => true,
        crate::cell::CellKind::Const { .. } => true,
        _ => false,
    };
    if root {
        let node = ProvNode { id, line, children: Vec::new() };
        return Ok(node);
    }
    let ghost v0 = visiting@;
    let ghost ops = c@.operands;
    visiting.push(id);
    let mut children: Vec<ProvNode> = Vec::new();
    let mut k: usize = 0;
    while k < c.operands.len()
        invariant
            k <= ops.len(),
            ops == c.operands@,
            visiting@ == v0.push(id),
            v0 == old(visiting)@,
            depth <= PROV_DEPTH_LIMIT,
            kids_printable(*f, ops, ops.len() as int, v0.push(id), depth + 1),
            walk_err(*f, id, v0, depth as int) == kids_err(*f, ops, ops.len() as int, v0.push(id), depth + 1),
            kids_err(*f, ops, k as int, v0.push(id), depth + 1) is None,
            children@.len() == k,
            forall|j: int| 0 <= j < k ==> walk_tree(*f, #[trigger] children@[j], ops[j]),
        decreases ops.len() - k,
    {
        let op = c.operands[k];
        proof { lemma_kids_printable(*f, ops, k as int, ops.len() as int, v0.push(id), depth + 1); }
        match walk(f, op, visiting, depth + 1) {
            Ok(n) => {
                children.push(n);
            },
            Err(e) => {
                proof {
                    lemma_kids_err_sticks(*f, ops, k + 1, ops.len() as int, v0.push(id), depth + 1);
                }
                visiting.pop();
                assert(visiting@ =~= v0);
                return Err(e);
            },
        }
        k = k + 1;
    }
    visiting.pop();
    assert(visiting@ =~= v0);
    let node = ProvNode { id, line, children };
    proof {
        lemma_kids_tree(*f, node, ops, ops.len());
    }
    Ok(node)
}


/// `x`, or the largest machine word when `x` does not fit in one.
pub open spec fn sat(x: nat) -> nat {
    if x < usize::MAX { x } else { usize::MAX as nat }
}

fn sat_add(a: usize, b: usize) -> (r: usize)
    ensures
        r == sat((a + b) as nat),
{
    if a > usize::MAX - b { usize::MAX } else { a + b }
}

proof fn lemma_sat_add(a: nat, b: nat)
    ensures
        sat(sat(a) + sat(b)) == sat(a + b),
{
}

/// The first fault the check meets below `node`: a node whose cell is
/// missing (`true`), or an inner node whose cell produces no value
/// (`false`). Children are met last first, each before its own subtree.
pub open spec fn fault_below(f: Fabric, node: ProvNode) -> Option<(bool, CellId)>
    decreases node, node.children@.len() + 1,
{
    fault_kids(f, node, node.children@.len())
}

pub open spec fn fault_kids(f: Fabric, node: ProvNode, k: nat) -> Option<(bool, CellId)>
    decreases node, k,
{
    if k == 0 || k > node.children@.len() {
        None
    } else {
        proof { assert(decreases_to!(node => node.children@[k - 1])); }
        let c = node.children@[k - 1];
        match cell_at(f, c.id.0 as int) {
            None => Some((true, c.id)),
            Some(cv) => if c.children@.len() > 0 && kind_is_terminator(cv.kind) {
                Some((false, c.id))
            } else {
                match fault_below(f, c) {
                    Some(x) => Some(x),
                    None => fault_kids(f, node, (k - 1) as nat),
                }
            },
        }
    }
}

/// A leaf that is not a root: its cell is neither a param nor a const.
pub open spec fn bad_leaf(f: Fabric, c: ProvNode) -> bool {
    c.children@.len() == 0 && !(cell_at(f, c.id.0 as int) matches Some(cv) && is_root_kind(cv.kind))
}

/// Some leaf below `node` is not a root.
pub open spec fn bad_below(f: Fabric, node: ProvNode) -> bool
    decreases node, node.children@.len() + 1,
{
    bad_kids(f, node, node.children@.len())
}

pub open spec fn bad_kids(f: Fabric, node: ProvNode, k: nat) -> bool
    decreases node, k,
{
    if k == 0 || k > node.children@.len() {
        false
    } else {
        proof { assert(decreases_to!(node => node.children@[k - 1])); }
        let c = node.children@[k - 1];
        bad_leaf(f, c) || bad_below(f, c) || bad_kids(f, node, (k - 1) as nat)
    }
}

/// The number of nodes below `node`.
pub open spec fn size_below(node: ProvNode) -> nat
    decreases node, node.children@.len() + 1,
{
    size_kids(node, node.children@.len())
}

pub open spec fn size_kids(node: ProvNode, k: nat) -> nat
    decreases node, k,
{
    if k == 0 || k > node.children@.len() {
        0
    } else {
        proof { assert(decreases_to!(node => node.children@[k - 1])); }
        size_kids(node, (k - 1) as nat) + 1 + size_below(node.children@[k - 1])
    }
}

/// The number of present cells among the first `n` slab slots.
pub open spec fn live_count(f: Fabric, n: int) -> nat
    decreases n,
{
    if n <= 0 {
        0
    } else {
        live_count(f, n - 1) + if cell_at(f, n - 1) is Some { 1nat } else { 0nat }
    }
}

/// What the check says of the tree `node` of `id`.
pub open spec fn prov_verdict(f: Fabric, node: ProvNode, id: CellId) -> Result<(), Seq<char>> {
    let n = live_count(f, f.slab@.len() as int);
    let count = sat(1 + size_below(node));
    if cell_at(f, node.id.0 as int) is None {
        Err("provenance invented cell "@ + cell_id_text(node.id))
    } else {
        match fault_below(f, node) {
            Some((true, x)) => Err("provenance invented cell "@ + cell_id_text(x)),
            Some((false, x)) => Err("non-value cell "@ + cell_id_text(x) + " inside provenance tree"@),
            None => if bad_below(f, node) {
                Err("provenance of "@ + cell_id_text(id) + " has non-root leaves"@)
            } else if count > sat(n * if n > 1 { n } else { 1 }) {
                Err("provenance of "@ + cell_id_text(id) + " exploded: "@ + dec(count) + " nodes"@)
            } else {
                Ok(())
            },
        }
    }
}

fn scan_below(f: &Fabric, node: &ProvNode) -> (r: (Option<(bool, CellId)>, bool, usize))
    ensures
        r.0 == fault_below(*f, *node),
        r.0 is None ==> r.1 == bad_below(*f, *node) && r.2 == sat(size_below(*node)),
    decreases node,
{
    let n = node.children.len();
    let mut bad = false;
    let mut count: usize = 0;
    let mut k = n;
    while k > 0
        invariant
            k <= n,
            n == node.children@.len(),
            fault_below(*f, *node) == fault_kids(*f, *node, k as nat),
            bad_below(*f, *node) == (bad || bad_kids(*f, *node, k as nat)),
            count == sat((size_kids(*node, n as nat) - size_kids(*node, k as nat)) as nat),
            size_kids(*node, k as nat) <= size_kids(*node, n as nat),
        decreases k,
    {
        let c = &node.children[k - 1];
        proof { assert(decreases_to!(*node => node.children@[k - 1])); }
        let cell = match f.cell(c.id) {
            Some(cell) => cell,
            None => return (Some((true, c.id)), bad, count),
        };
        if c.children.len() == 0 {
            let root = match &cell.kind {
                crate::cell::CellKind::Param { .. } => true,
                crate::cell::CellKind::Const { .. } => true,
                _ => false,
            };
            if !root {
                bad = true;
            }
        } else if !cell.produces_value() {
            return (Some((false, c.id)), bad, count);
        }
        let sub = scan_below(f, c);
        if sub.0.is_some() {
            return (sub.0, bad, count);
        }
        bad = bad || sub.1;
        let one = sat_add(1, sub.2);
        count = sat_add(count, one);
        proof {
            let total = size_kids(*node, n as nat);
            let below = size_kids(*node, (k - 1) as nat);
            let here = 1 + size_below(node.children@[k - 1]);
            assert(size_kids(*node, k as nat) == below + here);
            lemma_sat_add(1, size_below(node.children@[k - 1]));
            lemma_sat_add((total - size_kids(*node, k as nat)) as nat, here as nat);
            assert(total - below == (total - size_kids(*node, k as nat)) + here);
        }
        k = k - 1;
    }
    (None, bad, count)
}

fn count_live(f: &Fabric) -> (n: usize)
    ensures
        n == live_count(*f, f.slab@.len() as int),
{
    let mut n: usize = 0;
    let mut i: usize = 0;
    while i < f.slab.len()
        invariant
            i <= f.slab@.len(),
            n == live_count(*f, i as int),
            n <= i,
        decreases f.slab@.len() - i,
    {
        if f.slab[i].is_some() {
            n = n + 1;
        }
        i = i + 1;
    }
    n
}

/// The check the corpus runs on a provenance tree: the walk succeeds,
/// every node below the root names a present cell, every inner node
/// below the root produces a value, every leaf below it is a root, and
/// the tree has at most the square of the number of present cells
/// nodes (shared defs are walked again; counts saturate at the machine
/// word).
pub fn check_prov(f: &Fabric, id: CellId) -> (r: Result<(), String>)
    requires
        walk_printable(*f, id, Seq::empty(), 0),
    ensures
        match walk_err(*f, id, Seq::empty(), 0) {
            Some(e) => r matches Err(m) && m@ == e,
            None => exists|node: ProvNode| #[trigger] walk_tree(*f, node, id) && match (r, prov_verdict(*f, node, id)) {
                (Ok(_), Ok(_)) => true,
                (Err(m), Err(e)) => m@ == e,
                _ => false,
            },
        },
{
    let node = match provenance(f, id) {
        Ok(n) => n,
        Err(e) => return Err(e),
    };
    let n_cells = count_live(f);
    if f.cell(node.id).is_none() {
        return Err(msg_at("provenance invented cell ", node.id));
    }
    let (fault, bad, below) = scan_below(f, &node);
    match fault {
        Some((true, x)) => return Err(msg_at("provenance invented cell ", x)),
        Some((false, x)) => {
            let mut m = msg_at("non-value cell ", x);
            push_str(&mut m, " inside provenance tree");
            return Err(m);
        },
        None => {},
    }
    if bad {
        let mut m = msg_at("provenance of ", id);
        push_str(&mut m, " has non-root leaves");
        return Err(m);
    }
    let count = sat_add(1, below);
    proof { lemma_sat_add(1, size_below(node)); }
    let m = if n_cells > 1 { n_cells } else { 1 };
    let bound = match n_cells.checked_mul(m) {
        Some(b) => b,
        None => usize::MAX,
    };
    if count > bound {
        let mut msg = msg_at("provenance of ", id);
        push_str(&mut msg, " exploded: ");
        push_dec(&mut msg, count as u64);
        push_str(&mut msg, " nodes");
        return Err(msg);
    }
    Ok(())
}

/// Transform provenance: every history edit that mentions `id`, with
/// its pass and epoch. Works for cells the fabric no longer holds.
pub fn prov_history(h: &History, id: CellId) -> (out: Vec<(u64, &'static str, String)>)
    ensures
        mentions_view(out@) == history_mentions(h.records@, h.records@.len() as int, id),
{
    h.mentions_of(id)
}


/// A provenance walk invents no cell: every node of its tree names a
/// present cell, so the check never reports an invented one.
pub proof fn lemma_prov_invents_nothing(f: Fabric, node: ProvNode, id: CellId)
    requires
        walk_tree(f, node, id),
    ensures
        cell_at(f, node.id.0 as int) is Some,
        !(fault_below(f, node) matches Some((true, _))),
    decreases node, node.children@.len() + 1,
{
    let c = cell_at(f, id.0 as int)->0;
    if !is_root_kind(c.kind) {
        lemma_kids_invent_nothing(f, node, c.operands, node.children@.len());
    } else {
        assert(node.children@.len() == 0);
    }
}

proof fn lemma_kids_invent_nothing(f: Fabric, node: ProvNode, ops: Seq<CellId>, k: nat)
    requires
        k <= node.children@.len(),
        kids_tree(f, node, ops, k),
    ensures
        !(fault_kids(f, node, k) matches Some((true, _))),
    decreases node, k,
{
    if k > 0 {
        assert(decreases_to!(node => node.children@[k - 1]));
        let c = node.children@[k - 1];
        lemma_prov_invents_nothing(f, c, ops[k - 1]);
        lemma_kids_invent_nothing(f, node, ops, (k - 1) as nat);
    }
}

/// The present cells among the first `n` slab slots are exactly what
/// `live_count` counts.
pub proof fn lemma_live_count_counts(f: Fabric, n: int)
    requires
        0 <= n,
    ensures
        live_count(f, n) == Set::new(|i: int| 0 <= i < n && cell_at(f, i) is Some).len(),
        Set::new(|i: int| 0 <= i < n && cell_at(f, i) is Some).finite(),
    decreases n,
{
    let s = Set::new(|i: int| 0 <= i < n && cell_at(f, i) is Some);
    if n == 0 {
        assert(s =~= Set::empty());
    } else {
        lemma_live_count_counts(f, n - 1);
        let t = Set::new(|i: int| 0 <= i < n - 1 && cell_at(f, i) is Some);
        if cell_at(f, n - 1) is Some {
            assert(s =~= t.insert(n - 1));
        } else {
            assert(s =~= t);
        }
    }
}

/// The check never accepts an exploded tree: when it passes the tree of
/// `id`, the tree has at most `n * max(n, 1)` nodes for the `n` present
/// cells of the fabric (where that square fits in a machine word; past
/// it, counts saturate). Conversely, a tree without an earlier fault is
/// accepted when it has at most that many nodes and refused as exploded
/// when it has more.
pub proof fn lemma_prov_bounded(f: Fabric, node: ProvNode, id: CellId)
    requires
        ({
            let n = live_count(f, f.slab@.len() as int);
            n * (if n > 1 { n } else { 1 }) < usize::MAX
        }),
    ensures
        ({
            let n = live_count(f, f.slab@.len() as int);
            let bound = n * (if n > 1 { n } else { 1 });
            &&& prov_verdict(f, node, id) is Ok ==> 1 + size_below(node) <= bound
            &&& (cell_at(f, node.id.0 as int) is Some && fault_below(f, node) is None && !bad_below(f, node) && 1
                + size_below(node) <= bound) ==> prov_verdict(f, node, id) is Ok
            &&& (cell_at(f, node.id.0 as int) is Some && fault_below(f, node) is None && !bad_below(f, node) && 1
                + size_below(node) > bound) ==> prov_verdict(f, node, id) == Err::<(), Seq<char>>(
                "provenance of "@ + cell_id_text(id) + " exploded: "@ + dec(sat(1 + size_below(node))) + " nodes"@,
            )
        }),
{
}

} // verus!
