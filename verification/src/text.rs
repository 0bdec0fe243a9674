//! Textual fabric format: human-readable, line-oriented, diffable.
//!
//! ```text
//! fabric v0
//! region entry
//!   %0 = param i32
//!   %1 = const i32 42
//!   %2 = arith.add i32 %0, %1
//!   %5 = br %3, then, else
//! ```
//!
//! Every cell, terminators included, carries its explicit id, so parsing
//! re-creates the exact slab (holes included) and ids are stable across
//! text round-trips.
//!
//! Printing is canonical: regions in index order, cells in region order,
//! ids as written in the slab. Parsing re-places cells under their
//! explicit ids.

use vstd::prelude::*;
use crate::cell::{ArithOp, Cell, CellKind, CellV, KindV, arith_from_text, arith_text, cmp_from_text, cmp_op_from_name, cmp_text};
use crate::chars::{chars_eq_str, chars_of, push_chars, push_str, starts_with_str, string_of};
use crate::dec::{parse_digits, parse_unsigned};
use crate::fabric::{Fabric, cell_at, msg_assigned_twice};
use crate::id::{CellId, RegionId, cell_id_text};
use crate::lex::{
    char_alphabetic, char_alphanumeric, concat_all, concat_tokens, find_char, first_index_of,
    is_alphabetic, is_alphanumeric, lemma_text_lines_bound, lemma_tokens_bound, lemma_trim_len, split_lines,
    strip_comment as strip_comment_spec, text_lines,
    tokenize, tokens, trim, trim_bounds, views,
};
use crate::ty::{ConstVal, Type, const_from_text, const_text, parse_const_chars, ty_text, type_from_name};

verus! {

pub const HEADER: &'static str = "fabric v0";

/// A parse failure: the 1-based line it was found on and what is wrong.
#[derive(Debug, PartialEq, Eq)]
pub struct ParseError {
    pub line: usize,
    pub message: String,
}

impl ParseError {
    /// `line N: message`, the form the error is shown in.
    pub fn to_text(&self) -> (s: String)
        ensures
            s@ == seq!['l', 'i', 'n', 'e', ' '] + crate::dec::dec(self.line as nat) + seq![':', ' ']
                + self.message@,
    {
        let mut s = String::new();
        s.push('l');
        s.push('i');
        s.push('n');
        s.push('e');
        s.push(' ');
        crate::dec::push_dec(&mut s, self.line as u64);
        s.push(':');
        s.push(' ');
        push_str(&mut s, self.message.as_str());
        assert(s@ =~= seq!['l', 'i', 'n', 'e', ' '] + crate::dec::dec(self.line as nat) + seq![
            ':',
            ' ',
        ] + self.message@);
        s
    }
}

/// `pre`, then `x`, then a closing quote.
pub open spec fn quoted(pre: Seq<char>, x: Seq<char>) -> Seq<char> {
    pre + x + seq!['\'']
}

/// The cell id a token names: `%` and a `u32` as `str::parse` reads it.
pub open spec fn cell_id_of(tok: Seq<char>) -> Option<CellId> {
    if tok.len() > 0 && tok[0] == '%' {
        match parse_unsigned(tok.drop_first(), u32::MAX as nat) {
            Some(n) => Some(CellId(n as u32)),
            None => None,
        }
    } else {
        None
    }
}

/// An identifier: a letter or '_' first, then letters, digits or '_'.
pub open spec fn ident(s: Seq<char>) -> bool {
    &&& s.len() > 0
    &&& (char_alphabetic(s[0]) || s[0] == '_')
    &&& forall|k: int| 0 <= k < s.len() ==> (char_alphanumeric(#[trigger] s[k]) || s[k] == '_')
}

/// The first position of `name` among `names`.
pub open spec fn name_pos(names: Seq<Seq<char>>, name: Seq<char>) -> Option<int> {
    if exists|i: int| 0 <= i < names.len() && names[i] == name {
        Some(
            choose|i: int|
                0 <= i < names.len() && names[i] == name && forall|k: int| 0 <= k < i ==> names[k] != name,
        )
    } else {
        None
    }
}

/// `name_pos` is the first position holding `name`.
pub proof fn lemma_name_pos(names: Seq<Seq<char>>, name: Seq<char>, i: int)
    requires
        0 <= i < names.len(),
        names[i] == name,
        forall|k: int| 0 <= k < i ==> names[k] != name,
    ensures
        name_pos(names, name) == Some(i),
{
    let j = choose|j: int|
        0 <= j < names.len() && names[j] == name && forall|k: int| 0 <= k < j ==> names[k] != name;
    assert(0 <= j < names.len() && names[j] == name && forall|k: int| 0 <= k < j ==> names[k] != name);
    if j < i {
        assert(names[j] != name);
    } else if j > i {
        assert(names[i] != name);
    }
}

pub open spec fn operand_of(tok: Seq<char>) -> Result<CellId, Seq<char>> {
    match cell_id_of(tok) {
        Some(id) => Ok(id),
        None => Err(quoted("bad operand '"@, tok)),
    }
}

pub open spec fn region_of(names: Seq<Seq<char>>, tok: Seq<char>) -> Result<RegionId, Seq<char>> {
    match name_pos(names, tok) {
        Some(i) => Ok(RegionId(i as u32)),
        None => Err(quoted("unknown region '"@, tok)),
    }
}

pub open spec fn type_of(tok: Seq<char>) -> Result<Type, Seq<char>> {
    match type_from_name(tok) {
        Some(t) => Ok(t),
        None => Err(quoted("bad type '"@, tok)),
    }
}

pub open spec fn starts_with(s: Seq<char>, p: Seq<char>) -> bool {
    s.len() >= p.len() && s.take(p.len() as int) == p
}

/// One phi join `[name: %v]`: its region and value.
#[verifier::opaque]
pub open spec fn join_of(names: Seq<Seq<char>>, tok: Seq<char>) -> Result<(RegionId, CellId), Seq<char>> {
    if !(tok.len() >= 2 && tok[0] == '[' && tok.last() == ']') {
        Err(quoted("bad phi join '"@, tok))
    } else {
        let inner = tok.subrange(1, tok.len() - 1);
        let p = first_index_of(inner, ':') as int;
        if p >= inner.len() {
            Err(quoted("bad phi join '"@, tok))
        } else {
            match region_of(names, trim(inner.take(p))) {
                Err(m) => Err(m),
                Ok(r) => match operand_of(trim(inner.skip(p + 1))) {
                    Err(m) => Err(m),
                    Ok(v) => Ok((r, v)),
                },
            }
        }
    }
}

/// The joins written in `body`, left to right. A join may be split over
/// two tokens (`[name:` and `%v]`), which are then read as one with a
/// space between them.
#[verifier::opaque]
pub open spec fn phi_joins(names: Seq<Seq<char>>, body: Seq<Seq<char>>) -> Result<
    (Seq<RegionId>, Seq<CellId>),
    Seq<char>,
>
    decreases body.len(),
{
    if body.len() == 0 {
        Ok((Seq::empty(), Seq::empty()))
    } else {
        let t0 = body[0];
        let whole = t0.len() > 0 && t0.last() == ']';
        if !whole && body.len() < 2 {
            Err(quoted("bad phi join '"@, t0))
        } else {
            let tok = if whole { t0 } else { t0 + seq![' '] + body[1] };
            let used: int = if whole { 1 } else { 2 };
            match join_of(names, tok) {
                Err(m) => Err(m),
                Ok((r, v)) => match phi_joins(names, body.skip(used)) {
                    Err(m) => Err(m),
                    Ok((rs, vs)) => Ok((seq![r] + rs, seq![v] + vs)),
                },
            }
        }
    }
}

/// One join read from `tok`, then the rest of the joins from `after`.
pub open spec fn phi_step(names: Seq<Seq<char>>, tok: Seq<char>, after: Seq<Seq<char>>) -> Result<
    (Seq<RegionId>, Seq<CellId>),
    Seq<char>,
> {
    match join_of(names, tok) {
        Err(m) => Err(m),
        Ok((r, v)) => match phi_joins(names, after) {
            Err(m) => Err(m),
            Ok((rs, vs)) => Ok((seq![r] + rs, seq![v] + vs)),
        },
    }
}

/// What `acc` joins and `later` (the joins still to read) give together.
pub open spec fn phi_prefixed(js: Seq<RegionId>, os: Seq<CellId>, later: Result<(Seq<RegionId>, Seq<CellId>), Seq<char>>) -> Result<
    (Seq<RegionId>, Seq<CellId>),
    Seq<char>,
> {
    match later {
        Err(m) => Err(m),
        Ok((rs, vs)) => Ok((js + rs, os + vs)),
    }
}

proof fn lemma_phi_unfold(names: Seq<Seq<char>>, b: Seq<Seq<char>>, i: int)
    requires
        0 <= i < b.len(),
    ensures
        ({
            let t0 = b[i];
            let whole = t0.len() > 0 && t0.last() == ']';
            &&& whole ==> phi_joins(names, b.skip(i)) == phi_step(names, t0, b.skip(i + 1))
            &&& !whole && i + 1 >= b.len() ==> phi_joins(names, b.skip(i)) == Err::<
                (Seq<RegionId>, Seq<CellId>),
                Seq<char>,
            >(quoted("bad phi join '"@, t0))
            &&& !whole && i + 1 < b.len() ==> phi_joins(names, b.skip(i)) == phi_step(
                names,
                t0 + seq![' '] + b[i + 1],
                b.skip(i + 2),
            )
        }),
{
    reveal(phi_joins);
    let body = b.skip(i);
    assert(body[0] == b[i]);
    assert(body.skip(1) =~= b.skip(i + 1));
    if i + 1 < b.len() {
        assert(body[1] == b[i + 1]);
        assert(body.skip(2) =~= b.skip(i + 2));
    }
}

pub open spec fn value_cell(region: RegionId, kind: KindV, operands: Seq<CellId>) -> CellV {
    CellV { region, kind, operands }
}

#[verifier::opaque]
pub open spec fn param_line(region: RegionId, rest: Seq<Seq<char>>) -> Result<CellV, Seq<char>> {
    if rest.len() != 2 {
        Err("param takes one type"@)
    } else {
        match type_of(rest[1]) {
            Err(m) => Err(m),
            Ok(ty) => Ok(value_cell(region, KindV::Param { ty }, Seq::empty())),
        }
    }
}

#[verifier::opaque]
pub open spec fn const_line(region: RegionId, rest: Seq<Seq<char>>) -> Result<CellV, Seq<char>> {
    if rest.len() != 3 {
        Err("const takes TYPE VALUE"@)
    } else {
        match type_of(rest[1]) {
            Err(m) => Err(m),
            Ok(ty) => match const_from_text(ty, rest[2]) {
                None => Err("bad constant '"@ + rest[2] + "' for "@ + ty_text(ty)),
                Some(val) => Ok(value_cell(region, KindV::Const { ty, val }, Seq::empty())),
            },
        }
    }
}

#[verifier::opaque]
pub open spec fn arith_line(region: RegionId, rest: Seq<Seq<char>>) -> Result<CellV, Seq<char>> {
    match arith_from_text(rest[0]) {
        None => Err(quoted("bad arith op '"@, rest[0])),
        Some(op) => if rest.len() != 4 {
            Err("arith takes TYPE A B"@)
        } else {
            match type_of(rest[1]) {
                Err(m) => Err(m),
                Ok(ty) => match operand_of(rest[2]) {
                    Err(m) => Err(m),
                    Ok(a) => match operand_of(rest[3]) {
                        Err(m) => Err(m),
                        Ok(b) => Ok(value_cell(region, KindV::Arith { op, ty }, seq![a, b])),
                    },
                },
            }
        },
    }
}

#[verifier::opaque]
pub open spec fn compare_line(region: RegionId, rest: Seq<Seq<char>>) -> Result<CellV, Seq<char>> {
    match cmp_from_text(rest[0]) {
        None => Err(quoted("bad cmp op '"@, rest[0])),
        Some(op) => if rest.len() != 3 {
            Err("cmp takes A B"@)
        } else {
            match operand_of(rest[1]) {
                Err(m) => Err(m),
                Ok(a) => match operand_of(rest[2]) {
                    Err(m) => Err(m),
                    Ok(b) => Ok(value_cell(region, KindV::Cmp { op }, seq![a, b])),
                },
            }
        },
    }
}

#[verifier::opaque]
pub open spec fn branch_line(names: Seq<Seq<char>>, region: RegionId, rest: Seq<Seq<char>>) -> Result<
    CellV,
    Seq<char>,
> {
    if rest.len() != 4 {
        Err("br takes COND THEN ELSE"@)
    } else {
        match operand_of(rest[1]) {
            Err(m) => Err(m),
            Ok(c) => match region_of(names, rest[2]) {
                Err(m) => Err(m),
                Ok(then_r) => match region_of(names, rest[3]) {
                    Err(m) => Err(m),
                    Ok(else_r) => Ok(value_cell(region, KindV::Branch { then_r, else_r }, seq![c])),
                },
            },
        }
    }
}

#[verifier::opaque]
pub open spec fn jump_line(names: Seq<Seq<char>>, region: RegionId, rest: Seq<Seq<char>>) -> Result<
    CellV,
    Seq<char>,
> {
    if rest.len() != 2 {
        Err("jump takes TARGET"@)
    } else {
        match region_of(names, rest[1]) {
            Err(m) => Err(m),
            Ok(target) => Ok(value_cell(region, KindV::Jump { target }, Seq::empty())),
        }
    }
}

#[verifier::opaque]
pub open spec fn phi_line(names: Seq<Seq<char>>, region: RegionId, rest: Seq<Seq<char>>) -> Result<
    CellV,
    Seq<char>,
> {
    match phi_joins(names, rest.skip(1)) {
        Err(m) => Err(m),
        Ok((joins, ops)) => if joins.len() == 0 {
            Err("phi needs at least one join"@)
        } else {
            Ok(value_cell(region, KindV::Phi { joins }, ops))
        },
    }
}

#[verifier::opaque]
pub open spec fn ret_line(region: RegionId, rest: Seq<Seq<char>>) -> Result<CellV, Seq<char>> {
    if rest.len() == 2 {
        match operand_of(rest[1]) {
            Err(m) => Err(m),
            Ok(v) => Ok(value_cell(region, KindV::Ret, seq![v])),
        }
    } else if rest.len() != 1 {
        Err("ret takes zero or one operand"@)
    } else {
        Ok(value_cell(region, KindV::Ret, Seq::empty()))
    }
}

/// The cell written by the tokens after `=` on a cell line.
#[verifier::opaque]
pub open spec fn cell_line(names: Seq<Seq<char>>, region: RegionId, rest: Seq<Seq<char>>) -> Result<
    CellV,
    Seq<char>,
> {
    let head = if rest.len() > 0 { rest[0] } else { Seq::empty() };
    if head == "param"@ {
        param_line(region, rest)
    } else if head == "const"@ {
        const_line(region, rest)
    } else if starts_with(head, "arith."@) {
        arith_line(region, rest)
    } else if starts_with(head, "cmp."@) {
        compare_line(region, rest)
    } else if head == "br"@ {
        branch_line(names, region, rest)
    } else if head == "jump"@ {
        jump_line(names, region, rest)
    } else if head == "phi"@ {
        phi_line(names, region, rest)
    } else if head == "ret"@ {
        ret_line(region, rest)
    } else {
        Err(quoted("unknown instruction '"@, head))
    }
}

/// `r` is what `want` describes: the same cell (with at most `bound`
/// operands), or an error with the same message on line `line`.
pub open spec fn cell_result(r: Result<Cell, ParseError>, want: Result<CellV, Seq<char>>, line: usize, bound: nat) -> bool {
    match r {
        Ok(c) => want == Ok::<CellV, Seq<char>>(c@) && c@.operands.len() <= bound,
        Err(e) => want == Err::<CellV, Seq<char>>(e.message@) && e.line == line,
    }
}

/// The tokens of a cell line from index `start` on.
pub open spec fn rest_of(toks: Seq<Vec<char>>, start: int) -> Seq<Seq<char>> {
    views(toks).skip(start)
}

/// Where the line-by-line first pass stands.
pub enum Scan {
    /// Still reading: whether the header was seen, the region names so
    /// far, the current region, and the cell lines to read later (line
    /// number, region index, tokens).
    Going {
        saw: bool,
        names: Seq<Seq<char>>,
        current: Option<nat>,
        pending: Seq<(nat, nat, Seq<Seq<char>>)>,
    },
    /// A line was rejected.
    Failed { line: nat, message: Seq<char> },
    /// A line holds nothing but commas after the header: the first pass
    /// has no token to look at.
    Stuck,
}

/// The first pass over line number `no` holding `raw`.
#[verifier::opaque]
pub open spec fn scan_line(st: Scan, no: nat, raw: Seq<char>) -> Scan {
    match st {
        Scan::Going { saw, names, current, pending } => {
            let line = trim(strip_comment_spec(raw));
            if line.len() == 0 {
                st
            } else {
                let toks = tokens(line);
                if !saw {
                    if concat_all(toks) == "fabricv0"@ {
                        Scan::Going { saw: true, names, current, pending }
                    } else {
                        Scan::Failed { line: no, message: quoted("expected header 'fabric v0', got '"@, line) }
                    }
                } else if toks.len() == 0 {
                    Scan::Stuck
                } else if toks[0] == "region"@ {
                    if toks.len() != 2 {
                        Scan::Failed { line: no, message: "region line must be 'region NAME'"@ }
                    } else if !ident(toks[1]) {
                        Scan::Failed { line: no, message: quoted("bad region name '"@, toks[1]) }
                    } else if names.contains(toks[1]) {
                        Scan::Failed { line: no, message: quoted("duplicate region name '"@, toks[1]) }
                    } else {
                        Scan::Going { saw, names: names.push(toks[1]), current: Some(names.len()), pending }
                    }
                } else {
                    match current {
                        None => Scan::Failed { line: no, message: "cell before any region declaration"@ },
                        Some(r) => Scan::Going { saw, names, current, pending: pending.push((no, r, toks)) },
                    }
                }
            }
        },
        _ => st,
    }
}

/// The first pass over `lines` (numbered from 1).
pub open spec fn scan(lines: Seq<Seq<char>>) -> Scan
    decreases lines.len(),
{
    if lines.len() == 0 {
        Scan::Going { saw: false, names: Seq::empty(), current: None, pending: Seq::empty() }
    } else {
        scan_line(scan(lines.drop_last()), lines.len(), lines.last())
    }
}

/// The regions and slab a parse builds: each region's cell list and the
/// cell (if any) under each id.
pub type Built = (Seq<Seq<CellId>>, Seq<Option<CellV>>);

/// Place `c` under `id` in region `r`: the slab grows with holes as
/// needed; an id that is taken is refused.
pub open spec fn place(b: Built, r: nat, id: CellId, c: CellV) -> Result<Built, Seq<char>> {
    let (lists, slab) = b;
    let i = id.0 as int;
    let n = slab.len() as int;
    if i < n && slab[i] is Some {
        Err(msg_assigned_twice(id))
    } else {
        let grown = if i < n {
            slab.update(i, Some(c))
        } else {
            slab + Seq::new((i - n) as nat, |k: int| None::<CellV>) + seq![Some(c)]
        };
        Ok((lists.update(r as int, lists[r as int].push(id)), grown))
    }
}

/// The second pass over one cell line.
#[verifier::opaque]
pub open spec fn build_one(names: Seq<Seq<char>>, p: (nat, nat, Seq<Seq<char>>), b: Built) -> Result<
    Built,
    (nat, Seq<char>),
> {
    let (no, r, toks) = p;
    if toks.len() < 3 || toks[1] != "="@ {
        Err((no, "every cell line must be '%id = ...'"@))
    } else {
        match cell_id_of(toks[0]) {
            None => Err((no, quoted("bad cell id '"@, toks[0]))),
            Some(id) => match cell_line(names, RegionId(r as u32), toks.skip(2)) {
                Err(m) => Err((no, m)),
                Ok(c) => match place(b, r, id, c) {
                    Err(m) => Err((no, m)),
                    Ok(b2) => Ok(b2),
                },
            },
        }
    }
}

/// The second pass: cell lines in file order.
pub open spec fn build(names: Seq<Seq<char>>, pend: Seq<(nat, nat, Seq<Seq<char>>)>, b: Built) -> Result<
    Built,
    (nat, Seq<char>),
>
    decreases pend.len(),
{
    if pend.len() == 0 {
        Ok(b)
    } else {
        match build_one(names, pend[0], b) {
            Err(e) => Err(e),
            Ok(b2) => build(names, pend.skip(1), b2),
        }
    }
}

/// What parsing `text` gives: the region names, each region's cells and
/// the slab, or the line and message of the first error.
pub open spec fn parse_result(text: Seq<char>) -> Result<(Seq<Seq<char>>, Built), (nat, Seq<char>)> {
    let lines = text_lines(text);
    match scan(lines) {
        Scan::Failed { line, message } => Err((line, message)),
        Scan::Stuck => Err((0, Seq::empty())),
        Scan::Going { saw, names, current, pending } => if !saw {
            Err((if lines.len() > 1 { lines.len() } else { 1 }, "missing 'fabric v0' header"@))
        } else {
            match build(names, pending, (Seq::new(names.len(), |k: int| Seq::<CellId>::empty()), Seq::empty())) {
                Err(e) => Err(e),
                Ok(b) => Ok((names, b)),
            }
        },
    }
}

/// The text can be read without the first pass getting stuck.
pub open spec fn scannable(text: Seq<char>) -> bool {
    !(scan(text_lines(text)) is Stuck)
}

/// Each region's cell list.
pub open spec fn region_lists(f: Fabric) -> Seq<Seq<CellId>> {
    f.regions@.map_values(|r: crate::fabric::Region| r.cells@)
}

/// The model of the slab.
pub open spec fn slab_view(f: Fabric) -> Seq<Option<CellV>> {
    f.slab@.map_values(|o: Option<Cell>| match o {
        Some(c) => Some(c@),
        None => None,
    })
}

/// The model of a fabric: region names, cell lists and slab.
pub open spec fn fabric_model(f: Fabric) -> (Seq<Seq<char>>, Built) {
    (region_names(f), (region_lists(f), slab_view(f)))
}

fn err(line: usize, message: String) -> (e: ParseError)
    ensures
        e.line == line,
        e.message@ == message@,
{
    ParseError { line, message }
}

fn msg(s: &str) -> (m: String)
    ensures
        m@ == s@,
{
    let mut m = String::new();
    push_str(&mut m, s);
    assert(m@ =~= s@);
    m
}

fn quoted_msg(pre: &str, x: &Vec<char>) -> (m: String)
    ensures
        m@ == quoted(pre@, x@),
{
    let mut m = String::new();
    push_str(&mut m, pre);
    push_chars(&mut m, x);
    m.push('\'');
    assert(m@ =~= quoted(pre@, x@));
    m
}

/// The characters of `s` before its first ';', as an end index.
fn strip_comment(s: &Vec<char>) -> (end: usize)
    ensures
        end <= s@.len(),
        s@.take(end as int) == strip_comment_spec(s@),
{
    let end = find_char(s, ';');
    proof { crate::lex::lemma_first_index_of(s@, ';'); }
    end
}

fn parse_cell_id(tok: &Vec<char>) -> (r: Option<CellId>)
    ensures
        r == cell_id_of(tok@),
{
    if tok.len() == 0 || tok[0] != '%' {
        return None;
    }
    let ghost body = tok@.drop_first();
    let start: usize = if tok.len() > 1 && tok[1] == '+' { 2 } else { 1 };
    assert(tok@.subrange(start as int, tok@.len() as int) =~= (if body.len() > 0 && body[0] == '+' {
        body.drop_first()
    } else {
        body
    }));
    match parse_digits(tok, start, tok.len(), 0xffff_ffff) {
        Some(n) => Some(CellId(n as u32)),
        None => None,
    }
}

fn is_ident(s: &Vec<char>) -> (b: bool)
    ensures
        b == ident(s@),
{
    if s.len() == 0 {
        return false;
    }
    let c0 = s[0];
    if !(is_alphabetic(c0) || c0 == '_') {
        return false;
    }
    let mut i: usize = 0;
    while i < s.len()
        invariant
            i <= s@.len(),
            forall|k: int| 0 <= k < i ==> (char_alphanumeric(#[trigger] s@[k]) || s@[k] == '_'),
        decreases s@.len() - i,
    {
        let c = s[i];
        if !(is_alphanumeric(c) || c == '_') {
            return false;
        }
        i = i + 1;
    }
    true
}

/// The index of the region named `name[lo..hi]`, if any.
fn find_region(f: &Fabric, name: &Vec<char>, lo: usize, hi: usize) -> (r: Option<usize>)
    requires
        lo <= hi <= name@.len(),
    ensures
        match r {
            Some(i) => name_pos(region_names(*f), name@.subrange(lo as int, hi as int)) == Some(i as int)
                && i < f.regions@.len(),
            None => name_pos(region_names(*f), name@.subrange(lo as int, hi as int)) is None,
        },
{
    let ghost names = region_names(*f);
    let ghost nm = name@.subrange(lo as int, hi as int);
    let mut i: usize = 0;
    while i < f.regions.len()
        invariant
            names == region_names(*f),
            nm == name@.subrange(lo as int, hi as int),
            lo <= hi <= name@.len(),
            i <= f.regions@.len(),
            forall|k: int| 0 <= k < i ==> names[k] != nm,
        decreases f.regions@.len() - i,
    {
        if range_eq_string(name, lo, hi, &f.regions[i].name) {
            proof { lemma_name_pos(names, nm, i as int); }
            return Some(i);
        }
        i = i + 1;
    }
    None
}

/// Whether `v[lo..hi]` holds the characters of `s`.
fn range_eq_string(v: &Vec<char>, lo: usize, hi: usize, s: &String) -> (r: bool)
    requires
        lo <= hi <= v@.len(),
    ensures
        r == (v@.subrange(lo as int, hi as int) == s@),
{
    crate::chars::range_eq_str(v, lo, hi, s.as_str())
}

/// The names of the fabric's regions, in index order.
pub open spec fn region_names(f: Fabric) -> Seq<Seq<char>> {
    f.regions@.map_values(|r: crate::fabric::Region| r.name@)
}

/// A copy of `v[lo..hi]`.
fn sub_vec(v: &Vec<char>, lo: usize, hi: usize) -> (r: Vec<char>)
    requires
        lo <= hi <= v@.len(),
    ensures
        r@ == v@.subrange(lo as int, hi as int),
{
    let mut r: Vec<char> = Vec::new();
    let mut i = lo;
    while i < hi
        invariant
            lo <= i <= hi <= v@.len(),
            r@ == v@.subrange(lo as int, i as int),
        decreases hi - i,
    {
        r.push(v[i]);
        i = i + 1;
        assert(r@ =~= v@.subrange(lo as int, i as int));
    }
    r
}

fn operand(tok: &Vec<char>, line: usize) -> (r: Result<CellId, ParseError>)
    ensures
        match r {
            Ok(id) => operand_of(tok@) == Ok::<CellId, Seq<char>>(id),
            Err(e) => operand_of(tok@) == Err::<CellId, Seq<char>>(e.message@) && e.line == line,
        },
{
    match parse_cell_id(tok) {
        Some(id) => Ok(id),
        None => Err(err(line, quoted_msg("bad operand '", tok))),
    }
}

fn region_by_name(f: &Fabric, name: &Vec<char>, line: usize) -> (r: Result<RegionId, ParseError>)
    requires
        f.regions@.len() <= u32::MAX,
    ensures
        match r {
            Ok(x) => region_of(region_names(*f), name@) == Ok::<RegionId, Seq<char>>(x),
            Err(e) => region_of(region_names(*f), name@) == Err::<RegionId, Seq<char>>(e.message@)
                && e.line == line,
        },
{
    assert(name@.subrange(0, name@.len() as int) =~= name@);
    match find_region(f, name, 0, name.len()) {
        Some(i) => Ok(RegionId(i as u32)),
        None => Err(err(line, quoted_msg("unknown region '", name))),
    }
}

fn type_tok(tok: &Vec<char>, line: usize) -> (r: Result<Type, ParseError>)
    ensures
        match r {
            Ok(t) => type_of(tok@) == Ok::<Type, Seq<char>>(t),
            Err(e) => type_of(tok@) == Err::<Type, Seq<char>>(e.message@) && e.line == line,
        },
{
    let s = string_of(tok);
    match Type::parse(s.as_str()) {
        Some(t) => Ok(t),
        None => Err(err(line, quoted_msg("bad type '", tok))),
    }
}

fn parse_join(f: &Fabric, tok: &Vec<char>, line: usize) -> (r: Result<(RegionId, CellId), ParseError>)
    requires
        f.regions@.len() <= u32::MAX,
    ensures
        match r {
            Ok(x) => join_of(region_names(*f), tok@) == Ok::<(RegionId, CellId), Seq<char>>(x),
            Err(e) => join_of(region_names(*f), tok@) == Err::<(RegionId, CellId), Seq<char>>(e.message@)
                && e.line == line,
        },
{
    reveal(join_of);
    let n = tok.len();
    if !(n >= 2 && tok[0] == '[' && tok[n - 1] == ']') {
        return Err(err(line, quoted_msg("bad phi join '", tok)));
    }
    let inner = sub_vec(tok, 1, n - 1);
    let p = find_char(&inner, ':');
    if p >= inner.len() {
        return Err(err(line, quoted_msg("bad phi join '", tok)));
    }
    let (a, b) = trim_bounds(&inner, 0, p);
    assert(inner@.subrange(0, p as int) =~= inner@.take(p as int));
    let rname = sub_vec(&inner, a, b);
    let r = region_by_name(f, &rname, line)?;
    let (c, d) = trim_bounds(&inner, p + 1, inner.len());
    assert(inner@.subrange(p + 1, inner@.len() as int) =~= inner@.skip(p + 1));
    let vid = sub_vec(&inner, c, d);
    let v = operand(&vid, line)?;
    Ok((r, v))
}

/// `a`, a space, then `b`.
fn join_two(a: &Vec<char>, b: &Vec<char>) -> (t: Vec<char>)
    ensures
        t@ == a@ + seq![' '] + b@,
{
    let mut t = sub_vec(a, 0, a.len());
    assert(t@ =~= a@);
    t.push(' ');
    let mut k: usize = 0;
    let ghost base = t@;
    while k < b.len()
        invariant
            k <= b@.len(),
            t@ == base + b@.take(k as int),
        decreases b@.len() - k,
    {
        t.push(b[k]);
        k = k + 1;
        assert(t@ =~= base + b@.take(k as int));
    }
    assert(b@.take(b@.len() as int) =~= b@);
    t
}

/// Whether the token closes a join by itself (ends with ']').
fn closes_join(t: &Vec<char>) -> (b: bool)
    ensures
        b == (t@.len() > 0 && t@.last() == ']'),
{
    t.len() > 0 && t[t.len() - 1] == ']'
}

proof fn lemma_phi_joins_len(names: Seq<Seq<char>>, body: Seq<Seq<char>>)
    ensures
        phi_joins(names, body) matches Ok((rs, vs)) ==> rs.len() == vs.len() && vs.len() <= body.len(),
    decreases body.len(),
{
    reveal(phi_joins);
    if body.len() > 0 {
        let t0 = body[0];
        let whole = t0.len() > 0 && t0.last() == ']';
        if whole || body.len() >= 2 {
            let used: int = if whole { 1 } else { 2 };
            lemma_phi_joins_len(names, body.skip(used));
        }
    }
}

/// Read the join that starts at `toks[i]`; on success, also where the
/// next one starts.
fn next_join(f: &Fabric, toks: &Vec<Vec<char>>, i: usize, line: usize) -> (r: Result<
    (RegionId, CellId, usize),
    ParseError,
>)
    requires
        i < toks@.len(),
        f.regions@.len() <= u32::MAX,
    ensures
        match r {
            Ok((x, v, j)) => i < j <= toks@.len() && phi_joins(region_names(*f), views(toks@).skip(i as int))
                == phi_prefixed(seq![x], seq![v], phi_joins(region_names(*f), views(toks@).skip(j as int))),
            Err(e) => phi_joins(region_names(*f), views(toks@).skip(i as int)) == Err::<
                (Seq<RegionId>, Seq<CellId>),
                Seq<char>,
            >(e.message@) && e.line == line,
        },
{
    let ghost names = region_names(*f);
    let ghost b = views(toks@);
    proof { lemma_phi_unfold(names, b, i as int); }
    assert(b[i as int] == toks@[i as int]@);
    let n = toks.len();
    let tok: Vec<char>;
    let j: usize;
    if closes_join(&toks[i]) {
        tok = sub_vec(&toks[i], 0, toks[i].len());
        assert(tok@ =~= b[i as int]);
        j = i + 1;
    } else {
        if i + 1 >= n {
            return Err(err(line, quoted_msg("bad phi join '", &toks[i])));
        }
        assert(b[i + 1] == toks@[i + 1]@);
        tok = join_two(&toks[i], &toks[i + 1]);
        j = i + 2;
    }
    let (x, v) = parse_join(f, &tok, line)?;
    proof {
        match phi_joins(names, b.skip(j as int)) {
            Err(m) => {},
            Ok((rs, vs)) => {},
        }
    }
    Ok((x, v, j))
}

fn parse_phi(f: &Fabric, toks: &Vec<Vec<char>>, start: usize, line: usize) -> (r: Result<
    (Vec<RegionId>, Vec<CellId>),
    ParseError,
>)
    requires
        start <= toks@.len(),
        f.regions@.len() <= u32::MAX,
    ensures
        match r {
            Ok((js, os)) => phi_joins(region_names(*f), views(toks@).skip(start as int)) == Ok::<
                (Seq<RegionId>, Seq<CellId>),
                Seq<char>,
            >((js@, os@)),
            Err(e) => phi_joins(region_names(*f), views(toks@).skip(start as int)) == Err::<
                (Seq<RegionId>, Seq<CellId>),
                Seq<char>,
            >(e.message@) && e.line == line,
        },
{
    let ghost names = region_names(*f);
    let ghost b = views(toks@);
    let ghost whole_spec = phi_joins(names, b.skip(start as int));
    let mut joins: Vec<RegionId> = Vec::new();
    let mut ops: Vec<CellId> = Vec::new();
    let mut i = start;
    proof {
        match whole_spec {
            Err(m) => {},
            Ok((rs, vs)) => {
                assert(joins@ + rs =~= rs);
                assert(ops@ + vs =~= vs);
            },
        }
    }
    while i < toks.len()
        invariant
            names == region_names(*f),
            f.regions@.len() <= u32::MAX,
            b == views(toks@),
            start <= i <= toks@.len(),
            whole_spec == phi_joins(names, b.skip(start as int)),
            whole_spec == phi_prefixed(joins@, ops@, phi_joins(names, b.skip(i as int))),
        decreases toks@.len() - i,
    {
        let (x, v, j) = next_join(f, toks, i, line)?;
        let ghost old_j = joins@;
        let ghost old_o = ops@;
        joins.push(x);
        ops.push(v);
        proof {
            match phi_joins(names, b.skip(j as int)) {
                Err(m) => {},
                Ok((rs, vs)) => {
                    assert(joins@ + rs =~= old_j + (seq![x] + rs));
                    assert(ops@ + vs =~= old_o + (seq![v] + vs));
                },
            }
        }
        i = j;
    }
    assert(b.skip(i as int) =~= Seq::<Seq<char>>::empty());
    reveal(phi_joins);
    assert(joins@ + Seq::<RegionId>::empty() =~= joins@);
    assert(ops@ + Seq::<CellId>::empty() =~= ops@);
    Ok((joins, ops))
}

/// The comparison named by `head`.
fn compare_op(head: &Vec<char>, line: usize) -> (r: Result<crate::cell::CmpOp, ParseError>)
    ensures
        match r {
            Ok(op) => cmp_from_text(head@) == Some(op),
            Err(e) => cmp_from_text(head@) is None && e.message@ == quoted("bad cmp op '"@, head@)
                && e.line == line,
        },
{
    let hs = string_of(head);
    match cmp_op_from_name(hs.as_str()) {
        Some(op) => Ok(op),
        None => Err(err(line, quoted_msg("bad cmp op '", head))),
    }
}

fn param_cell(region: RegionId, toks: &Vec<Vec<char>>, start: usize, line: usize) -> (r: Result<Cell, ParseError>)
    requires
        start < toks@.len(),
    ensures
        r matches Ok(c) ==> c.region == region,
        cell_result(r, param_line(region, rest_of(toks@, start as int)), line, toks@.len() as nat),
{
    reveal(param_line);
    let ghost rest = rest_of(toks@, start as int);
    assert(rest.len() == toks@.len() - start);
    if toks.len() - start != 2 {
        return Err(err(line, msg("param takes one type")));
    }
    assert(rest[1] == toks@[start + 1]@);
    let ty = type_tok(&toks[start + 1], line)?;
    Ok(Cell { region, kind: CellKind::Param { ty }, operands: Vec::new() })
}

fn const_cell(region: RegionId, toks: &Vec<Vec<char>>, start: usize, line: usize) -> (r: Result<Cell, ParseError>)
    requires
        start < toks@.len(),
    ensures
        r matches Ok(c) ==> c.region == region,
        cell_result(r, const_line(region, rest_of(toks@, start as int)), line, toks@.len() as nat),
{
    reveal(const_line);
    let ghost rest = rest_of(toks@, start as int);
    assert(rest.len() == toks@.len() - start);
    if toks.len() - start != 3 {
        return Err(err(line, msg("const takes TYPE VALUE")));
    }
    assert(rest[1] == toks@[start + 1]@);
    assert(rest[2] == toks@[start + 2]@);
    let ty = type_tok(&toks[start + 1], line)?;
    let vt = &toks[start + 2];
    assert(vt@.subrange(0, vt@.len() as int) =~= vt@);
    match parse_const_chars(ty, vt, 0, vt.len()) {
        Some(val) => Ok(Cell { region, kind: CellKind::Const { ty, val }, operands: Vec::new() }),
        None => {
            let mut m = msg("bad constant '");
            push_chars(&mut m, vt);
            push_str(&mut m, "' for ");
            push_str(&mut m, ty.name());
            assert(m@ =~= "bad constant '"@ + rest[2] + "' for "@ + ty_text(ty));
            Err(err(line, m))
        },
    }
}

fn arith_cell(region: RegionId, toks: &Vec<Vec<char>>, start: usize, line: usize) -> (r: Result<Cell, ParseError>)
    requires
        start < toks@.len(),
    ensures
        r matches Ok(c) ==> c.region == region,
        cell_result(r, arith_line(region, rest_of(toks@, start as int)), line, toks@.len() as nat),
{
    reveal(arith_line);
    let ghost rest = rest_of(toks@, start as int);
    assert(rest.len() == toks@.len() - start);
    let head = &toks[start];
    assert(rest[0] == head@);
    let hs = string_of(head);
    let op = match ArithOp::parse(hs.as_str()) {
        Some(op) => op,
        None => {
            return Err(err(line, quoted_msg("bad arith op '", head)));
        },
    };
    if toks.len() - start != 4 {
        return Err(err(line, msg("arith takes TYPE A B")));
    }
    assert(rest[1] == toks@[start + 1]@);
    assert(rest[2] == toks@[start + 2]@);
    assert(rest[3] == toks@[start + 3]@);
    let ty = type_tok(&toks[start + 1], line)?;
    let a = operand(&toks[start + 2], line)?;
    let b = operand(&toks[start + 3], line)?;
    Ok(Cell { region, kind: CellKind::Arith { op, ty }, operands: vec![a, b] })
}

fn compare_cell(region: RegionId, toks: &Vec<Vec<char>>, start: usize, line: usize) -> (r: Result<Cell, ParseError>)
    requires
        start < toks@.len(),
    ensures
        r matches Ok(c) ==> c.region == region,
        cell_result(r, compare_line(region, rest_of(toks@, start as int)), line, toks@.len() as nat),
{
    reveal(compare_line);
    let ghost rest = rest_of(toks@, start as int);
    assert(rest.len() == toks@.len() - start);
    let head = &toks[start];
    assert(rest[0] == head@);
    let op = compare_op(head, line)?;
    if toks.len() - start != 3 {
        return Err(err(line, msg("cmp takes A B")));
    }
    assert(rest[1] == toks@[start + 1]@);
    assert(rest[2] == toks@[start + 2]@);
    let a = operand(&toks[start + 1], line)?;
    let b = operand(&toks[start + 2], line)?;
    Ok(Cell { region, kind: CellKind::Cmp { op }, operands: vec![a, b] })
}

#[verifier::rlimit(100)]
fn branch_cell(f: &Fabric, region: RegionId, toks: &Vec<Vec<char>>, start: usize, line: usize) -> (r: Result<
    Cell,
    ParseError,
>)
    requires
        start < toks@.len(),
        f.regions@.len() <= u32::MAX,
    ensures
        r matches Ok(c) ==> c.region == region,
        cell_result(r, branch_line(region_names(*f), region, rest_of(toks@, start as int)), line, toks@.len() as nat),
{
    reveal(branch_line);
    let ghost rest = rest_of(toks@, start as int);
    assert(rest.len() == toks@.len() - start);
    if toks.len() - start != 4 {
        return Err(err(line, msg("br takes COND THEN ELSE")));
    }
    assert(rest[1] == toks@[start + 1]@);
    assert(rest[2] == toks@[start + 2]@);
    assert(rest[3] == toks@[start + 3]@);
    let c = operand(&toks[start + 1], line)?;
    let then_r = region_by_name(f, &toks[start + 2], line)?;
    let else_r = region_by_name(f, &toks[start + 3], line)?;
    let mut ops: Vec<CellId> = Vec::new();
    ops.push(c);
    Ok(Cell { region, kind: CellKind::Branch { then_r, else_r }, operands: ops })
}

fn jump_cell(f: &Fabric, region: RegionId, toks: &Vec<Vec<char>>, start: usize, line: usize) -> (r: Result<
    Cell,
    ParseError,
>)
    requires
        start < toks@.len(),
        f.regions@.len() <= u32::MAX,
    ensures
        r matches Ok(c) ==> c.region == region,
        cell_result(r, jump_line(region_names(*f), region, rest_of(toks@, start as int)), line, toks@.len() as nat),
{
    reveal(jump_line);
    let ghost rest = rest_of(toks@, start as int);
    assert(rest.len() == toks@.len() - start);
    if toks.len() - start != 2 {
        return Err(err(line, msg("jump takes TARGET")));
    }
    assert(rest[1] == toks@[start + 1]@);
    let target = region_by_name(f, &toks[start + 1], line)?;
    Ok(Cell { region, kind: CellKind::Jump { target }, operands: Vec::new() })
}

fn phi_cell(f: &Fabric, region: RegionId, toks: &Vec<Vec<char>>, start: usize, line: usize) -> (r: Result<
    Cell,
    ParseError,
>)
    requires
        start < toks@.len(),
        f.regions@.len() <= u32::MAX,
    ensures
        r matches Ok(c) ==> c.region == region,
        cell_result(r, phi_line(region_names(*f), region, rest_of(toks@, start as int)), line, toks@.len() as nat),
{
    reveal(phi_line);
    let ghost rest = rest_of(toks@, start as int);
    assert(rest.len() == toks@.len() - start);
    assert(rest.skip(1) =~= views(toks@).skip(start + 1));
    let n = toks.len();
    assert(start < n);
    let (joins, ops) = parse_phi(f, toks, start + 1, line)?;
    proof { lemma_phi_joins_len(region_names(*f), rest.skip(1)); }
    if joins.len() == 0 {
        return Err(err(line, msg("phi needs at least one join")));
    }
    Ok(Cell { region, kind: CellKind::Phi { joins }, operands: ops })
}

fn ret_cell(region: RegionId, toks: &Vec<Vec<char>>, start: usize, line: usize) -> (r: Result<Cell, ParseError>)
    requires
        start < toks@.len(),
    ensures
        r matches Ok(c) ==> c.region == region,
        cell_result(r, ret_line(region, rest_of(toks@, start as int)), line, toks@.len() as nat),
{
    reveal(ret_line);
    let ghost rest = rest_of(toks@, start as int);
    assert(rest.len() == toks@.len() - start);
    let n = toks.len() - start;
    if n == 2 {
        assert(rest[1] == toks@[start + 1]@);
        let v = operand(&toks[start + 1], line)?;
        let mut ops: Vec<CellId> = Vec::new();
        ops.push(v);
        Ok(Cell { region, kind: CellKind::Ret, operands: ops })
    } else if n != 1 {
        Err(err(line, msg("ret takes zero or one operand")))
    } else {
        Ok(Cell { region, kind: CellKind::Ret, operands: Vec::new() })
    }
}

/// Parse the tokens after `=` (from `toks[start]` on) into a cell of
/// `region`.
fn parse_cell_line(f: &Fabric, region: RegionId, toks: &Vec<Vec<char>>, start: usize, line: usize) -> (r: Result<
    Cell,
    ParseError,
>)
    requires
        start < toks@.len(),
        f.regions@.len() <= u32::MAX,
    ensures
        r matches Ok(c) ==> c.region == region,
        cell_result(r, cell_line(region_names(*f), region, rest_of(toks@, start as int)), line, toks@.len() as nat),
{
    reveal(cell_line);
    let ghost rest = rest_of(toks@, start as int);
    assert(rest.len() == toks@.len() - start);
    let head = &toks[start];
    assert(rest[0] == head@);
    if chars_eq_str(head, "param") {
        param_cell(region, toks, start, line)
    } else if chars_eq_str(head, "const") {
        const_cell(region, toks, start, line)
    } else if starts_with_str(head, "arith.") {
        arith_cell(region, toks, start, line)
    } else if starts_with_str(head, "cmp.") {
        compare_cell(region, toks, start, line)
    } else if chars_eq_str(head, "br") {
        branch_cell(f, region, toks, start, line)
    } else if chars_eq_str(head, "jump") {
        jump_cell(f, region, toks, start, line)
    } else if chars_eq_str(head, "phi") {
        phi_cell(f, region, toks, start, line)
    } else if chars_eq_str(head, "ret") {
        ret_cell(region, toks, start, line)
    } else {
        Err(err(line, quoted_msg("unknown instruction '", head)))
    }
}

/// A cell line kept for the second pass: its line number, its region and
/// its tokens.
pub type PendingLine = (usize, RegionId, Vec<Vec<char>>);

pub open spec fn pend_view(p: Seq<PendingLine>) -> Seq<(nat, nat, Seq<Seq<char>>)> {
    p.map_values(|e: PendingLine| (e.0 as nat, e.1.0 as nat, views(e.2@)))
}

pub open spec fn current_view(c: Option<RegionId>) -> Option<nat> {
    match c {
        Some(r) => Some(r.0 as nat),
        None => None,
    }
}

/// The first pass's state, held in exec values.
pub struct ScanState {
    pub saw: bool,
    pub current: Option<RegionId>,
    pub pending: Vec<PendingLine>,
}

pub open spec fn going(st: ScanState, f: Fabric) -> Scan {
    Scan::Going {
        saw: st.saw,
        names: region_names(f),
        current: current_view(st.current),
        pending: pend_view(st.pending@),
    }
}

/// During the first pass: the slab is empty, every region is empty, and
/// what the state refers to exists; no token list is longer than `bound`.
pub open spec fn scan_inv(st: ScanState, f: Fabric, bound: nat) -> bool {
    &&& f.slab@.len() == 0
    &&& region_lists(f) == Seq::new(f.regions@.len(), |k: int| Seq::<CellId>::empty())
    &&& (st.current matches Some(r) ==> (r.0 as int) < f.regions@.len())
    &&& forall|k: int| 0 <= k < st.pending@.len() ==> ((#[trigger] st.pending@[k]).1.0 as int) < f.regions@.len()
        && st.pending@[k].2@.len() <= bound
}

/// Once the first pass stops going, later lines change nothing.
proof fn lemma_scan_stays(lines: Seq<Seq<char>>, k: int)
    requires
        0 <= k <= lines.len(),
        !(scan(lines.take(k)) is Going),
    ensures
        scan(lines) == scan(lines.take(k)),
    decreases lines.len(),
{
    reveal(scan_line);
    if lines.len() == k {
        assert(lines.take(k) =~= lines);
    } else {
        assert(lines.drop_last().take(k) =~= lines.take(k));
        lemma_scan_stays(lines.drop_last(), k);
    }
}

proof fn lemma_scan_next(lines: Seq<Seq<char>>, k: int)
    requires
        0 <= k < lines.len(),
    ensures
        scan(lines.take(k + 1)) == scan_line(scan(lines.take(k)), (k + 1) as nat, lines[k]),
{
    assert(lines.take(k + 1).drop_last() =~= lines.take(k));
    assert(lines.take(k + 1).last() == lines[k]);
}

/// The first pass over line `no`, whose characters are `raw`.
#[verifier::rlimit(40)]
fn scan_one(f: &mut Fabric, st: &mut ScanState, raw: &Vec<char>, no: usize, bound: usize) -> (r: Result<
    (),
    Option<ParseError>,
>)
    requires
        scan_inv(*old(st), *old(f), bound as nat),
        old(f).regions@.len() < no < u32::MAX,
        raw@.len() <= bound,
    ensures
        match r {
            Ok(()) => scan_line(going(*old(st), *old(f)), no as nat, raw@) == going(*final(st), *final(f))
                && scan_inv(*final(st), *final(f), bound as nat) && final(f).regions@.len() <= no,
            Err(Some(e)) => scan_line(going(*old(st), *old(f)), no as nat, raw@) == (Scan::Failed {
                line: e.line as nat,
                message: e.message@,
            }),
            Err(None) => scan_line(going(*old(st), *old(f)), no as nat, raw@) is Stuck,
        },
{
    reveal(scan_line);
    let end = strip_comment(raw);
    let (a, b) = trim_bounds(raw, 0, end);
    assert(raw@.subrange(0, end as int) =~= raw@.take(end as int));
    let ghost line = raw@.subrange(a as int, b as int);
    assert(line == trim(strip_comment_spec(raw@)));
    if a == b {
        return Ok(());
    }
    let toks = tokenize(raw, a, b);
    proof { lemma_tokens_bound(line); }
    if !st.saw {
        let c = concat_tokens(&toks);
        if !chars_eq_str(&c, "fabricv0") {
            let l = sub_vec(raw, a, b);
            return Err(Some(err(no, quoted_msg("expected header 'fabric v0', got '", &l))));
        }
        st.saw = true;
        return Ok(());
    }
    if toks.len() == 0 {
        return Err(None);
    }
    if chars_eq_str(&toks[0], "region") {
        if toks.len() != 2 {
            return Err(Some(err(no, msg("region line must be 'region NAME'"))));
        }
        let name = &toks[1];
        if !is_ident(name) {
            return Err(Some(err(no, quoted_msg("bad region name '", name))));
        }
        assert(name@.subrange(0, name@.len() as int) =~= name@);
        if find_region(f, name, 0, name.len()).is_some() {
            return Err(Some(err(no, quoted_msg("duplicate region name '", name))));
        }
        let name_s = string_of(name);
        let ghost of = *f;
        let r = f.add_region(name_s.as_str());
        assert(region_names(*f) =~= region_names(of).push(name@));
        assert forall|k: int| 0 <= k < f.regions@.len() implies #[trigger] region_lists(*f)[k] == Seq::<
            CellId,
        >::empty() by {
            if k < of.regions@.len() {
                assert(f.regions@[k] == of.regions@[k]);
                assert(region_lists(of)[k] == Seq::new(of.regions@.len(), |j: int| Seq::<CellId>::empty())[k]);
            }
        }
        assert(region_lists(*f) =~= Seq::new(f.regions@.len(), |k: int| Seq::<CellId>::empty()));
        st.current = Some(r);
        Ok(())
    } else {
        match st.current {
            None => Err(Some(err(no, msg("cell before any region declaration")))),
            Some(r) => {
                let ghost op = st.pending@;
                st.pending.push((no, r, toks));
                assert(pend_view(st.pending@) =~= pend_view(op).push((no as nat, r.0 as nat, line_toks(line))));
                Ok(())
            },
        }
    }
}

pub open spec fn line_toks(line: Seq<char>) -> Seq<Seq<char>> {
    tokens(line)
}

pub open spec fn pend_item(p: PendingLine) -> (nat, nat, Seq<Seq<char>>) {
    (p.0 as nat, p.1.0 as nat, views(p.2@))
}

/// The second pass over one kept line: parse its cell and place it.
#[verifier::rlimit(40)]
fn build_cell(f: &mut Fabric, p: &PendingLine, bound: usize) -> (r: Result<(), ParseError>)
    requires
        (p.1.0 as int) < old(f).regions@.len(),
        old(f).regions@.len() <= u32::MAX,
        p.2@.len() <= bound < u32::MAX,
    ensures
        final(f).regions@.len() == old(f).regions@.len(),
        region_names(*final(f)) == region_names(*old(f)),
        match r {
            Ok(()) => build_one(region_names(*old(f)), pend_item(*p), (region_lists(*old(f)), slab_view(*old(f))))
                == Ok::<Built, (nat, Seq<char>)>((region_lists(*final(f)), slab_view(*final(f)))),
            Err(e) => build_one(region_names(*old(f)), pend_item(*p), (region_lists(*old(f)), slab_view(*old(f))))
                == Err::<Built, (nat, Seq<char>)>((e.line as nat, e.message@)),
        },
{
    reveal(build_one);
    let no = p.0;
    let region = p.1;
    let toks = &p.2;
    assert(views(toks@).len() == toks@.len());
    if toks.len() < 3 || !chars_eq_str(&toks[1], "=") {
        proof {
            if toks@.len() >= 3 {
                assert(views(toks@)[1] == toks@[1]@);
            }
        }
        return Err(err(no, msg("every cell line must be '%id = ...'")));
    }
    assert(views(toks@)[1] == toks@[1]@);
    assert(views(toks@)[0] == toks@[0]@);
    let id = match parse_cell_id(&toks[0]) {
        Some(id) => id,
        None => {
            return Err(err(no, quoted_msg("bad cell id '", &toks[0])));
        },
    };
    assert(RegionId((region.0 as nat) as u32) == region);
    let cell = match parse_cell_line(f, region, toks, 2, no) {
        Ok(c) => c,
        Err(e) => {
            return Err(e);
        },
    };
    let ghost of = *f;
    let ghost cv = cell@;
    let ghost ri = region.0 as int;
    match f.place_cell(id, cell) {
        Ok(()) => {
            proof {
                let i = id.0 as int;
                let n = of.slab@.len() as int;
                let grown = if i < n {
                    slab_view(of).update(i, Some(cv))
                } else {
                    slab_view(of) + Seq::new((i - n) as nat, |k: int| None::<CellV>) + seq![Some(cv)]
                };
                assert(slab_view(*f) =~= grown);
                let want = region_lists(of).update(ri, region_lists(of)[ri].push(id));
                assert forall|q: int| 0 <= q < f.regions@.len() implies #[trigger] region_lists(*f)[q] == want[q] by {
                    if q != ri {
                        assert(f.regions@[q] == of.regions@[q]);
                    }
                }
                assert(region_lists(*f) =~= want);
                assert(region_names(*f) =~= region_names(of));
            }
            Ok(())
        },
        Err(m) => Err(err(no, m)),
    }
}

/// The first pass: every line in order; region declarations are applied,
/// cell lines are kept for later.
fn first_pass(lines: &Vec<Vec<char>>, bound: usize) -> (r: Result<(Fabric, ScanState), Option<ParseError>>)
    requires
        lines@.len() <= bound < u32::MAX,
        forall|k: int| 0 <= k < lines@.len() ==> (#[trigger] lines@[k])@.len() <= bound,
    ensures
        match r {
            Ok((f, st)) => scan(views(lines@)) == going(st, f) && scan_inv(st, f, bound as nat)
                && f.regions@.len() <= lines@.len(),
            Err(Some(e)) => scan(views(lines@)) == (Scan::Failed { line: e.line as nat, message: e.message@ }),
            Err(None) => scan(views(lines@)) is Stuck,
        },
{
    let ghost ls = views(lines@);
    let mut f = Fabric::empty();
    let mut st = ScanState { saw: false, current: None, pending: Vec::new() };
    assert(region_names(f) =~= Seq::<Seq<char>>::empty());
    assert(pend_view(st.pending@) =~= Seq::<(nat, nat, Seq<Seq<char>>)>::empty());
    assert(ls.take(0) =~= Seq::<Seq<char>>::empty());
    assert(region_lists(f) =~= Seq::new(0, |k: int| Seq::<CellId>::empty()));
    let mut idx: usize = 0;
    while idx < lines.len()
        invariant
            ls == views(lines@),
            lines@.len() <= bound < u32::MAX,
            forall|k: int| 0 <= k < lines@.len() ==> (#[trigger] lines@[k])@.len() <= bound,
            idx <= lines@.len(),
            scan(ls.take(idx as int)) == going(st, f),
            scan_inv(st, f, bound as nat),
            f.regions@.len() <= idx,
        decreases lines@.len() - idx,
    {
        proof { lemma_scan_next(ls, idx as int); }
        assert(ls[idx as int] == lines@[idx as int]@);
        match scan_one(&mut f, &mut st, &lines[idx], idx + 1, bound) {
            Ok(()) => {},
            Err(e) => {
                proof { lemma_scan_stays(ls, idx + 1); }
                return Err(e);
            },
        }
        idx = idx + 1;
    }
    assert(ls.take(idx as int) =~= ls);
    Ok((f, st))
}

/// The second pass: each kept cell line in order.
fn second_pass(f: &mut Fabric, st: &ScanState, bound: usize) -> (r: Result<(), ParseError>)
    requires
        scan_inv(*st, *old(f), bound as nat),
        old(f).regions@.len() < u32::MAX,
        bound < u32::MAX,
    ensures
        match r {
            Ok(()) => build(region_names(*old(f)), pend_view(st.pending@), (region_lists(*old(f)), slab_view(*old(f))))
                == Ok::<Built, (nat, Seq<char>)>((region_lists(*final(f)), slab_view(*final(f))))
                && region_names(*final(f)) == region_names(*old(f)),
            Err(e) => build(region_names(*old(f)), pend_view(st.pending@), (region_lists(*old(f)), slab_view(*old(f))))
                == Err::<Built, (nat, Seq<char>)>((e.line as nat, e.message@)),
        },
{
    let ghost names = region_names(*f);
    let ghost pv = pend_view(st.pending@);
    let ghost b0 = (region_lists(*f), slab_view(*f));
    assert(pv.skip(0) =~= pv);
    let mut k: usize = 0;
    while k < st.pending.len()
        invariant
            names == region_names(*f),
            names == region_names(*old(f)),
            b0 == (region_lists(*old(f)), slab_view(*old(f))),
            f.regions@.len() == names.len(),
            names.len() < u32::MAX,
            pv == pend_view(st.pending@),
            k <= st.pending@.len(),
            bound < u32::MAX,
            build(names, pv, b0) == build(names, pv.skip(k as int), (region_lists(*f), slab_view(*f))),
            forall|j: int| 0 <= j < st.pending@.len() ==> ((#[trigger] st.pending@[j]).1.0 as int) < f.regions@.len()
                && st.pending@[j].2@.len() <= bound,
        decreases st.pending@.len() - k,
    {
        assert(pv.skip(k as int)[0] == pend_item(st.pending@[k as int]));
        assert(pv.skip(k as int).skip(1) =~= pv.skip(k + 1));
        let ghost pre: Built = (region_lists(*f), slab_view(*f));
        match build_cell(f, &st.pending[k], bound) {
            Ok(()) => {},
            Err(e) => {
                assert(build(names, pv.skip(k as int), pre) == Err::<Built, (nat, Seq<char>)>(
                    (e.line as nat, e.message@),
                ));
                return Err(e);
            },
        }
        k = k + 1;
    }
    assert(pv.skip(k as int) =~= Seq::<(nat, nat, Seq<Seq<char>>)>::empty());
    Ok(())
}

/// What `parse` gives for `text`, when `parse_result` describes it.
pub open spec fn parse_matches(r: Result<Fabric, ParseError>, text: Seq<char>) -> bool {
    match r {
        Ok(f) => parse_result(text) == Ok::<(Seq<Seq<char>>, Built), (nat, Seq<char>)>(fabric_model(f)),
        Err(e) => parse_result(text) == Err::<(Seq<Seq<char>>, Built), (nat, Seq<char>)>(
            (e.line as nat, e.message@),
        ),
    }
}

/// Parse the textual format, or `None` when a line after the header
/// holds nothing but commas (which the format cannot read at all).
pub fn parse_checked(text: &str) -> (r: Option<Result<Fabric, ParseError>>)
    requires
        text@.len() < u32::MAX,
    ensures
        r is None <==> !scannable(text@),
        r matches Some(x) ==> parse_matches(x, text@),
{
    let chars = chars_of(text);
    let lines = split_lines(&chars);
    proof { lemma_text_lines_bound(text@); }
    assert forall|k: int| 0 <= k < lines@.len() implies (#[trigger] lines@[k])@.len() <= chars@.len() by {
        assert(views(lines@)[k] == lines@[k]@);
    }
    let bound = chars.len();
    let (mut f, st) = match first_pass(&lines, bound) {
        Ok(x) => x,
        Err(Some(e)) => {
            return Some(Err(e));
        },
        Err(None) => {
            return None;
        },
    };
    if !st.saw {
        let n = lines.len();
        let line = if n > 1 { n } else { 1 };
        return Some(Err(err(line, msg("missing 'fabric v0' header"))));
    }
    assert(slab_view(f) =~= Seq::<Option<CellV>>::empty());
    match second_pass(&mut f, &st, bound) {
        Ok(()) => Some(Ok(f)),
        Err(e) => Some(Err(e)),
    }
}

/// Parse the textual format into a fabric. Cell ids in the text are the
/// slab ids; region order in the file is the region index order.
pub fn parse(text: &str) -> (r: Result<Fabric, ParseError>)
    requires
        text@.len() < u32::MAX,
        scannable(text@),
    ensures
        parse_matches(r, text@),
{
    match parse_checked(text) {
        Some(r) => r,
        None => Err(err(0, String::new())),
    }
}

/// The name a printed fabric uses for region `r`.
pub open spec fn region_text(f: Fabric, r: RegionId) -> Seq<char> {
    if (r.0 as int) < f.regions@.len() {
        f.regions@[r.0 as int].name@
    } else {
        crate::fabric::bad_region_text()
    }
}

/// Operand `i` as printed.
pub open spec fn operand_text(ops: Seq<CellId>, i: int) -> Seq<char> {
    if 0 <= i < ops.len() {
        cell_id_text(ops[i])
    } else {
        "%<missing>"@
    }
}

/// Phi join `k` as printed: `[name: %v]`.
pub open spec fn join_text(f: Fabric, joins: Seq<RegionId>, ops: Seq<CellId>, k: int) -> Seq<char> {
    seq!['['] + region_text(f, joins[k]) + seq![':', ' '] + cell_id_text(ops[k]) + seq![']']
}

/// The first `n` joins as printed, separated by single spaces.
pub open spec fn joins_text(f: Fabric, joins: Seq<RegionId>, ops: Seq<CellId>, n: nat) -> Seq<char>
    decreases n,
{
    if n == 0 {
        Seq::empty()
    } else if n == 1 {
        join_text(f, joins, ops, 0)
    } else {
        joins_text(f, joins, ops, (n - 1) as nat) + seq![' '] + join_text(f, joins, ops, n - 1)
    }
}

pub open spec fn min_len(a: nat, b: nat) -> nat {
    if a < b { a } else { b }
}

/// A present cell's kind as printed, after `%id = `.
pub open spec fn kind_text(f: Fabric, c: CellV) -> Seq<char> {
    let ops = c.operands;
    match c.kind {
        KindV::Param { ty } => "param "@ + ty_text(ty),
        KindV::Const { ty, val } => "const "@ + ty_text(ty) + seq![' '] + const_text(val),
        KindV::Arith { op, ty } => arith_text(op) + seq![' '] + ty_text(ty) + seq![' '] + operand_text(ops, 0)
            + seq![',', ' '] + operand_text(ops, 1),
        KindV::Cmp { op } => cmp_text(op) + seq![' '] + operand_text(ops, 0) + seq![',', ' '] + operand_text(ops, 1),
        KindV::Branch { then_r, else_r } => "br "@ + operand_text(ops, 0) + seq![',', ' '] + region_text(f, then_r)
            + seq![',', ' '] + region_text(f, else_r),
        KindV::Jump { target } => "jump "@ + region_text(f, target),
        KindV::Phi { joins } => "phi "@ + joins_text(f, joins, ops, min_len(joins.len(), ops.len())),
        KindV::Ret => if ops.len() == 0 {
            "ret"@
        } else {
            "ret "@ + operand_text(ops, 0)
        },
    }
}

/// One cell as a source line (no indent, no newline).
pub open spec fn cell_text(f: Fabric, id: CellId) -> Seq<char> {
    match cell_at(f, id.0 as int) {
        None => cell_id_text(id) + " = <removed>"@,
        Some(c) => cell_id_text(id) + " = "@ + kind_text(f, c),
    }
}

/// The printed line of a cell: a branch is written
/// `%id = br %cond, THEN, ELSE` with its then target first and its else
/// target second, a jump `%id = jump TARGET`, a return `%id = ret` or
/// `%id = ret %v`, a parameter `%id = param TYPE`, a constant
/// `%id = const TYPE VALUE` and an arith cell `%id = OP TYPE %a, %b`,
/// with its first operand first.
pub proof fn lemma_printed_lines(f: Fabric, id: CellId)
    requires
        cell_at(f, id.0 as int) is Some,
    ensures
        ({
            let c = cell_at(f, id.0 as int)->0;
            let head = cell_id_text(id) + " = "@;
            match c.kind {
                KindV::Branch { then_r, else_r } => c.operands.len() >= 1 ==> cell_text(f, id) == head + "br "@
                    + cell_id_text(c.operands[0]) + ", "@ + region_text(f, then_r) + ", "@ + region_text(f, else_r),
                KindV::Jump { target } => cell_text(f, id) == head + "jump "@ + region_text(f, target),
                KindV::Ret => cell_text(f, id) == if c.operands.len() == 0 {
                    head + "ret"@
                } else {
                    head + "ret "@ + cell_id_text(c.operands[0])
                },
                KindV::Param { ty } => cell_text(f, id) == head + "param "@ + ty_text(ty),
                KindV::Const { ty, val } => cell_text(f, id) == head + "const "@ + ty_text(ty) + " "@ + const_text(val),
                KindV::Arith { op, ty } => c.operands.len() >= 2 ==> cell_text(f, id) == head + arith_text(op) + " "@
                    + ty_text(ty) + " "@ + cell_id_text(c.operands[0]) + ", "@ + cell_id_text(c.operands[1]),
                _ => true,
            }
        }),
{
    reveal_strlit(", ");
    reveal_strlit(" ");
    let c = cell_at(f, id.0 as int)->0;
    let head = cell_id_text(id) + " = "@;
    match c.kind {
        KindV::Branch { then_r, else_r } => {
            if c.operands.len() >= 1 {
                assert(cell_text(f, id) =~= head + "br "@ + cell_id_text(c.operands[0]) + ", "@ + region_text(f, then_r)
                    + ", "@ + region_text(f, else_r));
            }
        },
        KindV::Jump { target } => {
            assert(cell_text(f, id) =~= head + "jump "@ + region_text(f, target));
        },
        KindV::Ret => {
            if c.operands.len() > 0 {
                assert(cell_text(f, id) =~= head + "ret "@ + cell_id_text(c.operands[0]));
            }
        },
        KindV::Param { ty } => {
            assert(cell_text(f, id) =~= head + "param "@ + ty_text(ty));
        },
        KindV::Const { ty, val } => {
            assert(cell_text(f, id) =~= head + "const "@ + ty_text(ty) + " "@ + const_text(val));
        },
        KindV::Arith { op, ty } => {
            if c.operands.len() >= 2 {
                assert(cell_text(f, id) =~= head + arith_text(op) + " "@ + ty_text(ty) + " "@ + cell_id_text(c.operands[0])
                    + ", "@ + cell_id_text(c.operands[1]));
            }
        },
        _ => {},
    }
}

/// A comparison is printed `OP %a, %b` after `%id = `, with its first
/// operand first.
pub proof fn lemma_compare_text(f: Fabric, c: CellV)
    requires
        c.kind is Cmp,
        c.operands.len() >= 2,
    ensures
        kind_text(f, c) == cmp_text(c.kind->Cmp_op) + " "@ + cell_id_text(c.operands[0]) + ", "@ + cell_id_text(
            c.operands[1],
        ),
{
    reveal_strlit(", ");
    reveal_strlit(" ");
    assert(kind_text(f, c) =~= cmp_text(c.kind->Cmp_op) + " "@ + cell_id_text(c.operands[0]) + ", "@ + cell_id_text(
        c.operands[1],
    ));
}

/// No present cell holds a float constant (whose decimal text this
/// library does not produce).
pub open spec fn no_float_consts(f: Fabric) -> bool {
    forall|i: int| #[trigger] cell_at(f, i) matches Some(c) ==> !(c.kind matches KindV::Const { val: ConstVal::F64(_), .. })
}

/// The printed lines of the first `n` cells of a region.
pub open spec fn cells_text(f: Fabric, cells: Seq<CellId>, n: nat) -> Seq<char>
    decreases n,
{
    if n == 0 {
        Seq::empty()
    } else {
        cells_text(f, cells, (n - 1) as nat) + seq![' ', ' '] + cell_text(f, cells[n - 1]) + seq!['\n']
    }
}

/// The printed form of the first `n` regions.
pub open spec fn regions_text(f: Fabric, n: nat) -> Seq<char>
    decreases n,
{
    if n == 0 {
        Seq::empty()
    } else {
        let r = f.regions@[n - 1];
        regions_text(f, (n - 1) as nat) + "region "@ + r.name@ + seq!['\n'] + cells_text(f, r.cells@, r.cells@.len())
    }
}

/// The canonical text of a fabric.
pub open spec fn print_text(f: Fabric) -> Seq<char> {
    HEADER@ + seq!['\n'] + regions_text(f, f.regions@.len())
}

fn push_region_name(out: &mut String, f: &Fabric, r: RegionId)
    ensures
        final(out)@ == old(out)@ + region_text(*f, r),
{
    push_str(out, f.region_name(r));
}

fn push_operand(out: &mut String, ops: &Vec<CellId>, i: usize)
    ensures
        final(out)@ == old(out)@ + operand_text(ops@, i as int),
{
    if i < ops.len() {
        let t = ops[i].to_text();
        push_str(out, t.as_str());
    } else {
        proof { reveal_strlit("%<missing>"); }
        push_str(out, "%<missing>");
    }
}

fn push_joins(out: &mut String, f: &Fabric, joins: &Vec<RegionId>, ops: &Vec<CellId>)
    ensures
        final(out)@ == old(out)@ + joins_text(*f, joins@, ops@, min_len(joins@.len(), ops@.len())),
{
    let n = if joins.len() < ops.len() { joins.len() } else { ops.len() };
    let mut k: usize = 0;
    while k < n
        invariant
            n == min_len(joins@.len(), ops@.len()),
            k <= n,
            out@ == old(out)@ + joins_text(*f, joins@, ops@, k as nat),
        decreases n - k,
    {
        let ghost before = out@;
        if k > 0 {
            out.push(' ');
        }
        out.push('[');
        push_region_name(out, f, joins[k]);
        out.push(':');
        out.push(' ');
        let t = ops[k].to_text();
        push_str(out, t.as_str());
        out.push(']');
        proof {
            if k == 0 {
                assert(joins_text(*f, joins@, ops@, 0) =~= Seq::<char>::empty());
                assert(out@ =~= old(out)@ + joins_text(*f, joins@, ops@, 1));
            } else {
                assert(out@ =~= old(out)@ + joins_text(*f, joins@, ops@, (k + 1) as nat));
            }
        }
        k = k + 1;
    }
}

#[verifier::rlimit(100)]
pub(crate) fn push_kind(out: &mut String, f: &Fabric, c: &Cell)
    requires
        !(c.kind@ matches KindV::Const { val: ConstVal::F64(_), .. }),
    ensures
        final(out)@ == old(out)@ + kind_text(*f, c@),
{
    let ops = &c.operands;
    let ghost o = out@;
    match &c.kind {
        CellKind::Param { ty } => {
            push_str(out, "param ");
            push_str(out, ty.name());
            assert(out@ =~= o + kind_text(*f, c@));
        },
        CellKind::Const { ty, val } => {
            push_str(out, "const ");
            push_str(out, ty.name());
            out.push(' ');
            let t = val.render();
            push_str(out, t.as_str());
            assert(out@ =~= o + kind_text(*f, c@));
        },
        CellKind::Arith { op, ty } => {
            push_str(out, op.name());
            out.push(' ');
            push_str(out, ty.name());
            out.push(' ');
            push_operand(out, ops, 0);
            out.push(',');
            out.push(' ');
            push_operand(out, ops, 1);
            assert(out@ =~= o + kind_text(*f, c@));
        },
        CellKind::Cmp { op } => {
            push_str(out, op.name());
            out.push(' ');
            push_operand(out, ops, 0);
            out.push(',');
            out.push(' ');
            push_operand(out, ops, 1);
            assert(out@ =~= o + kind_text(*f, c@));
        },
        CellKind::Branch { then_r, else_r } => {
            push_str(out, "br ");
            push_operand(out, ops, 0);
            out.push(',');
            out.push(' ');
            push_region_name(out, f, *then_r);
            out.push(',');
            out.push(' ');
            push_region_name(out, f, *else_r);
            assert(out@ =~= o + kind_text(*f, c@));
        },
        CellKind::Jump { target } => {
            push_str(out, "jump ");
            push_region_name(out, f, *target);
            assert(out@ =~= o + kind_text(*f, c@));
        },
        CellKind::Phi { joins } => {
            push_str(out, "phi ");
            push_joins(out, f, joins, ops);
            assert(out@ =~= o + kind_text(*f, c@));
        },
        CellKind::Ret => {
            if ops.len() == 0 {
                push_str(out, "ret");
            } else {
                push_str(out, "ret ");
                push_operand(out, ops, 0);
            }
            assert(out@ =~= o + kind_text(*f, c@));
        },
    }
}

/// Render one cell as a source line (no leading indent).
pub fn render_cell(f: &Fabric, id: CellId) -> (s: String)
    requires
        cell_at(*f, id.0 as int) matches Some(c) ==> !(c.kind matches KindV::Const { val: ConstVal::F64(_), .. }),
    ensures
        s@ == cell_text(*f, id),
{
    let mut out = id.to_text();
    match f.cell(id) {
        None => {
            push_str(&mut out, " = <removed>");
        },
        Some(c) => {
            push_str(&mut out, " = ");
            push_kind(&mut out, f, c);
        },
    }
    assert(out@ =~= cell_text(*f, id));
    out
}

/// Canonical print of a whole fabric.
pub fn print(f: &Fabric) -> (s: String)
    requires
        no_float_consts(*f),
    ensures
        s@ == print_text(*f),
{
    let mut out = String::new();
    push_str(&mut out, HEADER);
    out.push('\n');
    let mut r: usize = 0;
    while r < f.regions.len()
        invariant
            no_float_consts(*f),
            r <= f.regions@.len(),
            out@ == HEADER@ + seq!['\n'] + regions_text(*f, r as nat),
        decreases f.regions@.len() - r,
    {
        let region = &f.regions[r];
        push_str(&mut out, "region ");
        push_str(&mut out, region.name.as_str());
        out.push('\n');
        let ghost base = out@;
        let mut k: usize = 0;
        while k < region.cells.len()
            invariant
                no_float_consts(*f),
                k <= region.cells@.len(),
                out@ == base + cells_text(*f, region.cells@, k as nat),
            decreases region.cells@.len() - k,
        {
            let id = region.cells[k];
            out.push(' ');
            out.push(' ');
            proof {
                if cell_at(*f, id.0 as int) is Some {
                    assert(cell_at(*f, id.0 as int) matches Some(c) ==> !(c.kind matches KindV::Const { val: ConstVal::F64(_), .. }));
                }
            }
            let t = render_cell(f, id);
            push_str(&mut out, t.as_str());
            out.push('\n');
            k = k + 1;
            assert(out@ =~= base + cells_text(*f, region.cells@, k as nat));
        }
        r = r + 1;
        assert(out@ =~= HEADER@ + seq!['\n'] + regions_text(*f, r as nat));
    }
    out
}

} // verus!
