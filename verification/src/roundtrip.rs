//! The canonical print reads back: parsing the printed text of a
//! printable fabric gives its regions, cell lists and listed cells back,
//! so printing the parsed fabric gives the same text.

use vstd::prelude::*;
use crate::cell::{CellV, KindV, arith_text, cmp_text};
use crate::dec::{dec, dec_signed, is_digit, lemma_dec_digits};
use crate::fabric::{Fabric, cell_at, content_wf};
use crate::id::{CellId, RegionId, cell_id_text};
use crate::text::{
    cell_text, ident, join_text, joins_text, kind_text, min_len, operand_text, region_names, region_text,
};
use crate::ty::{ConstVal, bool_text, const_text, const_ty, ty_text};
use crate::lex::{
    add_token, fold_lines, fold_tokens, is_ws, lead_ws, strip_commas, strip_cr, strip_comment,
    text_lines, tokens, trail_commas, trail_ws, trim, first_index_of, lemma_first_index_of_unique,
};

verus! {

/// Words joined by single spaces.
pub open spec fn spaced(ws: Seq<Seq<char>>) -> Seq<char>
    decreases ws.len(),
{
    if ws.len() == 0 {
        Seq::empty()
    } else if ws.len() == 1 {
        ws[0]
    } else {
        spaced(ws.drop_last()) + seq![' '] + ws.last()
    }
}

/// No whitespace in `w`.
pub open spec fn no_ws(w: Seq<char>) -> bool {
    forall|k: int| 0 <= k < w.len() ==> !is_ws(#[trigger] w[k])
}

/// A word that tokenizes to itself minus trailing commas: not empty, no
/// whitespace, not all commas.
pub open spec fn good_word(w: Seq<char>) -> bool {
    w.len() > 0 && no_ws(w) && strip_commas(w).len() > 0
}

pub open spec fn good_words(ws: Seq<Seq<char>>) -> bool {
    forall|k: int| 0 <= k < ws.len() ==> good_word(#[trigger] ws[k])
}

pub open spec fn stripped(ws: Seq<Seq<char>>) -> Seq<Seq<char>> {
    ws.map_values(|w: Seq<char>| strip_commas(w))
}

proof fn lemma_fold_tokens_word(s: Seq<char>, w: Seq<char>)
    requires
        no_ws(w),
    ensures
        fold_tokens(s + w) == (fold_tokens(s).0, fold_tokens(s).1 + w),
    decreases w.len(),
{
    if w.len() == 0 {
        assert(s + w =~= s);
        assert(fold_tokens(s).1 + w =~= fold_tokens(s).1);
    } else {
        let w0 = w.drop_last();
        assert(no_ws(w0)) by {
            assert forall|k: int| 0 <= k < w0.len() implies !is_ws(#[trigger] w0[k]) by {
                assert(w0[k] == w[k]);
            }
        }
        lemma_fold_tokens_word(s, w0);
        assert((s + w).drop_last() =~= s + w0);
        assert((s + w).last() == w.last());
        assert(!is_ws(w[w.len() - 1]));
        assert(fold_tokens(s).1 + w0 + seq![w.last()] =~= fold_tokens(s).1 + w);
    }
}

/// Tokenizing words joined by single spaces gives the words (without
/// trailing commas).
pub proof fn lemma_tokens_spaced(ws: Seq<Seq<char>>)
    requires
        ws.len() > 0,
        good_words(ws),
    ensures
        fold_tokens(spaced(ws)) == (stripped(ws.drop_last()), ws.last()),
        tokens(spaced(ws)) == stripped(ws),
    decreases ws.len(),
{
    if ws.len() == 1 {
        assert(good_word(ws[0]));
        lemma_fold_tokens_word(Seq::empty(), ws[0]);
        assert(Seq::<char>::empty() + ws[0] =~= ws[0]);
        assert(stripped(ws.drop_last()) =~= Seq::<Seq<char>>::empty());
        assert(stripped(ws) =~= seq![strip_commas(ws[0])]);
    } else {
        let init = ws.drop_last();
        assert(good_words(init)) by {
            assert forall|k: int| 0 <= k < init.len() implies good_word(#[trigger] init[k]) by {
                assert(init[k] == ws[k]);
            }
        }
        lemma_tokens_spaced(init);
        let s = spaced(init) + seq![' '];
        assert(s.drop_last() =~= spaced(init));
        assert(s.last() == ' ');
        assert(good_word(ws[ws.len() - 1]));
        assert(good_word(init[init.len() - 1]));
        lemma_fold_tokens_word(s, ws.last());
        assert(spaced(ws) =~= s + ws.last());
        assert(Seq::<char>::empty() + ws.last() =~= ws.last());
        assert(stripped(ws.drop_last()) =~= stripped(init.drop_last()).push(strip_commas(init.last())));
        assert(stripped(ws) =~= stripped(ws.drop_last()).push(strip_commas(ws.last())));
    }
}

/// A line with leading indent, no comment and no trailing whitespace
/// reads as its text.
pub proof fn lemma_trim_line(pad: nat, t: Seq<char>)
    requires
        t.len() > 0,
        !is_ws(t[0]),
        !is_ws(t.last()),
        !t.contains(';'),
    ensures
        trim(strip_comment(Seq::new(pad, |k: int| ' ') + t)) == t,
    decreases pad,
{
    let s = Seq::new(pad, |k: int| ' ') + t;
    assert forall|k: int| 0 <= k < s.len() implies s[k] != ';' by {
        if k >= pad {
            assert(s[k] == t[k - pad]);
        }
    }
    lemma_first_index_of_unique(s, ';', s.len() as int);
    assert(s.take(s.len() as int) =~= s);
    lemma_lead_pad(pad, t);
    let u = s.skip(pad as int);
    assert(u =~= t);
    assert(trail_ws(t) == 0);
    assert(t.take(t.len() as int) =~= t);
}

pub proof fn lemma_lead_pad(pad: nat, t: Seq<char>)
    requires
        t.len() > 0,
        !is_ws(t[0]),
    ensures
        lead_ws(Seq::new(pad, |k: int| ' ') + t) == pad,
    decreases pad,
{
    let s = Seq::new(pad, |k: int| ' ') + t;
    if pad == 0 {
        assert(s =~= t);
    } else {
        assert(s[0] == ' ');
        assert(s.drop_first() =~= Seq::new((pad - 1) as nat, |k: int| ' ') + t);
        lemma_lead_pad((pad - 1) as nat, t);
    }
}

/// Lines, each ended by a newline.
pub open spec fn lines_text(ls: Seq<Seq<char>>) -> Seq<char>
    decreases ls.len(),
{
    if ls.len() == 0 {
        Seq::empty()
    } else {
        lines_text(ls.drop_last()) + ls.last() + seq!['\n']
    }
}

/// A line with no newline that does not end in a carriage return.
pub open spec fn plain_line(l: Seq<char>) -> bool {
    &&& forall|k: int| 0 <= k < l.len() ==> #[trigger] l[k] != '\n'
    &&& (l.len() > 0 ==> l.last() != '\r')
}

proof fn lemma_fold_lines_word(s: Seq<char>, w: Seq<char>)
    requires
        forall|k: int| 0 <= k < w.len() ==> #[trigger] w[k] != '\n',
    ensures
        fold_lines(s + w) == (fold_lines(s).0, fold_lines(s).1 + w),
    decreases w.len(),
{
    if w.len() == 0 {
        assert(s + w =~= s);
        assert(fold_lines(s).1 + w =~= fold_lines(s).1);
    } else {
        let w0 = w.drop_last();
        lemma_fold_lines_word(s, w0);
        assert((s + w).drop_last() =~= s + w0);
        assert((s + w).last() == w.last());
        assert(w[w.len() - 1] != '\n');
        assert(fold_lines(s).1 + w0 + seq![w.last()] =~= fold_lines(s).1 + w);
    }
}

/// Splitting newline-ended plain lines gives the lines back.
pub proof fn lemma_text_lines_of(ls: Seq<Seq<char>>)
    requires
        forall|k: int| 0 <= k < ls.len() ==> plain_line(#[trigger] ls[k]),
    ensures
        fold_lines(lines_text(ls)) == (ls, Seq::<char>::empty()),
        text_lines(lines_text(ls)) == ls,
    decreases ls.len(),
{
    if ls.len() > 0 {
        let init = ls.drop_last();
        assert forall|k: int| 0 <= k < init.len() implies plain_line(#[trigger] init[k]) by {
            assert(init[k] == ls[k]);
        }
        lemma_text_lines_of(init);
        let l = ls.last();
        assert(plain_line(ls[ls.len() - 1]));
        lemma_fold_lines_word(lines_text(init), l);
        let s = lines_text(init) + l + seq!['\n'];
        assert(s.drop_last() =~= lines_text(init) + l);
        assert(Seq::<char>::empty() + l =~= l);
        assert(strip_cr(l) == l);
        assert(init.push(l) =~= ls);
    } else {
        assert(ls =~= Seq::<Seq<char>>::empty());
    }
}

/// Words joined by a space, twice: the joins of the two halves.
pub proof fn lemma_spaced_concat(a: Seq<Seq<char>>, b: Seq<Seq<char>>)
    requires
        a.len() > 0,
        b.len() > 0,
    ensures
        spaced(a + b) == spaced(a) + seq![' '] + spaced(b),
    decreases b.len(),
{
    if b.len() == 1 {
        assert((a + b).drop_last() =~= a);
        assert((a + b).last() == b[0]);
    } else {
        lemma_spaced_concat(a, b.drop_last());
        assert((a + b).drop_last() =~= a + b.drop_last());
        assert((a + b).last() == b.last());
    }
}

/// A region name the text format can carry: an identifier with no
/// whitespace, and none of `;` `,` `:`.
pub open spec fn name_ok(n: Seq<char>) -> bool {
    &&& ident(n)
    &&& no_ws(n)
    &&& !n.contains(';')
    &&& !n.contains(',')
    &&& !n.contains(':')
}

pub open spec fn cid(id: CellId) -> Seq<char> {
    cell_id_text(id)
}

/// The words of a cell's printed kind.
pub open spec fn join_words(f: Fabric, joins: Seq<RegionId>, ops: Seq<CellId>, n: nat) -> Seq<Seq<char>>
    decreases n,
{
    if n == 0 {
        Seq::empty()
    } else {
        join_words(f, joins, ops, (n - 1) as nat) + seq![
            seq!['['] + region_text(f, joins[n - 1]) + seq![':'],
            cid(ops[n - 1]) + seq![']'],
        ]
    }
}

pub open spec fn kind_words(f: Fabric, c: CellV) -> Seq<Seq<char>> {
    let ops = c.operands;
    match c.kind {
        KindV::Param { ty } => seq!["param"@, ty_text(ty)],
        KindV::Const { ty, val } => seq!["const"@, ty_text(ty), const_text(val)],
        KindV::Arith { op, ty } => seq![arith_text(op), ty_text(ty), cid(ops[0]) + seq![','], cid(ops[1])],
        KindV::Cmp { op } => seq![cmp_text(op), cid(ops[0]) + seq![','], cid(ops[1])],
        KindV::Branch { then_r, else_r } => seq![
            "br"@,
            cid(ops[0]) + seq![','],
            region_text(f, then_r) + seq![','],
            region_text(f, else_r),
        ],
        KindV::Jump { target } => seq!["jump"@, region_text(f, target)],
        KindV::Phi { joins } => seq!["phi"@] + join_words(f, joins, ops, joins.len()),
        KindV::Ret => if ops.len() == 0 {
            seq!["ret"@]
        } else {
            seq!["ret"@, cid(ops[0])]
        },
    }
}

/// A listed cell the format prints faithfully: operand counts fit the
/// kind, constants match their type and are not floats, and region
/// references exist.
pub open spec fn cell_printable(f: Fabric, c: CellV) -> bool {
    let n = f.regions@.len();
    let ops = c.operands;
    match c.kind {
        KindV::Param { .. } => ops.len() == 0,
        KindV::Const { ty, val } => ops.len() == 0 && const_ty(val) == ty && !(val is F64),
        KindV::Arith { .. } => ops.len() == 2,
        KindV::Cmp { .. } => ops.len() == 2,
        KindV::Branch { then_r, else_r } => ops.len() == 1 && (then_r.0 as int) < n && (else_r.0 as int) < n,
        KindV::Jump { target } => ops.len() == 0 && (target.0 as int) < n,
        KindV::Phi { joins } => ops.len() == joins.len() && joins.len() > 0 && forall|k: int|
            0 <= k < joins.len() ==> ((#[trigger] joins[k]).0 as int) < n,
        KindV::Ret => ops.len() <= 1,
    }
}

pub open spec fn names_distinct(ns: Seq<Seq<char>>) -> bool {
    forall|i: int, j: int| 0 <= i < j < ns.len() ==> #[trigger] ns[i] != #[trigger] ns[j]
}

/// A fabric whose canonical print reads back: well formed, region names
/// the format can carry and distinct, and every listed cell printable.
pub open spec fn printable(f: Fabric) -> bool {
    &&& content_wf(f)
    &&& names_distinct(region_names(f))
    &&& forall|r: int| 0 <= r < f.regions@.len() ==> name_ok(#[trigger] f.regions@[r].name@)
    &&& forall|r: int, k: int| 0 <= r < f.regions@.len() && 0 <= k < f.regions@[r].cells@.len() ==> cell_printable(
        f,
        cell_at(f, (#[trigger] f.regions@[r].cells@[k]).0 as int)->0,
    )
}

pub proof fn lemma_dec_good(n: nat)
    ensures
        good_word(dec(n)),
        !dec(n).contains(','),
        !dec(n).contains(';'),
        dec(n).last() != ',',
        dec(n)[0] != '-',
{
    lemma_dec_digits(n);
    assert forall|k: int| 0 <= k < dec(n).len() implies !is_ws(#[trigger] dec(n)[k]) && dec(n)[k] != ','
        && dec(n)[k] != ';' && dec(n)[k] != '-' by {
        assert(is_digit(dec(n)[k]));
    }
    assert(dec(n)[dec(n).len() - 1] != ',');
    assert(strip_commas(dec(n)) == dec(n)) by {
        assert(trail_commas(dec(n)) == 0);
        assert(dec(n).take(dec(n).len() as int) =~= dec(n));
    }
}

/// `w` then `c` (not a comma): a good word without commas at the end.
pub proof fn lemma_good_suffix(w: Seq<char>, c: char)
    requires
        no_ws(w),
        !is_ws(c),
        c != ',',
    ensures
        good_word(w + seq![c]),
        strip_commas(w + seq![c]) == w + seq![c],
{
    let x = w + seq![c];
    assert(no_ws(x)) by {
        assert forall|k: int| 0 <= k < x.len() implies !is_ws(#[trigger] x[k]) by {
            if k < w.len() {
                assert(x[k] == w[k]);
            }
        }
    }
    assert(x.last() == c);
    assert(trail_commas(x) == 0);
    assert(x.take(x.len() as int) =~= x);
}

/// `w` then a comma, where `w` is good and comma-free at its end.
pub proof fn lemma_comma_word(w: Seq<char>)
    requires
        good_word(w),
        w.last() != ',',
    ensures
        good_word(w + seq![',']),
        strip_commas(w + seq![',']) == w,
{
    let x = w + seq![','];
    assert(no_ws(x)) by {
        assert forall|k: int| 0 <= k < x.len() implies !is_ws(#[trigger] x[k]) by {
            if k < w.len() {
                assert(x[k] == w[k]);
            }
        }
    }
    assert(x.drop_last() =~= w);
    assert(trail_commas(w) == 0);
    assert(trail_commas(x) == 1);
    assert(x.take(x.len() - 1) =~= w);
}

pub proof fn lemma_plain_word(w: Seq<char>)
    requires
        w.len() > 0,
        no_ws(w),
        !w.contains(','),
    ensures
        good_word(w),
        strip_commas(w) == w,
{
    assert(w[w.len() - 1] != ',');
    assert(trail_commas(w) == 0);
    assert(w.take(w.len() as int) =~= w);
}

pub proof fn lemma_cid_good(id: CellId)
    ensures
        cid(id).len() > 0,
        no_ws(cid(id)),
        !cid(id).contains(','),
        !cid(id).contains(';'),
        good_word(cid(id)),
        strip_commas(cid(id)) == cid(id),
        cid(id)[0] == '%',
{
    lemma_dec_good(id.0 as nat);
    let x = cid(id);
    let d = dec(id.0 as nat);
    assert forall|k: int| 0 <= k < x.len() implies !is_ws(#[trigger] x[k]) && x[k] != ',' && x[k] != ';' by {
        if k > 0 {
            assert(x[k] == d[k - 1]);
            assert(is_digit(d[k - 1])) by {
                lemma_dec_digits(id.0 as nat);
            }
        }
    }
    lemma_plain_word(x);
}

pub proof fn lemma_no_ws_concat(a: Seq<char>, b: Seq<char>)
    requires
        no_ws(a),
        no_ws(b),
    ensures
        no_ws(a + b),
{
    assert forall|k: int| 0 <= k < (a + b).len() implies !is_ws(#[trigger] (a + b)[k]) by {
        if k < a.len() {
            assert((a + b)[k] == a[k]);
        } else {
            assert((a + b)[k] == b[k - a.len()]);
        }
    }
}

proof fn lemma_no_comma_concat(a: Seq<char>, b: Seq<char>)
    requires
        !a.contains(','),
        !b.contains(','),
    ensures
        !(a + b).contains(','),
{
    assert forall|k: int| 0 <= k < (a + b).len() implies (a + b)[k] != ',' by {
        if k < a.len() {
            assert((a + b)[k] == a[k]);
        } else {
            assert((a + b)[k] == b[k - a.len()]);
        }
    }
}

/// A literal word: short, no whitespace, no commas.
pub proof fn lemma_lit_word(w: Seq<char>)
    requires
        w.len() > 0,
        forall|k: int| 0 <= k < w.len() ==> {
            let c = #[trigger] w[k];
            ('a' <= c && c <= 'z') || ('0' <= c && c <= '9') || c == '.' || c == '='
        },
    ensures
        good_word(w),
        strip_commas(w) == w,
        no_ws(w),
        !w.contains(','),
        !w.contains(';'),
{
    assert(no_ws(w)) by {
        assert forall|k: int| 0 <= k < w.len() implies !is_ws(#[trigger] w[k]) by {
            let c = w[k];
            assert(('a' <= c && c <= 'z') || ('0' <= c && c <= '9') || c == '.' || c == '=');
        }
    }
    assert forall|k: int| 0 <= k < w.len() implies w[k] != ',' && w[k] != ';' by {
        let c = w[k];
        assert(('a' <= c && c <= 'z') || ('0' <= c && c <= '9') || c == '.' || c == '=');
    }
    lemma_plain_word(w);
}

proof fn lemma_dec_signed_good(x: int)
    ensures
        no_ws(dec_signed(x)),
        !dec_signed(x).contains(','),
        !dec_signed(x).contains(';'),
        dec_signed(x).len() > 0,
{
    if x < 0 {
        lemma_dec_good((-x) as nat);
        lemma_dec_digits((-x) as nat);
        let d = dec((-x) as nat);
        let t = seq!['-'].add(d);
        assert forall|k: int| 0 <= k < t.len() implies !is_ws(#[trigger] t[k]) && t[k] != ',' && t[k] != ';' by {
            if k > 0 {
                assert(t[k] == d[k - 1]);
                assert(is_digit(d[k - 1]));
            }
        }
    } else {
        lemma_dec_good(x as nat);
        lemma_dec_digits(x as nat);
        let d = dec(x as nat);
        assert forall|k: int| 0 <= k < d.len() implies d[k] != ';' by {
            assert(is_digit(d[k]));
        }
    }
}

pub proof fn lemma_const_text_good(val: ConstVal)
    requires
        !(val is F64),
    ensures
        const_text(val).len() > 0,
        no_ws(const_text(val)),
        !const_text(val).contains(','),
        !const_text(val).contains(';'),
{
    match val {
        ConstVal::I1(b) => {
            lemma_lit_word(bool_text(b));
        },
        ConstVal::I32(x) => {
            lemma_dec_signed_good(x as int);
        },
        ConstVal::I64(x) => {
            lemma_dec_signed_good(x as int);
            lemma_lit_word(ty_text(crate::ty::Type::I64));
            lemma_no_ws_concat(dec_signed(x as int), ty_text(crate::ty::Type::I64));
            lemma_no_comma_concat(dec_signed(x as int), ty_text(crate::ty::Type::I64));
            let a = dec_signed(x as int);
            let b = ty_text(crate::ty::Type::I64);
            assert forall|k: int| 0 <= k < (a + b).len() implies (a + b)[k] != ';' by {
                if k < a.len() {
                    assert((a + b)[k] == a[k]);
                } else {
                    assert((a + b)[k] == b[k - a.len()]);
                }
            }
        },
        ConstVal::F64(_) => {},
    }
}

pub proof fn lemma_ty_good(t: crate::ty::Type)
    ensures
        good_word(ty_text(t)),
        strip_commas(ty_text(t)) == ty_text(t),
        no_ws(ty_text(t)),
        !ty_text(t).contains(','),
        !ty_text(t).contains(';'),
{
    lemma_lit_word(ty_text(t));
}

pub proof fn lemma_name_word(f: Fabric, r: RegionId)
    requires
        (r.0 as int) < f.regions@.len(),
        name_ok(f.regions@[r.0 as int].name@),
    ensures
        good_word(region_text(f, r)),
        strip_commas(region_text(f, r)) == region_text(f, r),
        no_ws(region_text(f, r)),
        region_text(f, r).last() != ',',
        good_word(region_text(f, r) + seq![',']),
        strip_commas(region_text(f, r) + seq![',']) == region_text(f, r),
{
    let n = region_text(f, r);
    lemma_plain_word(n);
    assert(n[n.len() - 1] != ',');
    lemma_comma_word(n);
}

#[verifier::spinoff_prover]
#[verifier::rlimit(100)]
pub proof fn lemma_join_words(f: Fabric, joins: Seq<RegionId>, ops: Seq<CellId>, n: nat)
    requires
        1 <= n <= joins.len(),
        n <= ops.len(),
        forall|k: int| 0 <= k < joins.len() ==> ((#[trigger] joins[k]).0 as int) < f.regions@.len(),
        forall|r: int| 0 <= r < f.regions@.len() ==> name_ok(#[trigger] f.regions@[r].name@),
    ensures
        joins_text(f, joins, ops, n) == spaced(join_words(f, joins, ops, n)),
        good_words(join_words(f, joins, ops, n)),
        stripped(join_words(f, joins, ops, n)) == join_words(f, joins, ops, n),
        join_words(f, joins, ops, n).len() == 2 * n,
    decreases n,
{
    let k = n - 1;
    let r = joins[k];
    assert(((joins[k as int]).0 as int) < f.regions@.len());
    let nm = region_text(f, r);
    assert(name_ok(f.regions@[r.0 as int].name@));
    lemma_name_word(f, r);
    let w0 = seq!['['] + nm + seq![':'];
    let w1 = cid(ops[k]) + seq![']'];
    assert(no_ws(seq!['['] + nm)) by {
        assert(no_ws(seq!['[']));
        lemma_no_ws_concat(seq!['['], nm);
    }
    lemma_good_suffix(seq!['['] + nm, ':');
    lemma_cid_good(ops[k]);
    lemma_good_suffix(cid(ops[k]), ']');
    let pair = seq![w0, w1];
    assert(pair.drop_last() =~= seq![w0]);
    assert(spaced(seq![w0]) == w0);
    assert(spaced(pair) == w0 + seq![' '] + w1);
    assert(spaced(pair) =~= join_text(f, joins, ops, k as int));
    let jw = join_words(f, joins, ops, n);
    if n == 1 {
        assert(join_words(f, joins, ops, 0) =~= Seq::<Seq<char>>::empty());
        assert(jw =~= pair);
    } else {
        lemma_join_words(f, joins, ops, (n - 1) as nat);
        let prev = join_words(f, joins, ops, (n - 1) as nat);
        assert(jw =~= prev + pair);
        lemma_spaced_concat(prev, pair);
    }
    assert(good_words(jw)) by {
        assert forall|q: int| 0 <= q < jw.len() implies good_word(#[trigger] jw[q]) by {
            if q < jw.len() - 2 {
                assert(jw[q] == join_words(f, joins, ops, (n - 1) as nat)[q]);
            }
        }
    }
    assert(stripped(jw) =~= jw) by {
        assert forall|q: int| 0 <= q < jw.len() implies #[trigger] stripped(jw)[q] == jw[q] by {
            if q < jw.len() - 2 {
                assert(jw[q] == join_words(f, joins, ops, (n - 1) as nat)[q]);
                assert(stripped(join_words(f, joins, ops, (n - 1) as nat))[q] == join_words(
                    f,
                    joins,
                    ops,
                    (n - 1) as nat,
                )[q]);
            }
        }
    }
}

pub proof fn lemma_spaced2(a: Seq<char>, b: Seq<char>)
    ensures
        spaced(seq![a, b]) == a + seq![' '] + b,
{
    assert(seq![a, b].drop_last() =~= seq![a]);
    assert(spaced(seq![a]) == a);
}

proof fn lemma_spaced3(a: Seq<char>, b: Seq<char>, c: Seq<char>)
    ensures
        spaced(seq![a, b, c]) == a + seq![' '] + b + seq![' '] + c,
{
    assert(seq![a, b, c].drop_last() =~= seq![a, b]);
    lemma_spaced2(a, b);
}

proof fn lemma_spaced4(a: Seq<char>, b: Seq<char>, c: Seq<char>, d: Seq<char>)
    ensures
        spaced(seq![a, b, c, d]) == a + seq![' '] + b + seq![' '] + c + seq![' '] + d,
{
    assert(seq![a, b, c, d].drop_last() =~= seq![a, b, c]);
    lemma_spaced3(a, b, c);
}

#[verifier::spinoff_prover]
#[verifier::rlimit(100)]
pub proof fn lemma_compare_words(f: Fabric, c: CellV)
    requires
        c.kind is Cmp,
        c.operands.len() == 2,
    ensures
        kind_text(f, c) == spaced(kind_words(f, c)),
        good_words(kind_words(f, c)),
        kind_words(f, c).len() > 0,
{
    let ops = c.operands;
    let op = c.kind->Cmp_op;
    lemma_lit_word(cmp_text(op));
    lemma_cid_good(ops[0]);
    lemma_cid_good(ops[1]);
    lemma_comma_word(cid(ops[0]));
    lemma_spaced3(cmp_text(op), cid(ops[0]) + seq![','], cid(ops[1]));
    assert(kind_text(f, c) =~= spaced(kind_words(f, c)));
}

/// The common conclusion of the per-kind lemmas.
pub open spec fn words_ok(f: Fabric, c: CellV) -> bool {
    &&& kind_text(f, c) == spaced(kind_words(f, c))
    &&& good_words(kind_words(f, c))
    &&& kind_words(f, c).len() > 0
}

pub open spec fn names_ok(f: Fabric) -> bool {
    forall|r: int| 0 <= r < f.regions@.len() ==> name_ok(#[trigger] f.regions@[r].name@)
}

#[verifier::spinoff_prover]
#[verifier::rlimit(100)]
pub proof fn lemma_param_words(f: Fabric, c: CellV)
    requires
        c.kind is Param,
    ensures
        words_ok(f, c),
{
    reveal_strlit("param");
    reveal_strlit("param ");
    assert("param"@ =~= seq!['p', 'a', 'r', 'a', 'm']);
    assert("param "@ =~= seq!['p', 'a', 'r', 'a', 'm', ' ']);
    let ty = c.kind->Param_ty;
    lemma_lit_word("param"@);
    lemma_ty_good(ty);
    lemma_spaced2("param"@, ty_text(ty));
    assert(kind_text(f, c) =~= spaced(kind_words(f, c)));
}

#[verifier::spinoff_prover]
#[verifier::rlimit(100)]
pub proof fn lemma_const_words(f: Fabric, c: CellV)
    requires
        c.kind matches KindV::Const { val, .. } && !(val is F64),
    ensures
        words_ok(f, c),
{
    reveal_strlit("const");
    reveal_strlit("const ");
    assert("const"@ =~= seq!['c', 'o', 'n', 's', 't']);
    assert("const "@ =~= seq!['c', 'o', 'n', 's', 't', ' ']);
    let ty = c.kind->Const_ty;
    let val = c.kind->Const_val;
    lemma_lit_word("const"@);
    lemma_ty_good(ty);
    lemma_const_text_good(val);
    lemma_plain_word(const_text(val));
    lemma_spaced3("const"@, ty_text(ty), const_text(val));
    assert(kind_text(f, c) =~= spaced(kind_words(f, c)));
}

#[verifier::spinoff_prover]
#[verifier::rlimit(100)]
pub proof fn lemma_arith_words(f: Fabric, c: CellV)
    requires
        c.kind is Arith,
        c.operands.len() == 2,
    ensures
        words_ok(f, c),
{
    let ops = c.operands;
    let op = c.kind->Arith_op;
    let ty = c.kind->Arith_ty;
    let a = arith_text(op);
    let t = ty_text(ty);
    let x = cid(ops[0]);
    let y = cid(ops[1]);
    assert(kind_words(f, c) == seq![a, t, x + seq![','], y]);
    assert(kind_text(f, c) == a + seq![' '] + t + seq![' '] + operand_text(ops, 0) + seq![',', ' '] + operand_text(ops, 1));
    assert(operand_text(ops, 0) == x);
    assert(operand_text(ops, 1) == y);
    lemma_lit_word(a);
    lemma_ty_good(ty);
    lemma_cid_good(ops[0]);
    lemma_cid_good(ops[1]);
    lemma_comma_word(x);
    lemma_spaced4(a, t, x + seq![','], y);
    assert(kind_text(f, c) =~= spaced(kind_words(f, c)));
    let ws = seq![a, t, x + seq![','], y];
    assert(good_words(ws)) by {
        assert forall|k: int| 0 <= k < 4 implies good_word(#[trigger] ws[k]) by {
            if k == 0 {
                assert(ws[k] == a);
            } else if k == 1 {
                assert(ws[k] == t);
            } else if k == 2 {
                assert(ws[k] == x + seq![',']);
            } else {
                assert(ws[k] == y);
            }
        }
    }
}

#[verifier::spinoff_prover]
#[verifier::rlimit(100)]
pub proof fn lemma_branch_words(f: Fabric, c: CellV)
    requires
        cell_printable(f, c),
        c.kind is Branch,
        names_ok(f),
    ensures
        words_ok(f, c),
{
    reveal_strlit("br");
    reveal_strlit("br ");
    assert("br"@ =~= seq!['b', 'r']);
    assert("br "@ =~= seq!['b', 'r', ' ']);
    let ops = c.operands;
    let then_r = c.kind->then_r;
    let else_r = c.kind->else_r;
    lemma_lit_word("br"@);
    lemma_cid_good(ops[0]);
    lemma_comma_word(cid(ops[0]));
    assert(name_ok(f.regions@[then_r.0 as int].name@));
    assert(name_ok(f.regions@[else_r.0 as int].name@));
    lemma_name_word(f, then_r);
    lemma_name_word(f, else_r);
    lemma_spaced4("br"@, cid(ops[0]) + seq![','], region_text(f, then_r) + seq![','], region_text(f, else_r));
    assert(kind_text(f, c) =~= spaced(kind_words(f, c)));
}

#[verifier::spinoff_prover]
#[verifier::rlimit(100)]
pub proof fn lemma_jump_words(f: Fabric, c: CellV)
    requires
        cell_printable(f, c),
        c.kind is Jump,
        names_ok(f),
    ensures
        words_ok(f, c),
{
    reveal_strlit("jump");
    reveal_strlit("jump ");
    assert("jump"@ =~= seq!['j', 'u', 'm', 'p']);
    assert("jump "@ =~= seq!['j', 'u', 'm', 'p', ' ']);
    let target = c.kind->target;
    lemma_lit_word("jump"@);
    assert(name_ok(f.regions@[target.0 as int].name@));
    lemma_name_word(f, target);
    lemma_spaced2("jump"@, region_text(f, target));
    assert(kind_text(f, c) =~= spaced(kind_words(f, c)));
}

#[verifier::spinoff_prover]
#[verifier::rlimit(100)]
pub proof fn lemma_phi_words(f: Fabric, c: CellV)
    requires
        cell_printable(f, c),
        c.kind is Phi,
        names_ok(f),
    ensures
        words_ok(f, c),
{
    reveal_strlit("phi");
    reveal_strlit("phi ");
    assert("phi"@ =~= seq!['p', 'h', 'i']);
    assert("phi "@ =~= seq!['p', 'h', 'i', ' ']);
    let ops = c.operands;
    let joins = c.kind->joins;
    let ws = kind_words(f, c);
    lemma_lit_word("phi"@);
    let n = joins.len();
    lemma_join_words(f, joins, ops, n);
    let jw = join_words(f, joins, ops, n);
    assert(min_len(n, ops.len()) == n);
    lemma_spaced_concat(seq!["phi"@], jw);
    assert(spaced(seq!["phi"@]) == "phi"@);
    assert(ws =~= seq!["phi"@] + jw);
    assert(kind_text(f, c) =~= spaced(ws));
    assert(good_words(ws)) by {
        assert forall|q: int| 0 <= q < ws.len() implies good_word(#[trigger] ws[q]) by {
            if q > 0 {
                assert(ws[q] == jw[q - 1]);
            }
        }
    }
}

#[verifier::spinoff_prover]
#[verifier::rlimit(100)]
pub proof fn lemma_ret_words(f: Fabric, c: CellV)
    requires
        c.kind is Ret,
    ensures
        words_ok(f, c),
{
    reveal_strlit("ret");
    reveal_strlit("ret ");
    assert("ret"@ =~= seq!['r', 'e', 't']);
    assert("ret "@ =~= seq!['r', 'e', 't', ' ']);
    let ops = c.operands;
    let ws = kind_words(f, c);
    lemma_lit_word("ret"@);
    if ops.len() == 0 {
        assert(spaced(ws) == "ret"@);
    } else {
        lemma_cid_good(ops[0]);
        lemma_spaced2("ret"@, cid(ops[0]));
    }
    assert(kind_text(f, c) =~= spaced(ws));
}

/// The printed kind is its words joined by spaces, and they are good
/// words.
pub proof fn lemma_kind_words(f: Fabric, c: CellV)
    requires
        cell_printable(f, c),
        names_ok(f),
    ensures
        words_ok(f, c),
{
    match c.kind {
        KindV::Param { .. } => lemma_param_words(f, c),
        KindV::Const { .. } => lemma_const_words(f, c),
        KindV::Arith { .. } => lemma_arith_words(f, c),
        KindV::Cmp { .. } => lemma_compare_words(f, c),
        KindV::Branch { .. } => lemma_branch_words(f, c),
        KindV::Jump { .. } => lemma_jump_words(f, c),
        KindV::Phi { .. } => lemma_phi_words(f, c),
        KindV::Ret => lemma_ret_words(f, c),
    }
}

/// Trimming a padded word with non-blank ends gives the word.
pub proof fn lemma_trim_pad(pad: nat, t: Seq<char>)
    requires
        t.len() > 0,
        !is_ws(t[0]),
        !is_ws(t.last()),
    ensures
        trim(Seq::new(pad, |k: int| ' ') + t) == t,
{
    lemma_lead_pad(pad, t);
    let s = Seq::new(pad, |k: int| ' ') + t;
    assert(s.skip(pad as int) =~= t);
    assert(trail_ws(t) == 0);
    assert(t.take(t.len() as int) =~= t);
}

pub open spec fn semi_free(ws: Seq<Seq<char>>) -> bool {
    forall|k: int| 0 <= k < ws.len() ==> !(#[trigger] ws[k]).contains(';')
}

proof fn lemma_no_semi_concat(a: Seq<char>, b: Seq<char>)
    requires
        !a.contains(';'),
        !b.contains(';'),
    ensures
        !(a + b).contains(';'),
{
    assert forall|k: int| 0 <= k < (a + b).len() implies (a + b)[k] != ';' by {
        if k < a.len() {
            assert((a + b)[k] == a[k]);
        } else {
            assert((a + b)[k] == b[k - a.len()]);
        }
    }
}

proof fn lemma_join_words_semi(f: Fabric, joins: Seq<RegionId>, ops: Seq<CellId>, n: nat)
    requires
        n <= joins.len(),
        n <= ops.len(),
        forall|k: int| 0 <= k < joins.len() ==> ((#[trigger] joins[k]).0 as int) < f.regions@.len(),
        names_ok(f),
    ensures
        semi_free(join_words(f, joins, ops, n)),
    decreases n,
{
    if n > 0 {
        lemma_join_words_semi(f, joins, ops, (n - 1) as nat);
        let k = n - 1;
        assert(((joins[k as int]).0 as int) < f.regions@.len());
        assert(name_ok(f.regions@[joins[k as int].0 as int].name@));
        let nm = region_text(f, joins[k]);
        lemma_no_semi_concat(seq!['['], nm);
        lemma_no_semi_concat(seq!['['] + nm, seq![':']);
        lemma_cid_good(ops[k]);
        lemma_no_semi_concat(cid(ops[k]), seq![']']);
        let jw = join_words(f, joins, ops, n);
        let prev = join_words(f, joins, ops, (n - 1) as nat);
        assert forall|q: int| 0 <= q < jw.len() implies !(#[trigger] jw[q]).contains(';') by {
            if q < prev.len() {
                assert(jw[q] == prev[q]);
            }
        }
    }
}

/// No printed word holds a `;` (which would start a comment).
#[verifier::spinoff_prover]
#[verifier::rlimit(100)]
pub proof fn lemma_kind_words_semi(f: Fabric, c: CellV)
    requires
        cell_printable(f, c),
        names_ok(f),
    ensures
        semi_free(kind_words(f, c)),
{
    let ops = c.operands;
    let ws = kind_words(f, c);
    match c.kind {
        KindV::Param { ty } => {
            reveal_strlit("param");
            lemma_lit_word("param"@);
            lemma_ty_good(ty);
        },
        KindV::Const { ty, val } => {
            reveal_strlit("const");
            lemma_lit_word("const"@);
            lemma_ty_good(ty);
            lemma_const_text_good(val);
        },
        KindV::Arith { op, ty } => {
            lemma_lit_word(arith_text(op));
            lemma_ty_good(ty);
            lemma_cid_good(ops[0]);
            lemma_cid_good(ops[1]);
            lemma_no_semi_concat(cid(ops[0]), seq![',']);
        },
        KindV::Cmp { .. } => {
            lemma_compare_semi(f, c);
        },
        KindV::Branch { then_r, else_r } => {
            reveal_strlit("br");
            lemma_lit_word("br"@);
            lemma_cid_good(ops[0]);
            lemma_no_semi_concat(cid(ops[0]), seq![',']);
            assert(name_ok(f.regions@[then_r.0 as int].name@));
            assert(name_ok(f.regions@[else_r.0 as int].name@));
            lemma_no_semi_concat(region_text(f, then_r), seq![',']);
        },
        KindV::Jump { target } => {
            reveal_strlit("jump");
            lemma_lit_word("jump"@);
            assert(name_ok(f.regions@[target.0 as int].name@));
        },
        KindV::Phi { joins } => {
            reveal_strlit("phi");
            lemma_lit_word("phi"@);
            lemma_join_words_semi(f, joins, ops, joins.len());
            let jw = join_words(f, joins, ops, joins.len());
            assert forall|q: int| 0 <= q < ws.len() implies !(#[trigger] ws[q]).contains(';') by {
                if q > 0 {
                    assert(ws[q] == jw[q - 1]);
                }
            }
        },
        KindV::Ret => {
            reveal_strlit("ret");
            lemma_lit_word("ret"@);
            if ops.len() > 0 {
                lemma_cid_good(ops[0]);
            }
        },
    }
}

proof fn lemma_compare_semi(f: Fabric, c: CellV)
    requires
        c.kind is Cmp,
        c.operands.len() == 2,
    ensures
        semi_free(kind_words(f, c)),
{
    let ops = c.operands;
    lemma_lit_word(cmp_text(c.kind->Cmp_op));
    lemma_cid_good(ops[0]);
    lemma_cid_good(ops[1]);
    lemma_no_semi_concat(cid(ops[0]), seq![',']);
}

} // verus!
