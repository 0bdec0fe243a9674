//! Each printed cell line parses back to the cell it was printed from.

use vstd::prelude::*;
use crate::cell::{CellV, KindV, arith_text, cmp_text, arith_from_text, cmp_from_text, lemma_arith_name_round_trip};
use crate::dec::{dec, lemma_parse_dec};
use crate::fabric::Fabric;
use crate::id::{CellId, RegionId};
use crate::lex::strip_commas;
use crate::roundtrip::{
    cid, stripped, kind_words, cell_printable, names_ok, names_distinct, name_ok, lemma_lit_word, lemma_ty_good,
    lemma_cid_good, lemma_comma_word, lemma_const_text_good, lemma_plain_word, lemma_name_word,
    lemma_param_words, lemma_const_words, lemma_arith_words, lemma_compare_words, lemma_branch_words,
    lemma_jump_words, lemma_ret_words, lemma_phi_words, lemma_join_words, join_words, lemma_trim_pad,
};
use crate::lex::{is_ws, lemma_first_index_of_unique};
use crate::text::{
    cell_line, phi_line, phi_joins, join_of, param_line, const_line, arith_line, compare_line, branch_line, jump_line, ret_line, region_names, region_text, operand_of, region_of, cell_id_of, lemma_name_pos,
    starts_with, value_cell,
};
use crate::ty::{const_ty, const_text, lemma_ty_text_round_trip, lemma_const_round_trip};

verus! {

pub open spec fn kind_tokens(f: Fabric, c: CellV) -> Seq<Seq<char>> {
    stripped(kind_words(f, c))
}

proof fn lemma_compare_name_round_trip(op: crate::cell::CmpOp)
    ensures
        cmp_from_text(cmp_text(op)) == Some(op),
{
    let t = cmp_text(op);
    assert(cmp_text(crate::cell::CmpOp::Eq)[4] != cmp_text(crate::cell::CmpOp::Ne)[4]);
    assert(cmp_text(crate::cell::CmpOp::Eq)[4] != cmp_text(crate::cell::CmpOp::Lt)[4]);
    assert(cmp_text(crate::cell::CmpOp::Eq)[4] != cmp_text(crate::cell::CmpOp::Le)[4]);
    assert(cmp_text(crate::cell::CmpOp::Eq)[4] != cmp_text(crate::cell::CmpOp::Gt)[4]);
    assert(cmp_text(crate::cell::CmpOp::Eq)[4] != cmp_text(crate::cell::CmpOp::Ge)[4]);
    assert(cmp_text(crate::cell::CmpOp::Ne)[4] != cmp_text(crate::cell::CmpOp::Lt)[4]);
    assert(cmp_text(crate::cell::CmpOp::Ne)[4] != cmp_text(crate::cell::CmpOp::Le)[4]);
    assert(cmp_text(crate::cell::CmpOp::Ne)[4] != cmp_text(crate::cell::CmpOp::Gt)[4]);
    assert(cmp_text(crate::cell::CmpOp::Ne)[4] != cmp_text(crate::cell::CmpOp::Ge)[4]);
    assert(cmp_text(crate::cell::CmpOp::Lt)[5] != cmp_text(crate::cell::CmpOp::Le)[5]);
    assert(cmp_text(crate::cell::CmpOp::Lt)[4] != cmp_text(crate::cell::CmpOp::Gt)[4]);
    assert(cmp_text(crate::cell::CmpOp::Lt)[4] != cmp_text(crate::cell::CmpOp::Ge)[4]);
    assert(cmp_text(crate::cell::CmpOp::Le)[4] != cmp_text(crate::cell::CmpOp::Gt)[4]);
    assert(cmp_text(crate::cell::CmpOp::Le)[4] != cmp_text(crate::cell::CmpOp::Ge)[4]);
    assert(cmp_text(crate::cell::CmpOp::Gt)[5] != cmp_text(crate::cell::CmpOp::Ge)[5]);
}

pub proof fn lemma_operand_back(id: CellId)
    ensures
        operand_of(cid(id)) == Ok::<CellId, Seq<char>>(id),
        cell_id_of(cid(id)) == Some(id),
{
    let t = cid(id);
    assert(t.drop_first() =~= dec(id.0 as nat));
    lemma_parse_dec(id.0 as nat, u32::MAX as nat);
}

proof fn lemma_region_back(f: Fabric, r: RegionId)
    requires
        (r.0 as int) < f.regions@.len(),
        names_distinct(region_names(f)),
    ensures
        region_of(region_names(f), region_text(f, r)) == Ok::<RegionId, Seq<char>>(r),
{
    let names = region_names(f);
    let i = r.0 as int;
    assert(names[i] == region_text(f, r));
    assert forall|k: int| 0 <= k < i implies names[k] != region_text(f, r) by {
        assert(names[k] != names[i]);
    }
    lemma_name_pos(names, region_text(f, r), i);
}

proof fn lemma_stripped_index(ws: Seq<Seq<char>>, k: int)
    requires
        0 <= k < ws.len(),
    ensures
        stripped(ws)[k] == strip_commas(ws[k]),
        stripped(ws).len() == ws.len(),
{
}

proof fn lemma_heads()
    ensures
        "param"@ == seq!['p', 'a', 'r', 'a', 'm'],
        "const"@ == seq!['c', 'o', 'n', 's', 't'],
        "br"@ == seq!['b', 'r'],
        "jump"@ == seq!['j', 'u', 'm', 'p'],
        "phi"@ == seq!['p', 'h', 'i'],
        "ret"@ == seq!['r', 'e', 't'],
        "arith."@ == seq!['a', 'r', 'i', 't', 'h', '.'],
        "cmp."@ == seq!['c', 'm', 'p', '.'],
{
    reveal_strlit("param");
    reveal_strlit("const");
    reveal_strlit("br");
    reveal_strlit("jump");
    reveal_strlit("phi");
    reveal_strlit("ret");
    reveal_strlit("arith.");
    reveal_strlit("cmp.");
    assert("param"@ =~= seq!['p', 'a', 'r', 'a', 'm']);
    assert("const"@ =~= seq!['c', 'o', 'n', 's', 't']);
    assert("br"@ =~= seq!['b', 'r']);
    assert("jump"@ =~= seq!['j', 'u', 'm', 'p']);
    assert("phi"@ =~= seq!['p', 'h', 'i']);
    assert("ret"@ =~= seq!['r', 'e', 't']);
    assert("arith."@ =~= seq!['a', 'r', 'i', 't', 'h', '.']);
    assert("cmp."@ =~= seq!['c', 'm', 'p', '.']);
}

#[verifier::spinoff_prover]
#[verifier::rlimit(100)]
proof fn lemma_param_parses(f: Fabric, c: CellV)
    requires
        c.kind is Param,
        c.operands.len() == 0,
    ensures
        cell_line(region_names(f), c.region, kind_tokens(f, c)) == Ok::<CellV, Seq<char>>(c),
{
    reveal(cell_line);
    reveal(param_line);
    lemma_heads();
    let ty = c.kind->Param_ty;
    let t = kind_tokens(f, c);
    lemma_param_words(f, c);
    lemma_stripped_index(kind_words(f, c), 0);
    lemma_stripped_index(kind_words(f, c), 1);
    lemma_lit_word("param"@);
    lemma_ty_good(ty);
    lemma_ty_text_round_trip(ty);
    assert(t[0] == "param"@);
    assert(param_line(c.region, t) == Ok::<CellV, Seq<char>>(value_cell(c.region, KindV::Param { ty }, Seq::empty())));
    assert(c.operands =~= Seq::<CellId>::empty());
}

#[verifier::spinoff_prover]
#[verifier::rlimit(100)]
proof fn lemma_const_parses(f: Fabric, c: CellV)
    requires
        c.kind matches KindV::Const { ty, val } && const_ty(val) == ty && !(val is F64),
        c.operands.len() == 0,
    ensures
        cell_line(region_names(f), c.region, kind_tokens(f, c)) == Ok::<CellV, Seq<char>>(c),
{
    reveal(cell_line);
    reveal(const_line);
    lemma_heads();
    let ty = c.kind->Const_ty;
    let val = c.kind->Const_val;
    let t = kind_tokens(f, c);
    lemma_const_words(f, c);
    lemma_stripped_index(kind_words(f, c), 0);
    lemma_stripped_index(kind_words(f, c), 1);
    lemma_stripped_index(kind_words(f, c), 2);
    lemma_lit_word("const"@);
    lemma_ty_good(ty);
    lemma_const_text_good(val);
    lemma_plain_word(const_text(val));
    lemma_ty_text_round_trip(ty);
    lemma_const_round_trip(val);
    assert(t[0] == "const"@);
    assert(t[0] != "param"@);
    assert(c.operands =~= Seq::<CellId>::empty());
}

#[verifier::spinoff_prover]
#[verifier::rlimit(100)]
proof fn lemma_arith_parses(f: Fabric, c: CellV)
    requires
        c.kind is Arith,
        c.operands.len() == 2,
    ensures
        cell_line(region_names(f), c.region, kind_tokens(f, c)) == Ok::<CellV, Seq<char>>(c),
{
    reveal(cell_line);
    reveal(arith_line);
    lemma_heads();
    let op = c.kind->Arith_op;
    let ty = c.kind->Arith_ty;
    let ops = c.operands;
    let t = kind_tokens(f, c);
    lemma_arith_words(f, c);
    lemma_stripped_index(kind_words(f, c), 0);
    lemma_stripped_index(kind_words(f, c), 1);
    lemma_stripped_index(kind_words(f, c), 2);
    lemma_stripped_index(kind_words(f, c), 3);
    lemma_lit_word(arith_text(op));
    lemma_ty_good(ty);
    lemma_cid_good(ops[0]);
    lemma_cid_good(ops[1]);
    lemma_comma_word(cid(ops[0]));
    lemma_ty_text_round_trip(ty);
    lemma_arith_name_round_trip(op);
    lemma_operand_back(ops[0]);
    lemma_operand_back(ops[1]);
    assert(t[0] == arith_text(op));
    assert(t[0] != "param"@ && t[0] != "const"@);
    assert(starts_with(t[0], "arith."@)) by {
        assert(t[0].take(6) =~= "arith."@);
    }
    assert(ops =~= seq![ops[0], ops[1]]);
}

#[verifier::spinoff_prover]
#[verifier::rlimit(100)]
proof fn lemma_compare_parses(f: Fabric, c: CellV)
    requires
        c.kind is Cmp,
        c.operands.len() == 2,
    ensures
        cell_line(region_names(f), c.region, kind_tokens(f, c)) == Ok::<CellV, Seq<char>>(c),
{
    reveal(cell_line);
    reveal(compare_line);
    lemma_heads();
    let op = c.kind->Cmp_op;
    let ops = c.operands;
    let t = kind_tokens(f, c);
    lemma_compare_words(f, c);
    lemma_stripped_index(kind_words(f, c), 0);
    lemma_stripped_index(kind_words(f, c), 1);
    lemma_stripped_index(kind_words(f, c), 2);
    lemma_lit_word(cmp_text(op));
    lemma_cid_good(ops[0]);
    lemma_cid_good(ops[1]);
    lemma_comma_word(cid(ops[0]));
    lemma_compare_name_round_trip(op);
    lemma_operand_back(ops[0]);
    lemma_operand_back(ops[1]);
    assert(t[0] == cmp_text(op));
    assert(t[0] != "param"@ && t[0] != "const"@);
    assert(!starts_with(t[0], "arith."@)) by {
        assert(t[0][0] != "arith."@[0]);
        if t[0].len() >= 6 {
            assert(t[0].take(6)[0] == t[0][0]);
        }
    }
    assert(starts_with(t[0], "cmp."@)) by {
        assert(t[0].take(4) =~= "cmp."@);
    }
    assert(ops =~= seq![ops[0], ops[1]]);
}

#[verifier::spinoff_prover]
#[verifier::rlimit(100)]
proof fn lemma_branch_parses(f: Fabric, c: CellV)
    requires
        cell_printable(f, c),
        c.kind is Branch,
        names_ok(f),
        names_distinct(region_names(f)),
    ensures
        cell_line(region_names(f), c.region, kind_tokens(f, c)) == Ok::<CellV, Seq<char>>(c),
{
    reveal(cell_line);
    reveal(branch_line);
    lemma_heads();
    let then_r = c.kind->then_r;
    let else_r = c.kind->else_r;
    let ops = c.operands;
    let t = kind_tokens(f, c);
    lemma_branch_words(f, c);
    lemma_stripped_index(kind_words(f, c), 0);
    lemma_stripped_index(kind_words(f, c), 1);
    lemma_stripped_index(kind_words(f, c), 2);
    lemma_stripped_index(kind_words(f, c), 3);
    lemma_lit_word("br"@);
    lemma_cid_good(ops[0]);
    lemma_comma_word(cid(ops[0]));
    assert(name_ok(f.regions@[then_r.0 as int].name@));
    assert(name_ok(f.regions@[else_r.0 as int].name@));
    lemma_name_word(f, then_r);
    lemma_name_word(f, else_r);
    lemma_operand_back(ops[0]);
    lemma_region_back(f, then_r);
    lemma_region_back(f, else_r);
    assert(t[0] == "br"@);
    assert(t[0] != "param"@ && t[0] != "const"@);
    assert(!starts_with(t[0], "arith."@));
    assert(!starts_with(t[0], "cmp."@));
    assert(ops =~= seq![ops[0]]);
}

#[verifier::spinoff_prover]
#[verifier::rlimit(100)]
proof fn lemma_jump_parses(f: Fabric, c: CellV)
    requires
        cell_printable(f, c),
        c.kind is Jump,
        names_ok(f),
        names_distinct(region_names(f)),
    ensures
        cell_line(region_names(f), c.region, kind_tokens(f, c)) == Ok::<CellV, Seq<char>>(c),
{
    reveal(cell_line);
    reveal(jump_line);
    lemma_heads();
    let target = c.kind->target;
    let t = kind_tokens(f, c);
    lemma_jump_words(f, c);
    lemma_stripped_index(kind_words(f, c), 0);
    lemma_stripped_index(kind_words(f, c), 1);
    lemma_lit_word("jump"@);
    assert(name_ok(f.regions@[target.0 as int].name@));
    lemma_name_word(f, target);
    lemma_region_back(f, target);
    assert(t[0] == "jump"@);
    assert(t[0] != "param"@ && t[0] != "const"@ && t[0] != "br"@);
    assert(!starts_with(t[0], "arith."@));
    assert(!starts_with(t[0], "cmp."@));
    assert(c.operands =~= Seq::<CellId>::empty());
}

#[verifier::spinoff_prover]
#[verifier::rlimit(100)]
proof fn lemma_ret_parses(f: Fabric, c: CellV)
    requires
        c.kind is Ret,
        c.operands.len() <= 1,
    ensures
        cell_line(region_names(f), c.region, kind_tokens(f, c)) == Ok::<CellV, Seq<char>>(c),
{
    reveal(cell_line);
    reveal(ret_line);
    lemma_heads();
    let ops = c.operands;
    let t = kind_tokens(f, c);
    lemma_ret_words(f, c);
    lemma_stripped_index(kind_words(f, c), 0);
    lemma_lit_word("ret"@);
    assert(t[0] == "ret"@);
    assert(t[0] != "param"@ && t[0] != "const"@ && t[0] != "br"@ && t[0] != "jump"@ && t[0] != "phi"@);
    assert(!starts_with(t[0], "arith."@));
    assert(!starts_with(t[0], "cmp."@));
    if ops.len() == 1 {
        lemma_stripped_index(kind_words(f, c), 1);
        lemma_cid_good(ops[0]);
        lemma_operand_back(ops[0]);
        assert(ops =~= seq![ops[0]]);
    } else {
        assert(ops =~= Seq::<CellId>::empty());
    }
}

/// The two words of join `k` sit at `2k` and `2k + 1`.
proof fn lemma_join_words_index(f: Fabric, joins: Seq<RegionId>, ops: Seq<CellId>, n: nat, k: int)
    requires
        0 <= k < n,
    ensures
        join_words(f, joins, ops, n).len() == 2 * n,
        join_words(f, joins, ops, n)[2 * k] == seq!['['] + region_text(f, joins[k]) + seq![':'],
        join_words(f, joins, ops, n)[2 * k + 1] == cid(ops[k]) + seq![']'],
    decreases n,
{
    lemma_join_words_len(f, joins, ops, n);
    if k < n - 1 {
        lemma_join_words_index(f, joins, ops, (n - 1) as nat, k);
        lemma_join_words_len(f, joins, ops, (n - 1) as nat);
    }
}

proof fn lemma_join_words_len(f: Fabric, joins: Seq<RegionId>, ops: Seq<CellId>, n: nat)
    ensures
        join_words(f, joins, ops, n).len() == 2 * n,
    decreases n,
{
    if n > 0 {
        lemma_join_words_len(f, joins, ops, (n - 1) as nat);
    }
}

/// A printed join reads back as its region and value.
#[verifier::spinoff_prover]
#[verifier::rlimit(100)]
proof fn lemma_join_back(f: Fabric, r: RegionId, id: CellId)
    requires
        (r.0 as int) < f.regions@.len(),
        names_distinct(region_names(f)),
        names_ok(f),
    ensures
        join_of(region_names(f), seq!['['] + region_text(f, r) + seq![':'] + seq![' '] + (cid(id) + seq![']']))
            == Ok::<(RegionId, CellId), Seq<char>>((r, id)),
{
    reveal(join_of);
    let nm = region_text(f, r);
    assert(name_ok(f.regions@[r.0 as int].name@));
    lemma_plain_word(nm);
    lemma_cid_good(id);
    let c = cid(id);
    let tok = seq!['['] + nm + seq![':'] + seq![' '] + (c + seq![']']);
    let inner = tok.subrange(1, tok.len() - 1);
    assert(inner =~= nm + seq![':', ' '] + c);
    assert forall|k: int| 0 <= k < nm.len() implies inner[k] != ':' by {
        assert(inner[k] == nm[k]);
    }
    lemma_first_index_of_unique(inner, ':', nm.len() as int);
    assert(inner.take(nm.len() as int) =~= nm);
    assert(inner.skip(nm.len() as int + 1) =~= Seq::new(1, |k: int| ' ') + c);
    assert(!is_ws(nm[0]) && !is_ws(nm[nm.len() - 1]));
    assert(nm =~= Seq::new(0, |k: int| ' ') + nm);
    lemma_trim_pad(0, nm);
    assert(!is_ws(c[0]) && !is_ws(c[c.len() - 1]));
    lemma_trim_pad(1, c);
    lemma_region_back(f, r);
    lemma_operand_back(id);
}

/// The joins from the `k`-th on read back.
#[verifier::spinoff_prover]
#[verifier::rlimit(100)]
proof fn lemma_phi_joins_back(f: Fabric, joins: Seq<RegionId>, ops: Seq<CellId>, n: nat, k: int)
    requires
        0 <= k <= n,
        n <= joins.len(),
        n <= ops.len(),
        forall|q: int| 0 <= q < joins.len() ==> ((#[trigger] joins[q]).0 as int) < f.regions@.len(),
        names_distinct(region_names(f)),
        names_ok(f),
    ensures
        phi_joins(region_names(f), join_words(f, joins, ops, n).skip(2 * k)) == Ok::<
            (Seq<RegionId>, Seq<CellId>),
            Seq<char>,
        >((joins.subrange(k, n as int), ops.subrange(k, n as int))),
    decreases n - k,
{
    reveal(phi_joins);
    let jw = join_words(f, joins, ops, n);
    lemma_join_words_len(f, joins, ops, n);
    let body = jw.skip(2 * k);
    if k == n {
        assert(body =~= Seq::<Seq<char>>::empty());
        assert(joins.subrange(k, n as int) =~= Seq::<RegionId>::empty());
        assert(ops.subrange(k, n as int) =~= Seq::<CellId>::empty());
    } else {
        lemma_join_words_index(f, joins, ops, n, k);
        assert(body[0] == jw[2 * k]);
        assert(body[1] == jw[2 * k + 1]);
        let t0 = body[0];
        assert(t0.last() == ':');
        assert(body.skip(2) =~= jw.skip(2 * (k + 1)));
        assert(((joins[k]).0 as int) < f.regions@.len());
        lemma_join_back(f, joins[k], ops[k]);
        lemma_phi_joins_back(f, joins, ops, n, k + 1);
        assert(joins.subrange(k, n as int) =~= seq![joins[k]] + joins.subrange(k + 1, n as int));
        assert(ops.subrange(k, n as int) =~= seq![ops[k]] + ops.subrange(k + 1, n as int));
    }
}

#[verifier::spinoff_prover]
#[verifier::rlimit(100)]
proof fn lemma_phi_parses(f: Fabric, c: CellV)
    requires
        cell_printable(f, c),
        c.kind is Phi,
        names_ok(f),
        names_distinct(region_names(f)),
    ensures
        cell_line(region_names(f), c.region, kind_tokens(f, c)) == Ok::<CellV, Seq<char>>(c),
{
    reveal(cell_line);
    reveal(phi_line);
    lemma_heads();
    let joins = c.kind->joins;
    let ops = c.operands;
    let n = joins.len();
    let ws = kind_words(f, c);
    let t = kind_tokens(f, c);
    lemma_phi_words(f, c);
    lemma_join_words(f, joins, ops, n);
    let jw = join_words(f, joins, ops, n);
    assert(ws =~= seq!["phi"@] + jw);
    lemma_lit_word("phi"@);
    assert(t =~= seq!["phi"@] + jw) by {
        assert forall|q: int| 0 <= q < t.len() implies t[q] == (seq!["phi"@] + jw)[q] by {
            lemma_stripped_index(ws, q);
            if q > 0 {
                lemma_stripped_index(jw, q - 1);
                assert(ws[q] == jw[q - 1]);
            }
        }
    }
    assert(t[0] == "phi"@);
    assert(t[0] != "param"@ && t[0] != "const"@ && t[0] != "br"@ && t[0] != "jump"@);
    assert(!starts_with(t[0], "arith."@));
    assert(!starts_with(t[0], "cmp."@));
    assert(t.skip(1) =~= jw);
    assert(jw.skip(0) =~= jw);
    lemma_phi_joins_back(f, joins, ops, n, 0);
    assert(joins.subrange(0, n as int) =~= joins);
    assert(ops.subrange(0, n as int) =~= ops);
}

/// Every printable cell's printed kind parses back to the cell.
pub proof fn lemma_kind_parses(f: Fabric, c: CellV)
    requires
        cell_printable(f, c),
        names_ok(f),
        names_distinct(region_names(f)),
    ensures
        cell_line(region_names(f), c.region, kind_tokens(f, c)) == Ok::<CellV, Seq<char>>(c),
{
    match c.kind {
        KindV::Param { .. } => lemma_param_parses(f, c),
        KindV::Const { .. } => lemma_const_parses(f, c),
        KindV::Arith { .. } => lemma_arith_parses(f, c),
        KindV::Cmp { .. } => lemma_compare_parses(f, c),
        KindV::Branch { .. } => lemma_branch_parses(f, c),
        KindV::Jump { .. } => lemma_jump_parses(f, c),
        KindV::Phi { .. } => lemma_phi_parses(f, c),
        KindV::Ret => lemma_ret_parses(f, c),
    }
}

} // verus!
