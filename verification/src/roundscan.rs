//! The lines of a printed fabric, and what the parser's first pass makes
//! of them.

use vstd::prelude::*;
use crate::cell::CellV;
use crate::fabric::{Fabric, cell_at};
use crate::id::{CellId, cell_id_text};
use crate::lex::{is_ws, tokens, concat_all, trim, strip_comment};
use crate::roundtrip::{
    spaced, good_word, good_words, stripped, no_ws, semi_free, kind_words, cell_printable, names_ok, name_ok,
    names_distinct, cid, lines_text, plain_line, lemma_spaced_concat, lemma_spaced2, lemma_kind_words,
    lemma_kind_words_semi, lemma_cid_good, lemma_lit_word, lemma_plain_word, lemma_tokens_spaced,
    lemma_trim_line, lemma_text_lines_of, words_ok,
};
use crate::roundparse::kind_tokens;
use crate::roundtrip::printable;
use crate::text::{
    cell_text, kind_text, cells_text, regions_text, print_text, region_names, Scan, scan, scan_line, ident, HEADER,
};

verus! {

/// The line a region is declared on.
pub open spec fn region_line(f: Fabric, r: int) -> Seq<char> {
    "region "@ + f.regions@[r].name@
}

/// The line of a listed cell: two spaces, then the cell.
pub open spec fn cell_line_text(f: Fabric, id: CellId) -> Seq<char> {
    seq![' ', ' '] + cell_text(f, id)
}

/// The lines of the first `n` cells of a region.
pub open spec fn cell_lines(f: Fabric, cells: Seq<CellId>, n: nat) -> Seq<Seq<char>>
    decreases n,
{
    if n == 0 {
        Seq::empty()
    } else {
        cell_lines(f, cells, (n - 1) as nat).push(cell_line_text(f, cells[n - 1]))
    }
}

/// The lines of the first `n` regions.
pub open spec fn region_lines(f: Fabric, n: nat) -> Seq<Seq<char>>
    decreases n,
{
    if n == 0 {
        Seq::empty()
    } else {
        let r = n - 1;
        region_lines(f, (n - 1) as nat).push(region_line(f, r)) + cell_lines(
            f,
            f.regions@[r].cells@,
            f.regions@[r].cells@.len(),
        )
    }
}

/// All lines of the printed fabric.
pub open spec fn print_lines(f: Fabric) -> Seq<Seq<char>> {
    seq![HEADER@] + region_lines(f, f.regions@.len())
}

proof fn lemma_lines_text_concat(a: Seq<Seq<char>>, b: Seq<Seq<char>>)
    ensures
        lines_text(a + b) == lines_text(a) + lines_text(b),
    decreases b.len(),
{
    if b.len() == 0 {
        assert(a + b =~= a);
        assert(lines_text(a) + lines_text(b) =~= lines_text(a));
    } else {
        lemma_lines_text_concat(a, b.drop_last());
        assert((a + b).drop_last() =~= a + b.drop_last());
        assert((a + b).last() == b.last());
    }
}

proof fn lemma_cells_text(f: Fabric, cells: Seq<CellId>, n: nat)
    ensures
        cells_text(f, cells, n) == lines_text(cell_lines(f, cells, n)),
    decreases n,
{
    if n > 0 {
        lemma_cells_text(f, cells, (n - 1) as nat);
        let ls = cell_lines(f, cells, n);
        assert(ls.drop_last() =~= cell_lines(f, cells, (n - 1) as nat));
    }
}

proof fn lemma_regions_text(f: Fabric, n: nat)
    requires
        n <= f.regions@.len(),
    ensures
        regions_text(f, n) == lines_text(region_lines(f, n)),
    decreases n,
{
    if n > 0 {
        let r = n - 1;
        lemma_regions_text(f, (n - 1) as nat);
        let prev = region_lines(f, (n - 1) as nat).push(region_line(f, r));
        let cl = cell_lines(f, f.regions@[r].cells@, f.regions@[r].cells@.len());
        lemma_lines_text_concat(prev, cl);
        lemma_cells_text(f, f.regions@[r].cells@, f.regions@[r].cells@.len());
        assert(prev.drop_last() =~= region_lines(f, (n - 1) as nat));
    }
}

/// The printed text is its lines, each ended by a newline.
pub proof fn lemma_print_lines(f: Fabric)
    ensures
        print_text(f) == lines_text(print_lines(f)),
{
    lemma_regions_text(f, f.regions@.len());
    lemma_lines_text_concat(seq![HEADER@], region_lines(f, f.regions@.len()));
    assert(seq![HEADER@].drop_last() =~= Seq::<Seq<char>>::empty());
    assert(lines_text(Seq::<Seq<char>>::empty()) == Seq::<char>::empty());
    assert(lines_text(seq![HEADER@]) =~= HEADER@ + seq!['\n']);
    assert(print_text(f) =~= lines_text(seq![HEADER@]) + lines_text(region_lines(f, f.regions@.len())));
}

/// Joined good words: no newline, no `;` when the words have none, and
/// non-blank first and last characters.
pub proof fn lemma_spaced_chars(ws: Seq<Seq<char>>)
    requires
        ws.len() > 0,
        good_words(ws),
    ensures
        spaced(ws).len() > 0,
        forall|k: int| 0 <= k < spaced(ws).len() ==> (#[trigger] spaced(ws)[k] == ' ' || !is_ws(spaced(ws)[k])),
        !is_ws(spaced(ws)[0]),
        !is_ws(spaced(ws).last()),
        semi_free(ws) ==> !spaced(ws).contains(';'),
    decreases ws.len(),
{
    assert(good_word(ws[0]));
    assert(good_word(ws[ws.len() - 1]));
    let w = ws.last();
    if ws.len() == 1 {
        assert(spaced(ws) == ws[0]);
        if semi_free(ws) {
            assert(!ws[0].contains(';'));
        }
    } else {
        let init = ws.drop_last();
        assert(good_words(init)) by {
            assert forall|k: int| 0 <= k < init.len() implies good_word(#[trigger] init[k]) by {
                assert(init[k] == ws[k]);
            }
        }
        lemma_spaced_chars(init);
        let s = spaced(ws);
        let a = spaced(init);
        assert(s == a + seq![' '] + w);
        assert forall|k: int| 0 <= k < s.len() implies (#[trigger] s[k] == ' ' || !is_ws(s[k])) by {
            if k < a.len() {
                assert(s[k] == a[k]);
            } else if k > a.len() {
                assert(s[k] == w[k - a.len() - 1]);
            }
        }
        assert(s[0] == a[0]);
        assert(s.last() == w.last());
        assert(!is_ws(w[w.len() - 1]));
        if semi_free(ws) {
            assert(semi_free(init)) by {
                assert forall|k: int| 0 <= k < init.len() implies !(#[trigger] init[k]).contains(';') by {
                    assert(init[k] == ws[k]);
                }
            }
            assert(!w.contains(';'));
            assert forall|k: int| 0 <= k < s.len() implies s[k] != ';' by {
                if k < a.len() {
                    assert(s[k] == a[k]);
                } else if k > a.len() {
                    assert(s[k] == w[k - a.len() - 1]);
                }
            }
        }
    }
}

/// The words of a printed cell line.
pub open spec fn cell_words(f: Fabric, id: CellId) -> Seq<Seq<char>> {
    seq![cid(id), "="@] + kind_words(f, cell_at(f, id.0 as int)->0)
}

/// The tokens of a printed cell line.
pub open spec fn cell_tokens(f: Fabric, id: CellId) -> Seq<Seq<char>> {
    seq![cid(id), "="@] + kind_tokens(f, cell_at(f, id.0 as int)->0)
}

/// A present printable cell's line reads as its words.
pub proof fn lemma_cell_line(f: Fabric, id: CellId)
    requires
        cell_at(f, id.0 as int) is Some,
        cell_printable(f, cell_at(f, id.0 as int)->0),
        names_ok(f),
    ensures
        cell_text(f, id) == spaced(cell_words(f, id)),
        good_words(cell_words(f, id)),
        semi_free(cell_words(f, id)),
        tokens(cell_text(f, id)) == cell_tokens(f, id),
        trim(strip_comment(cell_line_text(f, id))) == cell_text(f, id),
        plain_line(cell_line_text(f, id)),
        cell_tokens(f, id)[0] == cid(id),
{
    let c = cell_at(f, id.0 as int)->0;
    lemma_kind_words(f, c);
    lemma_kind_words_semi(f, c);
    reveal_strlit("=");
    reveal_strlit(" = ");
    assert("="@ =~= seq!['=']);
    assert(" = "@ =~= seq![' ', '=', ' ']);
    lemma_cid_good(id);
    lemma_lit_word("="@);
    let head = seq![cid(id), "="@];
    let kw = kind_words(f, c);
    let ws = cell_words(f, id);
    assert(ws == head + kw);
    lemma_spaced2(cid(id), "="@);
    lemma_spaced_concat(head, kw);
    assert(cell_text(f, id) =~= spaced(ws));
    assert(good_words(ws)) by {
        assert forall|k: int| 0 <= k < ws.len() implies good_word(#[trigger] ws[k]) by {
            if k >= 2 {
                assert(ws[k] == kw[k - 2]);
            }
        }
    }
    assert(semi_free(ws)) by {
        assert forall|k: int| 0 <= k < ws.len() implies !(#[trigger] ws[k]).contains(';') by {
            if k >= 2 {
                assert(ws[k] == kw[k - 2]);
            }
        }
    }
    lemma_tokens_spaced(ws);
    assert(stripped(ws) =~= cell_tokens(f, id)) by {
        assert forall|k: int| 0 <= k < ws.len() implies #[trigger] stripped(ws)[k] == cell_tokens(f, id)[k] by {
            if k >= 2 {
                assert(ws[k] == kw[k - 2]);
                assert(stripped(kw)[k - 2] == crate::lex::strip_commas(kw[k - 2]));
            }
        }
    }
    lemma_spaced_chars(ws);
    let t = cell_text(f, id);
    assert(seq![' ', ' '] =~= Seq::new(2, |k: int| ' '));
    lemma_trim_line(2, t);
    let l = cell_line_text(f, id);
    assert forall|k: int| 0 <= k < l.len() implies #[trigger] l[k] != '\n' by {
        if k >= 2 {
            assert(l[k] == t[k - 2]);
            assert(t[k - 2] == ' ' || !is_ws(t[k - 2]));
        }
    }
    assert(l.last() == t.last());
}

/// Listed cells tagged with their region, in print order, for the
/// first `n` regions.
pub open spec fn tag(r: nat, cs: Seq<CellId>) -> Seq<(nat, CellId)> {
    cs.map_values(|id: CellId| (r, id))
}

pub open spec fn listed(f: Fabric, n: nat) -> Seq<(nat, CellId)>
    decreases n,
{
    if n == 0 {
        Seq::empty()
    } else {
        listed(f, (n - 1) as nat) + tag((n - 1) as nat, f.regions@[n - 1].cells@)
    }
}

/// The kept cell lines are the listed cells' tokens, in order.
pub open spec fn pend_ok(f: Fabric, pend: Seq<(nat, nat, Seq<Seq<char>>)>, l: Seq<(nat, CellId)>) -> bool {
    &&& pend.len() == l.len()
    &&& forall|k: int| 0 <= k < pend.len() ==> (#[trigger] pend[k]).1 == l[k].0 && pend[k].2 == cell_tokens(f, l[k].1)
}

/// The first pass is going, has seen the header, knows the first `k`
/// region names, and is in region `cur`.
pub open spec fn scanned(st: Scan, f: Fabric, k: nat, cur: Option<nat>, l: Seq<(nat, CellId)>) -> bool {
    &&& st matches Scan::Going { saw, names, current, pending }
    &&& saw
    &&& names == region_names(f).take(k as int)
    &&& current == cur
    &&& pend_ok(f, pending, l)
}

proof fn lemma_scan_push(ls: Seq<Seq<char>>, l: Seq<char>)
    ensures
        scan(ls.push(l)) == scan_line(scan(ls), (ls.len() + 1) as nat, l),
{
    assert(ls.push(l).drop_last() =~= ls);
}

pub proof fn lemma_scan_header(f: Fabric)
    ensures
        scanned(scan(seq![HEADER@]), f, 0, None, Seq::empty()),
{
    reveal(scan_line);
    reveal_strlit("fabric v0");
    reveal_strlit("fabricv0");
    let h = HEADER@;
    assert(h =~= seq!['f', 'a', 'b', 'r', 'i', 'c', ' ', 'v', '0']);
    assert("fabricv0"@ =~= seq!['f', 'a', 'b', 'r', 'i', 'c', 'v', '0']);
    lemma_scan_push(Seq::empty(), h);
    assert(Seq::<Seq<char>>::empty().push(h) =~= seq![h]);
    let w0 = seq!['f', 'a', 'b', 'r', 'i', 'c'];
    let w1 = seq!['v', '0'];
    lemma_lit_word(w0);
    lemma_lit_word(w1);
    lemma_spaced2(w0, w1);
    assert(spaced(seq![w0, w1]) =~= h);
    lemma_tokens_spaced(seq![w0, w1]);
    assert(stripped(seq![w0, w1]) =~= seq![w0, w1]);
    assert(h =~= Seq::new(0, |k: int| ' ') + h);
    assert(!h.contains(';'));
    lemma_trim_line(0, h);
    let toks = seq![w0, w1];
    assert(concat_all(toks.drop_last()) == concat_all(seq![w0])) by {
        assert(toks.drop_last() =~= seq![w0]);
    }
    assert(concat_all(seq![w0]) == w0) by {
        assert(seq![w0].drop_last() =~= Seq::<Seq<char>>::empty());
        assert(concat_all(Seq::<Seq<char>>::empty()) == Seq::<char>::empty());
        assert(concat_all(seq![w0]) == concat_all(seq![w0].drop_last()) + seq![w0].last());
        assert(Seq::<char>::empty() + w0 =~= w0);
    }
    assert(concat_all(toks) =~= "fabricv0"@);
    assert(region_names(f).take(0) =~= Seq::<Seq<char>>::empty());
}

/// Declaring region `r` after the first `r` regions.
#[verifier::spinoff_prover]
#[verifier::rlimit(100)]
proof fn lemma_scan_region(ls: Seq<Seq<char>>, f: Fabric, r: nat, cur: Option<nat>, l: Seq<(nat, CellId)>)
    requires
        scanned(scan(ls), f, r, cur, l),
        r < f.regions@.len(),
        names_ok(f),
        names_distinct(region_names(f)),
    ensures
        scanned(scan(ls.push(region_line(f, r as int))), f, r + 1, Some(r), l),
{
    reveal(scan_line);
    reveal_strlit("region");
    reveal_strlit("region ");
    let w0 = "region"@;
    assert(w0 =~= seq!['r', 'e', 'g', 'i', 'o', 'n']);
    assert("region "@ =~= seq!['r', 'e', 'g', 'i', 'o', 'n', ' ']);
    let nm = f.regions@[r as int].name@;
    assert(name_ok(nm));
    lemma_plain_word(nm);
    lemma_lit_word(w0);
    let line = region_line(f, r as int);
    lemma_spaced2(w0, nm);
    assert(line =~= spaced(seq![w0, nm]));
    let pair = seq![w0, nm];
    assert(good_words(pair)) by {
        assert forall|k: int| 0 <= k < 2 implies good_word(#[trigger] pair[k]) by {
            if k == 0 {
                assert(pair[k] == w0);
            } else {
                assert(pair[k] == nm);
            }
        }
    }
    lemma_tokens_spaced(seq![w0, nm]);
    assert(stripped(seq![w0, nm]) =~= seq![w0, nm]);
    lemma_spaced_chars(seq![w0, nm]);
    assert(semi_free(pair)) by {
        assert forall|k: int| 0 <= k < 2 implies !(#[trigger] pair[k]).contains(';') by {
            if k == 0 {
                assert(pair[k] == w0);
            } else {
                assert(pair[k] == nm);
            }
        }
    }
    assert(line =~= Seq::new(0, |k: int| ' ') + line);
    lemma_trim_line(0, line);
    lemma_scan_push(ls, line);
    let names = region_names(f);
    assert(names[r as int] == nm);
    assert(!names.take(r as int).contains(nm)) by {
        if names.take(r as int).contains(nm) {
            let j = choose|j: int| 0 <= j < names.take(r as int).len() && names.take(r as int)[j] == nm;
            assert(names[j] == names.take(r as int)[j]);
            assert(names[j] != names[r as int]);
        }
    }
    assert(names.take(r as int).push(nm) =~= names.take(r as int + 1));
}

/// A listed cell's line in region `r`.
#[verifier::spinoff_prover]
#[verifier::rlimit(100)]
proof fn lemma_scan_cell(ls: Seq<Seq<char>>, f: Fabric, r: nat, l: Seq<(nat, CellId)>, id: CellId)
    requires
        scanned(scan(ls), f, r + 1, Some(r), l),
        cell_at(f, id.0 as int) is Some,
        cell_printable(f, cell_at(f, id.0 as int)->0),
        names_ok(f),
    ensures
        scanned(scan(ls.push(cell_line_text(f, id))), f, r + 1, Some(r), l.push((r, id))),
{
    reveal(scan_line);
    reveal_strlit("region");
    assert("region"@ =~= seq!['r', 'e', 'g', 'i', 'o', 'n']);
    lemma_cell_line(f, id);
    lemma_cid_good(id);
    let toks = cell_tokens(f, id);
    assert(toks[0] == cid(id));
    assert(toks[0][0] == '%');
    assert(toks[0] != "region"@);
    lemma_scan_push(ls, cell_line_text(f, id));
    let st = scan(ls);
    let pending = st->pending;
    let np = pending.push(((ls.len() + 1) as nat, r, toks));
    assert(pend_ok(f, np, l.push((r, id)))) by {
        assert forall|k: int| 0 <= k < np.len() implies (#[trigger] np[k]).1 == l.push((r, id))[k].0
            && np[k].2 == cell_tokens(f, l.push((r, id))[k].1) by {
            if k < pending.len() {
                assert(np[k] == pending[k]);
            }
        }
    }
}

proof fn lemma_scan_cells(ls: Seq<Seq<char>>, f: Fabric, r: nat, l: Seq<(nat, CellId)>, j: nat)
    requires
        scanned(scan(ls), f, r + 1, Some(r), l),
        r < f.regions@.len(),
        j <= f.regions@[r as int].cells@.len(),
        printable(f),
    ensures
        scanned(
            scan(ls + cell_lines(f, f.regions@[r as int].cells@, j)),
            f,
            r + 1,
            Some(r),
            l + tag(r, f.regions@[r as int].cells@.take(j as int)),
        ),
    decreases j,
{
    let cs = f.regions@[r as int].cells@;
    if j == 0 {
        assert(ls + cell_lines(f, cs, 0) =~= ls);
        assert(l + tag(r, cs.take(0)) =~= l);
    } else {
        lemma_scan_cells(ls, f, r, l, (j - 1) as nat);
        let id = cs[j - 1];
        assert(cell_at(f, id.0 as int) is Some);
        assert(cell_printable(f, cell_at(f, id.0 as int)->0));
        let prev = ls + cell_lines(f, cs, (j - 1) as nat);
        lemma_scan_cell(prev, f, r, l + tag(r, cs.take(j - 1)), id);
        assert(ls + cell_lines(f, cs, j) =~= prev.push(cell_line_text(f, id)));
        assert(l + tag(r, cs.take(j as int)) =~= (l + tag(r, cs.take(j - 1))).push((r, id)));
    }
}

/// Reading the header and the first `n` regions' lines.
pub proof fn lemma_scan_regions(f: Fabric, n: nat)
    requires
        n <= f.regions@.len(),
        printable(f),
    ensures
        scanned(
            scan(seq![HEADER@] + region_lines(f, n)),
            f,
            n,
            if n == 0 { None } else { Some((n - 1) as nat) },
            listed(f, n),
        ),
    decreases n,
{
    if n == 0 {
        assert(seq![HEADER@] + region_lines(f, 0) =~= seq![HEADER@]);
        lemma_scan_header(f);
    } else {
        let r = (n - 1) as nat;
        lemma_scan_regions(f, r);
        let base = seq![HEADER@] + region_lines(f, r);
        lemma_scan_region(base, f, r, if r == 0 { None } else { Some((r - 1) as nat) }, listed(f, r));
        let cs = f.regions@[r as int].cells@;
        lemma_scan_cells(base.push(region_line(f, r as int)), f, r, listed(f, r), cs.len());
        assert(seq![HEADER@] + region_lines(f, n) =~= base.push(region_line(f, r as int)) + cell_lines(f, cs, cs.len()));
        assert(cs.take(cs.len() as int) =~= cs);
    }
}

} // verus!
