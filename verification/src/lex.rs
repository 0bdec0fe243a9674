//! Line and token splitting for the textual formats: lines, comments,
//! whitespace trimming and whitespace-separated tokens, with the same
//! meaning as `str::lines`, `str::trim` and `str::split_whitespace`.

use vstd::prelude::*;

verus! {

/// Unicode White_Space: the characters `char::is_whitespace` accepts.
pub open spec fn is_ws(c: char) -> bool {
    ||| c == '\t' || c == '\n' || c == '\u{0B}' || c == '\u{0C}' || c == '\r' || c == ' '
    ||| c == '\u{85}' || c == '\u{A0}' || c == '\u{1680}'
    ||| ('\u{2000}' <= c && c <= '\u{200A}')
    ||| c == '\u{2028}' || c == '\u{2029}' || c == '\u{202F}' || c == '\u{205F}' || c == '\u{3000}'
}

pub fn is_ws_exec(c: char) -> (b: bool)
    ensures
        b == is_ws(c),
{
    c == '\t' || c == '\n' || c == '\u{0B}' || c == '\u{0C}' || c == '\r' || c == ' ' || c == '\u{85}'
        || c == '\u{A0}' || c == '\u{1680}' || ('\u{2000}' <= c && c <= '\u{200A}') || c == '\u{2028}'
        || c == '\u{2029}' || c == '\u{202F}' || c == '\u{205F}' || c == '\u{3000}'
}

/// A line that ended in a newline loses one trailing carriage return.
pub open spec fn strip_cr(l: Seq<char>) -> Seq<char> {
    if l.len() > 0 && l.last() == '\r' {
        l.drop_last()
    } else {
        l
    }
}

/// Left-to-right scan of a text: the lines completed so far and the line
/// in progress.
pub open spec fn fold_lines(s: Seq<char>) -> (Seq<Seq<char>>, Seq<char>)
    decreases s.len(),
{
    if s.len() == 0 {
        (Seq::empty(), Seq::empty())
    } else {
        let (done, cur) = fold_lines(s.drop_last());
        if s.last() == '\n' {
            (done.push(strip_cr(cur)), Seq::empty())
        } else {
            (done, cur.push(s.last()))
        }
    }
}

/// The lines of a text: split at each newline (a carriage return right
/// before a newline is dropped); a final line without newline counts when
/// it is not empty.
pub open spec fn text_lines(s: Seq<char>) -> Seq<Seq<char>> {
    let (done, cur) = fold_lines(s);
    if cur.len() > 0 {
        done.push(cur)
    } else {
        done
    }
}

pub open spec fn views(vs: Seq<Vec<char>>) -> Seq<Seq<char>> {
    vs.map_values(|v: Vec<char>| v@)
}

/// Split a text into lines.
pub fn split_lines(s: &Vec<char>) -> (ls: Vec<Vec<char>>)
    ensures
        views(ls@) == text_lines(s@),
{
    let mut done: Vec<Vec<char>> = Vec::new();
    let mut cur: Vec<char> = Vec::new();
    let mut i: usize = 0;
    while i < s.len()
        invariant
            i <= s@.len(),
            (views(done@), cur@) == fold_lines(s@.take(i as int)),
        decreases s@.len() - i,
    {
        let c = s[i];
        proof {
            assert(s@.take(i + 1).drop_last() =~= s@.take(i as int));
            assert(s@.take(i + 1).last() == c);
        }
        if c == '\n' {
            if cur.len() > 0 && cur[cur.len() - 1] == '\r' {
                cur.pop();
            }
            let ghost before = done@;
            done.push(cur);
            cur = Vec::new();
            proof {
                assert(views(done@) =~= views(before).push(strip_cr(fold_lines(s@.take(i as int)).1)));
            }
        } else {
            cur.push(c);
        }
        i = i + 1;
    }
    assert(s@.take(s@.len() as int) =~= s@);
    if cur.len() > 0 {
        let ghost before = done@;
        done.push(cur);
        assert(views(done@) =~= views(before).push(fold_lines(s@).1));
    }
    done
}

/// Index of the first `ch` in `s`, or the length when there is none.
pub open spec fn first_index_of(s: Seq<char>, ch: char) -> nat
    decreases s.len(),
{
    if s.len() == 0 {
        0
    } else if s[0] == ch {
        0
    } else {
        1 + first_index_of(s.drop_first(), ch)
    }
}

pub proof fn lemma_first_index_of(s: Seq<char>, ch: char)
    ensures
        first_index_of(s, ch) <= s.len(),
        forall|k: int| 0 <= k < first_index_of(s, ch) ==> s[k] != ch,
        first_index_of(s, ch) < s.len() ==> s[first_index_of(s, ch) as int] == ch,
    decreases s.len(),
{
    if s.len() > 0 && s[0] != ch {
        lemma_first_index_of(s.drop_first(), ch);
        assert forall|k: int| 0 <= k < first_index_of(s, ch) implies s[k] != ch by {
            if k > 0 {
                assert(s[k] == s.drop_first()[k - 1]);
            }
        }
    }
}

pub proof fn lemma_first_index_of_unique(s: Seq<char>, ch: char, i: int)
    requires
        0 <= i <= s.len(),
        forall|k: int| 0 <= k < i ==> s[k] != ch,
        i < s.len() ==> s[i] == ch,
    ensures
        first_index_of(s, ch) == i,
{
    lemma_first_index_of(s, ch);
    let p = first_index_of(s, ch) as int;
    if p < i {
        assert(s[p] == ch);
    } else if p > i {
        assert(s[i] != ch);
    }
}

pub fn find_char(s: &Vec<char>, ch: char) -> (i: usize)
    ensures
        i == first_index_of(s@, ch),
{
    let mut i: usize = 0;
    while i < s.len() && s[i] != ch
        invariant
            i <= s@.len(),
            forall|k: int| 0 <= k < i ==> s@[k] != ch,
        decreases s@.len() - i,
    {
        i = i + 1;
    }
    proof { lemma_first_index_of_unique(s@, ch, i as int); }
    i
}

/// Everything before the first ';'.
pub open spec fn strip_comment(s: Seq<char>) -> Seq<char> {
    s.take(first_index_of(s, ';') as int)
}

/// The number of leading whitespace characters.
pub open spec fn lead_ws(s: Seq<char>) -> nat
    decreases s.len(),
{
    if s.len() == 0 {
        0
    } else if is_ws(s[0]) {
        1 + lead_ws(s.drop_first())
    } else {
        0
    }
}

/// The number of trailing whitespace characters.
pub open spec fn trail_ws(s: Seq<char>) -> nat
    decreases s.len(),
{
    if s.len() == 0 {
        0
    } else if is_ws(s.last()) {
        1 + trail_ws(s.drop_last())
    } else {
        0
    }
}

/// `s` without leading and trailing whitespace.
pub open spec fn trim(s: Seq<char>) -> Seq<char> {
    let t = s.skip(lead_ws(s) as int);
    t.take(t.len() - trail_ws(t))
}

proof fn lemma_lead_ws(s: Seq<char>)
    ensures
        lead_ws(s) <= s.len(),
        forall|k: int| 0 <= k < lead_ws(s) ==> is_ws(s[k]),
        lead_ws(s) < s.len() ==> !is_ws(s[lead_ws(s) as int]),
    decreases s.len(),
{
    if s.len() > 0 && is_ws(s[0]) {
        lemma_lead_ws(s.drop_first());
        assert forall|k: int| 0 <= k < lead_ws(s) implies is_ws(s[k]) by {
            if k > 0 {
                assert(s[k] == s.drop_first()[k - 1]);
            }
        }
    }
}

proof fn lemma_trail_ws(s: Seq<char>)
    ensures
        trail_ws(s) <= s.len(),
        forall|k: int| s.len() - trail_ws(s) <= k < s.len() ==> is_ws(s[k]),
        trail_ws(s) < s.len() ==> !is_ws(s[s.len() - trail_ws(s) - 1]),
    decreases s.len(),
{
    if s.len() > 0 && is_ws(s.last()) {
        lemma_trail_ws(s.drop_last());
        assert forall|k: int| s.len() - trail_ws(s) <= k < s.len() implies is_ws(s[k]) by {
            if k < s.len() - 1 {
                assert(s[k] == s.drop_last()[k]);
            }
        }
    }
}

/// `s[lo..hi]` without leading and trailing whitespace, as bounds.
pub fn trim_bounds(s: &Vec<char>, lo: usize, hi: usize) -> (r: (usize, usize))
    requires
        lo <= hi <= s@.len(),
    ensures
        lo <= r.0 <= r.1 <= hi,
        s@.subrange(r.0 as int, r.1 as int) == trim(s@.subrange(lo as int, hi as int)),
{
    let ghost x = s@.subrange(lo as int, hi as int);
    let mut a = lo;
    while a < hi && is_ws_exec(s[a])
        invariant
            lo <= a <= hi <= s@.len(),
            x == s@.subrange(lo as int, hi as int),
            forall|k: int| lo <= k < a ==> is_ws(s@[k]),
        decreases hi - a,
    {
        a = a + 1;
    }
    proof {
        lemma_lead_ws(x);
        let p = lead_ws(x) as int;
        if p < a - lo {
            assert(x[p] == s@[lo + p]);
        } else if p > a - lo {
            assert(x[a - lo] == s@[a as int]);
        }
        assert(p == a - lo);
    }
    let ghost t = x.skip((a - lo) as int);
    assert(t =~= s@.subrange(a as int, hi as int));
    let mut b = hi;
    while b > a && is_ws_exec(s[b - 1])
        invariant
            lo <= a <= b <= hi <= s@.len(),
            forall|k: int| b <= k < hi ==> is_ws(s@[k]),
        decreases b - a,
    {
        b = b - 1;
    }
    proof {
        lemma_trail_ws(t);
        let q = trail_ws(t) as int;
        let tl = t.len() as int;
        if q < hi - b {
            assert(t[tl - q - 1] == s@[hi - q - 1]);
        } else if q > hi - b {
            assert(t[tl - (hi - b) - 1] == s@[b - 1]);
        }
        assert(q == hi - b);
        assert(t.take(tl - q) =~= s@.subrange(a as int, b as int));
    }
    (a, b)
}

/// The number of trailing commas.
pub open spec fn trail_commas(s: Seq<char>) -> nat
    decreases s.len(),
{
    if s.len() == 0 {
        0
    } else if s.last() == ',' {
        1 + trail_commas(s.drop_last())
    } else {
        0
    }
}

pub open spec fn strip_commas(w: Seq<char>) -> Seq<char> {
    w.take(w.len() - trail_commas(w))
}

/// The tokens of a finished word: the word without its trailing commas,
/// when anything is left.
pub open spec fn add_token(done: Seq<Seq<char>>, w: Seq<char>) -> Seq<Seq<char>> {
    if w.len() > 0 && strip_commas(w).len() > 0 {
        done.push(strip_commas(w))
    } else {
        done
    }
}

/// Left-to-right scan for tokens: the tokens so far and the word in
/// progress.
pub open spec fn fold_tokens(s: Seq<char>) -> (Seq<Seq<char>>, Seq<char>)
    decreases s.len(),
{
    if s.len() == 0 {
        (Seq::empty(), Seq::empty())
    } else {
        let (done, cur) = fold_tokens(s.drop_last());
        if is_ws(s.last()) {
            (add_token(done, cur), Seq::empty())
        } else {
            (done, cur.push(s.last()))
        }
    }
}

/// The whitespace-separated words of `s`, each without trailing commas,
/// empty ones dropped.
pub open spec fn tokens(s: Seq<char>) -> Seq<Seq<char>> {
    let (done, cur) = fold_tokens(s);
    add_token(done, cur)
}

proof fn lemma_trail_commas(s: Seq<char>)
    ensures
        trail_commas(s) <= s.len(),
        forall|k: int| s.len() - trail_commas(s) <= k < s.len() ==> s[k] == ',',
        trail_commas(s) < s.len() ==> s[s.len() - trail_commas(s) - 1] != ',',
    decreases s.len(),
{
    if s.len() > 0 && s.last() == ',' {
        lemma_trail_commas(s.drop_last());
        assert forall|k: int| s.len() - trail_commas(s) <= k < s.len() implies s[k] == ',' by {
            if k < s.len() - 1 {
                assert(s[k] == s.drop_last()[k]);
            }
        }
    }
}

fn finish_word(done: &mut Vec<Vec<char>>, cur: Vec<char>)
    ensures
        views(final(done)@) == add_token(views(old(done)@), cur@),
{
    let mut w = cur;
    let ghost orig = w@;
    while w.len() > 0 && w[w.len() - 1] == ','
        invariant
            w@.len() <= orig.len(),
            w@ == orig.take(w@.len() as int),
            forall|k: int| w@.len() <= k < orig.len() ==> orig[k] == ',',
        decreases w@.len(),
    {
        w.pop();
    }
    proof {
        lemma_trail_commas(orig);
        let q = trail_commas(orig) as int;
        let wl = w@.len() as int;
        let ol = orig.len() as int;
        if q < ol - wl {
            assert(orig[ol - q - 1] == ',');
        } else if q > ol - wl {
            assert(orig[wl - 1] == w@[wl - 1]);
        }
    }
    if w.len() > 0 {
        let ghost before = done@;
        done.push(w);
        assert(views(done@) =~= views(before).push(strip_commas(orig)));
    }
}

/// The tokens of `s[lo..hi]`.
pub fn tokenize(s: &Vec<char>, lo: usize, hi: usize) -> (ts: Vec<Vec<char>>)
    requires
        lo <= hi <= s@.len(),
    ensures
        views(ts@) == tokens(s@.subrange(lo as int, hi as int)),
{
    let ghost x = s@.subrange(lo as int, hi as int);
    let mut done: Vec<Vec<char>> = Vec::new();
    let mut cur: Vec<char> = Vec::new();
    let mut i = lo;
    while i < hi
        invariant
            lo <= i <= hi <= s@.len(),
            x == s@.subrange(lo as int, hi as int),
            (views(done@), cur@) == fold_tokens(x.take(i - lo)),
        decreases hi - i,
    {
        let c = s[i];
        proof {
            assert(x.take(i - lo + 1).drop_last() =~= x.take(i - lo));
            assert(x.take(i - lo + 1).last() == c);
        }
        if is_ws_exec(c) {
            let w = cur;
            cur = Vec::new();
            finish_word(&mut done, w);
        } else {
            cur.push(c);
        }
        i = i + 1;
    }
    assert(x.take(hi - lo) =~= x);
    finish_word(&mut done, cur);
    done
}

/// All tokens joined.
pub open spec fn concat_all(ts: Seq<Seq<char>>) -> Seq<char>
    decreases ts.len(),
{
    if ts.len() == 0 {
        Seq::empty()
    } else {
        concat_all(ts.drop_last()) + ts.last()
    }
}

pub fn concat_tokens(ts: &Vec<Vec<char>>) -> (c: Vec<char>)
    ensures
        c@ == concat_all(views(ts@)),
{
    let mut out: Vec<char> = Vec::new();
    let mut i: usize = 0;
    while i < ts.len()
        invariant
            i <= ts@.len(),
            out@ == concat_all(views(ts@).take(i as int)),
        decreases ts@.len() - i,
    {
        let t = &ts[i];
        let mut k: usize = 0;
        let ghost base = out@;
        while k < t.len()
            invariant
                k <= t@.len(),
                out@ == base + t@.take(k as int),
            decreases t@.len() - k,
        {
            out.push(t[k]);
            k = k + 1;
            assert(out@ =~= base + t@.take(k as int));
        }
        proof {
            let vs = views(ts@);
            assert(vs.take(i + 1).drop_last() =~= vs.take(i as int));
            assert(vs.take(i + 1).last() == t@);
            assert(t@.take(t@.len() as int) =~= t@);
        }
        i = i + 1;
    }
    assert(views(ts@).take(ts@.len() as int) =~= views(ts@));
    out
}

/// No line is longer than the text, and there are no more lines than
/// characters.
pub proof fn lemma_text_lines_bound(s: Seq<char>)
    ensures
        text_lines(s).len() <= s.len(),
        forall|k: int| 0 <= k < text_lines(s).len() ==> (#[trigger] text_lines(s)[k]).len() <= s.len(),
{
    lemma_fold_lines_bound(s);
}

proof fn lemma_fold_lines_bound(s: Seq<char>)
    ensures
        fold_lines(s).0.len() + fold_lines(s).1.len() <= s.len(),
        forall|k: int| 0 <= k < fold_lines(s).0.len() ==> (#[trigger] fold_lines(s).0[k]).len() <= s.len(),
    decreases s.len(),
{
    if s.len() > 0 {
        lemma_fold_lines_bound(s.drop_last());
        let (done, cur) = fold_lines(s.drop_last());
        if s.last() == '\n' {
            assert(strip_cr(cur).len() <= cur.len());
            let d2 = done.push(strip_cr(cur));
            assert forall|k: int| 0 <= k < d2.len() implies (#[trigger] d2[k]).len() <= s.len() by {
                if k < done.len() {
                    assert(d2[k] == done[k]);
                }
            }
        }
    }
}

/// There are no more tokens than characters.
pub proof fn lemma_tokens_bound(s: Seq<char>)
    ensures
        tokens(s).len() <= s.len(),
{
    lemma_fold_tokens_bound(s);
    let (done, cur) = fold_tokens(s);
    if cur.len() > 0 && strip_commas(cur).len() > 0 {
        assert(add_token(done, cur).len() == done.len() + 1);
    }
}

proof fn lemma_fold_tokens_bound(s: Seq<char>)
    ensures
        fold_tokens(s).0.len() + fold_tokens(s).1.len() <= s.len(),
    decreases s.len(),
{
    if s.len() > 0 {
        lemma_fold_tokens_bound(s.drop_last());
        let (done, cur) = fold_tokens(s.drop_last());
        if is_ws(s.last()) {
            if cur.len() > 0 && strip_commas(cur).len() > 0 {
                assert(add_token(done, cur).len() == done.len() + 1);
            }
        }
    }
}

/// Trimming never lengthens.
pub proof fn lemma_trim_len(s: Seq<char>)
    ensures
        trim(s).len() <= s.len(),
{
    lemma_lead_ws(s);
    let t = s.skip(lead_ws(s) as int);
    lemma_trail_ws(t);
}

/// What `char::is_alphabetic` says of a character (the Unicode
/// Alphabetic property).
pub uninterp spec fn char_alphabetic(c: char) -> bool;

/// What `char::is_alphanumeric` says of a character (Alphabetic or
/// Numeric).
pub uninterp spec fn char_alphanumeric(c: char) -> bool;

pub open spec fn ascii_letter(c: char) -> bool {
    ('a' <= c && c <= 'z') || ('A' <= c && c <= 'Z')
}

/// Calls `char::is_alphabetic`. Its result is named `char_alphabetic`;
/// on ASCII it holds exactly of the letters.
#[verifier::external_body]
pub(crate) fn is_alphabetic(c: char) -> (b: bool)
    ensures
        b == char_alphabetic(c),
        (c as u32) < 128 ==> (b <==> ascii_letter(c)),
{
    c.is_alphabetic()
}

/// Calls `char::is_alphanumeric`. Its result is named `char_alphanumeric`;
/// on ASCII it holds exactly of the letters and digits.
#[verifier::external_body]
pub(crate) fn is_alphanumeric(c: char) -> (b: bool)
    ensures
        b == char_alphanumeric(c),
        (c as u32) < 128 ==> (b <==> (ascii_letter(c) || ('0' <= c && c <= '9'))),
{
    c.is_alphanumeric()
}

} // verus!
