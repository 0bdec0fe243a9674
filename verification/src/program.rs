//! Multi-function programs (`fabric v1`): named function fabrics in
//! declaration order, their text format, and what a failed parse reports.
//!
//! ```text
//! fabric v1
//! fn main
//! region entry
//!   %0 = param i32
//!   %1 = ret %0
//! ```
//!
//! Each fn body is read by the single-fabric parser (the body is
//! re-prefixed with `fabric v0`), so a body error is reported at its
//! whole-file line.

use vstd::prelude::*;
use crate::chars::{chars_eq_str, chars_of, push_chars, push_str, starts_with_str, string_of};
use crate::fabric::Fabric;
use crate::roundtrip::names_distinct;
use crate::lex::{find_char, first_index_of, split_lines, strip_comment, text_lines, trim, trim_bounds, views};
use crate::text::{Built, fabric_model, no_float_consts, parse_checked, parse_matches, parse_result, print_text, scannable};

verus! {

/// The header line of the program format.
pub const PROGRAM_HEADER: &'static str = "fabric v1";

/// A program parse failure: the whole-file line and what is wrong.
#[derive(Debug, PartialEq)]
pub struct ProgramParseError {
    pub line: usize,
    pub message: String,
}

/// Named function fabrics, in declaration order; a name occurs once.
#[derive(Clone, Debug)]
pub struct Program {
    pub funcs: Vec<(String, Fabric)>,
}

/// The names of `fs`, in order.
pub open spec fn fn_names(fs: Seq<(String, Fabric)>) -> Seq<Seq<char>> {
    fs.map_values(|e: (String, Fabric)| e.0@)
}

/// The first position among the first `n` names that holds `name`.
pub open spec fn find_name(names: Seq<Seq<char>>, name: Seq<char>, n: int) -> Option<int>
    decreases n,
{
    if n <= 0 || n > names.len() {
        None
    } else {
        match find_name(names, name, n - 1) {
            Some(i) => Some(i),
            None => if names[n - 1] == name { Some(n - 1) } else { None },
        }
    }
}

proof fn lemma_find_name(names: Seq<Seq<char>>, name: Seq<char>, n: int)
    requires
        0 <= n <= names.len(),
    ensures
        match find_name(names, name, n) {
            Some(i) => 0 <= i < n && names[i] == name && forall|j: int| 0 <= j < i ==> names[j] != name,
            None => forall|j: int| 0 <= j < n ==> names[j] != name,
        },
    decreases n,
{
    if n > 0 {
        lemma_find_name(names, name, n - 1);
    }
}

proof fn lemma_find_name_sticks(names: Seq<Seq<char>>, name: Seq<char>, k: int, n: int)
    requires
        0 <= k <= n <= names.len(),
        find_name(names, name, k) is Some,
    ensures
        find_name(names, name, n) == find_name(names, name, k),
    decreases n - k,
{
    if k < n {
        lemma_find_name_sticks(names, name, k, n - 1);
    }
}

/// The model of a program: each function's name and parsed model.
pub type ProgModel = Seq<(Seq<char>, (Seq<Seq<char>>, Built))>;

pub open spec fn prog_models(fs: Seq<(String, Fabric)>) -> ProgModel {
    fs.map_values(|e: (String, Fabric)| (e.0@, fabric_model(e.1)))
}

/// Add function `name` with model `m`: a new name goes last, a known
/// name keeps its place and gets the new body.
pub open spec fn model_add(fs: ProgModel, name: Seq<char>, m: (Seq<Seq<char>>, Built)) -> ProgModel {
    match find_name(fs.map_values(|e: (Seq<char>, (Seq<Seq<char>>, Built))| e.0), name, fs.len() as int) {
        Some(i) => fs.update(i, (name, m)),
        None => fs.push((name, m)),
    }
}

impl Program {
    pub fn new() -> (p: Program)
        ensures
            p.funcs@.len() == 0,
    {
        Program { funcs: Vec::new() }
    }

    /// Add (or replace) function `name`. A new name goes last; a known
    /// name keeps its place in the declaration order.
    pub fn add(&mut self, name: &str, f: Fabric)
        ensures
            match find_name(fn_names(old(self).funcs@), name@, old(self).funcs@.len() as int) {
                Some(i) => final(self).funcs@.len() == old(self).funcs@.len()
                    && final(self).funcs@[i].0@ == name@ && final(self).funcs@[i].1 == f
                    && forall|j: int| 0 <= j < old(self).funcs@.len() && j != i ==> #[trigger] final(self).funcs@[j] == old(self).funcs@[j],
                None => final(self).funcs@.len() == old(self).funcs@.len() + 1
                    && final(self).funcs@[old(self).funcs@.len() as int].0@ == name@
                    && final(self).funcs@[old(self).funcs@.len() as int].1 == f
                    && forall|j: int| 0 <= j < old(self).funcs@.len() ==> #[trigger] final(self).funcs@[j] == old(self).funcs@[j],
            },
            names_distinct(fn_names(old(self).funcs@)) ==> names_distinct(fn_names(final(self).funcs@)),
    {
        proof { lemma_find_name(fn_names(self.funcs@), name@, self.funcs@.len() as int); }
        match self.find(name) {
            Some(i) => {
                let ghost before = self.funcs@;
                self.funcs.set(i, (String::from_str(name), f));
                proof {
                    assert forall|j: int| 0 <= j < before.len() && j != i implies #[trigger] self.funcs@[j] == before[j] by {}
                    assert(fn_names(self.funcs@) =~= fn_names(before).update(i as int, name@));
                }
            },
            None => {
                let ghost before = self.funcs@;
                self.funcs.push((String::from_str(name), f));
                proof { assert(fn_names(self.funcs@) =~= fn_names(before).push(name@)); }
            },
        }
    }

    fn find(&self, name: &str) -> (r: Option<usize>)
        ensures
            match r {
                Some(i) => find_name(fn_names(self.funcs@), name@, self.funcs@.len() as int) == Some(i as int)
                    && i < self.funcs@.len(),
                None => find_name(fn_names(self.funcs@), name@, self.funcs@.len() as int) is None,
            },
    {
        let ghost names = fn_names(self.funcs@);
        let mut i: usize = 0;
        while i < self.funcs.len()
            invariant
                i <= self.funcs@.len(),
                names == fn_names(self.funcs@),
                find_name(names, name@, i as int) is None,
            decreases self.funcs@.len() - i,
        {
            if crate::chars::str_eq(self.funcs[i].0.as_str(), name) {
                assert(names[i as int] == name@);
                proof { lemma_find_name_sticks(names, name@, i + 1, self.funcs@.len() as int); }
                return Some(i);
            }
            i = i + 1;
        }
        None
    }

    /// The function named `name`, if any.
    pub fn get(&self, name: &str) -> (r: Option<&Fabric>)
        ensures
            match find_name(fn_names(self.funcs@), name@, self.funcs@.len() as int) {
                Some(i) => r == Some(&self.funcs@[i].1),
                None => r is None,
            },
    {
        match self.find(name) {
            Some(i) => Some(&self.funcs[i].1),
            None => None,
        }
    }
}

/// The lines of `ls` from `k` on, each closed by a newline.
pub open spec fn joined_lines(ls: Seq<Seq<char>>, k: int) -> Seq<char>
    decreases ls.len() - k,
{
    if k < 0 || k >= ls.len() {
        Seq::empty()
    } else {
        ls[k] + seq!['\n'] + joined_lines(ls, k + 1)
    }
}

/// The canonical print of the first `n` functions.
pub open spec fn funcs_text(fs: Seq<(String, Fabric)>, n: int) -> Seq<char>
    decreases n,
{
    if n <= 0 || n > fs.len() {
        Seq::empty()
    } else {
        funcs_text(fs, n - 1) + "fn "@ + fs[n - 1].0@ + seq!['\n'] + joined_lines(text_lines(print_text(fs[n - 1].1)), 1)
    }
}

/// The canonical print of a program.
pub open spec fn program_text(p: Program) -> Seq<char> {
    PROGRAM_HEADER@ + seq!['\n'] + funcs_text(p.funcs@, p.funcs@.len() as int)
}

fn push_lines_from(out: &mut String, ls: &Vec<Vec<char>>, k: usize)
    requires
        k <= ls@.len(),
    ensures
        final(out)@ == old(out)@ + joined_lines(views(ls@), k as int),
    decreases ls@.len() - k,
{
    if k < ls.len() {
        push_chars(out, &ls[k]);
        out.push('\n');
        assert(views(ls@)[k as int] == ls@[k as int]@);
        push_lines_from(out, ls, k + 1);
        assert(out@ =~= old(out)@ + joined_lines(views(ls@), k as int));
    }
}

/// Canonical print: the header, then each function as `fn NAME` and its
/// fabric's print without the fabric header line.
pub fn print(p: &Program) -> (s: String)
    requires
        forall|i: int| 0 <= i < p.funcs@.len() ==> no_float_consts(#[trigger] p.funcs@[i].1),
    ensures
        s@ == program_text(*p),
{
    let mut out = String::new();
    push_str(&mut out, PROGRAM_HEADER);
    out.push('\n');
    let mut i: usize = 0;
    while i < p.funcs.len()
        invariant
            i <= p.funcs@.len(),
            forall|j: int| 0 <= j < p.funcs@.len() ==> no_float_consts(#[trigger] p.funcs@[j].1),
            out@ == PROGRAM_HEADER@ + seq!['\n'] + funcs_text(p.funcs@, i as int),
        decreases p.funcs@.len() - i,
    {
        let (name, f) = (&p.funcs[i].0, &p.funcs[i].1);
        push_str(&mut out, "fn ");
        push_str(&mut out, name.as_str());
        out.push('\n');
        let body = crate::text::print(f);
        let chars = chars_of(body.as_str());
        let ls = split_lines(&chars);
        if ls.len() > 0 {
            push_lines_from(&mut out, &ls, 1);
        } else {
            proof { assert(joined_lines(views(ls@), 1) =~= Seq::<char>::empty()); }
        }
        i = i + 1;
        assert(out@ =~= PROGRAM_HEADER@ + seq!['\n'] + funcs_text(p.funcs@, i as int));
    }
    out
}


/// The state of a program parse after some lines.
pub enum PScan {
    /// Still reading: whether the header was seen, the function being
    /// read (name, body lines, line of its `fn`), and the functions done.
    Going { saw: bool, cur: Option<(Seq<char>, Seq<Seq<char>>, nat)>, fs: ProgModel },
    /// A line was rejected.
    Failed { line: nat, message: Seq<char> },
    /// A function body the single-fabric parser cannot read at all, or
    /// one beyond the machine's limits.
    Stuck,
}

/// The single-fabric text of a function body.
pub open spec fn body_text(body: Seq<Seq<char>>) -> Seq<char> {
    "fabric v0\n"@ + joined_lines(body, 0)
}

/// `s` without its spaces.
pub open spec fn without_spaces(s: Seq<char>) -> Seq<char>
    decreases s.len(),
{
    if s.len() == 0 {
        Seq::empty()
    } else {
        without_spaces(s.drop_last()) + if s.last() == ' ' { Seq::empty() } else { seq![s.last()] }
    }
}

/// `l` begins with `p`.
pub open spec fn begins(l: Seq<char>, p: Seq<char>) -> bool {
    l.len() >= p.len() && l.take(p.len() as int) == p
}

/// Adding the function being read to `fs`: the new list, or the error
/// (`None`: the body cannot be read at all).
pub open spec fn flush(fs: ProgModel, cur: Option<(Seq<char>, Seq<Seq<char>>, nat)>) -> Result<ProgModel, Option<(nat, Seq<char>)>> {
    match cur {
        None => Ok(fs),
        Some((name, body, start)) => {
            let t = body_text(body);
            if t.len() >= u32::MAX || !scannable(t) {
                Err(None)
            } else {
                match parse_result(t) {
                    Ok(m) => Ok(model_add(fs, name, m)),
                    Err((l, msg)) => {
                        let line = start + if l > 0 { l - 1 } else { 0 };
                        if line > usize::MAX {
                            Err(None)
                        } else {
                            Err(Some((line as nat, "fn '"@ + name + "': "@ + msg)))
                        }
                    },
                }
            }
        },
    }
}

/// One line (number `no`, text `raw`) of a program parse.
pub open spec fn pline(st: PScan, no: nat, raw: Seq<char>) -> PScan {
    match st {
        PScan::Going { saw, cur, fs } => {
            let line = trim(strip_comment(raw));
            if line.len() == 0 {
                match cur {
                    Some((n, b, s)) => PScan::Going { saw, cur: Some((n, b.push(Seq::empty()), s)), fs },
                    None => st,
                }
            } else if !saw {
                if without_spaces(line) == "fabricv1"@ {
                    PScan::Going { saw: true, cur, fs }
                } else {
                    PScan::Failed { line: no, message: "expected header 'fabric v1', got '"@ + line + "'"@ }
                }
            } else if begins(line, "fn "@) {
                match flush(fs, cur) {
                    Err(None) => PScan::Stuck,
                    Err(Some((l, m))) => PScan::Failed { line: l, message: m },
                    Ok(fs2) => {
                        let fname = trim(line.skip(3));
                        if fname.len() == 0 {
                            PScan::Failed { line: no, message: "fn needs a name"@ }
                        } else {
                            PScan::Going { saw, cur: Some((fname, Seq::empty(), no)), fs: fs2 }
                        }
                    },
                }
            } else {
                match cur {
                    Some((n, b, s)) => PScan::Going { saw, cur: Some((n, b.push(line), s)), fs },
                    None => PScan::Failed { line: no, message: "expected 'fn NAME' before '"@ + line + "'"@ },
                }
            }
        },
        _ => st,
    }
}

/// The program parse over `lines` (numbered from 1).
pub open spec fn pscan(lines: Seq<Seq<char>>) -> PScan
    decreases lines.len(),
{
    if lines.len() == 0 {
        PScan::Going { saw: false, cur: None, fs: Seq::empty() }
    } else {
        pline(pscan(lines.drop_last()), lines.len(), lines.last())
    }
}

/// What parsing the program text gives: `Going` with the functions on
/// success, `Failed` with the line and message of the first error.
pub open spec fn program_outcome(text: Seq<char>) -> PScan {
    match pscan(text_lines(text)) {
        PScan::Going { saw, cur, fs } => match flush(fs, cur) {
            Err(None) => PScan::Stuck,
            Err(Some((l, m))) => PScan::Failed { line: l, message: m },
            Ok(fs2) => if !saw {
                PScan::Failed { line: 0, message: "missing 'fabric v1' header"@ }
            } else if fs2.len() == 0 {
                PScan::Failed { line: 0, message: "program has no functions"@ }
            } else {
                PScan::Going { saw, cur: None, fs: fs2 }
            },
        },
        other => other,
    }
}

proof fn lemma_pscan_absorbs(lines: Seq<Seq<char>>, k: int)
    requires
        0 <= k <= lines.len(),
        !(pscan(lines.take(k)) is Going),
    ensures
        pscan(lines) == pscan(lines.take(k)),
    decreases lines.len() - k,
{
    if k < lines.len() {
        assert(lines.drop_last().take(k) =~= lines.take(k));
        lemma_pscan_absorbs(lines.drop_last(), k);
        assert(lines.take(lines.len() as int) =~= lines);
    } else {
        assert(lines.take(k) =~= lines);
    }
}

/// The exec form of the function being read.
pub open spec fn cur_view(cur: Option<(Vec<char>, Vec<Vec<char>>, usize)>) -> Option<(Seq<char>, Seq<Seq<char>>, nat)> {
    match cur {
        None => None,
        Some((n, b, s)) => Some((n@, views(b@), s as nat)),
    }
}

proof fn lemma_model_add(old_fs: Seq<(String, Fabric)>, new_fs: Seq<(String, Fabric)>, name: Seq<char>, f: Fabric)
    requires
        match find_name(fn_names(old_fs), name, old_fs.len() as int) {
            Some(i) => new_fs.len() == old_fs.len() && new_fs[i].0@ == name && new_fs[i].1 == f
                && forall|j: int| 0 <= j < old_fs.len() && j != i ==> #[trigger] new_fs[j] == old_fs[j],
            None => new_fs.len() == old_fs.len() + 1 && new_fs[old_fs.len() as int].0@ == name
                && new_fs[old_fs.len() as int].1 == f
                && forall|j: int| 0 <= j < old_fs.len() ==> #[trigger] new_fs[j] == old_fs[j],
        },
    ensures
        prog_models(new_fs) == model_add(prog_models(old_fs), name, fabric_model(f)),
{
    lemma_find_name(fn_names(old_fs), name, old_fs.len() as int);
    let om = prog_models(old_fs);
    assert(om.map_values(|e: (Seq<char>, (Seq<Seq<char>>, Built))| e.0) =~= fn_names(old_fs));
    match find_name(fn_names(old_fs), name, old_fs.len() as int) {
        Some(i) => {
            assert(prog_models(new_fs) =~= om.update(i, (name, fabric_model(f))));
        },
        None => {
            assert(prog_models(new_fs) =~= om.push((name, fabric_model(f))));
        },
    }
}

fn add_fn(p: &mut Program, cur: Option<(Vec<char>, Vec<Vec<char>>, usize)>) -> (r: Result<(), Option<ProgramParseError>>)
    ensures
        names_distinct(fn_names(old(p).funcs@)) ==> names_distinct(fn_names(final(p).funcs@)),
        match (r, flush(prog_models(old(p).funcs@), cur_view(cur))) {
            (Ok(_), Ok(fs)) => prog_models(final(p).funcs@) == fs,
            (Err(Some(e)), Err(Some((l, m)))) => e.line == l && e.message@ == m,
            (Err(None), Err(None)) => true,
            _ => false,
        },
{
    let (name, body, start) = match cur {
        None => return Ok(()),
        Some(x) => x,
    };
    let mut text = String::new();
    push_str(&mut text, "fabric v0\n");
    let mut k: usize = 0;
    while k < body.len()
        invariant
            k <= body@.len(),
            text@ + joined_lines(views(body@), k as int) == body_text(views(body@)),
        decreases body@.len() - k,
    {
        push_chars(&mut text, &body[k]);
        text.push('\n');
        assert(views(body@)[k as int] == body@[k as int]@);
        k = k + 1;
    }
    assert(text@ == body_text(views(body@)));
    if text.unicode_len() >= 4294967295 {
        return Err(None);
    }
    match parse_checked(text.as_str()) {
        None => Err(None),
        Some(Ok(f)) => {
            let ghost before = p.funcs@;
            let n = string_of(&name);
            p.add(n.as_str(), f);
            proof { lemma_model_add(before, p.funcs@, name@, f); }
            Ok(())
        },
        Some(Err(e)) => {
            let back = if e.line > 0 { e.line - 1 } else { 0 };
            let line = match start.checked_add(back) {
                Some(x) => x,
                None => return Err(None),
            };
            let mut m = String::new();
            push_str(&mut m, "fn '");
            push_chars(&mut m, &name);
            push_str(&mut m, "': ");
            push_str(&mut m, e.message.as_str());
            Err(Some(ProgramParseError { line, message: m }))
        },
    }
}

fn spaceless(v: &Vec<char>) -> (w: Vec<char>)
    ensures
        w@ == without_spaces(v@),
{
    let mut w: Vec<char> = Vec::new();
    let mut i: usize = 0;
    while i < v.len()
        invariant
            i <= v@.len(),
            w@ == without_spaces(v@.take(i as int)),
        decreases v@.len() - i,
    {
        assert(v@.take(i + 1).drop_last() =~= v@.take(i as int));
        if v[i] != ' ' {
            w.push(v[i]);
        }
        i = i + 1;
        assert(w@ =~= without_spaces(v@.take(i as int)));
    }
    assert(v@.take(v@.len() as int) =~= v@);
    w
}

fn sub_chars(v: &Vec<char>, lo: usize, hi: usize) -> (w: Vec<char>)
    requires
        lo <= hi <= v@.len(),
    ensures
        w@ == v@.subrange(lo as int, hi as int),
{
    let mut w: Vec<char> = Vec::new();
    let mut i = lo;
    while i < hi
        invariant
            lo <= i <= hi <= v@.len(),
            w@ == v@.subrange(lo as int, i as int),
        decreases hi - i,
    {
        w.push(v[i]);
        i = i + 1;
        assert(w@ =~= v@.subrange(lo as int, i as int));
    }
    w
}

fn perr(line: usize, pre: &str, x: &Vec<char>, post: &str) -> (e: ProgramParseError)
    ensures
        e.line == line,
        e.message@ == pre@ + x@ + post@,
{
    let mut m = String::new();
    push_str(&mut m, pre);
    push_chars(&mut m, x);
    push_str(&mut m, post);
    ProgramParseError { line, message: m }
}

fn perr0(line: usize, msg: &str) -> (e: ProgramParseError)
    ensures
        e.line == line,
        e.message@ == msg@,
{
    let mut m = String::new();
    push_str(&mut m, msg);
    ProgramParseError { line, message: m }
}

/// Parse a `fabric v1` program. Fn bodies go to the single-fabric
/// parser; a body error is reported at its whole-file line. A name
/// declared twice keeps its first place and its last body.
pub fn parse(text: &str) -> (r: Result<Program, ProgramParseError>)
    requires
        !(program_outcome(text@) is Stuck),
    ensures
        match r {
            Ok(p) => program_outcome(text@) == (PScan::Going { saw: true, cur: None, fs: prog_models(p.funcs@) })
                && names_distinct(fn_names(p.funcs@)),
            Err(e) => program_outcome(text@) == (PScan::Failed { line: e.line as nat, message: e.message@ }),
        },
{
    let chars = chars_of(text);
    let lines = split_lines(&chars);
    let ghost ls = views(lines@);
    proof { crate::lex::lemma_text_lines_bound(text@); }
    let mut p = Program::new();
    assert(fn_names(p.funcs@) =~= Seq::empty());
    let mut saw = false;
    let mut cur: Option<(Vec<char>, Vec<Vec<char>>, usize)> = None;
    let mut i: usize = 0;
    assert(ls.take(0) =~= Seq::<Seq<char>>::empty());
    assert(prog_models(p.funcs@) =~= Seq::empty());
    while i < lines.len()
        invariant
            i <= lines@.len(),
            ls == views(lines@),
            ls == text_lines(text@),
            lines@.len() <= text@.len(),
            !(program_outcome(text@) is Stuck),
            pscan(ls.take(i as int)) == (PScan::Going { saw, cur: cur_view(cur), fs: prog_models(p.funcs@) }),
            names_distinct(fn_names(p.funcs@)),
        decreases lines@.len() - i,
    {
        let raw = &lines[i];
        assert(ls[i as int] == raw@);
        assert(ls.take(i + 1).drop_last() =~= ls.take(i as int));
        let end = find_char(raw, ';');
        proof { crate::lex::lemma_first_index_of(raw@, ';'); }
        let (a, b) = trim_bounds(raw, 0, end);
        assert(raw@.subrange(0, end as int) =~= strip_comment(raw@));
        let line = sub_chars(raw, a, b);
        let no = i + 1;
        let ghost before = pscan(ls.take(i as int));
        if line.len() == 0 {
            match cur {
                Some((n, mut body, s)) => {
                    let ghost b0 = views(body@);
                    body.push(Vec::new());
                    proof { assert(views(body@) =~= b0.push(Seq::empty())); }
                    cur = Some((n, body, s));
                },
                None => {},
            }
        } else if !saw {
            let w = spaceless(&line);
            if chars_eq_str(&w, "fabricv1") {
                saw = true;
            } else {
                let e = perr(no, "expected header 'fabric v1', got '", &line, "'");
                proof { lemma_pscan_absorbs(ls, i + 1); }
                return Err(e);
            }
        } else if starts_with_str(&line, "fn ") {
            proof { reveal_strlit("fn "); }
            let old_cur = cur;
            cur = None;
            match add_fn(&mut p, old_cur) {
                Ok(()) => {},
                Err(Some(e)) => {
                    proof { lemma_pscan_absorbs(ls, i + 1); }
                    return Err(e);
                },
                Err(None) => {
                    proof { lemma_pscan_absorbs(ls, i + 1); }
                    return Err(perr0(0, ""));
                },
            }
            let (c, d) = trim_bounds(&line, 3, line.len());
            assert(line@.subrange(3, line@.len() as int) =~= line@.skip(3));
            if c == d {
                let e = perr0(no, "fn needs a name");
                proof { lemma_pscan_absorbs(ls, i + 1); }
                return Err(e);
            }
            let fname = sub_chars(&line, c, d);
            let empty: Vec<Vec<char>> = Vec::new();
            proof { assert(views(empty@) =~= Seq::<Seq<char>>::empty()); }
            cur = Some((fname, empty, no));
        } else {
            match cur {
                Some((n, mut body, s)) => {
                    let ghost b0 = views(body@);
                    let ghost l0 = line@;
                    body.push(line);
                    proof { assert(views(body@) =~= b0.push(l0)); }
                    cur = Some((n, body, s));
                },
                None => {
                    let e = perr(no, "expected 'fn NAME' before '", &line, "'");
                    proof { lemma_pscan_absorbs(ls, i + 1); }
                    return Err(e);
                },
            }
        }
        i = i + 1;
    }
    assert(ls.take(ls.len() as int) =~= ls);
    match add_fn(&mut p, cur) {
        Ok(()) => {},
        Err(Some(e)) => return Err(e),
        Err(None) => return Err(perr0(0, "")),
    }
    if !saw {
        return Err(perr0(0, "missing 'fabric v1' header"));
    }
    if p.funcs.len() == 0 {
        return Err(perr0(0, "program has no functions"));
    }
    Ok(p)
}

} // verus!
