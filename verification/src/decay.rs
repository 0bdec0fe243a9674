//! Decay: values die only with a machine-checkable death certificate,
//! and every cell can be classified as dead, cold or warm.
//!
//! A death certificate names the killer pass, the tick and the number of
//! users the victim had; its rendered form is byte-stable:
//! `death{killer=dce-decay tick=3 users=0 witness=no-demand}`.

use vstd::prelude::*;
use crate::chars::{chars_of, push_str, range_eq_str, starts_with_str};
use crate::dec::{dec, lemma_dec_digits, lemma_parse_dec, parse_unsigned, parse_unsigned_chars, push_dec};
use crate::cell::kind_is_terminator;
use crate::fabric::{Fabric, cell_at};
use crate::id::{CellId, cell_id_text};
use crate::order::{lemma_u32_distinct_bound, sort_ids};
use crate::region::contains_id;
use crate::usetables::row_at;
use crate::lex::{first_index_of, lemma_first_index_of, lemma_first_index_of_unique};

verus! {

/// The witness kind certificates carry.
pub const WITNESS: &'static str = "no-demand";

/// Machine-checkable death certificate, carried in a removal's ledger line.
#[derive(Clone, PartialEq, Debug)]
pub struct DeathCert {
    pub cell: CellId,
    pub killer: String,
    pub tick: u64,
    pub users: u32,
}

/// The model of a certificate.
pub struct DeathCertV {
    pub cell: CellId,
    pub killer: Seq<char>,
    pub tick: u64,
    pub users: u32,
}

impl View for DeathCert {
    type V = DeathCertV;

    open spec fn view(&self) -> DeathCertV {
        DeathCertV { cell: self.cell, killer: self.killer@, tick: self.tick, users: self.users }
    }
}

pub open spec fn lit_death() -> Seq<char> {
    seq!['d', 'e', 'a', 't', 'h', '{']
}

pub open spec fn key_killer() -> Seq<char> {
    seq!['k', 'i', 'l', 'l', 'e', 'r']
}

pub open spec fn key_tick() -> Seq<char> {
    seq!['t', 'i', 'c', 'k']
}

pub open spec fn key_users() -> Seq<char> {
    seq!['u', 's', 'e', 'r', 's']
}

pub open spec fn key_witness() -> Seq<char> {
    seq!['w', 'i', 't', 'n', 'e', 's', 's']
}

pub open spec fn witness_text() -> Seq<char> {
    seq!['n', 'o', '-', 'd', 'e', 'm', 'a', 'n', 'd']
}

/// `key=value`.
pub open spec fn field_text(key: Seq<char>, value: Seq<char>) -> Seq<char> {
    key + seq!['='] + value
}

/// The rendered certificate.
pub open spec fn cert_text(c: DeathCertV) -> Seq<char> {
    lit_death() + field_text(key_killer(), c.killer) + seq![' '] + field_text(key_tick(), dec(c.tick as nat))
        + seq![' '] + field_text(key_users(), dec(c.users as nat)) + seq![' '] + field_text(
        key_witness(),
        witness_text(),
    ) + seq!['}']
}

/// The pieces of `s` between single spaces (as `str::split(' ')` gives
/// them: empty pieces kept).
pub open spec fn split_spaces(s: Seq<char>) -> Seq<Seq<char>>
    decreases s.len(),
{
    let p = first_index_of(s, ' ') as int;
    if p >= s.len() {
        seq![s]
    } else {
        seq![s.take(p)] + split_spaces(s.skip(p + 1))
    }
}

/// The fields read so far: killer, tick, users, witness.
pub type Fields = (Option<Seq<char>>, Option<nat>, Option<nat>, Option<Seq<char>>);

pub open spec fn no_fields() -> Fields {
    (None, None, None, None)
}

/// Read one `key=value` piece into the fields; `None` when the piece is
/// not one of the four fields or its number does not parse.
pub open spec fn field_step(st: Fields, part: Seq<char>) -> Option<Fields> {
    let p = first_index_of(part, '=') as int;
    if p >= part.len() {
        None
    } else {
        let k = part.take(p);
        let v = part.skip(p + 1);
        if k == key_killer() {
            Some((Some(v), st.1, st.2, st.3))
        } else if k == key_tick() {
            match parse_unsigned(v, u64::MAX as nat) {
                Some(t) => Some((st.0, Some(t), st.2, st.3)),
                None => None,
            }
        } else if k == key_users() {
            match parse_unsigned(v, u32::MAX as nat) {
                Some(u) => Some((st.0, st.1, Some(u), st.3)),
                None => None,
            }
        } else if k == key_witness() {
            Some((st.0, st.1, st.2, Some(v)))
        } else {
            None
        }
    }
}

/// Read all pieces in order (a later piece overrides an earlier one).
pub open spec fn read_fields(parts: Seq<Seq<char>>, st: Fields) -> Option<Fields>
    decreases parts.len(),
{
    if parts.len() == 0 {
        Some(st)
    } else {
        match field_step(st, parts[0]) {
            None => None,
            Some(st2) => read_fields(parts.skip(1), st2),
        }
    }
}

/// What parsing a ledger line gives: a certificate for `cell` only when
/// the form is exact and all four fields are there, the witness being
/// `no-demand`.
pub open spec fn cert_parse(ledger: Seq<char>, cell: CellId) -> Option<DeathCertV> {
    if !(ledger.len() >= 7 && ledger.take(6) == lit_death() && ledger.last() == '}') {
        None
    } else {
        match read_fields(split_spaces(ledger.subrange(6, ledger.len() - 1)), no_fields()) {
            None => None,
            Some((k, t, u, w)) => if w == Some(witness_text()) && k is Some && t is Some && u is Some {
                Some(DeathCertV { cell, killer: k->0, tick: t->0 as u64, users: u->0 as u32 })
            } else {
                None
            },
        }
    }
}

proof fn lemma_split_one(x: Seq<char>)
    requires
        !x.contains(' '),
    ensures
        split_spaces(x) == seq![x],
{
    lemma_first_index_of_unique(x, ' ', x.len() as int);
}

proof fn lemma_split_first(x: Seq<char>, rest: Seq<char>)
    requires
        !x.contains(' '),
    ensures
        split_spaces(x + seq![' '] + rest) == seq![x] + split_spaces(rest),
{
    let s = x + seq![' '] + rest;
    assert forall|k: int| 0 <= k < x.len() implies s[k] != ' ' by {
        assert(s[k] == x[k]);
    }
    lemma_first_index_of_unique(s, ' ', x.len() as int);
    assert(s.take(x.len() as int) =~= x);
    assert(s.skip(x.len() as int + 1) =~= rest);
}

proof fn lemma_field_key(key: Seq<char>, value: Seq<char>)
    requires
        !key.contains('='),
    ensures
        first_index_of(field_text(key, value), '=') == key.len(),
        field_text(key, value).take(key.len() as int) == key,
        field_text(key, value).skip(key.len() as int + 1) == value,
{
    let s = field_text(key, value);
    assert forall|k: int| 0 <= k < key.len() implies s[k] != '=' by {
        assert(s[k] == key[k]);
    }
    lemma_first_index_of_unique(s, '=', key.len() as int);
    assert(s.take(key.len() as int) =~= key);
    assert(s.skip(key.len() as int + 1) =~= value);
}

proof fn lemma_dec_no_space(n: nat)
    ensures
        !dec(n).contains(' '),
        !(key_killer() + seq!['='] + dec(n)).contains(' '),
{
    lemma_dec_digits(n);
    assert forall|k: int| 0 <= k < dec(n).len() implies dec(n)[k] != ' ' by {
        assert(crate::dec::is_digit(dec(n)[k]));
    }
}

proof fn lemma_read_step(parts: Seq<Seq<char>>, st: Fields, st2: Fields)
    requires
        parts.len() > 0,
        field_step(st, parts[0]) == Some(st2),
    ensures
        read_fields(parts, st) == read_fields(parts.skip(1), st2),
{
}

proof fn lemma_no_space_field(key: Seq<char>, value: Seq<char>)
    requires
        !key.contains(' '),
        !value.contains(' '),
    ensures
        !field_text(key, value).contains(' '),
{
    let p = field_text(key, value);
    assert forall|k: int| 0 <= k < p.len() implies p[k] != ' ' by {
        if k < key.len() {
            assert(p[k] == key[k]);
        } else if k > key.len() {
            assert(p[k] == value[k - key.len() - 1]);
        }
    }
}

/// The four pieces of a rendered certificate's body.
#[verifier::spinoff_prover]
#[verifier::rlimit(50)]
proof fn lemma_cert_pieces(c: DeathCertV)
    requires
        !c.killer.contains(' '),
    ensures
        ({
            let t = cert_text(c);
            let p0 = field_text(key_killer(), c.killer);
            let p1 = field_text(key_tick(), dec(c.tick as nat));
            let p2 = field_text(key_users(), dec(c.users as nat));
            let p3 = field_text(key_witness(), witness_text());
            &&& t.len() >= 7 && t.take(6) == lit_death() && t.last() == '}'
            &&& split_spaces(t.subrange(6, t.len() - 1)) == seq![p0, p1, p2, p3]
        }),
{
    let t = cert_text(c);
    let p0 = field_text(key_killer(), c.killer);
    let p1 = field_text(key_tick(), dec(c.tick as nat));
    let p2 = field_text(key_users(), dec(c.users as nat));
    let p3 = field_text(key_witness(), witness_text());
    let inner = p0 + seq![' '] + p1 + seq![' '] + p2 + seq![' '] + p3;
    assert(t.take(6) =~= lit_death());
    assert(t.subrange(6, t.len() - 1) =~= inner);
    lemma_dec_no_space(c.tick as nat);
    lemma_dec_no_space(c.users as nat);
    assert(!key_killer().contains(' '));
    assert(!key_tick().contains(' '));
    assert(!key_users().contains(' '));
    assert(!key_witness().contains(' '));
    assert(!witness_text().contains(' '));
    lemma_no_space_field(key_killer(), c.killer);
    lemma_no_space_field(key_tick(), dec(c.tick as nat));
    lemma_no_space_field(key_users(), dec(c.users as nat));
    lemma_no_space_field(key_witness(), witness_text());
    lemma_split_one(p3);
    lemma_split_first(p2, p3);
    assert(p1 + seq![' '] + (p2 + seq![' '] + p3) =~= p1 + seq![' '] + p2 + seq![' '] + p3);
    lemma_split_first(p1, p2 + seq![' '] + p3);
    assert(p0 + seq![' '] + (p1 + seq![' '] + p2 + seq![' '] + p3) =~= inner);
    lemma_split_first(p0, p1 + seq![' '] + p2 + seq![' '] + p3);
    assert(split_spaces(inner) =~= seq![p0, p1, p2, p3]);
}

/// Reading the four pieces gives back all four fields.
#[verifier::spinoff_prover]
#[verifier::rlimit(50)]
proof fn lemma_cert_fields(c: DeathCertV)
    ensures
        read_fields(
            seq![
                field_text(key_killer(), c.killer),
                field_text(key_tick(), dec(c.tick as nat)),
                field_text(key_users(), dec(c.users as nat)),
                field_text(key_witness(), witness_text()),
            ],
            no_fields(),
        ) == Some::<Fields>((Some(c.killer), Some(c.tick as nat), Some(c.users as nat), Some(witness_text()))),
{
    let p0 = field_text(key_killer(), c.killer);
    let p1 = field_text(key_tick(), dec(c.tick as nat));
    let p2 = field_text(key_users(), dec(c.users as nat));
    let p3 = field_text(key_witness(), witness_text());
    let parts = seq![p0, p1, p2, p3];
    assert(!key_killer().contains('='));
    assert(!key_tick().contains('='));
    assert(!key_users().contains('='));
    assert(!key_witness().contains('='));
    lemma_field_key(key_killer(), c.killer);
    lemma_field_key(key_tick(), dec(c.tick as nat));
    lemma_field_key(key_users(), dec(c.users as nat));
    lemma_field_key(key_witness(), witness_text());
    lemma_parse_dec(c.tick as nat, u64::MAX as nat);
    lemma_parse_dec(c.users as nat, u32::MAX as nat);
    assert(key_tick() != key_killer());
    assert(key_users() != key_killer() && key_users() != key_tick());
    assert(key_witness() != key_killer() && key_witness() != key_tick() && key_witness() != key_users());
    let s0: Fields = (None, None, None, None);
    let s1: Fields = (Some(c.killer), None, None, None);
    let s2: Fields = (Some(c.killer), Some(c.tick as nat), None, None);
    let s3: Fields = (Some(c.killer), Some(c.tick as nat), Some(c.users as nat), None);
    let s4: Fields = (Some(c.killer), Some(c.tick as nat), Some(c.users as nat), Some(witness_text()));
    assert(field_step(s0, p0) == Some(s1));
    assert(field_step(s1, p1) == Some(s2));
    assert(field_step(s2, p2) == Some(s3));
    assert(field_step(s3, p3) == Some(s4));
    let q1 = parts.skip(1);
    let q2 = q1.skip(1);
    let q3 = q2.skip(1);
    let q4 = q3.skip(1);
    assert(q1 =~= seq![p1, p2, p3]);
    assert(q2 =~= seq![p2, p3]);
    assert(q3 =~= seq![p3]);
    assert(q4 =~= Seq::<Seq<char>>::empty());
    lemma_read_step(parts, s0, s1);
    lemma_read_step(q1, s1, s2);
    lemma_read_step(q2, s2, s3);
    lemma_read_step(q3, s3, s4);
}

/// Rendering a certificate and parsing it back gives the same
/// certificate, whenever the killer's name has no space in it.
#[verifier::spinoff_prover]
#[verifier::rlimit(50)]
pub proof fn lemma_cert_round_trip(c: DeathCertV)
    requires
        !c.killer.contains(' '),
    ensures
        cert_parse(cert_text(c), c.cell) == Some(c),
{
    lemma_cert_pieces(c);
    lemma_cert_fields(c);
}

/// The fields read so far, as exec values.
pub type FieldVals = (Option<Vec<char>>, Option<u64>, Option<u32>, Option<Vec<char>>);

pub open spec fn fields_view(x: FieldVals) -> Fields {
    (
        match x.0 {
            Some(v) => Some(v@),
            None => None,
        },
        match x.1 {
            Some(t) => Some(t as nat),
            None => None,
        },
        match x.2 {
            Some(u) => Some(u as nat),
            None => None,
        },
        match x.3 {
            Some(v) => Some(v@),
            None => None,
        },
    )
}

fn copy_range(v: &Vec<char>, lo: usize, hi: usize) -> (r: Vec<char>)
    requires
        lo <= hi <= v@.len(),
    ensures
        r@ == v@.subrange(lo as int, hi as int),
{
    let mut r: Vec<char> = Vec::new();
    let mut i = lo;
    while i < hi
        invariant
            lo <= i <= hi <= v@.len(),
            r@ == v@.subrange(lo as int, i as int),
        decreases hi - i,
    {
        r.push(v[i]);
        i = i + 1;
        assert(r@ =~= v@.subrange(lo as int, i as int));
    }
    r
}

/// The first position of `ch` in `v[lo..hi]` (or `hi`).
fn find_in(v: &Vec<char>, lo: usize, hi: usize, ch: char) -> (p: usize)
    requires
        lo <= hi <= v@.len(),
    ensures
        lo <= p <= hi,
        p - lo == first_index_of(v@.subrange(lo as int, hi as int), ch),
{
    let mut p = lo;
    while p < hi && v[p] != ch
        invariant
            lo <= p <= hi <= v@.len(),
            forall|k: int| lo <= k < p ==> v@[k] != ch,
        decreases hi - p,
    {
        p = p + 1;
    }
    let ghost x = v@.subrange(lo as int, hi as int);
    assert forall|k: int| 0 <= k < p - lo implies x[k] != ch by {
        assert(x[k] == v@[lo + k]);
    }
    proof { lemma_first_index_of_unique(x, ch, p - lo); }
    p
}

/// Read the piece `v[a..b]` into `st`; false when it is not a valid field.
fn read_piece(v: &Vec<char>, a: usize, b: usize, st: &mut FieldVals) -> (ok: bool)
    requires
        a <= b <= v@.len(),
    ensures
        match field_step(fields_view(*old(st)), v@.subrange(a as int, b as int)) {
            Some(n) => ok && fields_view(*final(st)) == n,
            None => !ok,
        },
{
    let ghost part = v@.subrange(a as int, b as int);
    let e = find_in(v, a, b, '=');
    if e >= b {
        return false;
    }
    assert(part.take(e - a) =~= v@.subrange(a as int, e as int));
    assert(part.skip(e - a + 1) =~= v@.subrange(e + 1, b as int));
    proof {
        reveal_strlit("killer");
        reveal_strlit("tick");
        reveal_strlit("users");
        reveal_strlit("witness");
        assert("killer"@ =~= key_killer());
        assert("tick"@ =~= key_tick());
        assert("users"@ =~= key_users());
        assert("witness"@ =~= key_witness());
    }
    if range_eq_str(v, a, e, "killer") {
        st.0 = Some(copy_range(v, e + 1, b));
        true
    } else if range_eq_str(v, a, e, "tick") {
        match parse_unsigned_chars(v, e + 1, b, 0xffff_ffff_ffff_ffff) {
            Some(t) => {
                st.1 = Some(t);
                true
            },
            None => false,
        }
    } else if range_eq_str(v, a, e, "users") {
        match parse_unsigned_chars(v, e + 1, b, 0xffff_ffff) {
            Some(u) => {
                st.2 = Some(u as u32);
                true
            },
            None => false,
        }
    } else if range_eq_str(v, a, e, "witness") {
        st.3 = Some(copy_range(v, e + 1, b));
        true
    } else {
        false
    }
}

impl DeathCert {
    /// The byte-stable rendered form.
    pub fn render(&self) -> (s: String)
        ensures
            s@ == cert_text(self@),
    {
        let mut s = String::new();
        proof {
            reveal_strlit("death{killer=");
            reveal_strlit(" tick=");
            reveal_strlit(" users=");
            reveal_strlit(" witness=no-demand}");
        }
        push_str(&mut s, "death{killer=");
        push_str(&mut s, self.killer.as_str());
        push_str(&mut s, " tick=");
        push_dec(&mut s, self.tick);
        push_str(&mut s, " users=");
        push_dec(&mut s, self.users as u64);
        push_str(&mut s, " witness=no-demand}");
        assert(s@ =~= cert_text(self@));
        s
    }

    /// Parse from a ledger line: `None` unless the form is exact (a bare
    /// prose line is not a certificate).
    pub fn parse(ledger: &str, cell: CellId) -> (r: Option<DeathCert>)
        ensures
            match r {
                Some(c) => cert_parse(ledger@, cell) == Some(c@),
                None => cert_parse(ledger@, cell) is None,
            },
    {
        let v = chars_of(ledger);
        let n = v.len();
        proof {
            reveal_strlit("death{");
            assert("death{"@ =~= lit_death());
        }
        if !(n >= 7 && starts_with_str(&v, "death{") && v[n - 1] == '}') {
            return None;
        }
        let hi = n - 1;
        let ghost inner = v@.subrange(6, hi as int);
        let ghost init: Fields = no_fields();
        let mut st: FieldVals = (None, None, None, None);
        let mut start: usize = 6;
        loop
            invariant
                6 <= start <= hi,
                hi == v@.len() - 1,
                v@ == ledger@,
                ledger@.len() >= 7 && ledger@.take(6) == lit_death() && ledger@.last() == '}',
                inner == v@.subrange(6, hi as int),
                init == no_fields(),
                read_fields(split_spaces(inner), init) == read_fields(
                    split_spaces(v@.subrange(start as int, hi as int)),
                    fields_view(st),
                ),
            ensures
                read_fields(split_spaces(inner), init) == Some(fields_view(st)),
            decreases hi - start,
        {
            let ghost x = v@.subrange(start as int, hi as int);
            let p = find_in(&v, start, hi, ' ');
            let ghost before = fields_view(st);
            if !read_piece(&v, start, p, &mut st) {
                proof {
                    let parts = split_spaces(x);
                    if p >= hi {
                        assert(x.take(p - start) =~= x);
                        assert(parts == seq![x]);
                    } else {
                        assert(x.take(p - start) =~= v@.subrange(start as int, p as int));
                    }
                    assert(parts[0] == v@.subrange(start as int, p as int));
                    assert(read_fields(parts, before) is None);
                    assert(read_fields(split_spaces(inner), init) is None);
                    assert(inner == ledger@.subrange(6, ledger@.len() - 1));
                    assert(cert_parse(ledger@, cell) is None);
                }
                return None;
            }
            if p >= hi {
                proof {
                    assert(x.take(p - start) =~= x);
                    assert(split_spaces(x) == seq![x]);
                    lemma_read_step(seq![x], before, fields_view(st));
                    assert(seq![x].skip(1) =~= Seq::<Seq<char>>::empty());
                }
                break;
            }
            proof {
                assert(x.take(p - start) =~= v@.subrange(start as int, p as int));
                assert(x.skip(p - start + 1) =~= v@.subrange(p + 1, hi as int));
                let parts = split_spaces(x);
                assert(parts[0] == v@.subrange(start as int, p as int));
                assert(parts.skip(1) =~= split_spaces(v@.subrange(p + 1, hi as int)));
                lemma_read_step(parts, before, fields_view(st));
            }
            start = p + 1;
        }
        proof {
            reveal_strlit("no-demand");
            assert("no-demand"@ =~= witness_text());
        }
        let (k, t, u, w) = st;
        let w_ok = match &w {
            Some(wv) => crate::chars::chars_eq_str(wv, "no-demand"),
            None => false,
        };
        if !w_ok {
            return None;
        }
        match (k, t, u) {
            (Some(kv), Some(tv), Some(uv)) => {
                let killer = crate::chars::string_of(&kv);
                Some(DeathCert { cell, killer, tick: tv, users: uv })
            },
            _ => None,
        }
    }
}

/// How a cell stands at a stage: dead (no path to a terminator now),
/// cold (live now, dead by the pipeline's end) or warm (live and
/// surviving).
#[derive(Clone, Copy, PartialEq, Eq, Debug, Default, Structural)]
pub enum DecayClass {
    #[default]
    Dead,
    Cold,
    Warm,
}

/// Per-stage decay counts, summed over a corpus.
#[derive(Clone, Debug, Default)]
pub struct StageDecay {
    pub stage: u64,
    /// empty for the input stage
    pub pass_after: String,
    pub dead: u64,
    pub cold: u64,
    pub warm: u64,
}

/// A decay curve measured over a corpus.
#[derive(Clone, Debug, Default)]
pub struct DecayCurves {
    pub fabrics: u64,
    pub cells_in: u64,
    pub cells_out: u64,
    /// per pipeline tick: cells removed (all causes)
    pub deaths: Vec<u64>,
    /// per pipeline tick: deaths that are certified decay kills
    pub decay_kills: Vec<u64>,
    /// per stage: dead/cold/warm counts summed over fabrics
    pub stages: Vec<StageDecay>,
    /// deaths rejected by certificate verification (must stay 0)
    pub bogus_deaths: u64,
    /// total ledger bytes across the corpus
    pub ledger_bytes: u64,
    /// total ledger entries (one per tick per fabric)
    pub weft_entries: u64,
}

/// Cell `a` is present and takes `b` as an operand: `a` demands `b`.
pub open spec fn demands(f: Fabric, a: u32, b: u32) -> bool {
    cell_at(f, a as int) is Some && cell_at(f, a as int)->0.operands.contains(CellId(b))
}

/// Cell `x` is present and a terminator.
pub open spec fn is_term_cell(f: Fabric, x: u32) -> bool {
    cell_at(f, x as int) is Some && kind_is_terminator(cell_at(f, x as int)->0.kind)
}

/// `p` is a demand chain: it starts at a terminator and each element
/// demands the next.
pub open spec fn is_demand_chain(f: Fabric, p: Seq<u32>) -> bool {
    &&& p.len() >= 1
    &&& is_term_cell(f, p[0])
    &&& forall|i: int| 0 <= i < p.len() - 1 ==> #[trigger] demands(f, p[i], p[i + 1])
}

/// Some demand chain from a terminator holds `x`.
pub open spec fn is_live(f: Fabric, x: u32) -> bool {
    exists|p: Seq<u32>| #[trigger] is_demand_chain(f, p) && p.last() == x
}

proof fn lemma_live_step(f: Fabric, a: u32, b: u32)
    requires
        is_live(f, a),
        demands(f, a, b),
    ensures
        is_live(f, b),
{
    let p = choose|p: Seq<u32>| #[trigger] is_demand_chain(f, p) && p.last() == a;
    let q = p.push(b);
    assert forall|i: int| 0 <= i < q.len() - 1 implies #[trigger] demands(f, q[i], q[i + 1]) by {
        if i < p.len() - 1 {
            assert(demands(f, p[i], p[i + 1]));
        }
    }
    assert(is_demand_chain(f, q));
}

proof fn lemma_closed_holds_chain(f: Fabric, s: Seq<u32>, p: Seq<u32>, k: int)
    requires
        is_demand_chain(f, p),
        forall|t: u32| #[trigger] is_term_cell(f, t) ==> s.contains(t),
        forall|x: u32, y: u32| #[trigger] s.contains(x) && #[trigger] demands(f, x, y) ==> s.contains(y),
        0 <= k < p.len(),
    ensures
        s.contains(p[k]),
    decreases k,
{
    if k > 0 {
        lemma_closed_holds_chain(f, s, p, k - 1);
        let i = k - 1;
        assert(demands(f, p[i], p[i + 1]));
    }
}

/// The live (demanded) closure: every id reachable backwards over
/// operands from a terminator, terminators included. Ascending.
pub fn live_closure(f: &Fabric) -> (out: Vec<CellId>)
    requires
        f.slab@.len() <= u32::MAX,
    ensures
        forall|i: int, j: int| 0 <= i < j < out@.len() ==> out@[i].0 < out@[j].0,
        forall|x: CellId| #[trigger] out@.contains(x) <==> is_live(*f, x.0),
{
    let ids = f.cells();
    let mut live: Vec<u32> = Vec::new();
    let mut work: Vec<u32> = Vec::new();
    let mut i: usize = 0;
    while i < ids.len()
        invariant
            forall|a: int, b: int| 0 <= a < b < ids@.len() ==> ids@[a].0 < ids@[b].0,
            forall|id: CellId| #[trigger] ids@.contains(id) <==> cell_at(*f, id.0 as int) is Some,
            i <= ids@.len(),
            work@ == live@,
            live@.no_duplicates(),
            forall|k: int| #![trigger live@[k]] 0 <= k < live@.len() ==> exists|m: int| 0 <= m < i && #[trigger] ids@[m].0 == live@[k],
            forall|x: u32| #[trigger] live@.contains(x) ==> is_term_cell(*f, x),
            forall|m: int| 0 <= m < i && #[trigger] is_term_cell(*f, ids@[m].0) ==> live@.contains(ids@[m].0),
        decreases ids@.len() - i,
    {
        let id = ids[i];
        proof {
            assert(ids@.contains(id));
        }
        let c = f.cell(id).unwrap();
        if c.is_terminator() {
            let ghost before = live@;
            proof {
                assert forall|k: int| 0 <= k < before.len() implies before[k] != id.0 by {
                    let m = choose|m: int| 0 <= m < i && #[trigger] ids@[m].0 == before[k];
                }
            }
            live.push(id.0);
            work.push(id.0);
            proof {
                assert(live@[live@.len() - 1] == id.0);
                assert forall|k: int| #![trigger live@[k]] 0 <= k < live@.len() implies exists|m: int| 0 <= m < i + 1 && #[trigger] ids@[m].0
                    == live@[k] by {
                    if k < before.len() {
                        assert(live@[k] == before[k]);
                        let m = choose|m: int| 0 <= m < i && #[trigger] ids@[m].0 == before[k];
                    } else {
                        assert(ids@[i as int].0 == live@[k]);
                    }
                }
                assert forall|x: u32| #[trigger] live@.contains(x) implies is_term_cell(*f, x) by {
                    let k = choose|k: int| 0 <= k < live@.len() && live@[k] == x;
                    if k < before.len() {
                        assert(before[k] == x);
                        assert(before.contains(x));
                    }
                }
                assert forall|m: int| 0 <= m < i + 1 && #[trigger] is_term_cell(*f, ids@[m].0) implies live@.contains(
                    ids@[m].0,
                ) by {
                    if m < i {
                        let k = choose|k: int| 0 <= k < before.len() && before[k] == ids@[m].0;
                        assert(live@[k] == ids@[m].0);
                    }
                }
            }
        }
        i = i + 1;
    }
    proof {
        assert forall|t: u32| #[trigger] is_term_cell(*f, t) implies live@.contains(t) by {
            assert(ids@.contains(CellId(t)));
            let m = choose|m: int| 0 <= m < ids@.len() && ids@[m] == CellId(t);
            assert(is_term_cell(*f, ids@[m].0));
        }
        assert forall|x: u32| #[trigger] live@.contains(x) implies is_live(*f, x) by {
            assert(is_demand_chain(*f, seq![x]));
        }
    }
    while work.len() > 0
        invariant
            live@.no_duplicates(),
            forall|t: u32| #[trigger] is_term_cell(*f, t) ==> live@.contains(t),
            forall|x: u32| #[trigger] live@.contains(x) ==> is_live(*f, x),
            forall|x: u32| #[trigger] work@.contains(x) ==> live@.contains(x),
            forall|x: u32, y: u32| #[trigger] live@.contains(x) && #[trigger] demands(*f, x, y) ==> work@.contains(x)
                || live@.contains(y),
        decreases 0x1_0000_0000 - live@.len(), work@.len(),
    {
        proof { lemma_u32_distinct_bound(live@); }
        let ghost work_before = work@;
        let r = work.pop().unwrap();
        let ghost work_after = work@;
        proof {
            assert(work_before == work@.push(r));
            assert(work_before[work_before.len() - 1] == r);
            assert(work_before.contains(r));
            assert forall|x: u32| #[trigger] work@.contains(x) implies live@.contains(x) by {
                let k = choose|k: int| 0 <= k < work@.len() && work@[k] == x;
                assert(work_before[k] == x);
                assert(work_before.contains(x));
            }
            assert forall|x: u32, y: u32| #[trigger] live@.contains(x) && #[trigger] demands(*f, x, y) implies x == r
                || work@.contains(x) || live@.contains(y) by {
                if work_before.contains(x) && x != r {
                    let k = choose|k: int| 0 <= k < work_before.len() && work_before[k] == x;
                    assert(work@[k] == x);
                }
            }
        }
        let ghost live0 = live@;
        if let Some(c) = f.cell(CellId(r)) {
            let mut j: usize = 0;
            while j < c.operands.len()
                invariant
                    cell_at(*f, r as int) == Some(c@),
                    j <= c.operands@.len(),
                    live@.no_duplicates(),
                    live0.contains(r),
                    live0.len() <= live@.len(),
                    forall|x: u32| #[trigger] live0.contains(x) ==> live@.contains(x),
                    forall|x: u32| #[trigger] live@.contains(x) ==> is_live(*f, x),
                    forall|x: u32| #[trigger] work@.contains(x) ==> live@.contains(x),
                    forall|k: int| 0 <= k < j ==> live@.contains(#[trigger] c.operands@[k].0),
                    forall|x: u32, y: u32| #[trigger] live@.contains(x) && #[trigger] demands(*f, x, y) ==> x == r
                        || work@.contains(x) || live@.contains(y),
                    work@.len() >= work_after.len(),
                    live@.len() - live0.len() == work@.len() - work_after.len(),
                decreases c.operands@.len() - j,
            {
                let op = c.operands[j].0;
                if !contains_id(&live, op) {
                    proof {
                        assert(demands(*f, r, op)) by {
                            assert(c.operands@[j as int] == CellId(op));
                        }
                        lemma_live_step(*f, r, op);
                    }
                    let ghost live_before = live@;
                    let ghost work_before_push = work@;
                    live.push(op);
                    work.push(op);
                    proof {
                        assert(live@[live@.len() - 1] == op);
                        assert(work@[work@.len() - 1] == op);
                        assert forall|x: u32| #[trigger] live_before.contains(x) implies live@.contains(x) by {
                            let k = choose|k: int| 0 <= k < live_before.len() && live_before[k] == x;
                            assert(live@[k] == x);
                        }
                        assert forall|x: u32| #[trigger] work_before_push.contains(x) implies work@.contains(x) by {
                            let k = choose|k: int| 0 <= k < work_before_push.len() && work_before_push[k] == x;
                            assert(work@[k] == x);
                        }
                        assert forall|x: u32| #[trigger] live@.contains(x) implies x == op || live_before.contains(x) by {
                            let k = choose|k: int| 0 <= k < live@.len() && live@[k] == x;
                            if k < live_before.len() {
                                assert(live_before[k] == x);
                            }
                        }
                        assert forall|x: u32| #[trigger] work@.contains(x) implies x == op || work_before_push.contains(x) by {
                            let k = choose|k: int| 0 <= k < work@.len() && work@[k] == x;
                            if k < work_before_push.len() {
                                assert(work_before_push[k] == x);
                            }
                        }
                    }
                }
                j = j + 1;
            }
            proof {
                assert forall|x: u32, y: u32| #[trigger] live@.contains(x) && #[trigger] demands(*f, x, y) implies work@.contains(x)
                    || live@.contains(y) by {
                    if x == r {
                        let k = choose|k: int| 0 <= k < c.operands@.len() && c.operands@[k] == CellId(y);
                        assert(live@.contains(c.operands@[k].0));
                    }
                }
            }
        }
        proof {
            lemma_u32_distinct_bound(live@);
        }
    }
    proof {
        assert forall|x: u32| is_live(*f, x) implies #[trigger] live@.contains(x) by {
            let p = choose|p: Seq<u32>| #[trigger] is_demand_chain(*f, p) && p.last() == x;
            lemma_closed_holds_chain(*f, live@, p, p.len() - 1);
        }
    }
    let ghost before = live@;
    sort_ids(&mut live);
    proof {
        assert forall|x: u32| #[trigger] live@.contains(x) <==> before.contains(x) by {
            assert(live@.to_multiset().count(x) == before.to_multiset().count(x));
            vstd::seq_lib::to_multiset_contains(live@, x);
            vstd::seq_lib::to_multiset_contains(before, x);
        }
    }
    let mut out: Vec<CellId> = Vec::new();
    let mut k: usize = 0;
    while k < live.len()
        invariant
            k <= live@.len(),
            out@.len() == k,
            forall|m: int| 0 <= m < k ==> #[trigger] out@[m] == CellId(live@[m]),
        decreases live@.len() - k,
    {
        out.push(CellId(live[k]));
        k = k + 1;
    }
    proof {
        assert forall|x: CellId| #[trigger] out@.contains(x) <==> is_live(*f, x.0) by {
            if out@.contains(x) {
                let m = choose|m: int| 0 <= m < out@.len() && out@[m] == x;
                assert(live@[m] == x.0);
                assert(live@.contains(x.0));
            }
            if is_live(*f, x.0) {
                assert(live@.contains(x.0));
                let m = choose|m: int| 0 <= m < live@.len() && live@[m] == x.0;
                assert(out@[m] == x);
            }
        }
        assert forall|a: int, b: int| 0 <= a < b < out@.len() implies out@[a].0 < out@[b].0 by {
            assert(out@[a] == CellId(live@[a]));
            assert(out@[b] == CellId(live@[b]));
        }
    }
    out
}

/// The class of cell `id` given the cells that are dead by the end of
/// the pipeline: dead when no demand chain holds it now, cold when live
/// now but dead by the end, warm otherwise.
pub open spec fn decay_class(f: Fabric, eventually_dead: Seq<CellId>, id: CellId) -> DecayClass {
    if !is_live(f, id.0) {
        DecayClass::Dead
    } else if eventually_dead.contains(id) {
        DecayClass::Cold
    } else {
        DecayClass::Warm
    }
}

/// Whether `x` occurs in `v`.
fn has_cell(v: &[CellId], x: CellId) -> (b: bool)
    ensures
        b == v@.contains(x),
{
    let mut i: usize = 0;
    while i < v.len()
        invariant
            i <= v@.len(),
            forall|k: int| 0 <= k < i ==> v@[k] != x,
        decreases v@.len() - i,
    {
        if v[i].0 == x.0 {
            assert(v@[i as int] == x);
            return true;
        }
        i = i + 1;
    }
    false
}

/// Classify every present cell of `f`, in id order.
pub fn classify(f: &Fabric, eventually_dead: &[CellId]) -> (out: Vec<(CellId, DecayClass)>)
    requires
        f.slab@.len() <= u32::MAX,
    ensures
        forall|i: int, j: int| 0 <= i < j < out@.len() ==> out@[i].0.0 < out@[j].0.0,
        forall|id: CellId| cell_at(*f, id.0 as int) is Some <==> exists|k: int| 0 <= k < out@.len() && #[trigger] out@[k].0 == id,
        forall|k: int| 0 <= k < out@.len() ==> #[trigger] out@[k].1 == decay_class(*f, eventually_dead@, out@[k].0),
{
    let live = live_closure(f);
    let ids = f.cells();
    let mut out: Vec<(CellId, DecayClass)> = Vec::new();
    let mut i: usize = 0;
    while i < ids.len()
        invariant
            forall|a: int, b: int| 0 <= a < b < ids@.len() ==> ids@[a].0 < ids@[b].0,
            forall|id: CellId| #[trigger] ids@.contains(id) <==> cell_at(*f, id.0 as int) is Some,
            forall|x: CellId| #[trigger] live@.contains(x) <==> is_live(*f, x.0),
            i <= ids@.len(),
            out@.len() == i,
            forall|k: int| 0 <= k < i ==> (#[trigger] out@[k]).0 == ids@[k],
            forall|k: int| 0 <= k < i ==> #[trigger] out@[k].1 == decay_class(*f, eventually_dead@, out@[k].0),
        decreases ids@.len() - i,
    {
        let id = ids[i];
        let class = if !has_cell(live.as_slice(), id) {
            DecayClass::Dead
        } else if has_cell(eventually_dead, id) {
            DecayClass::Cold
        } else {
            DecayClass::Warm
        };
        out.push((id, class));
        i = i + 1;
    }
    proof {
        assert forall|id: CellId| cell_at(*f, id.0 as int) is Some <==> exists|k: int| 0 <= k < out@.len() && #[trigger] out@[k].0 == id by {
            if cell_at(*f, id.0 as int) is Some {
                assert(ids@.contains(id));
                let k = choose|k: int| 0 <= k < ids@.len() && ids@[k] == id;
                assert(out@[k].0 == id);
            }
            if exists|k: int| 0 <= k < out@.len() && #[trigger] out@[k].0 == id {
                let k = choose|k: int| 0 <= k < out@.len() && #[trigger] out@[k].0 == id;
                assert(ids@[k] == id);
                assert(ids@.contains(id));
            }
        }
        assert forall|a: int, b: int| 0 <= a < b < out@.len() implies out@[a].0.0 < out@[b].0.0 by {
            assert(out@[a].0 == ids@[a] && out@[b].0 == ids@[b]);
        }
    }
    out
}

/// The certificates parsed from the first `n` edits' removal ledgers.
pub open spec fn certs_of(edits: Seq<crate::diff::Edit>, n: int) -> Seq<DeathCertV>
    decreases n,
{
    if n <= 0 {
        Seq::empty()
    } else {
        certs_of(edits, n - 1) + match edits[n - 1] {
            crate::diff::Edit::RemoveCell { id, ledger, .. } => match cert_parse(ledger@, id) {
                Some(c) => seq![c],
                None => Seq::empty(),
            },
            _ => Seq::empty(),
        }
    }
}

/// The typed certificates of a record's removals, in edit order.
pub fn deaths(rec: &crate::diff::DiffRecord) -> (out: Vec<DeathCert>)
    ensures
        out@.map_values(|c: DeathCert| c@) == certs_of(rec.edits@, rec.edits@.len() as int),
{
    let mut out: Vec<DeathCert> = Vec::new();
    let mut k: usize = 0;
    while k < rec.edits.len()
        invariant
            k <= rec.edits@.len(),
            out@.map_values(|c: DeathCert| c@) == certs_of(rec.edits@, k as int),
        decreases rec.edits@.len() - k,
    {
        let ghost before = out@;
        if let crate::diff::Edit::RemoveCell { id, ledger, .. } = &rec.edits[k] {
            if let Some(c) = DeathCert::parse(ledger.as_str(), *id) {
                out.push(c);
                assert(out@.map_values(|c: DeathCert| c@) =~= before.map_values(|c: DeathCert| c@).push(c@));
            }
        }
        proof {
            assert(certs_of(rec.edits@, k + 1) =~= certs_of(rec.edits@, k as int) + match rec.edits@[k as int] {
                crate::diff::Edit::RemoveCell { id, ledger, .. } => match cert_parse(ledger@, id) {
                    Some(c) => seq![c],
                    None => Seq::empty(),
                },
                _ => Seq::empty(),
            });
        }
        k = k + 1;
    }
    out
}

/// Cell `b` uses cell `a` (in some slot), by the fabric's use tables.
pub open spec fn user_edge(f: Fabric, a: u32, b: u32) -> bool {
    exists|s: u32| #[trigger] row_at(f.tables.users@, a as int).contains((CellId(b), s))
}

/// `p` is a demand path from `from`: each cell is used by the next, and
/// it ends at a terminator other than `from`.
pub open spec fn is_demand_path(f: Fabric, p: Seq<CellId>, from: CellId) -> bool {
    &&& p.len() >= 1
    &&& p[0] == from
    &&& is_term_cell(f, p.last().0)
    &&& p.last() != from
    &&& forall|i: int| 0 <= i < p.len() - 1 ==> #[trigger] user_edge(f, p[i].0, p[i + 1].0)
}

proof fn lemma_closed_holds_path(f: Fabric, s: Seq<u32>, p: Seq<CellId>, k: int)
    requires
        p.len() >= 1,
        s.contains(p[0].0),
        forall|i: int| 0 <= i < p.len() - 1 ==> #[trigger] user_edge(f, p[i].0, p[i + 1].0),
        forall|x: u32, y: u32| #[trigger] s.contains(x) && #[trigger] user_edge(f, x, y) ==> s.contains(y),
        0 <= k < p.len(),
    ensures
        s.contains(p[k].0),
    decreases k,
{
    if k > 0 {
        lemma_closed_holds_path(f, s, p, k - 1);
        let i = k - 1;
        assert(user_edge(f, p[i].0, p[i + 1].0));
    }
}

/// A short demand path from `from` to a terminator other than itself,
/// found breadth first over use edges; `None` when there is none.
pub fn demand_path(f: &Fabric, from: CellId) -> (r: Option<Vec<CellId>>)
    ensures
        match r {
            Some(p) => is_demand_path(*f, p@, from),
            None => forall|p: Seq<CellId>| !#[trigger] is_demand_path(*f, p, from),
        },
{
    let mut nodes: Vec<u32> = Vec::new();
    let mut parent: Vec<usize> = Vec::new();
    nodes.push(from.0);
    parent.push(0);
    let mut qi: usize = 0;
    while qi < nodes.len()
        invariant
            nodes@.len() >= 1,
            nodes@[0] == from.0,
            nodes@.no_duplicates(),
            parent@.len() == nodes@.len(),
            qi <= nodes@.len(),
            forall|k: int| 1 <= k < nodes@.len() ==> (#[trigger] parent@[k]) < k && user_edge(
                *f,
                nodes@[parent@[k] as int],
                nodes@[k],
            ),
            forall|k: int, m: int| 0 <= k < qi && 0 <= m < row_at(f.tables.users@, nodes@[k] as int).len() ==> nodes@.contains(
                (#[trigger] row_at(f.tables.users@, nodes@[k] as int)[m]).0.0,
            ),
            forall|k: int| 0 <= k < qi ==> !(is_term_cell(*f, #[trigger] nodes@[k]) && nodes@[k] != from.0),
        decreases 0x1_0000_0000 - qi,
    {
        proof { lemma_u32_distinct_bound(nodes@); }
        let cur = nodes[qi];
        let is_term = match f.cell(CellId(cur)) {
            Some(c) => c.is_terminator(),
            None => false,
        };
        if is_term && cur != from.0 {
            let mut rev: Vec<CellId> = Vec::new();
            rev.push(CellId(cur));
            let mut j = qi;
            while j != 0
                invariant
                    nodes@.len() >= 1,
                    nodes@[0] == from.0,
                    parent@.len() == nodes@.len(),
                    forall|k: int| 1 <= k < nodes@.len() ==> (#[trigger] parent@[k]) < k && user_edge(
                        *f,
                        nodes@[parent@[k] as int],
                        nodes@[k],
                    ),
                    j < nodes@.len(),
                    rev@.len() >= 1,
                    rev@[0] == CellId(cur),
                    rev@.last() == CellId(nodes@[j as int]),
                    forall|i: int| 0 <= i < rev@.len() - 1 ==> #[trigger] user_edge(*f, rev@[i + 1].0, rev@[i].0),
                decreases j,
            {
                let ghost old_rev = rev@;
                let pj = parent[j];
                rev.push(CellId(nodes[pj]));
                proof {
                    assert forall|i: int| 0 <= i < rev@.len() - 1 implies #[trigger] user_edge(*f, rev@[i + 1].0, rev@[i].0) by {
                        if i < old_rev.len() - 1 {
                            assert(rev@[i] == old_rev[i] && rev@[i + 1] == old_rev[i + 1]);
                        } else {
                            assert(rev@[i] == CellId(nodes@[j as int]));
                            assert(user_edge(*f, nodes@[parent@[j as int] as int], nodes@[j as int]));
                        }
                    }
                }
                j = pj;
            }
            let mut out: Vec<CellId> = Vec::new();
            let mut k: usize = rev.len();
            while k > 0
                invariant
                    k <= rev@.len(),
                    out@.len() == rev@.len() - k,
                    forall|i: int| 0 <= i < out@.len() ==> #[trigger] out@[i] == rev@[rev@.len() - 1 - i],
                decreases k,
            {
                k = k - 1;
                out.push(rev[k]);
            }
            proof {
                let n = rev@.len();
                assert(out@[0] == rev@[n - 1]);
                assert(out@.last() == rev@[0]);
                assert forall|i: int| 0 <= i < out@.len() - 1 implies #[trigger] user_edge(*f, out@[i].0, out@[i + 1].0) by {
                    let a = n - 1 - (i + 1);
                    assert(out@[i] == rev@[a + 1]);
                    assert(out@[i + 1] == rev@[a]);
                    assert(user_edge(*f, rev@[a + 1].0, rev@[a].0));
                }
            }
            return Some(out);
        }
        let users = f.uses_of(CellId(cur));
        let ghost nodes_q = nodes@;
        let mut m: usize = 0;
        while m < users.len()
            invariant
                users@ == row_at(f.tables.users@, cur as int),
                cur == nodes_q[qi as int],
                qi < nodes_q.len(),
                m <= users@.len(),
                nodes@.len() >= nodes_q.len(),
                forall|k: int| 0 <= k < nodes_q.len() ==> nodes@[k] == nodes_q[k],
                nodes@[0] == from.0,
                nodes@.no_duplicates(),
                parent@.len() == nodes@.len(),
                forall|k: int| 1 <= k < nodes@.len() ==> (#[trigger] parent@[k]) < k && user_edge(
                    *f,
                    nodes@[parent@[k] as int],
                    nodes@[k],
                ),
                forall|i: int| 0 <= i < m ==> nodes@.contains((#[trigger] users@[i]).0.0),
            decreases users@.len() - m,
        {
            let u = users[m].0.0;
            if !contains_id(&nodes, u) {
                let ghost nb = nodes@;
                proof {
                    assert(row_at(f.tables.users@, cur as int).contains((CellId(u), users@[m as int].1))) by {
                        assert(users@[m as int] == (CellId(u), users@[m as int].1));
                    }
                    assert(user_edge(*f, cur, u));
                }
                nodes.push(u);
                parent.push(qi);
                proof {
                    assert(nodes@[nodes@.len() - 1] == u);
                    assert forall|a: int, b: int| 0 <= a < nodes@.len() && 0 <= b < nodes@.len() && a != b implies nodes@[a]
                        != nodes@[b] by {
                        if a < nb.len() && b < nb.len() {
                            assert(nodes@[a] == nb[a] && nodes@[b] == nb[b]);
                        } else if a < nb.len() {
                            assert(nb.contains(nb[a]));
                        } else if b < nb.len() {
                            assert(nb.contains(nb[b]));
                        }
                    }
                    assert forall|i: int| 0 <= i < m + 1 implies nodes@.contains((#[trigger] users@[i]).0.0) by {
                        if i < m {
                            let q = choose|q: int| 0 <= q < nb.len() && nb[q] == users@[i].0.0;
                            assert(nodes@[q] == nb[q]);
                        } else {
                            assert(nodes@[nodes@.len() - 1] == u);
                        }
                    }
                    assert forall|k: int| 1 <= k < nodes@.len() implies (#[trigger] parent@[k]) < k && user_edge(
                        *f,
                        nodes@[parent@[k] as int],
                        nodes@[k],
                    ) by {
                        if k < nb.len() {
                            assert(nodes@[k] == nb[k]);
                            assert(nodes@[parent@[k] as int] == nb[parent@[k] as int]);
                        } else {
                            assert(nodes@[qi as int] == cur);
                        }
                    }
                }
            }
            m = m + 1;
        }
        proof {
            assert forall|k: int, mm: int| 0 <= k < qi + 1 && 0 <= mm < row_at(f.tables.users@, nodes@[k] as int).len()
                implies nodes@.contains((#[trigger] row_at(f.tables.users@, nodes@[k] as int)[mm]).0.0) by {
                assert(nodes@[k] == nodes_q[k]);
                if k < qi {
                    let x = row_at(f.tables.users@, nodes_q[k] as int)[mm].0.0;
                    assert(nodes_q.contains(x));
                    let q = choose|q: int| 0 <= q < nodes_q.len() && nodes_q[q] == x;
                    assert(nodes@[q] == x);
                } else {
                    assert(users@[mm] == row_at(f.tables.users@, nodes@[k] as int)[mm]);
                }
            }
            assert forall|k: int| 0 <= k < qi + 1 implies !(is_term_cell(*f, #[trigger] nodes@[k]) && nodes@[k] != from.0) by {
                assert(nodes@[k] == nodes_q[k]);
            }
        }
        qi = qi + 1;
    }
    proof {
        assert forall|x: u32, y: u32| #[trigger] nodes@.contains(x) && #[trigger] user_edge(*f, x, y) implies nodes@.contains(y) by {
            let k = choose|k: int| 0 <= k < nodes@.len() && nodes@[k] == x;
            let s = choose|s: u32| #[trigger] row_at(f.tables.users@, x as int).contains((CellId(y), s));
            let mm = choose|mm: int| 0 <= mm < row_at(f.tables.users@, x as int).len() && row_at(f.tables.users@, x as int)[mm]
                == (CellId(y), s);
            assert(row_at(f.tables.users@, nodes@[k] as int)[mm].0.0 == y);
        }
        assert forall|p: Seq<CellId>| !#[trigger] is_demand_path(*f, p, from) by {
            if is_demand_path(*f, p, from) {
                assert(nodes@.contains(p[0].0)) by {
                    assert(nodes@[0] == from.0);
                }
                lemma_closed_holds_path(*f, nodes@, p, p.len() - 1);
                let k = choose|k: int| 0 <= k < nodes@.len() && nodes@[k] == p.last().0;
                assert(!(is_term_cell(*f, nodes@[k]) && nodes@[k] != from.0));
                assert(p.last() == CellId(p.last().0));
            }
        }
    }
    None
}

/// The ids of a path joined by ` -> `.
pub open spec fn chain_text(p: Seq<CellId>) -> Seq<char>
    decreases p.len(),
{
    if p.len() == 0 {
        Seq::empty()
    } else if p.len() == 1 {
        cell_id_text(p[0])
    } else {
        chain_text(p.drop_last()) + " -> "@ + cell_id_text(p.last())
    }
}

/// The rejection of a bogus kill of `id`, naming the chain that holds it.
pub open spec fn bogus_text(id: CellId, chain: Seq<char>) -> Seq<char> {
    "death rejected: bogus kill of "@ + cell_id_text(id) + " \u{2014} the cell is LIVE; demand chain "@ + chain
        + " holds it"@
}

/// `m` rejects a bogus kill of `id`: it names some demand path of `id`,
/// or says the walk failed when there is none.
pub open spec fn bogus_ok(f: Fabric, id: CellId, m: Seq<char>) -> bool {
    ||| exists|p: Seq<CellId>| #[trigger] is_demand_path(f, p, id) && m == bogus_text(id, chain_text(p))
    ||| (forall|p: Seq<CellId>| !#[trigger] is_demand_path(f, p, id)) && m == bogus_text(
        id,
        "<demand path walk failed>"@,
    )
}

/// The verdict on one edit of a decay record: `None` when it passes,
/// `Some(Some(m))` when it is rejected with `m`, `Some(None)` when it is
/// a bogus kill of a live cell.
pub open spec fn death_verdict(before: Fabric, pass: Seq<char>, epoch: u64, e: crate::diff::Edit) -> Option<Option<Seq<char>>> {
    match e {
        crate::diff::Edit::RemoveCell { id, ledger, .. } => match cert_parse(ledger@, id) {
            None => Some(Some("death rejected: "@ + cell_id_text(id) + " removed by '"@ + pass
                + "' without a certificate (ledger: '"@ + ledger@
                + "') \u{2014} a decay death must name killer+tick+witness"@)),
            Some(c) => if c.killer != pass {
                Some(Some("death rejected: "@ + cell_id_text(id) + "'s certificate names killer '"@ + c.killer
                    + "' but the diff records '"@ + pass + "'"@))
            } else if c.tick != epoch {
                Some(Some("death rejected: "@ + cell_id_text(id) + "'s certificate names tick "@ + dec(c.tick as nat)
                    + " but the diff lands at epoch "@ + dec(epoch as nat)))
            } else if cell_at(before, id.0 as int) is None {
                Some(Some("death rejected: "@ + cell_id_text(id)
                    + "'s certificate names a cell that was not present pre-tick"@))
            } else if (row_at(before.tables.users@, id.0 as int).len() as u32) != c.users {
                Some(Some("death rejected: "@ + cell_id_text(id) + "'s certificate claims "@ + dec(c.users as nat)
                    + " users but the pre-tick fabric has "@ + dec(
                    (row_at(before.tables.users@, id.0 as int).len() as u32) as nat,
                )))
            } else if is_live(before, id.0) {
                Some(None)
            } else {
                None
            }
        },
        _ => None,
    }
}

/// Append the ids of `p` joined by ` -> `.
fn push_chain(out: &mut String, p: &Vec<CellId>)
    ensures
        final(out)@ == old(out)@ + chain_text(p@),
{
    let mut i: usize = 0;
    while i < p.len()
        invariant
            i <= p@.len(),
            out@ == old(out)@ + chain_text(p@.take(i as int)),
        decreases p@.len() - i,
    {
        let ghost before = out@;
        if i > 0 {
            push_str(out, " -> ");
        }
        let t = p[i].to_text();
        push_str(out, t.as_str());
        proof {
            let q = p@.take(i + 1);
            assert(q.drop_last() =~= p@.take(i as int));
            if i == 0 {
                assert(chain_text(q) == cell_id_text(q[0]));
            }
        }
        i = i + 1;
    }
    assert(p@.take(p@.len() as int) =~= p@);
}

/// Verify the death certificates of a decay record against the fabric
/// before the tick: every removal carries a parseable certificate that
/// names the record's pass and epoch, a cell present before with exactly
/// the claimed number of users, and no demand chain holding it. The
/// first removal that fails is rejected, naming the cell and the
/// mismatch; a bogus kill names the demand chain that holds the cell.
pub fn verify_deaths(before: &Fabric, rec: &crate::diff::DiffRecord) -> (r: Result<(), String>)
    requires
        before.slab@.len() <= u32::MAX,
    ensures
        match r {
            Ok(_) => forall|k: int| 0 <= k < rec.edits@.len() ==> #[trigger] death_verdict(
                *before,
                rec.pass@,
                rec.epoch,
                rec.edits@[k],
            ) is None,
            Err(m) => exists|k: int| {
                &&& 0 <= k < rec.edits@.len()
                &&& forall|j: int| 0 <= j < k ==> #[trigger] death_verdict(*before, rec.pass@, rec.epoch, rec.edits@[j]) is None
                &&& match #[trigger] death_verdict(*before, rec.pass@, rec.epoch, rec.edits@[k]) {
                    Some(Some(s)) => m@ == s,
                    Some(None) => match rec.edits@[k] {
                        crate::diff::Edit::RemoveCell { id, .. } => bogus_ok(*before, id, m@),
                        _ => false,
                    },
                    None => false,
                }
            },
        },
{
    let live = live_closure(before);
    let mut k: usize = 0;
    while k < rec.edits.len()
        invariant
            k <= rec.edits@.len(),
            forall|x: CellId| #[trigger] live@.contains(x) <==> is_live(*before, x.0),
            forall|j: int| 0 <= j < k ==> #[trigger] death_verdict(*before, rec.pass@, rec.epoch, rec.edits@[j]) is None,
        decreases rec.edits@.len() - k,
    {
        if let crate::diff::Edit::RemoveCell { id, ledger, .. } = &rec.edits[k] {
            let id = *id;
            let cert = match DeathCert::parse(ledger.as_str(), id) {
                Some(c) => c,
                None => {
                    let mut m = String::new();
                    push_str(&mut m, "death rejected: ");
                    let t = id.to_text();
                    push_str(&mut m, t.as_str());
                    push_str(&mut m, " removed by '");
                    push_str(&mut m, rec.pass);
                    push_str(&mut m, "' without a certificate (ledger: '");
                    push_str(&mut m, ledger.as_str());
                    push_str(&mut m, "') \u{2014} a decay death must name killer+tick+witness");
                    assert(death_verdict(*before, rec.pass@, rec.epoch, rec.edits@[k as int]) == Some(Some(m@)));
                    return Err(m);
                },
            };
            let t = id.to_text();
            if !crate::chars::str_eq(cert.killer.as_str(), rec.pass) {
                let mut m = String::new();
                push_str(&mut m, "death rejected: ");
                push_str(&mut m, t.as_str());
                push_str(&mut m, "'s certificate names killer '");
                push_str(&mut m, cert.killer.as_str());
                push_str(&mut m, "' but the diff records '");
                push_str(&mut m, rec.pass);
                push_str(&mut m, "'");
                assert(cert@.killer == cert.killer@);
                assert(death_verdict(*before, rec.pass@, rec.epoch, rec.edits@[k as int]) == Some(Some(m@)));
                return Err(m);
            }
            if cert.tick != rec.epoch {
                let mut m = String::new();
                push_str(&mut m, "death rejected: ");
                push_str(&mut m, t.as_str());
                push_str(&mut m, "'s certificate names tick ");
                push_dec(&mut m, cert.tick);
                push_str(&mut m, " but the diff lands at epoch ");
                push_dec(&mut m, rec.epoch);
                return Err(m);
            }
            if before.cell(id).is_none() {
                let mut m = String::new();
                push_str(&mut m, "death rejected: ");
                push_str(&mut m, t.as_str());
                push_str(&mut m, "'s certificate names a cell that was not present pre-tick");
                return Err(m);
            }
            let users = before.uses_of(id).len() as u32;
            if users != cert.users {
                let mut m = String::new();
                push_str(&mut m, "death rejected: ");
                push_str(&mut m, t.as_str());
                push_str(&mut m, "'s certificate claims ");
                push_dec(&mut m, cert.users as u64);
                push_str(&mut m, " users but the pre-tick fabric has ");
                push_dec(&mut m, users as u64);
                return Err(m);
            }
            if has_cell(live.as_slice(), id) {
                let mut m = String::new();
                push_str(&mut m, "death rejected: bogus kill of ");
                push_str(&mut m, t.as_str());
                push_str(&mut m, " \u{2014} the cell is LIVE; demand chain ");
                match demand_path(before, id) {
                    Some(p) => {
                        push_chain(&mut m, &p);
                        push_str(&mut m, " holds it");
                        assert(bogus_ok(*before, id, m@));
                    },
                    None => {
                        push_str(&mut m, "<demand path walk failed>");
                        push_str(&mut m, " holds it");
                    },
                }
                return Err(m);
            }
        }
        k = k + 1;
    }
    Ok(())
}

} // verus!
