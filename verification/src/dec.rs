//! Decimal rendering and parsing of integers, as the textual formats use
//! them: `to_string` on the way out, `str::parse` on the way in.

use vstd::prelude::*;

verus! {

pub open spec fn is_digit(c: char) -> bool {
    '0' <= c && c <= '9'
}

pub open spec fn digit_val(c: char) -> nat {
    (c as int - '0' as int) as nat
}

pub open spec fn digit_char(d: nat) -> char {
    (d + '0' as int) as char
}

pub open spec fn all_digits(s: Seq<char>) -> bool {
    forall|i: int| 0 <= i < s.len() ==> is_digit(#[trigger] s[i])
}

/// The value of a run of decimal digits.
pub open spec fn digits_val(s: Seq<char>) -> nat
    decreases s.len(),
{
    if s.len() == 0 {
        0
    } else {
        digits_val(s.drop_last()) * 10 + digit_val(s.last())
    }
}

/// Canonical decimal text of a natural number (no sign, no leading zeros).
pub open spec fn dec(n: nat) -> Seq<char>
    decreases n,
{
    if n < 10 {
        seq![digit_char(n)]
    } else {
        dec(n / 10).push(digit_char(n % 10))
    }
}

/// Canonical decimal text of an integer: a leading '-' for negatives.
pub open spec fn dec_signed(x: int) -> Seq<char> {
    if x < 0 {
        seq!['-'].add(dec((-x) as nat))
    } else {
        dec(x as nat)
    }
}

/// What `str::parse` gives for an unsigned type whose largest value is
/// `max`: an optional '+', then one or more digits whose value fits.
pub open spec fn parse_unsigned(s: Seq<char>, max: nat) -> Option<nat> {
    let body = if s.len() > 0 && s[0] == '+' { s.drop_first() } else { s };
    if body.len() > 0 && all_digits(body) && digits_val(body) <= max {
        Some(digits_val(body))
    } else {
        None
    }
}

/// What `str::parse` gives for a signed type with range `[-neg_max, pos_max]`:
/// an optional sign, then one or more digits whose value fits.
pub open spec fn parse_signed(s: Seq<char>, neg_max: nat, pos_max: nat) -> Option<int> {
    if s.len() > 0 && s[0] == '-' {
        let body = s.drop_first();
        if body.len() > 0 && all_digits(body) && digits_val(body) <= neg_max {
            Some(-(digits_val(body) as int))
        } else {
            None
        }
    } else {
        match parse_unsigned(s, pos_max) {
            Some(v) => Some(v as int),
            None => None,
        }
    }
}

pub proof fn lemma_digit_char_val(d: nat)
    requires
        d < 10,
    ensures
        is_digit(digit_char(d)),
        digit_val(digit_char(d)) == d,
{
    assert(digit_char(d) as int == d + 48);
}

pub proof fn lemma_dec_digits(n: nat)
    ensures
        dec(n).len() >= 1,
        all_digits(dec(n)),
        digits_val(dec(n)) == n,
    decreases n,
{
    lemma_digit_char_val(n % 10);
    if n < 10 {
        assert(dec(n).drop_last() =~= Seq::<char>::empty());
        assert(digits_val(Seq::<char>::empty()) == 0);
        assert(digits_val(dec(n)) == digits_val(dec(n).drop_last()) * 10 + digit_val(dec(n).last()));
    } else {
        lemma_dec_digits(n / 10);
        assert(dec(n).drop_last() =~= dec(n / 10));
        assert(n == (n / 10) * 10 + n % 10);
        assert(digits_val(dec(n)) == digits_val(dec(n).drop_last()) * 10 + digit_val(dec(n).last()));
        assert forall|i: int| 0 <= i < dec(n).len() implies is_digit(#[trigger] dec(n)[i]) by {
            if i < dec(n).len() - 1 {
                assert(dec(n)[i] == dec(n / 10)[i]);
            }
        }
    }
}

/// Rendering then parsing an unsigned value gives it back.
pub proof fn lemma_parse_dec(n: nat, max: nat)
    requires
        n <= max,
    ensures
        parse_unsigned(dec(n), max) == Some(n),
{
    lemma_dec_digits(n);
    assert(is_digit(dec(n)[0]));
}

/// Rendering then parsing a signed value gives it back.
pub proof fn lemma_parse_dec_signed(x: int, neg_max: nat, pos_max: nat)
    requires
        -(neg_max as int) <= x <= pos_max,
    ensures
        parse_signed(dec_signed(x), neg_max, pos_max) == Some(x),
{
    if x < 0 {
        lemma_dec_digits((-x) as nat);
        assert(dec_signed(x).drop_first() =~= dec((-x) as nat));
    } else {
        lemma_parse_dec(x as nat, pos_max);
        lemma_dec_digits(x as nat);
        assert(is_digit(dec(x as nat)[0]));
    }
}

proof fn lemma_digits_val_prefix(s: Seq<char>, i: int)
    requires
        0 <= i <= s.len(),
        all_digits(s),
    ensures
        digits_val(s.take(i)) <= digits_val(s),
    decreases s.len(),
{
    if i < s.len() {
        assert(s.drop_last().take(i) =~= s.take(i));
        lemma_digits_val_prefix(s.drop_last(), i);
    } else {
        assert(s.take(i) =~= s);
    }
}

fn digit_of(d: u64) -> (c: char)
    requires
        d < 10,
    ensures
        c == digit_char(d as nat),
{
    let v: u8 = 48u8 + d as u8;
    v as char
}

/// Append the decimal text of `n`.
pub fn push_dec(out: &mut String, n: u64)
    ensures
        final(out)@ == old(out)@ + dec(n as nat),
    decreases n,
{
    if n >= 10 {
        push_dec(out, n / 10);
    }
    out.push(digit_of(n % 10));
    proof {
        if n >= 10 {
            assert(old(out)@ + dec(n as nat) =~= old(out)@ + dec((n / 10) as nat) + seq![digit_char((n % 10) as nat)]);
        } else {
            assert(dec(n as nat) =~= seq![digit_char(n as nat)]);
        }
    }
}

/// Append the decimal text of a signed value.
pub fn push_dec_signed(out: &mut String, x: i64)
    ensures
        final(out)@ == old(out)@ + dec_signed(x as int),
{
    if x < 0 {
        out.push('-');
        let m: u64 = (0i128 - x as i128) as u64;
        push_dec(out, m);
        assert(old(out)@ + dec_signed(x as int) =~= old(out)@.push('-') + dec(m as nat));
    } else {
        push_dec(out, x as u64);
    }
}

fn is_digit_exec(c: char) -> (b: bool)
    ensures
        b == is_digit(c),
{
    '0' <= c && c <= '9'
}

/// Value of the digits `s[lo..hi]` when they are all digits, there is at
/// least one, and the value is at most `max`.
pub fn parse_digits(s: &Vec<char>, lo: usize, hi: usize, max: u64) -> (r: Option<u64>)
    requires
        lo <= hi <= s@.len(),
    ensures
        ({
            let body = s@.subrange(lo as int, hi as int);
            match r {
                Some(v) => body.len() > 0 && all_digits(body) && digits_val(body) <= max
                    && v == digits_val(body),
                None => !(body.len() > 0 && all_digits(body) && digits_val(body) <= max),
            }
        }),
{
    let ghost body = s@.subrange(lo as int, hi as int);
    if lo == hi {
        return None;
    }
    let mut i = lo;
    let mut acc: u64 = 0;
    while i < hi
        invariant
            lo <= i <= hi <= s@.len(),
            body == s@.subrange(lo as int, hi as int),
            all_digits(body.take(i - lo)),
            acc == digits_val(body.take(i - lo)),
            acc <= max,
        decreases hi - i,
    {
        let c = s[i];
        if !is_digit_exec(c) {
            assert(body[i - lo] == c);
            return None;
        }
        let d: u64 = (c as u32 - 48u32) as u64;
        proof {
            let t = body.take(i - lo + 1);
            assert(t.drop_last() =~= body.take(i - lo));
            assert(t.last() == c);
        }
        if d > max || acc > (max - d) / 10 {
            proof {
                let t = body.take(i - lo + 1);
                assert(digits_val(t) == acc * 10 + d);
                if d <= max {
                    assert(acc * 10 + d > max) by (nonlinear_arith)
                        requires acc > (max - d) / 10, d <= max;
                }
                if all_digits(body) {
                    lemma_digits_val_prefix(body, i - lo + 1);
                }
            }
            return None;
        }
        assert(acc * 10 + d <= max) by (nonlinear_arith)
            requires acc <= (max - d) / 10, d <= 9, acc * 10 <= acc * 10;
        acc = acc * 10 + d;
        i = i + 1;
        proof {
            let t = body.take(i - lo);
            assert forall|k: int| 0 <= k < t.len() implies is_digit(#[trigger] t[k]) by {
                if k < t.len() - 1 {
                    assert(t[k] == body.take(i - lo - 1)[k]);
                }
            }
        }
    }
    assert(body.take(hi - lo) =~= body);
    Some(acc)
}


/// What `str::parse` gives for a signed 64-bit-or-narrower type on the
/// characters `s[lo..hi]`, with range `[-neg_max, pos_max]`.
pub fn parse_signed_chars(s: &Vec<char>, lo: usize, hi: usize, neg_max: u64, pos_max: u64) -> (r: Option<i64>)
    requires
        lo <= hi <= s@.len(),
        neg_max <= 0x8000_0000_0000_0000,
        pos_max <= 0x7fff_ffff_ffff_ffff,
    ensures
        match parse_signed(s@.subrange(lo as int, hi as int), neg_max as nat, pos_max as nat) {
            Some(x) => r == Some(x as i64),
            None => r is None,
        },
{
    let ghost body = s@.subrange(lo as int, hi as int);
    if lo < hi && s[lo] == '-' {
        assert(s@.subrange(lo + 1, hi as int) =~= body.drop_first());
        match parse_digits(s, lo + 1, hi, neg_max) {
            None => None,
            Some(v) => {
                if v == 0x8000_0000_0000_0000u64 {
                    Some(i64::MIN)
                } else {
                    let w: i64 = v as i64;
                    Some(-w)
                }
            },
        }
    } else {
        let start = if lo < hi && s[lo] == '+' { lo + 1 } else { lo };
        assert(s@.subrange(start as int, hi as int) =~= (if body.len() > 0 && body[0] == '+' {
            body.drop_first()
        } else {
            body
        }));
        match parse_digits(s, start, hi, pos_max) {
            None => None,
            Some(v) => Some(v as i64),
        }
    }
}

/// What `str::parse` gives for an unsigned type with largest value `max`
/// on the characters `s[lo..hi]`.
pub fn parse_unsigned_chars(s: &Vec<char>, lo: usize, hi: usize, max: u64) -> (r: Option<u64>)
    requires
        lo <= hi <= s@.len(),
    ensures
        match parse_unsigned(s@.subrange(lo as int, hi as int), max as nat) {
            Some(v) => r == Some(v as u64),
            None => r is None,
        },
{
    let ghost body = s@.subrange(lo as int, hi as int);
    let start = if lo < hi && s[lo] == '+' { lo + 1 } else { lo };
    assert(s@.subrange(start as int, hi as int) =~= (if body.len() > 0 && body[0] == '+' {
        body.drop_first()
    } else {
        body
    }));
    parse_digits(s, start, hi, max)
}

} // verus!
