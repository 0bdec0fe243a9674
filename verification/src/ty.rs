//! Types and constant values. Small on purpose: i1/i32/i64/f64.

use vstd::prelude::*;
use crate::chars::{str_eq, push_str, chars_of, range_eq_str};
use crate::dec::{dec_signed, push_dec_signed, parse_signed, lemma_parse_dec_signed, parse_signed_chars};

verus! {

#[derive(Clone, Copy, PartialEq, Eq, Debug, Hash, Structural)]
pub enum Type {
    I1,
    I32,
    I64,
    F64,
}

/// The textual name of a type.
pub open spec fn ty_text(t: Type) -> Seq<char> {
    match t {
        Type::I1 => seq!['i', '1'],
        Type::I32 => seq!['i', '3', '2'],
        Type::I64 => seq!['i', '6', '4'],
        Type::F64 => seq!['f', '6', '4'],
    }
}

/// The type whose name is `s`, if any.
pub open spec fn type_from_name(s: Seq<char>) -> Option<Type> {
    if s == ty_text(Type::I1) {
        Some(Type::I1)
    } else if s == ty_text(Type::I32) {
        Some(Type::I32)
    } else if s == ty_text(Type::I64) {
        Some(Type::I64)
    } else if s == ty_text(Type::F64) {
        Some(Type::F64)
    } else {
        None
    }
}

impl Type {
    pub fn name(self) -> (r: &'static str)
        ensures
            r@ == ty_text(self),
            self is I1 ==> r@ == "i1"@,
            self is I32 ==> r@ == "i32"@,
            self is I64 ==> r@ == "i64"@,
            self is F64 ==> r@ == "f64"@,
    {
        proof {
            lemma_type_names();
        }
        match self {
            Type::I1 => {
                proof { reveal_strlit("i1"); }
                "i1"
            },
            Type::I32 => {
                proof { reveal_strlit("i32"); }
                "i32"
            },
            Type::I64 => {
                proof { reveal_strlit("i64"); }
                "i64"
            },
            Type::F64 => {
                proof { reveal_strlit("f64"); }
                "f64"
            },
        }
    }

    pub fn parse(s: &str) -> (r: Option<Type>)
        ensures
            r == type_from_name(s@),
    {
        if str_eq(s, Type::I1.name()) {
            Some(Type::I1)
        } else if str_eq(s, Type::I32.name()) {
            Some(Type::I32)
        } else if str_eq(s, Type::I64.name()) {
            Some(Type::I64)
        } else if str_eq(s, Type::F64.name()) {
            Some(Type::F64)
        } else {
            None
        }
    }
}

/// Each type is written as its own name (`i1`, `i32`, `i64`, `f64`), and
/// reading a name gives that type back.
pub proof fn lemma_type_names()
    ensures
        ty_text(Type::I1) == "i1"@,
        ty_text(Type::I32) == "i32"@,
        ty_text(Type::I64) == "i64"@,
        ty_text(Type::F64) == "f64"@,
        type_from_name("i1"@) == Some(Type::I1),
        type_from_name("i32"@) == Some(Type::I32),
        type_from_name("i64"@) == Some(Type::I64),
        type_from_name("f64"@) == Some(Type::F64),
{
    reveal_strlit("i1");
    reveal_strlit("i32");
    reveal_strlit("i64");
    reveal_strlit("f64");
    assert(ty_text(Type::I1) =~= "i1"@);
    assert(ty_text(Type::I32) =~= "i32"@);
    assert(ty_text(Type::I64) =~= "i64"@);
    assert(ty_text(Type::F64) =~= "f64"@);
    lemma_ty_text_round_trip(Type::I1);
    lemma_ty_text_round_trip(Type::I32);
    lemma_ty_text_round_trip(Type::I64);
    lemma_ty_text_round_trip(Type::F64);
}

/// Parsing the name of a type gives the type back.
pub proof fn lemma_ty_text_round_trip(t: Type)
    ensures
        type_from_name(ty_text(t)) == Some(t),
{
    assert(ty_text(Type::I1) != ty_text(Type::I32));
    assert(ty_text(Type::I1) != ty_text(Type::I64));
    assert(ty_text(Type::I1) != ty_text(Type::F64));
    assert(ty_text(Type::I32) != ty_text(Type::I64));
    assert(ty_text(Type::I32) != ty_text(Type::F64));
    assert(ty_text(Type::I64)[0] != ty_text(Type::F64)[0]);
}

/// A constant value. The variant must agree with the declared type.
/// An `F64` constant is carried as its IEEE-754 bit pattern; arithmetic,
/// comparison and decimal text of floats are not part of this library.
#[derive(Clone, Copy, PartialEq, Eq, Debug, Structural)]
pub enum ConstVal {
    I1(bool),
    I32(i32),
    I64(i64),
    F64(u64),
}

pub open spec fn const_ty(v: ConstVal) -> Type {
    match v {
        ConstVal::I1(_) => Type::I1,
        ConstVal::I32(_) => Type::I32,
        ConstVal::I64(_) => Type::I64,
        ConstVal::F64(_) => Type::F64,
    }
}

pub open spec fn bool_text(b: bool) -> Seq<char> {
    if b {
        seq!['t', 'r', 'u', 'e']
    } else {
        seq!['f', 'a', 'l', 's', 'e']
    }
}

/// Text of a non-float constant in the textual format.
pub open spec fn const_text(v: ConstVal) -> Seq<char> {
    match v {
        ConstVal::I1(b) => bool_text(b),
        ConstVal::I32(x) => dec_signed(x as int),
        ConstVal::I64(x) => dec_signed(x as int) + ty_text(Type::I64),
        ConstVal::F64(_) => Seq::empty(),
    }
}

/// The non-float constant of type `ty` written as `s`, if `s` is one.
pub open spec fn const_from_text(ty: Type, s: Seq<char>) -> Option<ConstVal> {
    match ty {
        Type::I1 => if s == bool_text(true) {
            Some(ConstVal::I1(true))
        } else if s == bool_text(false) {
            Some(ConstVal::I1(false))
        } else {
            None
        },
        Type::I32 => match parse_signed(s, 0x8000_0000, 0x7fff_ffff) {
            Some(x) => Some(ConstVal::I32(x as i32)),
            None => None,
        },
        Type::I64 => if s.len() >= 3 && s.subrange(s.len() - 3, s.len() as int) == ty_text(
            Type::I64,
        ) {
            match parse_signed(
                s.subrange(0, s.len() - 3),
                0x8000_0000_0000_0000,
                0x7fff_ffff_ffff_ffff,
            ) {
                Some(x) => Some(ConstVal::I64(x as i64)),
                None => None,
            }
        } else {
            None
        },
        Type::F64 => None,
    }
}

impl ConstVal {
    pub fn ty(&self) -> (t: Type)
        ensures
            t == const_ty(*self),
    {
        match self {
            ConstVal::I1(_) => Type::I1,
            ConstVal::I32(_) => Type::I32,
            ConstVal::I64(_) => Type::I64,
            ConstVal::F64(_) => Type::F64,
        }
    }

    /// Render for the textual format. Float constants are rendered by the
    /// caller (their decimal text is not computed here).
    pub fn render(&self) -> (s: String)
        requires
            !(*self is F64),
        ensures
            s@ == const_text(*self),
    {
        let mut out = String::new();
        match self {
            ConstVal::I1(b) => {
                if *b {
                    proof { reveal_strlit("true"); }
                    push_str(&mut out, "true");
                } else {
                    proof { reveal_strlit("false"); }
                    push_str(&mut out, "false");
                }
            },
            ConstVal::I32(v) => {
                push_dec_signed(&mut out, *v as i64);
            },
            ConstVal::I64(v) => {
                push_dec_signed(&mut out, *v);
                push_str(&mut out, Type::I64.name());
            },
            ConstVal::F64(_) => {},
        }
        assert(out@ =~= const_text(*self));
        out
    }
}

impl ConstVal {
    /// The constant of type `ty` written as `s`. Float literals are not
    /// decoded here: for `F64` the answer is `None`.
    pub fn parse(ty: Type, s: &str) -> (r: Option<ConstVal>)
        ensures
            r == const_from_text(ty, s@),
    {
        let c = chars_of(s);
        assert(c@.subrange(0, c@.len() as int) =~= s@);
        parse_const_chars(ty, &c, 0, c.len())
    }
}

/// The constant of type `ty` written as `s[lo..hi]`.
pub fn parse_const_chars(ty: Type, s: &Vec<char>, lo: usize, hi: usize) -> (r: Option<ConstVal>)
    requires
        lo <= hi <= s@.len(),
    ensures
        r == const_from_text(ty, s@.subrange(lo as int, hi as int)),
{
    let ghost body = s@.subrange(lo as int, hi as int);
    match ty {
        Type::I1 => {
            proof {
                reveal_strlit("true");
                reveal_strlit("false");
                assert("true"@ =~= bool_text(true));
                assert("false"@ =~= bool_text(false));
            }
            if range_eq_str(s, lo, hi, "true") {
                Some(ConstVal::I1(true))
            } else if range_eq_str(s, lo, hi, "false") {
                Some(ConstVal::I1(false))
            } else {
                None
            }
        },
        Type::I32 => match parse_signed_chars(s, lo, hi, 0x8000_0000, 0x7fff_ffff) {
            Some(x) => Some(ConstVal::I32(x as i32)),
            None => None,
        },
        Type::I64 => {
            if hi - lo >= 3 && s[hi - 3] == 'i' && s[hi - 2] == '6' && s[hi - 1] == '4' {
                assert(body.subrange(body.len() - 3, body.len() as int) =~= ty_text(Type::I64));
                assert(s@.subrange(lo as int, hi - 3) =~= body.subrange(0, body.len() - 3));
                match parse_signed_chars(s, lo, hi - 3, 0x8000_0000_0000_0000, 0x7fff_ffff_ffff_ffff) {
                    Some(x) => Some(ConstVal::I64(x)),
                    None => None,
                }
            } else {
                proof {
                    if body.len() >= 3 && body.subrange(body.len() - 3, body.len() as int) == ty_text(Type::I64) {
                        assert(body.subrange(body.len() - 3, body.len() as int)[0] == s@[hi - 3]);
                        assert(body.subrange(body.len() - 3, body.len() as int)[1] == s@[hi - 2]);
                        assert(body.subrange(body.len() - 3, body.len() as int)[2] == s@[hi - 1]);
                    }
                }
                None
            }
        },
        Type::F64 => None,
    }
}

/// Rendering then parsing a non-float constant gives it back.
pub proof fn lemma_const_round_trip(v: ConstVal)
    requires
        !(v is F64),
    ensures
        const_from_text(const_ty(v), const_text(v)) == Some(v),
{
    match v {
        ConstVal::I1(b) => {
            assert(bool_text(true) != bool_text(false));
        },
        ConstVal::I32(x) => {
            lemma_parse_dec_signed(x as int, 0x8000_0000, 0x7fff_ffff);
        },
        ConstVal::I64(x) => {
            let s = const_text(v);
            let d = dec_signed(x as int);
            assert(s.subrange(s.len() - 3, s.len() as int) =~= ty_text(Type::I64));
            assert(s.subrange(0, s.len() - 3) =~= d);
            lemma_parse_dec_signed(x as int, 0x8000_0000_0000_0000, 0x7fff_ffff_ffff_ffff);
        },
        ConstVal::F64(_) => {},
    }
}

} // verus!
