//! Fabric signatures and the hash-chained tick ledger.
//!
//! A signature observes the canonical text of a fabric: two fabrics with
//! equal printed text get equal signatures. It is FNV-1a 64-bit: not
//! cryptographic; an identical signature is a claim about the printed
//! form only. Tamper detection via the chain is the claim, tamper
//! resistance is not.

use vstd::prelude::*;
use vstd::utf8::encode_utf8;
use crate::fabric::Fabric;
use crate::text::{no_float_consts, print, print_text};

verus! {

pub open spec fn fnv_offset() -> u64 {
    0xcbf29ce484222325
}

pub open spec fn fnv_prime() -> u64 {
    0x100000001b3
}

/// FNV-1a 64-bit over `bytes`.
pub open spec fn fnv_fold(bytes: Seq<u8>) -> u64
    decreases bytes.len(),
{
    if bytes.len() == 0 {
        fnv_offset()
    } else {
        (fnv_fold(bytes.drop_last()) ^ (bytes.last() as u64)).wrapping_mul(fnv_prime())
    }
}

/// FNV-1a 64-bit.
pub fn fnv1a64(bytes: &[u8]) -> (h: u64)
    ensures
        h == fnv_fold(bytes@),
{
    let mut h: u64 = 0xcbf29ce484222325;
    let mut i: usize = 0;
    while i < bytes.len()
        invariant
            i <= bytes@.len(),
            h == fnv_fold(bytes@.take(i as int)),
        decreases bytes@.len() - i,
    {
        let b = bytes[i];
        proof {
            assert(bytes@.take(i + 1).drop_last() =~= bytes@.take(i as int));
            assert(bytes@.take(i + 1).last() == b);
        }
        h = h ^ (b as u64);
        h = h.wrapping_mul(0x100000001b3);
        i = i + 1;
    }
    assert(bytes@.take(bytes@.len() as int) =~= bytes@);
    h
}

/// The fabric signature: FNV-1a over the UTF-8 bytes of the canonical
/// text.
pub fn fabric_sig(f: &Fabric) -> (h: u64)
    requires
        no_float_consts(*f),
    ensures
        h == fnv_fold(encode_utf8(print_text(*f))),
{
    let t = print(f);
    fnv1a64(t.as_str().as_bytes())
}

/// The 8 little-endian bytes of `x`.
pub open spec fn le_bytes(x: u64) -> Seq<u8> {
    Seq::new(8, |k: int| (x >> ((8 * k) as u64)) as u8)
}

/// What a chain step hashes: the previous chain value (if any), the
/// epoch, the pass name, a `|`, and the signature.
pub open spec fn chain_bytes(prev: Option<u64>, epoch: u64, pass: Seq<u8>, sig: u64) -> Seq<u8> {
    let head = match prev {
        Some(p) => le_bytes(p),
        None => Seq::empty(),
    };
    head + le_bytes(epoch) + pass + seq![124u8] + le_bytes(sig)
}

fn push_le(out: &mut Vec<u8>, x: u64)
    ensures
        final(out)@ == old(out)@ + le_bytes(x),
{
    let mut k: u64 = 0;
    while k < 8
        invariant
            k <= 8,
            out@ == old(out)@ + le_bytes(x).take(k as int),
        decreases 8 - k,
    {
        out.push((x >> (8 * k)) as u8);
        k = k + 1;
        assert(out@ =~= old(out)@ + le_bytes(x).take(k as int));
    }
    assert(le_bytes(x).take(8) =~= le_bytes(x));
}

/// One ledger entry: what happened at one tick, hash-chained to the tick
/// before.
#[derive(Clone, PartialEq, Debug)]
pub struct TickSig {
    pub epoch: u64,
    pub pass: &'static str,
    /// signature of the fabric after this tick
    pub sig: u64,
    /// chained hash over the previous chain, epoch, pass and sig
    pub chain: u64,
    /// true iff the tick's diff carried at least one edit
    pub advanced: bool,
    /// the progress ledger line
    pub note: String,
}

impl TickSig {
    /// Chain step: binds this tick to everything before it.
    pub fn chain_step(prev_chain: Option<u64>, epoch: u64, pass: &str, sig: u64) -> (c: u64)
        ensures
            c == fnv_fold(chain_bytes(prev_chain, epoch, encode_utf8(pass@), sig)),
    {
        let mut bytes: Vec<u8> = Vec::new();
        if let Some(p) = prev_chain {
            push_le(&mut bytes, p);
        }
        push_le(&mut bytes, epoch);
        let pb = pass.as_bytes();
        let mut i: usize = 0;
        let ghost base = bytes@;
        while i < pb.len()
            invariant
                i <= pb@.len(),
                bytes@ == base + pb@.take(i as int),
            decreases pb@.len() - i,
        {
            bytes.push(pb[i]);
            i = i + 1;
            assert(bytes@ =~= base + pb@.take(i as int));
        }
        assert(pb@.take(pb@.len() as int) =~= pb@);
        bytes.push(124u8);
        push_le(&mut bytes, sig);
        assert(bytes@ =~= chain_bytes(prev_chain, epoch, encode_utf8(pass@), sig));
        fnv1a64(bytes.as_slice())
    }
}

/// The signature observes the canonical text: fabrics that print the
/// same get the same signature.
pub proof fn lemma_sig_observes_text(a: Fabric, b: Fabric)
    requires
        print_text(a) == print_text(b),
    ensures
        fnv_fold(encode_utf8(print_text(a))) == fnv_fold(encode_utf8(print_text(b))),
{
}

} // verus!
