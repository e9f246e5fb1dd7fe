//! Primitive building blocks of the wire format: little-endian `u64`
//! integers, single tag bytes and length-prefixed byte strings.
//!
//! Every reader has an exact contract: it either returns a value whose
//! encoding occurs at the read position, or proves that no value's encoding
//! occurs there.
use vstd::bytes::{
    lemma_auto_spec_u64_to_from_le_bytes, spec_u64_to_le_bytes, u64_from_le_bytes,
    u64_to_le_bytes,
};
use vstd::prelude::*;
use vstd::slice::{slice_subrange, slice_to_vec};

verus! {

/// Whether the byte string `e` occurs in `s` starting at position `p`.
pub open spec fn occurs_at(e: Seq<u8>, s: Seq<u8>, p: int) -> bool {
    0 <= p && p + e.len() <= s.len() && s.subrange(p, p + e.len()) == e
}

/// Encoding of an integer: eight bytes, least significant first.
pub open spec fn enc_u64(n: u64) -> Seq<u8> {
    spec_u64_to_le_bytes(n)
}

/// Encoding of a byte string: its length, then its bytes.
pub open spec fn enc_bytes(b: Seq<u8>) -> Seq<u8> {
    enc_u64(b.len() as u64) + b
}

/// Encoding of a one-byte tag.
pub open spec fn enc_tag(t: u8) -> Seq<u8> {
    seq![t]
}

pub proof fn lemma_occurs_split(x: Seq<u8>, y: Seq<u8>, s: Seq<u8>, p: int)
    requires
        occurs_at(x + y, s, p),
    ensures
        occurs_at(x, s, p),
        occurs_at(y, s, p + x.len()),
{
    assert(s.subrange(p, p + x.len()) =~= (x + y).subrange(0, x.len() as int));
    assert(s.subrange(p + x.len(), p + x.len() + y.len()) =~= (x + y).subrange(
        x.len() as int,
        (x.len() + y.len()) as int,
    ));
    assert((x + y).subrange(0, x.len() as int) =~= x);
    assert((x + y).subrange(x.len() as int, (x.len() + y.len()) as int) =~= y);
}

pub proof fn lemma_occurs_join(x: Seq<u8>, y: Seq<u8>, s: Seq<u8>, p: int)
    requires
        occurs_at(x, s, p),
        occurs_at(y, s, p + x.len()),
    ensures
        occurs_at(x + y, s, p),
{
    assert(s.subrange(p, p + (x + y).len()) =~= x + y);
}

/// A sequence occurs in itself at position zero.
pub proof fn lemma_occurs_whole(s: Seq<u8>)
    ensures
        occurs_at(s, s, 0),
{
    assert(s.subrange(0, s.len() as int) =~= s);
}

pub proof fn lemma_u64_len(n: u64)
    ensures
        enc_u64(n).len() == 8,
{
    lemma_auto_spec_u64_to_from_le_bytes();
}

pub proof fn lemma_u64_unique(a: u64, b: u64, s: Seq<u8>, p: int)
    requires
        occurs_at(enc_u64(a), s, p),
        occurs_at(enc_u64(b), s, p),
    ensures
        a == b,
{
    lemma_auto_spec_u64_to_from_le_bytes();
    assert(enc_u64(a) == enc_u64(b));
}

pub proof fn lemma_bytes_unique(a: Seq<u8>, b: Seq<u8>, s: Seq<u8>, p: int)
    requires
        occurs_at(enc_bytes(a), s, p),
        occurs_at(enc_bytes(b), s, p),
        s.len() <= u64::MAX,
    ensures
        a == b,
{
    lemma_u64_len(a.len() as u64);
    lemma_u64_len(b.len() as u64);
    lemma_occurs_split(enc_u64(a.len() as u64), a, s, p);
    lemma_occurs_split(enc_u64(b.len() as u64), b, s, p);
    lemma_u64_unique(a.len() as u64, b.len() as u64, s, p);
}

pub proof fn lemma_tag_unique(a: u8, b: u8, s: Seq<u8>, p: int)
    requires
        occurs_at(enc_tag(a), s, p),
        occurs_at(enc_tag(b), s, p),
    ensures
        a == b,
{
    assert(enc_tag(a)[0] == s[p]);
    assert(enc_tag(b)[0] == s[p]);
}

/// Appends the bytes of `b` to `out`.
pub fn write_raw(out: &mut Vec<u8>, b: &Vec<u8>)
    ensures
        final(out)@ == old(out)@ + b@,
{
    let ghost start = out@;
    let mut i: usize = 0;
    while i < b.len()
        invariant
            i <= b.len(),
            out@ == start + b@.subrange(0, i as int),
        decreases b.len() - i,
    {
        out.push(b[i]);
        i = i + 1;
        assert(b@.subrange(0, i as int) =~= b@.subrange(0, i - 1) + seq![b@[i - 1]]);
        assert(out@ =~= start + b@.subrange(0, i as int));
    }
    assert(b@.subrange(0, i as int) =~= b@);
}

pub fn write_u64(out: &mut Vec<u8>, n: u64)
    ensures
        final(out)@ == old(out)@ + enc_u64(n),
{
    let b = u64_to_le_bytes(n);
    write_raw(out, &b);
}

pub fn write_tag(out: &mut Vec<u8>, t: u8)
    ensures
        final(out)@ == old(out)@ + enc_tag(t),
{
    out.push(t);
    assert(final(out)@ =~= old(out)@ + enc_tag(t));
}

pub fn write_bytes(out: &mut Vec<u8>, b: &Vec<u8>)
    ensures
        final(out)@ == old(out)@ + enc_bytes(b@),
{
    let ghost start = out@;
    write_u64(out, b.len() as u64);
    write_raw(out, b);
    assert(out@ =~= start + enc_bytes(b@));
}

pub fn read_u64(s: &Vec<u8>, pos: usize) -> (r: Option<(u64, usize)>)
    ensures
        match r {
            Some((n, end)) => end == pos + 8 && occurs_at(enc_u64(n), s@, pos as int),
            None => forall|n: u64| !#[trigger] occurs_at(enc_u64(n), s@, pos as int),
        },
{
    proof {
        lemma_auto_spec_u64_to_from_le_bytes();
    }
    if pos > s.len() || s.len() - pos < 8 {
        return None;
    }
    let part = slice_subrange(s.as_slice(), pos, pos + 8);
    let n = u64_from_le_bytes(part);
    assert(enc_u64(n) == s@.subrange(pos as int, pos + 8));
    Some((n, pos + 8))
}

pub fn read_tag(s: &Vec<u8>, pos: usize) -> (r: Option<(u8, usize)>)
    ensures
        match r {
            Some((t, end)) => end == pos + 1 && occurs_at(enc_tag(t), s@, pos as int),
            None => forall|t: u8| !#[trigger] occurs_at(enc_tag(t), s@, pos as int),
        },
{
    if pos >= s.len() {
        return None;
    }
    let t = s[pos];
    assert(s@.subrange(pos as int, pos + 1) =~= enc_tag(t));
    Some((t, pos + 1))
}

pub fn read_bytes(s: &Vec<u8>, pos: usize) -> (r: Option<(Vec<u8>, usize)>)
    ensures
        match r {
            Some((b, end)) => end == pos + enc_bytes(b@).len() && occurs_at(
                enc_bytes(b@),
                s@,
                pos as int,
            ),
            None => forall|b: Seq<u8>| !#[trigger] occurs_at(enc_bytes(b), s@, pos as int),
        },
{
    proof {
        lemma_auto_spec_u64_to_from_le_bytes();
    }
    let len = s.len();
    assert(s@.len() <= u64::MAX);
    let (n, start) = match read_u64(s, pos) {
        Some(x) => x,
        None => {
            assert forall|b: Seq<u8>| !#[trigger] occurs_at(
                enc_bytes(b),
                s@,
                pos as int,
            ) by {
                if occurs_at(enc_bytes(b), s@, pos as int) {
                    lemma_occurs_split(enc_u64(b.len() as u64), b, s@, pos as int);
                }
            }
            return None;
        },
    };
    if n > (s.len() - start) as u64 {
        assert forall|b: Seq<u8>| !#[trigger] occurs_at(
            enc_bytes(b),
            s@,
            pos as int,
        ) by {
            if occurs_at(enc_bytes(b), s@, pos as int) {
                lemma_occurs_split(enc_u64(b.len() as u64), b, s@, pos as int);
                lemma_u64_unique(n, b.len() as u64, s@, pos as int);
            }
        }
        return None;
    }
    let end = start + n as usize;
    let b = slice_to_vec(slice_subrange(s.as_slice(), start, end));
    proof {
        assert(b@ == s@.subrange(start as int, end as int));
        lemma_occurs_join(enc_u64(n), b@, s@, pos as int);
    }
    Some((b, end))
}

} // verus!
