//! Encoding of source authorities, proof chains and optional keys.
//!
//! Each encoding is prefix-free: the `*_unique` lemmas show that at a given
//! position of a stream at most one value's encoding occurs, and the readers
//! find that value exactly when it exists.
use crate::authority::{AuthorityView, ChainView, Link, LinkView, Prefix, ProofChain, SrcAuthority, links_view};
use crate::wire::{
    enc_bytes, enc_tag, enc_u64, lemma_bytes_unique, lemma_occurs_join, lemma_occurs_split,
    lemma_tag_unique, lemma_u64_len, lemma_u64_unique, occurs_at, read_bytes, read_tag, read_u64,
    write_bytes, write_tag, write_u64,
};
use vstd::prelude::*;

verus! {

/// A link: its key, then its signature.
pub open spec fn enc_link(l: LinkView) -> Seq<u8> {
    enc_bytes(l.key) + enc_bytes(l.signature)
}

/// A list of links, one after the other.
pub open spec fn enc_links(ls: Seq<LinkView>) -> Seq<u8>
    decreases ls.len(),
{
    if ls.len() == 0 {
        seq![]
    } else {
        enc_link(ls[0]) + enc_links(ls.drop_first())
    }
}

/// A chain: its first key, the number of transitions, then each transition.
pub open spec fn enc_chain(c: ChainView) -> Seq<u8> {
    enc_bytes(c.head) + enc_u64(c.links.len() as u64) + enc_links(c.links)
}

/// An authority: a tag (0 for a node, 1 for a section), then its fields.
pub open spec fn enc_authority(a: AuthorityView) -> Seq<u8> {
    match a {
        AuthorityView::Node { public_id, signature } => enc_tag(0) + enc_bytes(public_id) + enc_bytes(
            signature,
        ),
        AuthorityView::Section { prefix, signature, proof } => enc_tag(1) + enc_bytes(prefix)
            + enc_bytes(signature) + enc_chain(proof),
    }
}

/// An optional key: tag 0 when absent, tag 1 and the key when present.
pub open spec fn enc_key_opt(k: Option<Seq<u8>>) -> Seq<u8> {
    match k {
        None => enc_tag(0),
        Some(k) => enc_tag(1) + enc_bytes(k),
    }
}

/// The content of an optional key.
pub open spec fn key_opt_view(k: Option<Vec<u8>>) -> Option<Seq<u8>> {
    match k {
        None => None,
        Some(k) => Some(k@),
    }
}

pub proof fn lemma_link_unique(a: LinkView, b: LinkView, s: Seq<u8>, p: int)
    requires
        occurs_at(enc_link(a), s, p),
        occurs_at(enc_link(b), s, p),
        s.len() <= u64::MAX,
    ensures
        a == b,
{
    lemma_occurs_split(enc_bytes(a.key), enc_bytes(a.signature), s, p);
    lemma_occurs_split(enc_bytes(b.key), enc_bytes(b.signature), s, p);
    lemma_bytes_unique(a.key, b.key, s, p);
    lemma_bytes_unique(a.signature, b.signature, s, p + enc_bytes(a.key).len());
}

pub proof fn lemma_enc_links_concat(x: Seq<LinkView>, y: Seq<LinkView>)
    ensures
        enc_links(x + y) == enc_links(x) + enc_links(y),
    decreases x.len(),
{
    if x.len() == 0 {
        assert(x + y =~= y);
        assert(enc_links(x) + enc_links(y) =~= enc_links(y));
    } else {
        assert((x + y).drop_first() =~= x.drop_first() + y);
        lemma_enc_links_concat(x.drop_first(), y);
        assert(enc_links(x + y) =~= enc_links(x) + enc_links(y));
    }
}

pub proof fn lemma_enc_links_push(x: Seq<LinkView>, l: LinkView)
    ensures
        enc_links(x.push(l)) == enc_links(x) + enc_link(l),
{
    lemma_enc_links_concat(x, seq![l]);
    assert(x.push(l) =~= x + seq![l]);
    let e = seq![l];
    assert(e[0] == l);
    assert(e.drop_first() =~= Seq::<LinkView>::empty());
    assert(enc_links(e.drop_first()) =~= Seq::<u8>::empty());
    assert(enc_links(e) =~= enc_link(l));
}

/// Two link lists whose encodings occur at one position agree on their common length.
pub proof fn lemma_links_prefix(a: Seq<LinkView>, b: Seq<LinkView>, s: Seq<u8>, p: int)
    requires
        occurs_at(enc_links(a), s, p),
        occurs_at(enc_links(b), s, p),
        b.len() <= a.len(),
        s.len() <= u64::MAX,
    ensures
        a.subrange(0, b.len() as int) == b,
    decreases b.len(),
{
    if b.len() == 0 {
        assert(a.subrange(0, 0) =~= b);
    } else {
        lemma_occurs_split(enc_link(a[0]), enc_links(a.drop_first()), s, p);
        lemma_occurs_split(enc_link(b[0]), enc_links(b.drop_first()), s, p);
        lemma_link_unique(a[0], b[0], s, p);
        lemma_links_prefix(a.drop_first(), b.drop_first(), s, p + enc_link(a[0]).len());
        assert(a.subrange(0, b.len() as int) =~= seq![a[0]] + a.drop_first().subrange(
            0,
            b.len() - 1,
        ));
        assert(b =~= seq![b[0]] + b.drop_first());
    }
}

pub proof fn lemma_chain_unique(a: ChainView, b: ChainView, s: Seq<u8>, p: int)
    requires
        occurs_at(enc_chain(a), s, p),
        occurs_at(enc_chain(b), s, p),
        s.len() <= u64::MAX,
    ensures
        a == b,
{
    let ha = enc_bytes(a.head);
    let hb = enc_bytes(b.head);
    lemma_occurs_split(ha + enc_u64(a.links.len() as u64), enc_links(a.links), s, p);
    lemma_occurs_split(hb + enc_u64(b.links.len() as u64), enc_links(b.links), s, p);
    lemma_occurs_split(ha, enc_u64(a.links.len() as u64), s, p);
    lemma_occurs_split(hb, enc_u64(b.links.len() as u64), s, p);
    lemma_bytes_unique(a.head, b.head, s, p);
    lemma_u64_unique(a.links.len() as u64, b.links.len() as u64, s, p + ha.len());
    lemma_u64_len(a.links.len() as u64);
    lemma_links_len(a.links, s, p + ha.len() + 8);
    lemma_links_len(b.links, s, p + ha.len() + 8);
    lemma_links_prefix(a.links, b.links, s, p + ha.len() + 8);
    assert(a.links.subrange(0, b.links.len() as int) =~= a.links);
}

/// A list of links whose encoding occurs in a stream is no longer than the stream.
pub proof fn lemma_links_len(a: Seq<LinkView>, s: Seq<u8>, p: int)
    requires
        occurs_at(enc_links(a), s, p),
    ensures
        a.len() <= enc_links(a).len(),
    decreases a.len(),
{
    if a.len() > 0 {
        lemma_occurs_split(enc_link(a[0]), enc_links(a.drop_first()), s, p);
        lemma_u64_len(a[0].key.len() as u64);
        lemma_links_len(a.drop_first(), s, p + enc_link(a[0]).len());
    }
}

pub proof fn lemma_authority_unique(a: AuthorityView, b: AuthorityView, s: Seq<u8>, p: int)
    requires
        occurs_at(enc_authority(a), s, p),
        occurs_at(enc_authority(b), s, p),
        s.len() <= u64::MAX,
    ensures
        a == b,
{
    let ta: u8 = if a is Node { 0 } else { 1 };
    let tb: u8 = if b is Node { 0 } else { 1 };
    lemma_authority_split(a, s, p);
    lemma_authority_split(b, s, p);
    lemma_tag_unique(ta, tb, s, p);
    match a {
        AuthorityView::Node { public_id: ka, signature: sa } => {
            if let AuthorityView::Node { public_id: kb, signature: sb } = b {
                lemma_bytes_unique(ka, kb, s, p + 1);
                lemma_bytes_unique(sa, sb, s, p + 1 + enc_bytes(ka).len());
            }
        },
        AuthorityView::Section { prefix: xa, signature: sa, proof: ca } => {
            if let AuthorityView::Section { prefix: xb, signature: sb, proof: cb } = b {
                lemma_bytes_unique(xa, xb, s, p + 1);
                let q = p + 1 + enc_bytes(xa).len();
                lemma_bytes_unique(sa, sb, s, q);
                lemma_chain_unique(ca, cb, s, q + enc_bytes(sa).len());
            }
        },
    }
}

/// The parts of an authority's encoding occur one after the other.
pub proof fn lemma_authority_split(a: AuthorityView, s: Seq<u8>, p: int)
    requires
        occurs_at(enc_authority(a), s, p),
    ensures
        occurs_at(enc_tag(if a is Node { 0 } else { 1 }), s, p),
        match a {
            AuthorityView::Node { public_id, signature } => occurs_at(enc_bytes(public_id), s, p + 1)
                && occurs_at(enc_bytes(signature), s, p + 1 + enc_bytes(public_id).len()),
            AuthorityView::Section { prefix, signature, proof } => {
                let q = p + 1 + enc_bytes(prefix).len();
                &&& occurs_at(enc_bytes(prefix), s, p + 1)
                &&& occurs_at(enc_bytes(signature), s, q)
                &&& occurs_at(enc_chain(proof), s, q + enc_bytes(signature).len())
            },
        },
{
    match a {
        AuthorityView::Node { public_id, signature } => {
            lemma_occurs_split(enc_tag(0) + enc_bytes(public_id), enc_bytes(signature), s, p);
            lemma_occurs_split(enc_tag(0), enc_bytes(public_id), s, p);
        },
        AuthorityView::Section { prefix, signature, proof } => {
            let x = enc_tag(1) + enc_bytes(prefix);
            lemma_occurs_split(x + enc_bytes(signature), enc_chain(proof), s, p);
            lemma_occurs_split(x, enc_bytes(signature), s, p);
            lemma_occurs_split(enc_tag(1), enc_bytes(prefix), s, p);
        },
    }
}

pub proof fn lemma_key_opt_unique(a: Option<Seq<u8>>, b: Option<Seq<u8>>, s: Seq<u8>, p: int)
    requires
        occurs_at(enc_key_opt(a), s, p),
        occurs_at(enc_key_opt(b), s, p),
        s.len() <= u64::MAX,
    ensures
        a == b,
{
    let ta: u8 = if a is None { 0 } else { 1 };
    let tb: u8 = if b is None { 0 } else { 1 };
    if let Some(ka) = a {
        lemma_occurs_split(enc_tag(1), enc_bytes(ka), s, p);
    }
    if let Some(kb) = b {
        lemma_occurs_split(enc_tag(1), enc_bytes(kb), s, p);
    }
    lemma_tag_unique(ta, tb, s, p);
    if let (Some(ka), Some(kb)) = (a, b) {
        lemma_bytes_unique(ka, kb, s, p + 1);
    }
}

pub fn write_chain(out: &mut Vec<u8>, c: &ProofChain)
    ensures
        final(out)@ == old(out)@ + enc_chain(c@),
{
    let ghost start = out@;
    write_bytes(out, &c.head);
    write_u64(out, c.links.len() as u64);
    let ghost mid = out@;
    let mut i: usize = 0;
    while i < c.links.len()
        invariant
            i <= c.links@.len(),
            out@ == mid + enc_links(c@.links.subrange(0, i as int)),
        decreases c.links.len() - i,
    {
        let ghost before = c@.links.subrange(0, i as int);
        write_bytes(out, &c.links[i].key);
        write_bytes(out, &c.links[i].signature);
        proof {
            lemma_enc_links_push(before, c@.links[i as int]);
            assert(c@.links.subrange(0, i + 1) =~= before.push(c@.links[i as int]));
        }
        i = i + 1;
        assert(out@ =~= mid + enc_links(c@.links.subrange(0, i as int)));
    }
    assert(c@.links.subrange(0, i as int) =~= c@.links);
    assert(out@ =~= start + enc_chain(c@));
}

pub fn write_authority(out: &mut Vec<u8>, a: &SrcAuthority)
    ensures
        final(out)@ == old(out)@ + enc_authority(a@),
{
    let ghost start = out@;
    match a {
        SrcAuthority::Node { public_id, signature } => {
            write_tag(out, 0);
            write_bytes(out, public_id);
            write_bytes(out, signature);
        },
        SrcAuthority::Section { prefix, signature, proof } => {
            write_tag(out, 1);
            write_bytes(out, &prefix.bits);
            write_bytes(out, signature);
            write_chain(out, proof);
        },
    }
    assert(out@ =~= start + enc_authority(a@));
}

pub fn write_key_opt(out: &mut Vec<u8>, k: &Option<Vec<u8>>)
    ensures
        final(out)@ == old(out)@ + enc_key_opt(key_opt_view(*k)),
{
    let ghost start = out@;
    match k {
        None => write_tag(out, 0),
        Some(k) => {
            write_tag(out, 1);
            write_bytes(out, k);
        },
    }
    assert(out@ =~= start + enc_key_opt(key_opt_view(*k)));
}

pub fn read_link(s: &Vec<u8>, pos: usize) -> (r: Option<(Link, usize)>)
    ensures
        match r {
            Some((l, end)) => end == pos + enc_link(l@).len() && occurs_at(
                enc_link(l@),
                s@,
                pos as int,
            ),
            None => forall|l: LinkView| !#[trigger] occurs_at(enc_link(l), s@, pos as int),
        },
{
    let len = s.len();
    assert(s@.len() <= u64::MAX);
    let (key, p1) = match read_bytes(s, pos) {
        Some(x) => x,
        None => {
            assert forall|l: LinkView| !#[trigger] occurs_at(enc_link(l), s@, pos as int) by {
                if occurs_at(enc_link(l), s@, pos as int) {
                    lemma_occurs_split(enc_bytes(l.key), enc_bytes(l.signature), s@, pos as int);
                }
            }
            return None;
        },
    };
    let (signature, p2) = match read_bytes(s, p1) {
        Some(x) => x,
        None => {
            assert forall|l: LinkView| !#[trigger] occurs_at(enc_link(l), s@, pos as int) by {
                if occurs_at(enc_link(l), s@, pos as int) {
                    lemma_occurs_split(enc_bytes(l.key), enc_bytes(l.signature), s@, pos as int);
                    lemma_bytes_unique(l.key, key@, s@, pos as int);
                }
            }
            return None;
        },
    };
    let l = Link { key, signature };
    proof {
        lemma_occurs_join(enc_bytes(l.key@), enc_bytes(l.signature@), s@, pos as int);
    }
    Some((l, p2))
}

pub fn read_chain(s: &Vec<u8>, pos: usize) -> (r: Option<(ProofChain, usize)>)
    ensures
        match r {
            Some((c, end)) => end == pos + enc_chain(c@).len() && occurs_at(
                enc_chain(c@),
                s@,
                pos as int,
            ),
            None => forall|c: ChainView| !#[trigger] occurs_at(enc_chain(c), s@, pos as int),
        },
{
    let len = s.len();
    assert(s@.len() <= u64::MAX);
    let (head, p1) = match read_bytes(s, pos) {
        Some(x) => x,
        None => {
            assert forall|c: ChainView| !#[trigger] occurs_at(enc_chain(c), s@, pos as int) by {
                if occurs_at(enc_chain(c), s@, pos as int) {
                    lemma_chain_parts(c, s@, pos as int);
                }
            }
            return None;
        },
    };
    let (n, p2) = match read_u64(s, p1) {
        Some(x) => x,
        None => {
            assert forall|c: ChainView| !#[trigger] occurs_at(enc_chain(c), s@, pos as int) by {
                if occurs_at(enc_chain(c), s@, pos as int) {
                    lemma_chain_parts(c, s@, pos as int);
                    lemma_bytes_unique(c.head, head@, s@, pos as int);
                }
            }
            return None;
        },
    };
    let mut links: Vec<Link> = Vec::new();
    let mut p = p2;
    let mut i: u64 = 0;
    proof {
        lemma_u64_len(n);
        assert(links_view(links@) =~= Seq::<LinkView>::empty());
        assert(s@.subrange(p2 as int, p2 as int) =~= Seq::<u8>::empty());
    }
    while i < n
        invariant
            s@.len() <= u64::MAX,
            p2 <= p <= s@.len(),
            links@.len() == i,
            i <= n,
            occurs_at(enc_links(links_view(links@)), s@, p2 as int),
            p == p2 + enc_links(links_view(links@)).len(),
            p1 == pos + enc_bytes(head@).len(),
            p2 == p1 + 8,
            occurs_at(enc_bytes(head@), s@, pos as int),
            occurs_at(enc_u64(n), s@, p1 as int),
        decreases n - i,
    {
        match read_link(s, p) {
            Some((l, e)) => {
                proof {
                    lemma_enc_links_push(links_view(links@), l@);
                    lemma_occurs_join(enc_links(links_view(links@)), enc_link(l@), s@, p2 as int);
                    assert(links_view(links@.push(l)) =~= links_view(links@).push(l@));
                }
                links.push(l);
                p = e;
            },
            None => {
                assert forall|c: ChainView| !#[trigger] occurs_at(enc_chain(c), s@, pos as int) by {
                    if occurs_at(enc_chain(c), s@, pos as int) {
                        lemma_chain_parts(c, s@, pos as int);
                        lemma_bytes_unique(c.head, head@, s@, pos as int);
                        lemma_u64_unique(c.links.len() as u64, n, s@, p1 as int);
                        let lv = links_view(links@);
                        lemma_links_len(c.links, s@, p2 as int);
                        lemma_links_prefix(c.links, lv, s@, p2 as int);
                        let rest = c.links.subrange(i as int, c.links.len() as int);
                        assert(c.links =~= lv + rest);
                        lemma_enc_links_concat(lv, rest);
                        lemma_occurs_split(enc_links(lv), enc_links(rest), s@, p2 as int);
                        lemma_occurs_split(enc_link(rest[0]), enc_links(rest.drop_first()), s@, p as int);
                    }
                }
                return None;
            },
        }
        i = i + 1;
    }
    let c = ProofChain { head, links };
    proof {
        lemma_occurs_join(enc_bytes(head@), enc_u64(n), s@, pos as int);
        lemma_occurs_join(enc_bytes(head@) + enc_u64(n), enc_links(c@.links), s@, pos as int);
    }
    Some((c, p))
}

/// The parts of a chain's encoding occur one after the other.
pub proof fn lemma_chain_parts(c: ChainView, s: Seq<u8>, p: int)
    requires
        occurs_at(enc_chain(c), s, p),
    ensures
        occurs_at(enc_bytes(c.head), s, p),
        occurs_at(enc_u64(c.links.len() as u64), s, p + enc_bytes(c.head).len()),
        occurs_at(enc_links(c.links), s, p + enc_bytes(c.head).len() + 8),
{
    let h = enc_bytes(c.head);
    lemma_occurs_split(h + enc_u64(c.links.len() as u64), enc_links(c.links), s, p);
    lemma_occurs_split(h, enc_u64(c.links.len() as u64), s, p);
    lemma_u64_len(c.links.len() as u64);
}

pub fn read_authority(s: &Vec<u8>, pos: usize) -> (r: Option<(SrcAuthority, usize)>)
    ensures
        match r {
            Some((a, end)) => end == pos + enc_authority(a@).len() && occurs_at(
                enc_authority(a@),
                s@,
                pos as int,
            ),
            None => forall|a: AuthorityView| !#[trigger] occurs_at(enc_authority(a), s@, pos as int),
        },
{
    let len = s.len();
    assert(s@.len() <= u64::MAX);
    let (tag, p1) = match read_tag(s, pos) {
        Some(x) => x,
        None => {
            assert forall|a: AuthorityView| !#[trigger] occurs_at(enc_authority(a), s@, pos as int) by {
                if occurs_at(enc_authority(a), s@, pos as int) {
                    lemma_authority_split(a, s@, pos as int);
                }
            }
            return None;
        },
    };
    if tag == 0 {
        let (public_id, p2) = match read_bytes(s, p1) {
            Some(x) => x,
            None => {
                assert forall|a: AuthorityView| !#[trigger] occurs_at(enc_authority(a), s@, pos as int) by {
                    if occurs_at(enc_authority(a), s@, pos as int) {
                        lemma_authority_split(a, s@, pos as int);
                        lemma_tag_unique(tag, if a is Node { 0 } else { 1 }, s@, pos as int);
                    }
                }
                return None;
            },
        };
        let (signature, p3) = match read_bytes(s, p2) {
            Some(x) => x,
            None => {
                assert forall|a: AuthorityView| !#[trigger] occurs_at(enc_authority(a), s@, pos as int) by {
                    if occurs_at(enc_authority(a), s@, pos as int) {
                        lemma_authority_split(a, s@, pos as int);
                        lemma_tag_unique(tag, if a is Node { 0 } else { 1 }, s@, pos as int);
                        if let AuthorityView::Node { public_id: k, signature: _ } = a {
                            lemma_bytes_unique(k, public_id@, s@, p1 as int);
                        }
                    }
                }
                return None;
            },
        };
        let a = SrcAuthority::Node { public_id, signature };
        proof {
            lemma_occurs_join(enc_tag(0), enc_bytes(public_id@), s@, pos as int);
            lemma_occurs_join(enc_tag(0) + enc_bytes(public_id@), enc_bytes(signature@), s@, pos as int);
        }
        Some((a, p3))
    } else if tag == 1 {
        let (bits, p2) = match read_bytes(s, p1) {
            Some(x) => x,
            None => {
                assert forall|a: AuthorityView| !#[trigger] occurs_at(enc_authority(a), s@, pos as int) by {
                    if occurs_at(enc_authority(a), s@, pos as int) {
                        lemma_authority_split(a, s@, pos as int);
                        lemma_tag_unique(tag, if a is Node { 0 } else { 1 }, s@, pos as int);
                    }
                }
                return None;
            },
        };
        let (signature, p3) = match read_bytes(s, p2) {
            Some(x) => x,
            None => {
                assert forall|a: AuthorityView| !#[trigger] occurs_at(enc_authority(a), s@, pos as int) by {
                    if occurs_at(enc_authority(a), s@, pos as int) {
                        lemma_authority_split(a, s@, pos as int);
                        lemma_tag_unique(tag, if a is Node { 0 } else { 1 }, s@, pos as int);
                        if let AuthorityView::Section { prefix: x, signature: _, proof: _ } = a {
                            lemma_bytes_unique(x, bits@, s@, p1 as int);
                        }
                    }
                }
                return None;
            },
        };
        let (proof, p4) = match read_chain(s, p3) {
            Some(x) => x,
            None => {
                assert forall|a: AuthorityView| !#[trigger] occurs_at(enc_authority(a), s@, pos as int) by {
                    if occurs_at(enc_authority(a), s@, pos as int) {
                        lemma_authority_split(a, s@, pos as int);
                        lemma_tag_unique(tag, if a is Node { 0 } else { 1 }, s@, pos as int);
                        if let AuthorityView::Section { prefix: x, signature: g, proof: _ } = a {
                            lemma_bytes_unique(x, bits@, s@, p1 as int);
                            lemma_bytes_unique(g, signature@, s@, p2 as int);
                        }
                    }
                }
                return None;
            },
        };
        let a = SrcAuthority::Section { prefix: Prefix { bits }, signature, proof };
        proof {
            let x = enc_tag(1) + enc_bytes(bits@);
            lemma_occurs_join(enc_tag(1), enc_bytes(bits@), s@, pos as int);
            lemma_occurs_join(x, enc_bytes(signature@), s@, pos as int);
            lemma_occurs_join(x + enc_bytes(signature@), enc_chain(proof@), s@, pos as int);
        }
        Some((a, p4))
    } else {
        assert forall|a: AuthorityView| !#[trigger] occurs_at(enc_authority(a), s@, pos as int) by {
            if occurs_at(enc_authority(a), s@, pos as int) {
                lemma_authority_split(a, s@, pos as int);
                lemma_tag_unique(tag, if a is Node { 0 } else { 1 }, s@, pos as int);
            }
        }
        None
    }
}

pub fn read_key_opt(s: &Vec<u8>, pos: usize) -> (r: Option<(Option<Vec<u8>>, usize)>)
    ensures
        match r {
            Some((k, end)) => end == pos + enc_key_opt(key_opt_view(k)).len() && occurs_at(
                enc_key_opt(key_opt_view(k)),
                s@,
                pos as int,
            ),
            None => forall|k: Option<Seq<u8>>| !#[trigger] occurs_at(enc_key_opt(k), s@, pos as int),
        },
{
    let (tag, p1) = match read_tag(s, pos) {
        Some(x) => x,
        None => {
            assert forall|k: Option<Seq<u8>>| !#[trigger] occurs_at(enc_key_opt(k), s@, pos as int) by {
                if let Some(key) = k {
                    if occurs_at(enc_key_opt(k), s@, pos as int) {
                        lemma_occurs_split(enc_tag(1), enc_bytes(key), s@, pos as int);
                    }
                }
            }
            return None;
        },
    };
    if tag == 0 {
        Some((None, p1))
    } else if tag == 1 {
        match read_bytes(s, p1) {
            Some((k, p2)) => {
                proof {
                    lemma_occurs_join(enc_tag(1), enc_bytes(k@), s@, pos as int);
                }
                Some((Some(k), p2))
            },
            None => {
                assert forall|k: Option<Seq<u8>>| !#[trigger] occurs_at(enc_key_opt(k), s@, pos as int) by {
                    if occurs_at(enc_key_opt(k), s@, pos as int) {
                        if let Some(key) = k {
                            lemma_occurs_split(enc_tag(1), enc_bytes(key), s@, pos as int);
                        } else {
                            lemma_tag_unique(0, 1, s@, pos as int);
                        }
                    }
                }
                None
            },
        }
    } else {
        assert forall|k: Option<Seq<u8>>| !#[trigger] occurs_at(enc_key_opt(k), s@, pos as int) by {
            if occurs_at(enc_key_opt(k), s@, pos as int) {
                if let Some(key) = k {
                    lemma_occurs_split(enc_tag(1), enc_bytes(key), s@, pos as int);
                    lemma_tag_unique(1, tag, s@, pos as int);
                } else {
                    lemma_tag_unique(0, tag, s@, pos as int);
                }
            }
        }
        None
    }
}

} // verus!
