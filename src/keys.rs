//! Ordering of clock identifiers: strings compared byte by byte on their
//! UTF-8 encoding, the order of `str`'s own `Ord`.
use vstd::prelude::*;
use vstd::utf8::{encode_utf8, encode_utf8_decode_utf8};
use std::cmp::Ordering;

verus! {

/// Strict lexicographic order on byte sequences.
pub open spec fn bytes_lt(a: Seq<u8>, b: Seq<u8>) -> bool
    decreases a.len(),
{
    if a.len() == 0 {
        b.len() > 0
    } else if b.len() == 0 {
        false
    } else if a[0] != b[0] {
        a[0] < b[0]
    } else {
        bytes_lt(a.drop_first(), b.drop_first())
    }
}

/// Strict order on identifiers: the order of their UTF-8 encodings.
pub open spec fn key_lt(a: Seq<char>, b: Seq<char>) -> bool {
    bytes_lt(encode_utf8(a), encode_utf8(b))
}

pub proof fn lemma_bytes_lt_irreflexive(a: Seq<u8>)
    ensures
        !bytes_lt(a, a),
    decreases a.len(),
{
    if a.len() > 0 {
        lemma_bytes_lt_irreflexive(a.drop_first());
    }
}

pub proof fn lemma_bytes_lt_asymmetric(a: Seq<u8>, b: Seq<u8>)
    ensures
        !(bytes_lt(a, b) && bytes_lt(b, a)),
    decreases a.len(),
{
    if a.len() > 0 && b.len() > 0 && a[0] == b[0] {
        lemma_bytes_lt_asymmetric(a.drop_first(), b.drop_first());
    }
}

pub proof fn lemma_bytes_lt_transitive(a: Seq<u8>, b: Seq<u8>, c: Seq<u8>)
    requires
        bytes_lt(a, b),
        bytes_lt(b, c),
    ensures
        bytes_lt(a, c),
    decreases a.len(),
{
    if a.len() > 0 && b.len() > 0 && c.len() > 0 && a[0] == b[0] && b[0] == c[0] {
        lemma_bytes_lt_transitive(a.drop_first(), b.drop_first(), c.drop_first());
    }
}

pub proof fn lemma_bytes_lt_total(a: Seq<u8>, b: Seq<u8>)
    ensures
        a == b || bytes_lt(a, b) || bytes_lt(b, a),
    decreases a.len(),
{
    if a.len() == 0 {
        if b.len() == 0 {
            assert(a =~= b);
        }
    } else if b.len() > 0 && a[0] == b[0] {
        lemma_bytes_lt_total(a.drop_first(), b.drop_first());
        if a.drop_first() == b.drop_first() {
            assert(a =~= seq![a[0]] + a.drop_first());
            assert(b =~= seq![b[0]] + b.drop_first());
        }
    }
}

pub proof fn lemma_key_lt_irreflexive(a: Seq<char>)
    ensures
        !key_lt(a, a),
{
    lemma_bytes_lt_irreflexive(encode_utf8(a));
}

pub proof fn lemma_key_lt_asymmetric(a: Seq<char>, b: Seq<char>)
    ensures
        !(key_lt(a, b) && key_lt(b, a)),
{
    lemma_bytes_lt_asymmetric(encode_utf8(a), encode_utf8(b));
}

pub proof fn lemma_key_lt_transitive(a: Seq<char>, b: Seq<char>, c: Seq<char>)
    requires
        key_lt(a, b),
        key_lt(b, c),
    ensures
        key_lt(a, c),
{
    lemma_bytes_lt_transitive(encode_utf8(a), encode_utf8(b), encode_utf8(c));
}

pub proof fn lemma_key_lt_total(a: Seq<char>, b: Seq<char>)
    ensures
        a == b || key_lt(a, b) || key_lt(b, a),
{
    lemma_bytes_lt_total(encode_utf8(a), encode_utf8(b));
    encode_utf8_decode_utf8(a);
    encode_utf8_decode_utf8(b);
}

/// Compares two identifiers in the order of `key_lt`.
pub fn compare_keys(a: &str, b: &str) -> (r: Ordering)
    ensures
        (r == Ordering::Less) <==> key_lt(a@, b@),
        (r == Ordering::Equal) <==> a@ == b@,
        (r == Ordering::Greater) <==> key_lt(b@, a@),
{
    let x = a.as_bytes();
    let y = b.as_bytes();
    let ghost ea = encode_utf8(a@);
    let ghost eb = encode_utf8(b@);
    proof {
        assert(ea.skip(0) =~= ea);
        assert(eb.skip(0) =~= eb);
    }
    proof {
        lemma_key_lt_asymmetric(a@, b@);
        encode_utf8_decode_utf8(a@);
        encode_utf8_decode_utf8(b@);
    }
    let mut i: usize = 0;
    while i < x.len() && i < y.len()
        invariant
            ea == encode_utf8(a@),
            eb == encode_utf8(b@),
            a@ == b@ <==> ea == eb,
            !key_lt(a@, b@) || !key_lt(b@, a@),
            x@ == ea,
            y@ == eb,
            i <= x@.len(),
            i <= y@.len(),
            ea.subrange(0, i as int) =~= eb.subrange(0, i as int),
            bytes_lt(ea, eb) == bytes_lt(ea.skip(i as int), eb.skip(i as int)),
            bytes_lt(eb, ea) == bytes_lt(eb.skip(i as int), ea.skip(i as int)),
        decreases x@.len() - i,
    {
        if x[i] != y[i] {
            proof {
                assert(ea.skip(i as int)[0] == ea[i as int]);
                assert(eb.skip(i as int)[0] == eb[i as int]);
                assert(ea != eb);
            }
            if x[i] < y[i] {
                return Ordering::Less;
            } else {
                return Ordering::Greater;
            }
        }
        proof {
            assert(ea.skip(i as int).drop_first() =~= ea.skip(i + 1));
            assert(eb.skip(i as int).drop_first() =~= eb.skip(i + 1));
            assert(ea.subrange(0, i + 1) =~= ea.subrange(0, i as int).push(ea[i as int]));
            assert(eb.subrange(0, i + 1) =~= eb.subrange(0, i as int).push(eb[i as int]));
        }
        i = i + 1;
    }
    if x.len() < y.len() {
        Ordering::Less
    } else if y.len() < x.len() {
        Ordering::Greater
    } else {
        proof {
            assert(ea =~= ea.subrange(0, i as int));
            assert(eb =~= eb.subrange(0, i as int));
        }
        Ordering::Equal
    }
}

} // verus!
