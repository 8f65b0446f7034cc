//! The XOR-fold checksum used to compare an archive read against a disk read.
//!
//! The checksum is one byte of state: the bitwise exclusive-or of every byte
//! in the buffer. It is order-insensitive and collision-prone, so it serves
//! only as a cheap sanity check that two buffers hold the same bytes, never
//! as a collision-resistant digest.

use vstd::prelude::*;

verus! {

/// The XOR-fold of a byte sequence: every byte exclusive-or'd together,
/// starting from zero.
pub open spec fn xor_fold(s: Seq<u8>) -> u8
    decreases s.len(),
{
    if s.len() == 0 {
        0u8
    } else {
        xor_fold(s.drop_last()) ^ s.last()
    }
}

/// One byte of checksum over a whole buffer: the XOR-fold of its bytes.
pub fn super_fast_hash(bytes: &Vec<u8>) -> (r: u8)
    ensures
        r == xor_fold(bytes@),
{
    let mut rv: u8 = 0;
    let mut i: usize = 0;
    while i < bytes.len()
        invariant
            i <= bytes@.len(),
            rv == xor_fold(bytes@.take(i as int)),
        decreases bytes@.len() - i,
    {
        proof {
            assert(bytes@.take(i + 1).drop_last() =~= bytes@.take(i as int));
            assert(bytes@.take(i + 1).last() == bytes@[i as int]);
        }
        rv = rv ^ bytes[i];
        i = i + 1;
    }
    proof {
        assert(bytes@.take(bytes@.len() as int) =~= bytes@);
    }
    rv
}

/// The XOR-fold distributes over concatenation: folding two buffers joined
/// together gives the fold of one xor'd with the fold of the other.
pub proof fn lemma_xor_fold_concat(a: Seq<u8>, b: Seq<u8>)
    ensures
        xor_fold(a + b) == (xor_fold(a) ^ xor_fold(b)),
    decreases b.len(),
{
    if b.len() == 0 {
        assert(a + b =~= a);
        let x = xor_fold(a);
        assert(x ^ 0u8 == x) by (bit_vector);
    } else {
        lemma_xor_fold_concat(a, b.drop_last());
        assert((a + b).drop_last() =~= a + b.drop_last());
        assert((a + b).last() == b.last());
        let x = xor_fold(a);
        let y = xor_fold(b.drop_last());
        let z = b.last();
        assert((x ^ y) ^ z == x ^ (y ^ z)) by (bit_vector);
    }
}

/// The XOR-fold is insensitive to the order of two joined buffers: swapping
/// the halves of a concatenation leaves the checksum unchanged.
pub proof fn lemma_xor_fold_order_insensitive(a: Seq<u8>, b: Seq<u8>)
    ensures
        xor_fold(a + b) == xor_fold(b + a),
{
    lemma_xor_fold_concat(a, b);
    lemma_xor_fold_concat(b, a);
    let x = xor_fold(a);
    let y = xor_fold(b);
    assert(x ^ y == y ^ x) by (bit_vector);
}

/// Removing one byte from a buffer takes that byte back out of the fold.
proof fn lemma_xor_fold_remove(s: Seq<u8>, i: int)
    requires
        0 <= i < s.len(),
    ensures
        xor_fold(s) == (xor_fold(s.remove(i)) ^ s[i]),
{
    let front = s.take(i);
    let back = s.skip(i + 1);
    assert(s =~= front + (seq![s[i]] + back));
    assert(s.remove(i) =~= front + back);
    lemma_xor_fold_concat(front, seq![s[i]] + back);
    lemma_xor_fold_concat(seq![s[i]], back);
    lemma_xor_fold_concat(front, back);
    let single = seq![s[i]];
    assert(single.len() == 1);
    assert(single.last() == s[i]);
    assert(single.drop_last() =~= Seq::<u8>::empty());
    assert(xor_fold(Seq::<u8>::empty()) == 0u8);
    assert(xor_fold(single) == (xor_fold(single.drop_last()) ^ single.last()));
    assert(xor_fold(single) == (0u8 ^ s[i]));
    let f = xor_fold(front);
    let m = s[i];
    let k = xor_fold(back);
    assert(f ^ ((0u8 ^ m) ^ k) == ((f ^ k) ^ m)) by (bit_vector);
}

/// The XOR-fold depends only on which bytes a buffer holds, and how often —
/// never on their order: any two buffers that hold the same multiset of
/// bytes fold to the same checksum. This is the documented weakness of the
/// checksum: it cannot tell reordered content apart, so it must only ever
/// back a cheap equality sanity check.
pub proof fn lemma_xor_fold_permutation(a: Seq<u8>, b: Seq<u8>)
    requires
        a.to_multiset() == b.to_multiset(),
    ensures
        xor_fold(a) == xor_fold(b),
    decreases a.len(),
{
    broadcast use vstd::seq_lib::group_to_multiset_ensures;

    if a.len() == 0 {
        assert(b.to_multiset().len() == 0);
        assert(b.len() == 0);
    } else {
        let x = a.last();
        assert(a.contains(x));
        assert(a.to_multiset().count(x) > 0);
        assert(b.to_multiset().count(x) > 0);
        assert(b.contains(x));
        let i = choose|i: int| 0 <= i < b.len() && b[i] == x;
        assert(a.remove(a.len() - 1) =~= a.drop_last());
        assert(a.drop_last().to_multiset() =~= a.to_multiset().remove(x));
        assert(b.remove(i).to_multiset() =~= b.to_multiset().remove(x));
        lemma_xor_fold_permutation(a.drop_last(), b.remove(i));
        lemma_xor_fold_remove(b, i);
    }
}

} // verus!
