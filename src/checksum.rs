//! The single-byte integrity code of a frame: the exclusive-or of its bytes.
use vstd::prelude::*;

verus! {

/// The running exclusive-or of all bytes of `s`, starting from zero.
pub open spec fn xor_fold(s: Seq<u8>) -> u8
    decreases s.len(),
{
    if s.len() == 0 {
        0
    } else {
        xor_fold(s.drop_last()) ^ s.last()
    }
}

/// Folds every byte of `bytes` with exclusive-or, in order.
pub fn checksum(bytes: &[u8]) -> (r: u8)
    ensures
        r == xor_fold(bytes@),
{
    let mut acc: u8 = 0;
    let mut i: usize = 0;
    while i < bytes.len()
        invariant
            i <= bytes@.len(),
            acc == xor_fold(bytes@.take(i as int)),
        decreases bytes@.len() - i,
    {
        assert(bytes@.take(i as int + 1).drop_last() =~= bytes@.take(i as int));
        acc = acc ^ bytes[i];
        i = i + 1;
    }
    assert(bytes@.take(i as int) =~= bytes@);
    acc
}

/// Flipping the bits of `m` in one byte flips the same bits of the fold.
pub proof fn lemma_xor_fold_update(s: Seq<u8>, i: int, m: u8)
    requires
        0 <= i < s.len(),
    ensures
        xor_fold(s.update(i, s[i] ^ m)) == xor_fold(s) ^ m,
    decreases s.len(),
{
    let t = s.update(i, s[i] ^ m);
    let a = xor_fold(s.drop_last());
    let l = s.last();
    if i == s.len() - 1 {
        assert(t.drop_last() =~= s.drop_last());
        assert((a ^ (l ^ m)) == ((a ^ l) ^ m)) by (bit_vector);
    } else {
        lemma_xor_fold_update(s.drop_last(), i, m);
        assert(t.drop_last() =~= s.drop_last().update(i, s[i] ^ m));
        assert(((a ^ m) ^ l) == ((a ^ l) ^ m)) by (bit_vector);
    }
}

} // verus!
