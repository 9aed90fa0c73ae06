//! ASCII-only case mapping, used to normalize textual commands.

use vstd::prelude::*;

verus! {

/// The ASCII uppercase mapping of one byte; bytes outside `a`-`z` pass
/// through unchanged.
pub open spec fn spec_upcase(b: u8) -> u8 {
    if 97 <= b && b <= 122 {
        (b - 32) as u8
    } else {
        b
    }
}

/// The ASCII lowercase mapping of one byte; bytes outside `A`-`Z` pass
/// through unchanged.
pub open spec fn spec_downcase(b: u8) -> u8 {
    if 65 <= b && b <= 90 {
        (b + 32) as u8
    } else {
        b
    }
}

/// The ASCII uppercase folding of a whole byte sequence.
pub open spec fn fold_upper(s: Seq<u8>) -> Seq<u8> {
    Seq::new(s.len(), |i: int| spec_upcase(s[i]))
}

/// A sequence is folded when uppercase folding leaves it unchanged.
pub open spec fn is_folded_upper(s: Seq<u8>) -> bool {
    fold_upper(s) == s
}

/// Upcase a byte, using the ASCII case mapping.
pub fn upcase(b: u8) -> (r: u8)
    ensures
        r == spec_upcase(b),
{
    if b >= 97 && b <= 122 {
        b - 32
    } else {
        b
    }
}

/// Downcase a byte, using the ASCII case mapping.
pub fn downcase(b: u8) -> (r: u8)
    ensures
        r == spec_downcase(b),
{
    if b >= 65 && b <= 90 {
        b + 32
    } else {
        b
    }
}

/// Folding a sequence twice is the same as folding it once: the output of
/// the fold is itself folded.
pub proof fn lemma_fold_upper_idempotent(s: Seq<u8>)
    ensures
        fold_upper(fold_upper(s)) == fold_upper(s),
        is_folded_upper(fold_upper(s)),
{
    assert(fold_upper(fold_upper(s)) =~= fold_upper(s));
}

/// Case normalization: a folded sequence holds no lowercase ASCII byte, and
/// folding never changes a sequence's length.
pub proof fn lemma_fold_upper_uppercase(s: Seq<u8>)
    ensures
        fold_upper(s).len() == s.len(),
        forall|i: int| #![trigger fold_upper(s)[i]]
            0 <= i < s.len() ==> !(97 <= fold_upper(s)[i] <= 122),
{
}

} // verus!
