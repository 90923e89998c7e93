//! Nucleotide sequences as byte strings, and the reverse complement.

use vstd::prelude::*;

verus! {

/// Complement of one nucleotide byte (`A`<->`T`, `C`<->`G`); any other byte
/// is its own complement, so that the complement is an involution.
pub open spec fn comp_byte(b: u8) -> u8 {
    if b == 65 {
        84
    } else if b == 84 {
        65
    } else if b == 67 {
        71
    } else if b == 71 {
        67
    } else {
        b
    }
}

/// Reverse complement of a sequence: the complement of each byte, read back
/// to front.
pub open spec fn revcomp(s: Seq<u8>) -> Seq<u8> {
    Seq::new(s.len(), |i: int| comp_byte(s[s.len() - 1 - i]))
}

/// Reverse-complementing a concatenation swaps the order of the parts.
pub proof fn lemma_revcomp_concat(a: Seq<u8>, b: Seq<u8>)
    ensures
        revcomp(a + b) == revcomp(b) + revcomp(a),
{
    assert forall|i: int| 0 <= i < revcomp(a + b).len() implies revcomp(a + b)[i] == (revcomp(b)
        + revcomp(a))[i] by {
        if i < b.len() {
            assert((a + b)[a.len() + b.len() - 1 - i] == b[b.len() - 1 - i]);
        } else {
            assert((a + b)[a.len() + b.len() - 1 - i] == a[a.len() - 1 - (i - b.len())]);
        }
    }
    assert(revcomp(a + b) =~= revcomp(b) + revcomp(a));
}

/// The reverse complement is an involution.
pub proof fn lemma_revcomp_revcomp(a: Seq<u8>)
    ensures
        revcomp(revcomp(a)) == a,
{
    assert(revcomp(revcomp(a)) =~= a);
}

pub fn comp_byte_ex(b: u8) -> (r: u8)
    ensures
        r == comp_byte(b),
{
    if b == 65 {
        84
    } else if b == 84 {
        65
    } else if b == 67 {
        71
    } else if b == 71 {
        67
    } else {
        b
    }
}

/// Builds the reverse complement of `v`.
pub fn revcomp_vec(v: &Vec<u8>) -> (r: Vec<u8>)
    ensures
        r@ == revcomp(v@),
{
    let mut out: Vec<u8> = Vec::new();
    let mut k: usize = v.len();
    while k > 0
        invariant
            k <= v@.len(),
            out@.len() == v@.len() - k,
            forall|i: int| 0 <= i < out@.len() ==> out@[i] == comp_byte(v@[v@.len() - 1 - i]),
        decreases k,
    {
        k = k - 1;
        out.push(comp_byte_ex(v[k]));
    }
    proof {
        assert(out@ =~= revcomp(v@));
    }
    out
}

} // verus!
