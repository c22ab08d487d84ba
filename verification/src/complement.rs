//! Reverse complement of a nucleotide sequence.

use vstd::prelude::*;
use crate::error::Error;

verus! {

/// The complement of a nucleotide symbol, for the symbols that have one: the
/// four bases, `U`, the ambiguity codes and `N`, each in upper and in lower
/// case. The complement keeps the case.
pub open spec fn complement_of(base: u8) -> Option<u8> {
    match base {
        65u8 => Some(84u8),  // A to T
        67u8 => Some(71u8),  // C to G
        71u8 => Some(67u8),  // G to C
        84u8 => Some(65u8),  // T to A
        85u8 => Some(65u8),  // U to A
        87u8 => Some(87u8),  // W to W
        83u8 => Some(83u8),  // S to S
        77u8 => Some(75u8),  // M to K
        75u8 => Some(77u8),  // K to M
        82u8 => Some(89u8),  // R to Y
        89u8 => Some(82u8),  // Y to R
        66u8 => Some(86u8),  // B to V
        68u8 => Some(72u8),  // D to H
        72u8 => Some(68u8),  // H to D
        86u8 => Some(66u8),  // V to B
        78u8 => Some(78u8),  // N to N
        97u8 => Some(116u8),  // a to t
        99u8 => Some(103u8),  // c to g
        103u8 => Some(99u8),  // g to c
        116u8 => Some(97u8),  // t to a
        117u8 => Some(97u8),  // u to a
        119u8 => Some(119u8),  // w to w
        115u8 => Some(115u8),  // s to s
        109u8 => Some(107u8),  // m to k
        107u8 => Some(109u8),  // k to m
        114u8 => Some(121u8),  // r to y
        121u8 => Some(114u8),  // y to r
        98u8 => Some(118u8),  // b to v
        100u8 => Some(104u8),  // d to h
        104u8 => Some(100u8),  // h to d
        118u8 => Some(98u8),  // v to b
        110u8 => Some(110u8),  // n to n
        _ => None,
    }
}

/// Whether every symbol of a sequence has a complement.
pub open spec fn complementable(bases: Seq<u8>) -> bool {
    forall|i: int| 0 <= i < bases.len() ==> complement_of(#[trigger] bases[i]) is Some
}

/// The complement of a sequence, symbol by symbol.
pub open spec fn complemented(bases: Seq<u8>) -> Seq<u8> {
    Seq::new(bases.len(), |i: int| complement_of(bases[i]).unwrap())
}

/// The reverse complement of a sequence: its complement, last symbol first.
pub open spec fn reverse_complemented(bases: Seq<u8>) -> Seq<u8> {
    Seq::new(bases.len(), |i: int| complement_of(bases[bases.len() - 1 - i]).unwrap())
}

/// Whether the complement of a symbol's complement is the symbol itself.
/// That holds of every symbol that has a complement but `U` and `u`, whose
/// complement `A` leads on to `T`.
pub open spec fn self_inverse(base: u8) -> bool {
    match complement_of(base) {
        Some(other) => complement_of(other) == Some(base),
        None => false,
    }
}

/// Calls `noodles::fasta::record::Sequence::complement` on the sequence and
/// collects what the iterator yields. The contract claims what the source of
/// the iterator shows: each symbol is mapped by the table that
/// `complement_of` repeats, and the first symbol outside the table makes the
/// whole fail.
#[verifier::external_body]
fn complement_bases(bases: &[u8]) -> (r: Option<Vec<u8>>)
    ensures
        match r {
            Some(other) => complementable(bases@) && other@ == complemented(bases@),
            None => !complementable(bases@),
        },
{
    let sequence = noodles::fasta::record::Sequence::from(bases.to_vec());
    sequence.complement().collect::<Result<Vec<u8>, _>>().ok()
}

/// What reverse-complementing gives: the reverse complement where every
/// symbol has a complement, else the failure `Complement`.
pub open spec fn reverse_complement_of(bases: Seq<u8>) -> Result<Seq<u8>, Error> {
    if complementable(bases) {
        Ok(reverse_complemented(bases))
    } else {
        Err(Error::Complement)
    }
}

/// Reverse-complements a sequence.
pub fn reverse_complement(bases: &[u8]) -> (r: Result<Vec<u8>, Error>)
    ensures
        match r {
            Ok(other) => reverse_complement_of(bases@) == Ok::<Seq<u8>, Error>(other@),
            Err(e) => reverse_complement_of(bases@) == Err::<Seq<u8>, Error>(e),
        },
{
    let Some(forward) = complement_bases(bases) else {
        return Err(Error::Complement);
    };
    let count: usize = forward.len();
    let mut out: Vec<u8> = Vec::new();
    let mut i: usize = 0;
    while i < count
        invariant
            i <= count,
            count == forward.len(),
            out.len() == i,
            forall|k: int| 0 <= k < i ==> out@[k] == forward@[count - 1 - k],
        decreases count - i,
    {
        out.push(forward[count - 1 - i]);
        i += 1;
    }
    assert(out@ =~= reverse_complemented(bases@));
    Ok(out)
}

/// Reverse-complementing twice gives the sequence back, for every sequence
/// whose symbols are their complements' complements.
pub proof fn lemma_reverse_complement_involution(bases: Seq<u8>)
    requires
        forall|i: int| 0 <= i < bases.len() ==> self_inverse(#[trigger] bases[i]),
    ensures
        reverse_complement_of(bases) == Ok::<Seq<u8>, Error>(reverse_complemented(bases)),
        reverse_complement_of(reverse_complemented(bases)) == Ok::<Seq<u8>, Error>(bases),
{
    let once = reverse_complemented(bases);
    assert forall|i: int| 0 <= i < once.len() implies complement_of(#[trigger] once[i]) is Some by {
        assert(self_inverse(bases[bases.len() - 1 - i]));
    }
    assert forall|i: int| 0 <= i < bases.len() implies reverse_complemented(once)[i]
        == bases[i] by {
        assert(self_inverse(bases[i]));
        assert(once[once.len() - 1 - i] == complement_of(bases[i]).unwrap());
    }
    assert(reverse_complemented(once) =~= bases);
}

} // verus!
