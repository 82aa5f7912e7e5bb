//! The four-letter alphabet and its canonical pairing rule.

use vstd::prelude::*;

verus! {

/// An alphabet whose symbols may pair with one another.
pub trait Nucleotide: Sized {
    /// The pairing relation of the alphabet.
    spec fn pairs(a: Self, b: Self) -> bool;

    /// Whether `a` and `b` can form a bond.
    fn can_pair(a: &Self, b: &Self) -> (bonded: bool)
        ensures
            bonded == Self::pairs(*a, *b),
    ;

    /// Whether `self` can form a bond with `other`.
    fn pairs_with(&self, other: &Self) -> (bonded: bool)
        ensures
            bonded == Self::pairs(*self, *other),
    {
        Self::can_pair(self, other)
    }
}

/// One base of an RNA strand.
#[derive(Debug, Clone, Copy, PartialEq, Eq, Structural)]
pub enum RnaNucleotide {
    A,
    C,
    G,
    U,
}

impl Nucleotide for RnaNucleotide {
    /// Watson-Crick pairing only: adenine with uracil, cytosine with guanine.
    open spec fn pairs(a: Self, b: Self) -> bool {
        ||| (a == RnaNucleotide::A && b == RnaNucleotide::U)
        ||| (a == RnaNucleotide::U && b == RnaNucleotide::A)
        ||| (a == RnaNucleotide::C && b == RnaNucleotide::G)
        ||| (a == RnaNucleotide::G && b == RnaNucleotide::C)
    }

    fn can_pair(a: &Self, b: &Self) -> (bonded: bool) {
        match (a, b) {
            (RnaNucleotide::A, RnaNucleotide::U) | (RnaNucleotide::U, RnaNucleotide::A) => true,
            (RnaNucleotide::C, RnaNucleotide::G) | (RnaNucleotide::G, RnaNucleotide::C) => true,
            _ => false,
        }
    }
}

/// The base a given base bonds with.
pub open spec fn complement(a: RnaNucleotide) -> RnaNucleotide {
    match a {
        RnaNucleotide::A => RnaNucleotide::U,
        RnaNucleotide::U => RnaNucleotide::A,
        RnaNucleotide::C => RnaNucleotide::G,
        RnaNucleotide::G => RnaNucleotide::C,
    }
}

/// Pairing is symmetric, and a base pairs with its complement and with
/// nothing else.
pub proof fn lemma_pairing_symmetric(a: RnaNucleotide, b: RnaNucleotide)
    ensures
        RnaNucleotide::pairs(a, b) == RnaNucleotide::pairs(b, a),
        RnaNucleotide::pairs(a, b) <==> b == complement(a),
{
}

} // verus!
