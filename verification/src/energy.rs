//! The free-energy score of two opposing arms.

use vstd::prelude::*;
use crate::nucleotide::{Nucleotide, RnaNucleotide};
use crate::segment::{RnaSegment, Segment};
use crate::structure::RnaStructure;

verus! {

/// The number of bases on a strand: what the strand costs with no bond made.
pub open spec fn total_bases(strand: Seq<Segment>) -> nat
    decreases strand.len(),
{
    if strand.len() == 0 {
        0
    } else {
        strand[0].base_count() + total_bases(strand.drop_first())
    }
}

/// The lone bases of a strand, in order, loops left out.
pub open spec fn singles(strand: Seq<Segment>) -> Seq<RnaNucleotide>
    decreases strand.len(),
{
    if strand.len() == 0 {
        Seq::empty()
    } else {
        match strand[0] {
            Segment::Single(base) => seq![base] + singles(strand.drop_first()),
            Segment::Loop(_) => singles(strand.drop_first()),
        }
    }
}

/// The number of positions at which two runs of bases, laid side by side
/// from their first base on, hold a canonical pair.
pub open spec fn bonds(a: Seq<RnaNucleotide>, b: Seq<RnaNucleotide>) -> nat
    decreases a.len(),
{
    if a.len() == 0 || b.len() == 0 {
        0
    } else {
        (if RnaNucleotide::pairs(a[0], b[0]) {
            1nat
        } else {
            0nat
        }) + bonds(a.drop_first(), b.drop_first())
    }
}

/// The score of two opposing arms: every base costs one, and every bond
/// between the lone bases of the two arms gives back the cost of its two
/// bases. Lower is more stable.
pub open spec fn score(a: Seq<Segment>, b: Seq<Segment>) -> int {
    total_bases(a) + total_bases(b) - 2 * bonds(singles(a), singles(b))
}

/// No more bonds form than either run has bases.
pub proof fn lemma_bonds_bounded(a: Seq<RnaNucleotide>, b: Seq<RnaNucleotide>)
    ensures
        bonds(a, b) <= a.len(),
        bonds(a, b) <= b.len(),
    decreases a.len(),
{
    if a.len() > 0 && b.len() > 0 {
        lemma_bonds_bounded(a.drop_first(), b.drop_first());
    }
}

/// A strand has no more lone bases than bases.
pub proof fn lemma_singles_bounded(strand: Seq<Segment>)
    ensures
        singles(strand).len() <= total_bases(strand),
    decreases strand.len(),
{
    if strand.len() > 0 {
        lemma_singles_bounded(strand.drop_first());
    }
}

/// The score is never negative.
pub proof fn lemma_score_nonnegative(a: Seq<Segment>, b: Seq<Segment>)
    ensures
        0 <= score(a, b) <= total_bases(a) + total_bases(b),
{
    lemma_bonds_bounded(singles(a), singles(b));
    lemma_singles_bounded(a);
    lemma_singles_bounded(b);
}

/// Strands whose segments hold as many bases, position by position, hold as
/// many bases in all.
pub proof fn lemma_total_bases_pointwise(s: Seq<Segment>, t: Seq<Segment>)
    requires
        s.len() == t.len(),
        forall|i: int| 0 <= i < s.len() ==> s[i].base_count() == t[i].base_count(),
    ensures
        total_bases(s) == total_bases(t),
    decreases s.len(),
{
    if s.len() > 0 {
        assert forall|i: int| 0 <= i < s.drop_first().len() implies s.drop_first()[i].base_count()
            == t.drop_first()[i].base_count() by {
            assert(s.drop_first()[i] == s[i + 1]);
            assert(t.drop_first()[i] == t[i + 1]);
        }
        lemma_total_bases_pointwise(s.drop_first(), t.drop_first());
    }
}

/// A strand followed by another holds the bases of both.
pub proof fn lemma_total_bases_concat(s: Seq<Segment>, t: Seq<Segment>)
    ensures
        total_bases(s + t) == total_bases(s) + total_bases(t),
    decreases s.len(),
{
    if s.len() == 0 {
        assert(s + t =~= t);
    } else {
        assert((s + t).drop_first() =~= s.drop_first() + t);
        lemma_total_bases_concat(s.drop_first(), t);
    }
}

/// A strand read backwards holds as many bases.
pub proof fn lemma_total_bases_reverse(s: Seq<Segment>)
    ensures
        total_bases(s.reverse()) == total_bases(s),
    decreases s.len(),
{
    if s.len() > 0 {
        let first = seq![s[0]];
        assert(first.drop_first() =~= Seq::<Segment>::empty());
        assert(total_bases(first.drop_first()) == 0);
        assert(s.reverse() =~= s.drop_first().reverse() + first);
        lemma_total_bases_concat(s.drop_first().reverse(), first);
        lemma_total_bases_reverse(s.drop_first());
    }
}

/// The two arms and the loop between them hold the bases of the strand.
pub proof fn lemma_total_bases_split(strand: Seq<Segment>, at: int)
    requires
        0 <= at < strand.len(),
    ensures
        total_bases(strand.take(at).reverse()) + strand[at].base_count() + total_bases(
            strand.skip(at + 1),
        ) == total_bases(strand),
{
    let middle = seq![strand[at]];
    assert(middle.drop_first() =~= Seq::<Segment>::empty());
    assert(total_bases(middle.drop_first()) == 0);
    assert(strand =~= strand.take(at) + middle + strand.skip(at + 1));
    lemma_total_bases_concat(strand.take(at) + middle, strand.skip(at + 1));
    lemma_total_bases_concat(strand.take(at), middle);
    lemma_total_bases_reverse(strand.take(at));
}

impl RnaStructure {
    /// The number of bases on the strand, or nothing where it is more than
    /// the machine can count.
    pub fn total_bases(&self) -> (count: Option<usize>)
        ensures
            match count {
                Some(bases) => bases == total_bases(self@),
                None => total_bases(self@) > usize::MAX,
            },
    {
        let mut bases: usize = 0;
        let mut i: usize = 0;
        assert(self@.skip(0) =~= self@);
        while i < self.segments.len()
            invariant
                i <= self.segments.len(),
                bases + total_bases(self@.skip(i as int)) == total_bases(self@),
            decreases self.segments.len() - i,
        {
            assert(self@.skip(i as int).drop_first() =~= self@.skip(i + 1));
            assert(self@.skip(i as int)[0] == self.segments@[i as int]@);
            match bases.checked_add(self.segments[i].base_count()) {
                Some(sum) => {
                    bases = sum;
                },
                None => {
                    return None;
                },
            }
            i += 1;
        }
        Some(bases)
    }

    /// The cost of the strand with no bond made, and its lone bases in order.
    fn unpaired_profile(&self) -> (profile: (usize, Vec<RnaNucleotide>))
        requires
            total_bases(self@) <= usize::MAX,
        ensures
            profile.0 == total_bases(self@),
            profile.1@ == singles(self@),
    {
        let mut free_energy: usize = 0;
        let mut strand: Vec<RnaNucleotide> = Vec::new();
        let mut i: usize = 0;
        assert(self@.skip(0) =~= self@);
        while i < self.segments.len()
            invariant
                i <= self.segments.len(),
                total_bases(self@) <= usize::MAX,
                free_energy + total_bases(self@.skip(i as int)) == total_bases(self@),
                strand@ + singles(self@.skip(i as int)) == singles(self@),
            decreases self.segments.len() - i,
        {
            assert(self@.skip(i as int).drop_first() =~= self@.skip(i + 1));
            assert(self@.skip(i as int)[0] == self.segments@[i as int]@);
            match &self.segments[i] {
                RnaSegment::Loop(bases) => {
                    free_energy += bases.len();
                },
                RnaSegment::Single(base) => {
                    free_energy += 1;
                    strand.push(*base);
                },
            }
            i += 1;
            assert(strand@ + singles(self@.skip(i as int)) =~= singles(self@));
        }
        (free_energy, strand)
    }

    /// The free energy of this arm laid against `other`.
    pub fn paired_free_energy(&self, other: &Self) -> (energy: usize)
        requires
            total_bases(self@) + total_bases(other@) <= usize::MAX,
        ensures
            energy == score(self@, other@),
    {
        let (free_energy_a, strand_a) = self.unpaired_profile();
        let (free_energy_b, strand_b) = other.unpaired_profile();
        let mut h_bonds: usize = 0;
        let mut i: usize = 0;
        assert(strand_a@.skip(0) =~= strand_a@ && strand_b@.skip(0) =~= strand_b@);
        while i < strand_a.len() && i < strand_b.len()
            invariant
                i <= strand_a.len(),
                i <= strand_b.len(),
                h_bonds <= i,
                h_bonds + bonds(strand_a@.skip(i as int), strand_b@.skip(i as int)) == bonds(
                    strand_a@,
                    strand_b@,
                ),
            decreases strand_a.len() - i,
        {
            assert(strand_a@.skip(i as int).drop_first() =~= strand_a@.skip(i + 1));
            assert(strand_b@.skip(i as int).drop_first() =~= strand_b@.skip(i + 1));
            if RnaNucleotide::can_pair(&strand_a[i], &strand_b[i]) {
                h_bonds += 1;
            }
            i += 1;
        }
        proof {
            lemma_score_nonnegative(self@, other@);
        }
        free_energy_a + free_energy_b - (h_bonds * 2)
    }
}

} // verus!
