//! Folding a whole strand around its major loop.

use vstd::prelude::*;
use crate::energy::{lemma_score_nonnegative, lemma_total_bases_split, score, total_bases};
use crate::search::{lemma_search_improves, search};
use crate::segment::Segment;
use crate::structure::{
    copy_segments_reversed, has_loop, lemma_major_loop_exists, major_loop_index,
    PreconditionViolation, RnaStructure,
};

verus! {

/// What minimising a strand yields: the strand put together again from the
/// best folding of its two arms, the energy of the arms as they stood, and
/// the energy of the best folding. Both energies count the bases of the
/// major loop.
pub open spec fn minimized(strand: Seq<Segment>) -> (Seq<Segment>, int, int) {
    let at = major_loop_index(strand);
    let arm_a = strand.take(at).reverse();
    let arm_b = strand.skip(at + 1);
    let found = search(arm_a, arm_b);
    (
        found.arm_a.reverse() + seq![strand[at]] + found.arm_b,
        score(arm_a, arm_b) + strand[at].base_count(),
        found.energy + strand[at].base_count(),
    )
}

/// Minimising never ends above the energy of the strand as it stood.
pub proof fn lemma_minimized_improves(strand: Seq<Segment>)
    requires
        has_loop(strand),
    ensures
        0 <= minimized(strand).2 <= minimized(strand).1 <= total_bases(strand),
{
    let at = major_loop_index(strand);
    lemma_major_loop_exists(strand);
    lemma_total_bases_split(strand, at);
    lemma_search_improves(strand.take(at).reverse(), strand.skip(at + 1));
    lemma_score_nonnegative(strand.take(at).reverse(), strand.skip(at + 1));
}

impl RnaStructure {
    /// Folds the strand around its major loop.
    ///
    /// Returns the strand put together again from the best folding of its two
    /// arms, the free energy of the strand as it stood, and the free energy
    /// of the best folding, which is never the greater of the two.
    pub fn minimize_free_energy(&self) -> (found: (Self, usize, usize))
        requires
            has_loop(self@),
            total_bases(self@) <= usize::MAX,
        ensures
            (found.0@, found.1 as int, found.2 as int) == minimized(self@),
            found.2 <= found.1,
    {
        let (strand_a, loop_segment, strand_b) = self.split_at_major_loop();
        proof {
            lemma_total_bases_split(self@, major_loop_index(self@));
            lemma_minimized_improves(self@);
        }
        let initial_free_energy = strand_a.paired_free_energy(&strand_b);
        let ((opt_strand_a, opt_strand_b), opt_free_energy) = Self::strand_permute_search(
            &strand_a,
            &strand_b,
        );
        let loop_free_energy = loop_segment.base_count();
        let mut segments = copy_segments_reversed(
            &opt_strand_a.segments,
            opt_strand_a.segments.len(),
        );
        let mut after = opt_strand_b.segments;
        let ghost before = segments@;
        let ghost tail = after@;
        segments.push(loop_segment);
        segments.append(&mut after);
        let opt_self = RnaStructure { segments };
        assert(opt_self@ =~= opt_strand_a@.reverse() + seq![loop_segment@] + opt_strand_b@) by {
            assert(opt_strand_a@.take(opt_strand_a@.len() as int) =~= opt_strand_a@);
            assert forall|k: int| 0 <= k < opt_self@.len() implies opt_self@[k] == (
                opt_strand_a@.reverse() + seq![loop_segment@] + opt_strand_b@)[k] by {
                if k < before.len() {
                    assert(opt_self.segments@[k] == before[k]);
                } else if k > before.len() {
                    assert(opt_self.segments@[k] == tail[k - before.len() - 1]);
                }
            }
        }
        (opt_self, initial_free_energy + loop_free_energy, opt_free_energy + loop_free_energy)
    }

    /// As `minimize_free_energy`, for any strand: a strand with no loop to
    /// fold around is refused.
    pub fn try_minimize_free_energy(&self) -> (found: Result<
        (Self, usize, usize),
        PreconditionViolation,
    >)
        requires
            total_bases(self@) <= usize::MAX,
        ensures
            match found {
                Ok(folded) => {
                    &&& has_loop(self@)
                    &&& (folded.0@, folded.1 as int, folded.2 as int) == minimized(self@)
                    &&& folded.2 <= folded.1
                },
                Err(violation) => !has_loop(self@) && violation
                    == PreconditionViolation::NoMajorLoop,
            },
    {
        if self.has_loop() {
            Ok(self.minimize_free_energy())
        } else {
            Err(PreconditionViolation::NoMajorLoop)
        }
    }
}

} // verus!
