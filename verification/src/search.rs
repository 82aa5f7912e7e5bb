//! The recursive search for the segmentation of two arms with the least free
//! energy.

use vstd::prelude::*;
use crate::energy::{
    bonds, lemma_score_nonnegative, lemma_total_bases_pointwise, score, singles, total_bases,
};
use crate::nucleotide::RnaNucleotide;
use crate::parallel::par_map;
use crate::segment::Segment;
use crate::structure::{align_fronts, front, has_single, joined, promoted, rest, RnaStructure};

verus! {

/// Two arms and the free energy they were found to have.
pub struct Folding {
    pub arm_a: Seq<Segment>,
    pub arm_b: Seq<Segment>,
    pub energy: int,
}

/// Of two outcomes the one with less energy; the earlier one where they tie.
pub open spec fn better(earlier: Folding, later: Folding) -> Folding {
    if later.energy < earlier.energy {
        later
    } else {
        earlier
    }
}

/// What one candidate pair of arms folds to.
///
/// The fronts are aligned and their energy is scored. Where both tails still
/// hold segments they are searched in turn; else the strand is exhausted and
/// the tails are scored as they stand. The heads are joined to what came of
/// the tails.
pub open spec fn candidate_outcome(a: Seq<Segment>, b: Seq<Segment>) -> Folding
    decreases a.len() + b.len(), 0int,
{
    let (a_head, a_tail, b_head, b_tail) = align_fronts(a, b);
    if a_tail.len() > 0 && b_tail.len() > 0 {
        let tails = search(a_tail, b_tail);
        Folding {
            arm_a: joined(a_head, tails.arm_a),
            arm_b: joined(b_head, tails.arm_b),
            energy: score(a_head, b_head) + tails.energy,
        }
    } else {
        Folding {
            arm_a: joined(a_head, a_tail),
            arm_b: joined(b_head, b_tail),
            energy: score(a_head, b_head) + score(a_tail, b_tail),
        }
    }
}

/// The best folding of two arms that start next to a shared loop.
///
/// Three candidates are tried, in this order: the arms as they are; arm A
/// with its first lone base turned into a loop; arm B with its first lone
/// base turned into a loop. A candidate whose arm holds no lone base to turn
/// is left out. The candidate with the least energy wins, and of several with
/// the least energy the first.
pub open spec fn search(a: Seq<Segment>, b: Seq<Segment>) -> Folding
    decreases a.len() + b.len(), 1int,
{
    let unchanged = candidate_outcome(a, b);
    let with_a = if has_single(a) {
        better(unchanged, candidate_outcome(promoted(a), b))
    } else {
        unchanged
    };
    if has_single(b) {
        better(with_a, candidate_outcome(a, promoted(b)))
    } else {
        with_a
    }
}

/// The candidate pairs of arms that a search tries, in the order in which it
/// tries them.
pub open spec fn candidate_arms(a: Seq<Segment>, b: Seq<Segment>) -> Seq<
    (Seq<Segment>, Seq<Segment>),
> {
    let unchanged = seq![(a, b)];
    let with_a = if has_single(a) {
        unchanged.push((promoted(a), b))
    } else {
        unchanged
    };
    if has_single(b) {
        with_a.push((a, promoted(b)))
    } else {
        with_a
    }
}

/// The mathematical value of what a search returns.
pub open spec fn folding_of(found: ((RnaStructure, RnaStructure), usize)) -> Folding {
    Folding { arm_a: found.0.0@, arm_b: found.0.1@, energy: found.1 as int }
}

/// Turning a lone base into a loop changes no base count.
pub proof fn lemma_promoted_total_bases(strand: Seq<Segment>)
    ensures
        promoted(strand).len() == strand.len(),
        total_bases(promoted(strand)) == total_bases(strand),
{
    lemma_total_bases_pointwise(promoted(strand), strand);
}

/// The first segment and the rest hold the bases of the strand between them,
/// and its lone bases in the same order.
pub proof fn lemma_front_rest(strand: Seq<Segment>)
    ensures
        total_bases(front(strand)) + total_bases(rest(strand)) == total_bases(strand),
        singles(front(strand)) + singles(rest(strand)) == singles(strand),
        singles(front(strand)).len() <= 1,
        strand.len() > 0 && strand[0] is Loop ==> singles(front(strand)).len() == 0,
        strand.len() > 0 && strand[0] is Single ==> singles(front(strand)) == seq![
            strand[0]->Single_0,
        ],
{
    if strand.len() > 0 {
        let first = front(strand);
        assert(first.drop_first() =~= Seq::<Segment>::empty());
        assert(total_bases(first.drop_first()) == 0);
        assert(singles(first.drop_first()) =~= Seq::<RnaNucleotide>::empty());
        assert(rest(strand) =~= strand.drop_first());
        assert(first[0] == strand[0]);
        assert(singles(first) + singles(rest(strand)) =~= singles(strand));
    } else {
        assert(singles(front(strand)) + singles(rest(strand)) =~= singles(strand));
    }
}

/// Aligning the fronts loses no energy: the score of the heads and the score
/// of the tails add up to the score of the two arms.
pub proof fn lemma_align_preserves_score(a: Seq<Segment>, b: Seq<Segment>)
    ensures
        ({
            let (a_head, a_tail, b_head, b_tail) = align_fronts(a, b);
            &&& score(a_head, b_head) + score(a_tail, b_tail) == score(a, b)
            &&& total_bases(a_head) + total_bases(a_tail) == total_bases(a)
            &&& total_bases(b_head) + total_bases(b_tail) == total_bases(b)
            &&& a_tail.len() > 0 && b_tail.len() > 0 ==> a_tail.len() + b_tail.len() < a.len()
                + b.len()
        }),
{
    let (a_head, a_tail, b_head, b_tail) = align_fronts(a, b);
    let empty = Seq::<Segment>::empty();
    lemma_front_rest(a);
    lemma_front_rest(b);
    assert(total_bases(empty) == 0);
    assert(singles(empty).len() == 0);
    assert(singles(a_head).len() <= 1);
    assert(singles(b_head).len() <= 1);
    let sa = singles(a);
    let sb = singles(b);
    if singles(a_head).len() == 1 && singles(b_head).len() == 1 {
        assert(sa.drop_first() =~= singles(a_tail));
        assert(sb.drop_first() =~= singles(b_tail));
        assert(singles(a_head).drop_first().len() == 0);
        assert(bonds(singles(a_head).drop_first(), singles(b_head).drop_first()) == 0);
        assert(sa[0] == singles(a_head)[0]);
        assert(sb[0] == singles(b_head)[0]);
    } else if singles(a_head).len() == 0 && singles(b_head).len() == 0 {
        assert(singles(a_tail) =~= sa);
        assert(singles(b_tail) =~= sb);
    } else if singles(a_head).len() == 0 {
        // Arm A is exhausted or gives up a loop; arm B gives up a lone base
        // only where arm A is exhausted.
        assert(a.len() == 0);
        assert(sa.len() == 0);
        assert(singles(a_tail).len() == 0);
    } else {
        assert(b.len() == 0);
        assert(sb.len() == 0);
        assert(singles(b_tail).len() == 0);
    }
}

/// No candidate ends above the score of its arms as they stand, nor below
/// zero.
pub proof fn lemma_candidate_bounded(a: Seq<Segment>, b: Seq<Segment>)
    ensures
        0 <= candidate_outcome(a, b).energy <= score(a, b),
    decreases a.len() + b.len(), 0int,
{
    let (a_head, a_tail, b_head, b_tail) = align_fronts(a, b);
    lemma_align_preserves_score(a, b);
    lemma_score_nonnegative(a_head, b_head);
    lemma_score_nonnegative(a_tail, b_tail);
    if a_tail.len() > 0 && b_tail.len() > 0 {
        lemma_search_improves(a_tail, b_tail);
    }
}

/// Searching never ends above the score of the arms as they stand.
pub proof fn lemma_search_improves(a: Seq<Segment>, b: Seq<Segment>)
    ensures
        0 <= candidate_outcome(a, b).energy <= score(a, b),
        0 <= search(a, b).energy <= score(a, b),
    decreases a.len() + b.len(), 1int,
{
    lemma_candidate_bounded(a, b);
    if has_single(a) {
        lemma_candidate_bounded(promoted(a), b);
    }
    if has_single(b) {
        lemma_candidate_bounded(a, promoted(b));
    }
}

/// The search returns the least energy among the candidates it tries.
pub proof fn lemma_search_is_minimum(a: Seq<Segment>, b: Seq<Segment>)
    ensures
        search(a, b).energy <= candidate_outcome(a, b).energy,
        has_single(a) ==> search(a, b).energy <= candidate_outcome(promoted(a), b).energy,
        has_single(b) ==> search(a, b).energy <= candidate_outcome(a, promoted(b)).energy,
        search(a, b) == candidate_outcome(a, b) || (has_single(a) && search(a, b)
            == candidate_outcome(promoted(a), b)) || (has_single(b) && search(a, b)
            == candidate_outcome(a, promoted(b))),
{
}

/// Where no other candidate is strictly better than the arms as they stand,
/// the search returns what the arms as they stand fold to: of candidates with
/// equal energy the first wins.
pub proof fn lemma_search_first_wins_ties(a: Seq<Segment>, b: Seq<Segment>)
    requires
        has_single(a) ==> candidate_outcome(a, b).energy <= candidate_outcome(
            promoted(a),
            b,
        ).energy,
        has_single(b) ==> candidate_outcome(a, b).energy <= candidate_outcome(
            a,
            promoted(b),
        ).energy,
    ensures
        search(a, b) == candidate_outcome(a, b),
{
}

impl RnaStructure {
    /// Folds one candidate pair of arms: aligns the fronts, scores the heads,
    /// searches the tails where both still hold segments and scores them as
    /// they stand where one is exhausted, and joins heads and tails again.
    pub fn fold_candidate(strand_a: &Self, strand_b: &Self) -> (found: ((Self, Self), usize))
        requires
            total_bases(strand_a@) + total_bases(strand_b@) <= usize::MAX,
        ensures
            folding_of(found) == candidate_outcome(strand_a@, strand_b@),
        decreases strand_a@.len() + strand_b@.len(), 0int,
    {
        let (mut a_head, a_tail, mut b_head, b_tail) = strand_a.split_at_first_pair(strand_b);
        proof {
            lemma_align_preserves_score(strand_a@, strand_b@);
            lemma_score_nonnegative(a_head@, b_head@);
            lemma_score_nonnegative(a_tail@, b_tail@);
        }
        let mut free_energy = a_head.paired_free_energy(&b_head);
        if a_tail.segments.len() > 0 && b_tail.segments.len() > 0 {
            proof {
                lemma_search_improves(a_tail@, b_tail@);
            }
            let ((opt_a_tail, opt_b_tail), opt_free_energy) = Self::strand_permute_search(
                &a_tail,
                &b_tail,
            );
            a_head.join(opt_a_tail);
            b_head.join(opt_b_tail);
            free_energy += opt_free_energy;
        } else {
            free_energy += a_tail.paired_free_energy(&b_tail);
            a_head.join(a_tail);
            b_head.join(b_tail);
        }
        ((a_head, b_head), free_energy)
    }

    /// Searches for the folding of two arms with the least free energy.
    ///
    /// The candidates are folded side by side on rayon's worker threads, each
    /// on arms of its own; the least is picked once all of them are done.
    pub fn strand_permute_search(strand_a: &Self, strand_b: &Self) -> (found: ((Self, Self), usize))
        requires
            total_bases(strand_a@) + total_bases(strand_b@) <= usize::MAX,
        ensures
            folding_of(found) == search(strand_a@, strand_b@),
        decreases strand_a@.len() + strand_b@.len(), 1int,
    {
        let mut candidates: Vec<(Self, Self)> = Vec::new();
        candidates.push((strand_a.clone(), strand_b.clone()));
        proof {
            lemma_promoted_total_bases(strand_a@);
            lemma_promoted_total_bases(strand_b@);
        }
        if let Ok(looped_a) = strand_a.try_with_first_single_looped() {
            candidates.push((looped_a, strand_b.clone()));
        }
        if let Ok(looped_b) = strand_b.try_with_first_single_looped() {
            candidates.push((strand_a.clone(), looped_b));
        }
        let ghost arms = candidate_arms(strand_a@, strand_b@);
        assert(candidates@.len() == arms.len());
        assert forall|i: int| 0 <= i < candidates@.len() implies (
            #[trigger] candidates@[i].0@,
            candidates@[i].1@,
        ) == arms[i] by {}
        let ghost measure = strand_a@.len() + strand_b@.len();
        let fold = |pair: &(Self, Self)| -> (found: ((Self, Self), usize))
            requires
                total_bases(pair.0@) + total_bases(pair.1@) <= usize::MAX,
                pair.0@.len() + pair.1@.len() == measure,
            ensures
                folding_of(found) == candidate_outcome(pair.0@, pair.1@),
            { Self::fold_candidate(&pair.0, &pair.1) };
        let mut outcomes = par_map(&candidates, fold);
        assert forall|i: int| 0 <= i < outcomes@.len() implies folding_of(#[trigger] outcomes@[i])
            == candidate_outcome(arms[i].0, arms[i].1) by {
            assert(call_ensures(fold, (&candidates@[i],), outcomes@[i]));
        }
        let mut best: usize = 0;
        let mut i: usize = 1;
        while i < outcomes.len()
            invariant
                1 <= i <= outcomes.len(),
                best < i,
                forall|j: int| 0 <= j < best ==> outcomes@[j].1 > outcomes@[best as int].1,
                forall|j: int| best <= j < i ==> outcomes@[j].1 >= outcomes@[best as int].1,
            decreases outcomes.len() - i,
        {
            if outcomes[i].1 < outcomes[best].1 {
                best = i;
            }
            i += 1;
        }
        proof {
            assert(folding_of(outcomes@[0]) == candidate_outcome(strand_a@, strand_b@));
            if outcomes@.len() >= 2 {
                assert(folding_of(outcomes@[1]) == candidate_outcome(arms[1].0, arms[1].1));
            }
            if outcomes@.len() >= 3 {
                assert(folding_of(outcomes@[2]) == candidate_outcome(arms[2].0, arms[2].1));
            }
            assert(folding_of(outcomes@[best as int]) == search(strand_a@, strand_b@));
        }
        outcomes.swap_remove(best)
    }
}

} // verus!
