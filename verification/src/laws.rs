//! What folding keeps: the bases of the arms, and the meaning of the energy
//! it reports.

use vstd::prelude::*;
use crate::energy::{
    bonds, lemma_total_bases_concat, lemma_total_bases_reverse, lemma_total_bases_split, score,
    singles, total_bases,
};
use crate::minimize::minimized;
use crate::nucleotide::RnaNucleotide;
use crate::search::{
    candidate_outcome, lemma_align_preserves_score, lemma_front_rest, lemma_promoted_total_bases,
    search,
};
use crate::segment::Segment;
use crate::structure::{
    align_fronts, front, has_loop, has_single, joined, lemma_major_loop_exists, major_loop_index,
    promoted, rest, well_formed,
};

verus! {

/// The bases of a strand in strand order, whatever segments they stand in.
pub open spec fn flattened(strand: Seq<Segment>) -> Seq<RnaNucleotide>
    decreases strand.len(),
{
    if strand.len() == 0 {
        Seq::empty()
    } else {
        strand[0].bases() + flattened(strand.drop_first())
    }
}

/// One strand after another holds the bases and the lone bases of both, in
/// that order.
pub proof fn lemma_concat(s: Seq<Segment>, t: Seq<Segment>)
    ensures
        flattened(s + t) == flattened(s) + flattened(t),
        singles(s + t) == singles(s) + singles(t),
        total_bases(s + t) == total_bases(s) + total_bases(t),
    decreases s.len(),
{
    lemma_total_bases_concat(s, t);
    if s.len() == 0 {
        assert(s + t =~= t);
        assert(flattened(s) + flattened(t) =~= flattened(t));
        assert(singles(s) + singles(t) =~= singles(t));
    } else {
        assert((s + t).drop_first() =~= s.drop_first() + t);
        lemma_concat(s.drop_first(), t);
        assert(flattened(s + t) =~= flattened(s) + flattened(t));
        assert(singles(s + t) =~= singles(s) + singles(t));
    }
}

/// Joining two strands keeps their bases and their lone bases, in order:
/// loops that merge hold what the two loops held.
pub proof fn lemma_joined(a: Seq<Segment>, b: Seq<Segment>)
    ensures
        flattened(joined(a, b)) == flattened(a) + flattened(b),
        singles(joined(a, b)) == singles(a) + singles(b),
        total_bases(joined(a, b)) == total_bases(a) + total_bases(b),
{
    if a.len() > 0 && b.len() > 0 && a.last() is Loop && b[0] is Loop {
        let merged = seq![Segment::Loop(a.last().bases() + b[0].bases())];
        let last = seq![a.last()];
        let first = seq![b[0]];
        assert(merged.drop_first() =~= Seq::<Segment>::empty());
        assert(last.drop_first() =~= Seq::<Segment>::empty());
        assert(first.drop_first() =~= Seq::<Segment>::empty());
        let nothing = Seq::<Segment>::empty();
        assert(flattened(nothing) =~= Seq::<RnaNucleotide>::empty());
        assert(singles(nothing) =~= Seq::<RnaNucleotide>::empty());
        assert(total_bases(nothing) == 0);
        assert(merged[0] is Loop && last[0] is Loop && first[0] is Loop);
        assert(singles(merged) =~= singles(nothing));
        assert(singles(last) =~= singles(nothing));
        assert(singles(first) =~= singles(nothing));
        assert(total_bases(merged) == merged[0].base_count());
        assert(total_bases(last) == last[0].base_count());
        assert(total_bases(first) == first[0].base_count());
        assert(flattened(merged) =~= flattened(last) + flattened(first));
        assert(singles(merged) =~= singles(last) + singles(first));
        assert(total_bases(merged) == total_bases(last) + total_bases(first));
        assert(a =~= a.drop_last() + last);
        assert(b =~= first + b.drop_first());
        assert(joined(a, b) =~= (a.drop_last() + merged) + b.drop_first());
        lemma_concat(a.drop_last(), last);
        lemma_concat(first, b.drop_first());
        lemma_concat(a.drop_last(), merged);
        lemma_concat(a.drop_last() + merged, b.drop_first());
        assert(flattened(joined(a, b)) =~= flattened(a) + flattened(b));
        assert(singles(joined(a, b)) =~= singles(a) + singles(b));
    } else {
        lemma_concat(a, b);
    }
}

/// Strands with the same bases segment by segment have the same bases.
pub proof fn lemma_flattened_pointwise(s: Seq<Segment>, t: Seq<Segment>)
    requires
        s.len() == t.len(),
        forall|i: int| 0 <= i < s.len() ==> s[i].bases() == t[i].bases(),
    ensures
        flattened(s) == flattened(t),
    decreases s.len(),
{
    if s.len() > 0 {
        assert forall|i: int| 0 <= i < s.drop_first().len() implies s.drop_first()[i].bases()
            == t.drop_first()[i].bases() by {
            assert(s.drop_first()[i] == s[i + 1]);
            assert(t.drop_first()[i] == t[i + 1]);
        }
        lemma_flattened_pointwise(s.drop_first(), t.drop_first());
    }
}

/// Turning a lone base into a loop keeps the bases of the strand.
pub proof fn lemma_promoted_keeps_bases(strand: Seq<Segment>)
    ensures
        flattened(promoted(strand)) == flattened(strand),
        total_bases(promoted(strand)) == total_bases(strand),
{
    lemma_promoted_total_bases(strand);
    lemma_flattened_pointwise(promoted(strand), strand);
}

/// The first segment and the rest hold the bases of the strand in order.
pub proof fn lemma_front_rest_bases(strand: Seq<Segment>)
    ensures
        flattened(front(strand)) + flattened(rest(strand)) == flattened(strand),
{
    if strand.len() > 0 {
        let first = front(strand);
        assert(first.drop_first() =~= Seq::<Segment>::empty());
        assert(flattened(first.drop_first()) =~= Seq::<RnaNucleotide>::empty());
        assert(rest(strand) =~= strand.drop_first());
        assert(first[0] == strand[0]);
        assert(flattened(first) + flattened(rest(strand)) =~= flattened(strand));
    } else {
        assert(flattened(front(strand)) + flattened(rest(strand)) =~= flattened(strand));
    }
}

/// Where two runs are equally long, the bonds of the runs followed by two
/// more runs are the bonds of the first two and of the second two.
pub proof fn lemma_bonds_concat(
    x1: Seq<RnaNucleotide>,
    y1: Seq<RnaNucleotide>,
    x2: Seq<RnaNucleotide>,
    y2: Seq<RnaNucleotide>,
)
    requires
        x1.len() == y1.len(),
    ensures
        bonds(x1 + x2, y1 + y2) == bonds(x1, y1) + bonds(x2, y2),
    decreases x1.len(),
{
    if x1.len() == 0 {
        assert(x1 + x2 =~= x2);
        assert(y1 + y2 =~= y2);
    } else {
        assert((x1 + x2).drop_first() =~= x1.drop_first() + x2);
        assert((y1 + y2).drop_first() =~= y1.drop_first() + y2);
        lemma_bonds_concat(x1.drop_first(), y1.drop_first(), x2, y2);
    }
}

/// Folding one candidate keeps the bases of both arms in order, and the
/// energy it reports is the score of the arms it returns.
pub proof fn lemma_candidate_is_faithful(a: Seq<Segment>, b: Seq<Segment>)
    ensures
        flattened(candidate_outcome(a, b).arm_a) == flattened(a),
        flattened(candidate_outcome(a, b).arm_b) == flattened(b),
        candidate_outcome(a, b).energy == score(
            candidate_outcome(a, b).arm_a,
            candidate_outcome(a, b).arm_b,
        ),
    decreases a.len() + b.len(), 0int,
{
    let (a_head, a_tail, b_head, b_tail) = align_fronts(a, b);
    lemma_align_preserves_score(a, b);
    lemma_front_rest(a);
    lemma_front_rest(b);
    lemma_front_rest_bases(a);
    lemma_front_rest_bases(b);
    assert(flattened(Seq::<Segment>::empty()) =~= Seq::<RnaNucleotide>::empty());
    assert(singles(Seq::<Segment>::empty()) =~= Seq::<RnaNucleotide>::empty());
    assert(flattened(a_head) + flattened(a_tail) =~= flattened(a));
    assert(flattened(b_head) + flattened(b_tail) =~= flattened(b));
    assert(singles(a_head) + singles(a_tail) =~= singles(a));
    assert(singles(b_head) + singles(b_tail) =~= singles(b));
    if a_tail.len() > 0 && b_tail.len() > 0 {
        let tails = search(a_tail, b_tail);
        lemma_search_is_faithful(a_tail, b_tail);
        lemma_joined(a_head, tails.arm_a);
        lemma_joined(b_head, tails.arm_b);
        assert(singles(a_head).len() == singles(b_head).len());
        lemma_bonds_concat(
            singles(a_head),
            singles(b_head),
            singles(tails.arm_a),
            singles(tails.arm_b),
        );
    } else {
        lemma_joined(a_head, a_tail);
        lemma_joined(b_head, b_tail);
    }
}

/// Searching keeps the bases of both arms in order: it only changes which
/// segments they stand in. The energy it reports is the score of the arms it
/// returns.
pub proof fn lemma_search_is_faithful(a: Seq<Segment>, b: Seq<Segment>)
    ensures
        flattened(search(a, b).arm_a) == flattened(a),
        flattened(search(a, b).arm_b) == flattened(b),
        search(a, b).energy == score(search(a, b).arm_a, search(a, b).arm_b),
    decreases a.len() + b.len(), 1int,
{
    lemma_candidate_is_faithful(a, b);
    if has_single(a) {
        lemma_promoted_keeps_bases(a);
        lemma_candidate_is_faithful(promoted(a), b);
    }
    if has_single(b) {
        lemma_promoted_keeps_bases(b);
        lemma_candidate_is_faithful(a, promoted(b));
    }
}

/// Minimising keeps the number of bases of the strand.
pub proof fn lemma_minimized_keeps_base_count(strand: Seq<Segment>)
    requires
        has_loop(strand),
    ensures
        total_bases(minimized(strand).0) == total_bases(strand),
{
    let at = major_loop_index(strand);
    lemma_major_loop_exists(strand);
    let arm_a = strand.take(at).reverse();
    let arm_b = strand.skip(at + 1);
    let found = search(arm_a, arm_b);
    let middle = seq![strand[at]];
    lemma_search_keeps_base_count(arm_a, arm_b);
    lemma_total_bases_split(strand, at);
    lemma_total_bases_reverse(found.arm_a);
    assert(middle.drop_first() =~= Seq::<Segment>::empty());
    assert(total_bases(middle.drop_first()) == 0);
    lemma_total_bases_concat(found.arm_a.reverse(), middle);
    lemma_total_bases_concat(found.arm_a.reverse() + middle, found.arm_b);
}

/// Folding one candidate keeps the number of bases of both arms.
pub proof fn lemma_candidate_keeps_base_count(a: Seq<Segment>, b: Seq<Segment>)
    ensures
        total_bases(candidate_outcome(a, b).arm_a) == total_bases(a),
        total_bases(candidate_outcome(a, b).arm_b) == total_bases(b),
    decreases a.len() + b.len(), 0int,
{
    let (a_head, a_tail, b_head, b_tail) = align_fronts(a, b);
    lemma_align_preserves_score(a, b);
    if a_tail.len() > 0 && b_tail.len() > 0 {
        let tails = search(a_tail, b_tail);
        lemma_search_keeps_base_count(a_tail, b_tail);
        lemma_joined(a_head, tails.arm_a);
        lemma_joined(b_head, tails.arm_b);
    } else {
        lemma_joined(a_head, a_tail);
        lemma_joined(b_head, b_tail);
    }
}

/// Searching keeps the number of bases of both arms.
pub proof fn lemma_search_keeps_base_count(a: Seq<Segment>, b: Seq<Segment>)
    ensures
        total_bases(search(a, b).arm_a) == total_bases(a),
        total_bases(search(a, b).arm_b) == total_bases(b),
    decreases a.len() + b.len(), 1int,
{
    lemma_candidate_keeps_base_count(a, b);
    if has_single(a) {
        lemma_promoted_total_bases(a);
        lemma_candidate_keeps_base_count(promoted(a), b);
    }
    if has_single(b) {
        lemma_promoted_total_bases(b);
        lemma_candidate_keeps_base_count(a, promoted(b));
    }
}

/// Joining strands whose loops all hold a base gives such a strand.
pub proof fn lemma_joined_well_formed(a: Seq<Segment>, b: Seq<Segment>)
    requires
        well_formed(a),
        well_formed(b),
    ensures
        well_formed(joined(a, b)),
{
    let both = joined(a, b);
    assert forall|i: int| 0 <= i < both.len() && both[i] is Loop implies both[i].base_count()
        >= 1 by {
        if a.len() > 0 && b.len() > 0 && a.last() is Loop && b[0] is Loop {
            if i < a.len() - 1 {
                assert(both[i] == a[i]);
            } else if i == a.len() - 1 {
                assert(a[a.len() - 1].base_count() >= 1);
            } else {
                assert(both[i] == b[i - a.len() + 1]);
            }
        } else {
            if i < a.len() {
                assert(both[i] == a[i]);
            } else {
                assert(both[i] == b[i - a.len()]);
            }
        }
    }
}

/// Folding one candidate whose loops all hold a base gives arms whose loops
/// all hold a base.
pub proof fn lemma_candidate_well_formed(a: Seq<Segment>, b: Seq<Segment>)
    requires
        well_formed(a),
        well_formed(b),
    ensures
        well_formed(candidate_outcome(a, b).arm_a),
        well_formed(candidate_outcome(a, b).arm_b),
    decreases a.len() + b.len(), 0int,
{
    let (a_head, a_tail, b_head, b_tail) = align_fronts(a, b);
    assert(well_formed(a_head) && well_formed(a_tail)) by {
        assert forall|i: int| 0 <= i < a_head.len() implies a_head[i] == a[i] by {}
        assert forall|i: int| 0 <= i < a_tail.len() implies a_tail[i] == a[i + a.len()
            - a_tail.len()] by {}
    }
    assert(well_formed(b_head) && well_formed(b_tail)) by {
        assert forall|i: int| 0 <= i < b_head.len() implies b_head[i] == b[i] by {}
        assert forall|i: int| 0 <= i < b_tail.len() implies b_tail[i] == b[i + b.len()
            - b_tail.len()] by {}
    }
    if a_tail.len() > 0 && b_tail.len() > 0 {
        let tails = search(a_tail, b_tail);
        lemma_search_well_formed(a_tail, b_tail);
        lemma_joined_well_formed(a_head, tails.arm_a);
        lemma_joined_well_formed(b_head, tails.arm_b);
    } else {
        lemma_joined_well_formed(a_head, a_tail);
        lemma_joined_well_formed(b_head, b_tail);
    }
}

/// Searching arms whose loops all hold a base gives arms whose loops all hold
/// a base.
pub proof fn lemma_search_well_formed(a: Seq<Segment>, b: Seq<Segment>)
    requires
        well_formed(a),
        well_formed(b),
    ensures
        well_formed(search(a, b).arm_a),
        well_formed(search(a, b).arm_b),
    decreases a.len() + b.len(), 1int,
{
    lemma_candidate_well_formed(a, b);
    if has_single(a) {
        assert(well_formed(promoted(a)));
        lemma_candidate_well_formed(promoted(a), b);
    }
    if has_single(b) {
        assert(well_formed(promoted(b)));
        lemma_candidate_well_formed(a, promoted(b));
    }
}

/// Minimising a strand whose loops all hold a base gives such a strand.
pub proof fn lemma_minimized_well_formed(strand: Seq<Segment>)
    requires
        has_loop(strand),
        well_formed(strand),
    ensures
        well_formed(minimized(strand).0),
{
    let at = major_loop_index(strand);
    lemma_major_loop_exists(strand);
    let arm_a = strand.take(at).reverse();
    let arm_b = strand.skip(at + 1);
    let found = search(arm_a, arm_b);
    assert(well_formed(arm_a)) by {
        assert forall|i: int| 0 <= i < arm_a.len() implies arm_a[i] == strand[at - 1 - i] by {}
    }
    assert(well_formed(arm_b)) by {
        assert forall|i: int| 0 <= i < arm_b.len() implies arm_b[i] == strand[at + 1 + i] by {}
    }
    lemma_search_well_formed(arm_a, arm_b);
    let folded = minimized(strand).0;
    assert forall|i: int| 0 <= i < folded.len() && folded[i] is Loop implies folded[i].base_count()
        >= 1 by {
        if i < found.arm_a.len() {
            assert(folded[i] == found.arm_a[found.arm_a.len() - 1 - i]);
        } else if i == found.arm_a.len() {
            assert(folded[i] == strand[at]);
        } else {
            assert(folded[i] == found.arm_b[i - found.arm_a.len() - 1]);
        }
    }
}

} // verus!
