//! Strands as ordered sequences of segments, and the operations that cut
//! them apart and put them back together.

use vstd::prelude::*;
use crate::segment::{RnaSegment, Segment};

verus! {

/// The mathematical values of a vector of segments, in order.
pub open spec fn segment_views(segments: Seq<RnaSegment>) -> Seq<Segment> {
    segments.map_values(|segment: RnaSegment| segment@)
}

/// The first segment alone, or nothing where the strand is exhausted.
pub open spec fn front(strand: Seq<Segment>) -> Seq<Segment> {
    if strand.len() > 0 {
        strand.take(1)
    } else {
        strand
    }
}

/// What follows the first segment.
pub open spec fn rest(strand: Seq<Segment>) -> Seq<Segment> {
    if strand.len() > 0 {
        strand.skip(1)
    } else {
        strand
    }
}

/// The heads and tails of two opposing arms: `(a_head, a_tail, b_head, b_tail)`.
///
/// A committed loop facing a lone base passes through alone, and the lone
/// base is held back to pair with what follows the loop. In every other case
/// both arms give up their first segment.
pub open spec fn align_fronts(a: Seq<Segment>, b: Seq<Segment>) -> (
    Seq<Segment>,
    Seq<Segment>,
    Seq<Segment>,
    Seq<Segment>,
) {
    if a.len() > 0 && b.len() > 0 && a[0] is Loop && b[0] is Single {
        (front(a), rest(a), Seq::empty(), b)
    } else if a.len() > 0 && b.len() > 0 && a[0] is Single && b[0] is Loop {
        (Seq::empty(), a, front(b), rest(b))
    } else {
        (front(a), rest(a), front(b), rest(b))
    }
}

/// Whether every loop of the strand holds at least one base.
pub open spec fn well_formed(strand: Seq<Segment>) -> bool {
    forall|i: int| 0 <= i < strand.len() && strand[i] is Loop ==> strand[i].base_count() >= 1
}

/// Whether the strand holds a committed loop.
pub open spec fn has_loop(strand: Seq<Segment>) -> bool {
    exists|i: int| 0 <= i < strand.len() && strand[i] is Loop
}

/// Whether position `i` holds the major loop: the loop with the most bases,
/// and of several such the last one.
pub open spec fn is_major_loop(strand: Seq<Segment>, i: int) -> bool {
    &&& 0 <= i < strand.len()
    &&& strand[i] is Loop
    &&& forall|j: int|
        0 <= j < i && strand[j] is Loop ==> strand[j].base_count() <= strand[i].base_count()
    &&& forall|j: int|
        i < j < strand.len() && strand[j] is Loop ==> strand[j].base_count()
            < strand[i].base_count()
}

/// The position of the major loop of a strand that holds a loop.
pub open spec fn major_loop_index(strand: Seq<Segment>) -> int {
    choose|i: int| is_major_loop(strand, i)
}

/// Whether the strand holds a lone base.
pub open spec fn has_single(strand: Seq<Segment>) -> bool {
    exists|i: int| 0 <= i < strand.len() && strand[i] is Single
}

/// Whether position `i` holds the first lone base of the strand.
pub open spec fn is_first_single(strand: Seq<Segment>, i: int) -> bool {
    &&& 0 <= i < strand.len()
    &&& strand[i] is Single
    &&& forall|j: int| 0 <= j < i ==> strand[j] is Loop
}

/// The position of the first lone base of a strand that holds one.
pub open spec fn first_single(strand: Seq<Segment>) -> int {
    choose|i: int| is_first_single(strand, i)
}

/// The strand with its first lone base turned into a loop of one base.
pub open spec fn promoted(strand: Seq<Segment>) -> Seq<Segment> {
    Seq::new(
        strand.len(),
        |i: int|
            if i == first_single(strand) {
                strand[i].as_loop()
            } else {
                strand[i]
            },
    )
}

/// Strand `a` followed by strand `b`. Where `a` ends in a loop and `b` begins
/// with one, the two become a single loop.
pub open spec fn joined(a: Seq<Segment>, b: Seq<Segment>) -> Seq<Segment> {
    if a.len() > 0 && b.len() > 0 && a.last() is Loop && b[0] is Loop {
        a.drop_last().push(Segment::Loop(a.last().bases() + b[0].bases())) + b.drop_first()
    } else {
        a + b
    }
}

/// A strand has at most one major loop.
pub proof fn lemma_major_loop_unique(strand: Seq<Segment>, i: int, j: int)
    requires
        is_major_loop(strand, i),
        is_major_loop(strand, j),
    ensures
        i == j,
{
}

/// A strand that holds a loop has a major loop.
pub proof fn lemma_major_loop_exists(strand: Seq<Segment>)
    requires
        has_loop(strand),
    ensures
        is_major_loop(strand, major_loop_index(strand)),
    decreases strand.len(),
{
    let n = strand.len() as int;
    let shorter = strand.drop_last();
    if has_loop(shorter) {
        lemma_major_loop_exists(shorter);
        let m = major_loop_index(shorter);
        assert(shorter[m] == strand[m]);
        if strand[n - 1] is Loop && strand[n - 1].base_count() >= shorter[m].base_count() {
            assert forall|j: int|
                #![trigger strand[j]]
                0 <= j < n - 1 && strand[j] is Loop implies strand[j].base_count() <= strand[n
                - 1].base_count() by {
                assert(shorter[j] == strand[j]);
            }
            assert(is_major_loop(strand, n - 1));
        } else {
            assert forall|j: int| 0 <= j < m && strand[j] is Loop implies strand[j].base_count()
                <= strand[m].base_count() by {
                assert(shorter[j] == strand[j]);
            }
            assert forall|j: int| m < j < n && strand[j] is Loop implies strand[j].base_count()
                < strand[m].base_count() by {
                if j < n - 1 {
                    assert(shorter[j] == strand[j]);
                }
            }
            assert(is_major_loop(strand, m));
        }
    } else {
        let w = choose|i: int| 0 <= i < strand.len() && strand[i] is Loop;
        if w < n - 1 {
            assert(shorter[w] is Loop);
        }
        assert forall|j: int| 0 <= j < n - 1 implies !(strand[j] is Loop) by {
            assert(shorter[j] == strand[j]);
        }
        assert(is_major_loop(strand, n - 1));
    }
}

/// Of two loops that both hold the most bases, the later is the major loop
/// where no loop after it holds as many.
pub proof fn lemma_major_loop_is_last(strand: Seq<Segment>, i: int, j: int)
    requires
        0 <= i < j < strand.len(),
        strand[i] is Loop,
        strand[j] is Loop,
        strand[i].base_count() == strand[j].base_count(),
        forall|k: int|
            0 <= k < strand.len() && strand[k] is Loop ==> strand[k].base_count()
                <= strand[j].base_count(),
        forall|k: int|
            j < k < strand.len() && strand[k] is Loop ==> strand[k].base_count()
                < strand[j].base_count(),
    ensures
        major_loop_index(strand) == j,
{
    assert(is_major_loop(strand, j));
    lemma_major_loop_unique(strand, j, major_loop_index(strand));
}

/// A strand has at most one first lone base.
pub proof fn lemma_first_single_unique(strand: Seq<Segment>, i: int, j: int)
    requires
        is_first_single(strand, i),
        is_first_single(strand, j),
    ensures
        i == j,
{
}

/// A strand that holds a lone base has a first one.
pub proof fn lemma_first_single_exists(strand: Seq<Segment>)
    requires
        has_single(strand),
    ensures
        is_first_single(strand, first_single(strand)),
    decreases strand.len(),
{
    let n = strand.len() as int;
    let shorter = strand.drop_last();
    if has_single(shorter) {
        lemma_first_single_exists(shorter);
        let f = first_single(shorter);
        assert(shorter[f] == strand[f]);
        assert forall|j: int| 0 <= j < f implies strand[j] is Loop by {
            assert(shorter[j] == strand[j]);
        }
        assert(is_first_single(strand, f));
    } else {
        assert forall|j: int| 0 <= j < n - 1 implies strand[j] is Loop by {
            assert(shorter[j] == strand[j]);
        }
        assert(is_first_single(strand, n - 1));
    }
}

/// Why an operation cannot be applied to a strand.
#[derive(Debug, Clone, Copy, PartialEq, Eq, Structural)]
pub enum PreconditionViolation {
    /// The strand holds no loop to fold around.
    NoMajorLoop,
    /// The strand holds no lone base to turn into a loop.
    NoSingleToPromote,
}

/// One strand, read in a fixed direction.
#[derive(Debug, PartialEq, Eq)]
pub struct RnaStructure {
    pub segments: Vec<RnaSegment>,
}

impl View for RnaStructure {
    type V = Seq<Segment>;

    open spec fn view(&self) -> Seq<Segment> {
        segment_views(self.segments@)
    }
}

/// Copies of the segments at positions `from..to`.
pub(crate) fn copy_segments(segments: &Vec<RnaSegment>, from: usize, to: usize) -> (copy: Vec<
    RnaSegment,
>)
    requires
        from <= to <= segments.len(),
    ensures
        copy@.len() == to - from,
        forall|k: int| 0 <= k < to - from ==> copy@[k]@ == segments@[from + k]@,
        segment_views(copy@) == segment_views(segments@).subrange(from as int, to as int),
{
    let mut copy: Vec<RnaSegment> = Vec::new();
    let mut i: usize = from;
    while i < to
        invariant
            from <= i <= to <= segments.len(),
            copy@.len() == i - from,
            forall|k: int| 0 <= k < copy@.len() ==> copy@[k]@ == segments@[from + k]@,
        decreases to - i,
    {
        copy.push(segments[i].clone());
        i += 1;
    }
    assert(segment_views(copy@) =~= segment_views(segments@).subrange(from as int, to as int));
    copy
}

/// Copies of the segments before position `end`, last first.
pub(crate) fn copy_segments_reversed(segments: &Vec<RnaSegment>, end: usize) -> (copy: Vec<
    RnaSegment,
>)
    requires
        end <= segments.len(),
    ensures
        copy@.len() == end,
        forall|k: int| 0 <= k < end ==> copy@[k]@ == segments@[end - 1 - k]@,
        segment_views(copy@) == segment_views(segments@).take(end as int).reverse(),
{
    let mut copy: Vec<RnaSegment> = Vec::new();
    let mut i: usize = end;
    while i > 0
        invariant
            i <= end <= segments.len(),
            copy@.len() == end - i,
            forall|k: int| 0 <= k < copy@.len() ==> copy@[k]@ == segments@[end - 1 - k]@,
        decreases i,
    {
        i -= 1;
        copy.push(segments[i].clone());
    }
    assert(segment_views(copy@) =~= segment_views(segments@).take(end as int).reverse());
    copy
}

impl Clone for RnaStructure {
    fn clone(&self) -> (copy: Self)
        ensures
            copy@ == self@,
    {
        RnaStructure { segments: copy_segments(&self.segments, 0, self.segments.len()) }
    }
}

impl Default for RnaStructure {
    fn default() -> (empty: Self)
        ensures
            empty@ == Seq::<Segment>::empty(),
    {
        RnaStructure { segments: Vec::new() }
    }
}

impl RnaStructure {
    /// The first segment alone and what follows it. An exhausted strand
    /// splits into two exhausted strands.
    pub fn split_after_first_segment(&self) -> (parts: (Self, Self))
        ensures
            parts.0@ == front(self@),
            parts.1@ == rest(self@),
    {
        let n = self.segments.len();
        let cut: usize = if n > 0 { 1 } else { 0 };
        (
            RnaStructure { segments: copy_segments(&self.segments, 0, cut) },
            RnaStructure { segments: copy_segments(&self.segments, cut, n) },
        )
    }

    /// Splits two opposing arms at their fronts into
    /// `(a_head, a_tail, b_head, b_tail)`, `self` being arm A.
    pub fn split_at_first_pair(&self, other: &Self) -> (parts: (Self, Self, Self, Self))
        ensures
            (parts.0@, parts.1@, parts.2@, parts.3@) == align_fronts(self@, other@),
    {
        let a_loop = self.segments.len() > 0 && self.segments[0].is_loop();
        let b_loop = other.segments.len() > 0 && other.segments[0].is_loop();
        let a_single = self.segments.len() > 0 && !a_loop;
        let b_single = other.segments.len() > 0 && !b_loop;
        if a_loop && b_single {
            let (a_head, a_tail) = self.split_after_first_segment();
            (a_head, a_tail, RnaStructure::default(), other.clone())
        } else if a_single && b_loop {
            let (b_head, b_tail) = other.split_after_first_segment();
            (RnaStructure::default(), self.clone(), b_head, b_tail)
        } else {
            let (a_head, a_tail) = self.split_after_first_segment();
            let (b_head, b_tail) = other.split_after_first_segment();
            (a_head, a_tail, b_head, b_tail)
        }
    }

    /// Whether every loop of the strand holds at least one base.
    pub fn is_well_formed(&self) -> (sound: bool)
        ensures
            sound == well_formed(self@),
    {
        let mut i: usize = 0;
        while i < self.segments.len()
            invariant
                i <= self.segments.len(),
                forall|j: int| 0 <= j < i && self@[j] is Loop ==> self@[j].base_count() >= 1,
            decreases self.segments.len() - i,
        {
            if self.segments[i].is_loop() && self.segments[i].base_count() == 0 {
                assert(self@[i as int] is Loop && self@[i as int].base_count() == 0);
                return false;
            }
            i += 1;
        }
        true
    }

    /// Whether the strand holds a committed loop.
    pub fn has_loop(&self) -> (found: bool)
        ensures
            found == has_loop(self@),
    {
        let mut i: usize = 0;
        while i < self.segments.len()
            invariant
                i <= self.segments.len(),
                forall|j: int| 0 <= j < i ==> self@[j] is Single,
            decreases self.segments.len() - i,
        {
            if self.segments[i].is_loop() {
                assert(self@[i as int] is Loop);
                return true;
            }
            i += 1;
        }
        false
    }

    /// Whether the strand holds a lone base.
    pub fn has_single(&self) -> (found: bool)
        ensures
            found == has_single(self@),
    {
        let mut i: usize = 0;
        while i < self.segments.len()
            invariant
                i <= self.segments.len(),
                forall|j: int| 0 <= j < i ==> self@[j] is Loop,
            decreases self.segments.len() - i,
        {
            if !self.segments[i].is_loop() {
                assert(self@[i as int] is Single);
                return true;
            }
            i += 1;
        }
        false
    }

    /// Splits the strand at its major loop into `(arm A, loop, arm B)`.
    ///
    /// Arm A is what precedes the loop, reversed, so that both arms start
    /// next to the loop; arm B is what follows it. Of several loops with the
    /// most bases the last one is the major loop.
    pub fn split_at_major_loop(&self) -> (parts: (Self, RnaSegment, Self))
        requires
            has_loop(self@),
        ensures
            is_major_loop(self@, major_loop_index(self@)),
            parts.0@ == self@.take(major_loop_index(self@)).reverse(),
            parts.1@ == self@[major_loop_index(self@)],
            parts.2@ == self@.skip(major_loop_index(self@) + 1),
    {
        let n = self.segments.len();
        let mut found = false;
        let mut major: usize = 0;
        let mut major_len: usize = 0;
        let mut i: usize = 0;
        while i < n
            invariant
                n == self.segments.len(),
                i <= n,
                !found ==> forall|j: int| 0 <= j < i ==> self@[j] is Single,
                found ==> major < i && is_major_loop(self@.take(i as int), major as int)
                    && major_len == self@[major as int].base_count(),
            decreases n - i,
        {
            let ghost seen = self@.take(i as int);
            let ghost grown = self@.take(i + 1);
            let candidate = &self.segments[i];
            assert(candidate@ == self@[i as int]);
            if candidate.is_loop() && (!found || candidate.base_count() >= major_len) {
                assert forall|j: int| 0 <= j < i && grown[j] is Loop implies grown[j].base_count()
                    <= grown[i as int].base_count() by {
                    assert(seen[j] == grown[j]);
                }
                major = i;
                major_len = candidate.base_count();
                found = true;
            } else if found {
                assert forall|j: int|
                    #![trigger grown[j]]
                    0 <= j < major && grown[j] is Loop implies grown[j].base_count()
                    <= grown[major as int].base_count() by {
                    assert(seen[j] == grown[j]);
                }
                assert forall|j: int|
                    #![trigger grown[j]]
                    major < j < i + 1 && grown[j] is Loop implies grown[j].base_count()
                    < grown[major as int].base_count() by {
                    if j < i {
                        assert(seen[j] == grown[j]);
                    }
                }
            }
            i += 1;
        }
        proof {
            assert(self@.take(n as int) =~= self@);
            if !found {
                let w = choose|j: int| 0 <= j < self@.len() && self@[j] is Loop;
                assert(self@[w] is Single);
            }
            lemma_major_loop_exists(self@);
            lemma_major_loop_unique(self@, major as int, major_loop_index(self@));
        }
        (
            RnaStructure { segments: copy_segments_reversed(&self.segments, major) },
            self.segments[major].clone(),
            RnaStructure { segments: copy_segments(&self.segments, major + 1, n) },
        )
    }

    /// The strand with its first lone base turned into a loop of one base: the
    /// base opts out of pairing.
    pub fn with_first_single_looped(&self) -> (looped: Self)
        requires
            has_single(self@),
        ensures
            is_first_single(self@, first_single(self@)),
            looped@ == promoted(self@),
    {
        let n = self.segments.len();
        let mut single_idx: usize = 0;
        while single_idx < n && self.segments[single_idx].is_loop()
            invariant
                n == self.segments.len(),
                single_idx <= n,
                forall|j: int| 0 <= j < single_idx ==> self@[j] is Loop,
            decreases n - single_idx,
        {
            single_idx += 1;
        }
        proof {
            if single_idx == n {
                let w = choose|j: int| 0 <= j < self@.len() && self@[j] is Single;
                assert(self@[w] is Loop);
            }
            assert(self@[single_idx as int] is Single);
            lemma_first_single_exists(self@);
            lemma_first_single_unique(self@, single_idx as int, first_single(self@));
        }
        let mut segments = copy_segments(&self.segments, 0, single_idx);
        segments.push(self.segments[single_idx].as_loop());
        let mut after = copy_segments(&self.segments, single_idx + 1, n);
        let ghost head = segments@;
        let ghost tail = after@;
        segments.append(&mut after);
        assert(segment_views(segments@) =~= promoted(self@)) by {
            assert forall|k: int| 0 <= k < n implies segment_views(segments@)[k] == promoted(
                self@,
            )[k] by {
                if k <= single_idx {
                    assert(segments@[k] == head[k]);
                } else {
                    assert(segments@[k] == tail[k - single_idx - 1]);
                }
            }
        }
        RnaStructure { segments }
    }

    /// As `with_first_single_looped`, for any strand: a strand with no lone
    /// base is refused.
    pub fn try_with_first_single_looped(&self) -> (looped: Result<Self, PreconditionViolation>)
        ensures
            match looped {
                Ok(strand) => has_single(self@) && strand@ == promoted(self@),
                Err(violation) => !has_single(self@) && violation
                    == PreconditionViolation::NoSingleToPromote,
            },
    {
        if self.has_single() {
            Ok(self.with_first_single_looped())
        } else {
            Err(PreconditionViolation::NoSingleToPromote)
        }
    }

    /// Appends `other` to this strand. Where this strand ends in a loop and
    /// `other` begins with one, the two loops become a single loop.
    pub fn join(&mut self, other: Self)
        ensures
            final(self)@ == joined(old(self)@, other@),
    {
        let mut other = other;
        let n = self.segments.len();
        let ghost a = self@;
        let ghost b = other@;
        if n > 0 && other.segments.len() > 0 && self.segments[n - 1].is_loop()
            && other.segments[0].is_loop() {
            let tail = self.segments.pop();
            let head = other.segments.remove(0);
            match (tail, head) {
                (Some(RnaSegment::Loop(tail_loop)), RnaSegment::Loop(head_loop)) => {
                    let mut merged = tail_loop;
                    let mut moved = head_loop;
                    merged.append(&mut moved);
                    self.segments.push(RnaSegment::Loop(merged));
                    assert(self@ =~= a.drop_last().push(
                        Segment::Loop(a.last().bases() + b[0].bases()),
                    ));
                    assert(other@ =~= b.drop_first());
                },
                _ => {
                    assert(false);
                },
            }
        }
        let ghost front_views = self@;
        let ghost back_views = other@;
        self.segments.append(&mut other.segments);
        assert(self@ =~= front_views + back_views);
    }
}

} // verus!
