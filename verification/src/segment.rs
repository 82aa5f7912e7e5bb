//! Segments: the units a strand is made of.

use vstd::prelude::*;
use crate::nucleotide::RnaNucleotide;

verus! {

/// The mathematical value of a segment.
pub enum Segment {
    /// A lone base that may still pair.
    Single(RnaNucleotide),
    /// A run of bases committed to a loop; consumed as a block, never paired.
    Loop(Seq<RnaNucleotide>),
}

impl Segment {
    /// The number of bases the segment holds.
    pub open spec fn base_count(self) -> nat {
        match self {
            Segment::Single(_) => 1,
            Segment::Loop(bases) => bases.len(),
        }
    }

    /// The bases of the segment, in strand order.
    pub open spec fn bases(self) -> Seq<RnaNucleotide> {
        match self {
            Segment::Single(base) => seq![base],
            Segment::Loop(bases) => bases,
        }
    }

    /// The segment as a loop: a lone base becomes a loop of that one base.
    pub open spec fn as_loop(self) -> Segment {
        Segment::Loop(self.bases())
    }
}

/// One segment of a strand.
#[derive(Debug, PartialEq, Eq)]
pub enum RnaSegment {
    Single(RnaNucleotide),
    Loop(Vec<RnaNucleotide>),
}

impl View for RnaSegment {
    type V = Segment;

    open spec fn view(&self) -> Segment {
        match *self {
            RnaSegment::Single(base) => Segment::Single(base),
            RnaSegment::Loop(bases) => Segment::Loop(bases@),
        }
    }
}

/// A fresh vector holding the same bases.
fn copy_bases(bases: &Vec<RnaNucleotide>) -> (copy: Vec<RnaNucleotide>)
    ensures
        copy@ == bases@,
{
    let mut copy: Vec<RnaNucleotide> = Vec::new();
    let mut i: usize = 0;
    while i < bases.len()
        invariant
            i <= bases.len(),
            copy@ == bases@.take(i as int),
        decreases bases.len() - i,
    {
        copy.push(bases[i]);
        i += 1;
    }
    copy
}

impl Clone for RnaSegment {
    fn clone(&self) -> (copy: Self)
        ensures
            copy@ == self@,
    {
        match self {
            RnaSegment::Single(base) => RnaSegment::Single(*base),
            RnaSegment::Loop(bases) => RnaSegment::Loop(copy_bases(bases)),
        }
    }
}

impl RnaSegment {
    /// The segment as a loop: a lone base becomes a loop of that one base, a
    /// loop is copied unchanged.
    pub fn as_loop(&self) -> (looped: Self)
        ensures
            looped@ == self@.as_loop(),
    {
        match self {
            RnaSegment::Single(base) => {
                let mut bases: Vec<RnaNucleotide> = Vec::new();
                bases.push(*base);
                assert(bases@ == seq![*base]);
                RnaSegment::Loop(bases)
            },
            RnaSegment::Loop(bases) => RnaSegment::Loop(copy_bases(bases)),
        }
    }

    /// The number of bases the segment holds.
    pub fn base_count(&self) -> (count: usize)
        ensures
            count == self@.base_count(),
    {
        match self {
            RnaSegment::Single(_) => 1,
            RnaSegment::Loop(bases) => bases.len(),
        }
    }

    /// Whether the segment is a committed loop.
    pub fn is_loop(&self) -> (looped: bool)
        ensures
            looped == (self@ is Loop),
    {
        match self {
            RnaSegment::Single(_) => false,
            RnaSegment::Loop(_) => true,
        }
    }
}

} // verus!
