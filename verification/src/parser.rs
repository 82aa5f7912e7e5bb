//! The textual notation of strands: reading it and writing it.
//!
//! A strand is written base by base, `A`, `C`, `G` or `U` in either case, and
//! a loop as its bases between `{` and `}`. Braces do not nest.

use vstd::prelude::*;
use crate::energy::total_bases;
use crate::nucleotide::RnaNucleotide;
use crate::segment::{RnaSegment, Segment};
use crate::structure::{segment_views, RnaStructure};

verus! {

/// Why a text is no strand.
#[derive(Debug, Clone, Copy, PartialEq, Eq, Structural)]
pub enum ParseError {
    /// A character outside a loop that stands for no base.
    InvalidToken(char),
    /// A `{` that no `}` follows.
    UnterminatedLoop,
}

/// The base a character stands for.
pub open spec fn nucleotide_of(token: char) -> Option<RnaNucleotide> {
    if token == 'a' || token == 'A' {
        Some(RnaNucleotide::A)
    } else if token == 'c' || token == 'C' {
        Some(RnaNucleotide::C)
    } else if token == 'g' || token == 'G' {
        Some(RnaNucleotide::G)
    } else if token == 'u' || token == 'U' {
        Some(RnaNucleotide::U)
    } else {
        None
    }
}

/// The bases that the text stands for up to its first character that stands
/// for none. What follows that character is dropped without complaint.
pub open spec fn decoded_run(text: Seq<char>) -> Seq<RnaNucleotide>
    decreases text.len(),
{
    if text.len() == 0 {
        Seq::empty()
    } else {
        match nucleotide_of(text[0]) {
            Some(base) => seq![base] + decoded_run(text.drop_first()),
            None => Seq::empty(),
        }
    }
}

/// The position of the first `}` of the text, or the length of the text where
/// it holds none.
pub open spec fn first_close(text: Seq<char>) -> int
    decreases text.len(),
{
    if text.len() == 0 || text[0] == '}' {
        0
    } else {
        1 + first_close(text.drop_first())
    }
}

/// The strand that comes of putting `done` before what `rest` gave, or the
/// error that `rest` ended in.
pub open spec fn prepended(done: Seq<Segment>, rest: Result<Seq<Segment>, ParseError>) -> Result<
    Seq<Segment>,
    ParseError,
> {
    match rest {
        Ok(tail) => Ok(done + tail),
        Err(error) => Err(error),
    }
}

/// The strand a text stands for, read from left to right, or the first
/// error met on the way.
///
/// Outside a loop every character must stand for a base. A `{` opens a loop
/// that runs to the next `}`; of what stands between them the bases up to
/// the first character that stands for none make up the loop.
pub open spec fn parsed(text: Seq<char>) -> Result<Seq<Segment>, ParseError>
    decreases text.len(),
{
    if text.len() == 0 {
        Ok(Seq::empty())
    } else if text[0] == '{' {
        let body = text.drop_first();
        let close = first_close(body);
        if 0 <= close < body.len() {
            prepended(
                seq![Segment::Loop(decoded_run(body.take(close)))],
                parsed(body.skip(close + 1)),
            )
        } else {
            Err(ParseError::UnterminatedLoop)
        }
    } else {
        match nucleotide_of(text[0]) {
            Some(base) => prepended(seq![Segment::Single(base)], parsed(text.drop_first())),
            None => Err(ParseError::InvalidToken(text[0])),
        }
    }
}

/// The position of the first `}` lies within the text or at its end, and no
/// `}` stands before it.
pub proof fn lemma_first_close(text: Seq<char>)
    ensures
        0 <= first_close(text) <= text.len(),
        first_close(text) < text.len() ==> text[first_close(text)] == '}',
        forall|i: int| 0 <= i < first_close(text) ==> text[i] != '}',
    decreases text.len(),
{
    if text.len() > 0 && text[0] != '}' {
        lemma_first_close(text.drop_first());
        assert forall|i: int| 0 <= i < first_close(text) implies text[i] != '}' by {
            if i > 0 {
                assert(text.drop_first()[i - 1] == text[i]);
            }
        }
    }
}

/// A run decodes to no more bases than it has characters.
pub proof fn lemma_decoded_run_bounded(text: Seq<char>)
    ensures
        decoded_run(text).len() <= text.len(),
    decreases text.len(),
{
    if text.len() > 0 {
        lemma_decoded_run_bounded(text.drop_first());
    }
}

/// The characters of a text, in order.
fn characters(text: &str) -> (chars: Vec<char>)
    ensures
        chars@ == text@,
{
    let mut chars: Vec<char> = Vec::new();
    for c in it: text.chars()
        invariant
            it.seq() == text@,
            chars@ == text@.take(it.index()),
    {
        chars.push(c);
        assert(text@.take(it.index() + 1) =~= text@.take(it.index()).push(c));
    }
    assert(text@.take(text@.len() as int) =~= text@);
    chars
}

/// Decodes one character to the base it stands for.
pub fn parse_single(token: char) -> (decoded: Result<RnaNucleotide, ParseError>)
    ensures
        decoded == match nucleotide_of(token) {
            Some(base) => Ok::<RnaNucleotide, ParseError>(base),
            None => Err(ParseError::InvalidToken(token)),
        },
{
    match token {
        'a' | 'A' => Ok(RnaNucleotide::A),
        'c' | 'C' => Ok(RnaNucleotide::C),
        'g' | 'G' => Ok(RnaNucleotide::G),
        'u' | 'U' => Ok(RnaNucleotide::U),
        _ => Err(ParseError::InvalidToken(token)),
    }
}

/// Decodes the characters at positions `from..to` up to the first that
/// stands for no base.
fn decode_run(chars: &Vec<char>, from: usize, to: usize) -> (bases: Vec<RnaNucleotide>)
    requires
        from <= to <= chars.len(),
    ensures
        bases@ == decoded_run(chars@.subrange(from as int, to as int)),
{
    let ghost text = chars@.subrange(from as int, to as int);
    let mut bases: Vec<RnaNucleotide> = Vec::new();
    let mut i: usize = from;
    assert(text.skip(0) =~= text);
    while i < to
        invariant
            from <= i <= to <= chars.len(),
            text == chars@.subrange(from as int, to as int),
            bases@ + decoded_run(text.skip(i - from)) == decoded_run(text),
        decreases to - i,
    {
        assert(text.skip(i - from).drop_first() =~= text.skip(i - from + 1));
        assert(text.skip(i - from)[0] == chars@[i as int]);
        match parse_single(chars[i]) {
            Ok(base) => {
                bases.push(base);
                assert(bases@ + decoded_run(text.skip(i + 1 - from)) =~= decoded_run(text));
            },
            Err(_) => {
                assert(bases@ =~= decoded_run(text));
                return bases;
            },
        }
        i += 1;
    }
    assert(bases@ =~= decoded_run(text));
    bases
}

/// Decodes a run of bases. Decoding stops at the first character that stands
/// for no base, and what follows it is dropped: this never fails.
pub fn parse_nucleotides(sequence: &str) -> (decoded: Result<Vec<RnaNucleotide>, ParseError>)
    ensures
        decoded matches Ok(bases) && bases@ == decoded_run(sequence@),
{
    let chars = characters(sequence);
    assert(chars@.subrange(0, chars@.len() as int) =~= chars@);
    Ok(decode_run(&chars, 0, chars.len()))
}

/// A strand holds no more bases than the text it was read from has
/// characters.
pub proof fn lemma_parsed_bounded(text: Seq<char>)
    ensures
        parsed(text) matches Ok(strand) ==> total_bases(strand) <= text.len(),
    decreases text.len(),
{
    if text.len() > 0 {
        if text[0] == '{' {
            let body = text.drop_first();
            let close = first_close(body);
            if 0 <= close < body.len() {
                let rest = body.skip(close + 1);
                lemma_parsed_bounded(rest);
                lemma_decoded_run_bounded(body.take(close));
                if let Ok(tail) = parsed(rest) {
                    let first = seq![Segment::Loop(decoded_run(body.take(close)))];
                    assert((first + tail).drop_first() =~= tail);
                }
            }
        } else if let Some(base) = nucleotide_of(text[0]) {
            lemma_parsed_bounded(text.drop_first());
            if let Ok(tail) = parsed(text.drop_first()) {
                assert((seq![Segment::Single(base)] + tail).drop_first() =~= tail);
            }
        }
    }
}

/// Reads a strand from its notation.
///
/// Fails with `InvalidToken` at the first character outside a loop that
/// stands for no base, and with `UnterminatedLoop` at the first `{` that no
/// `}` follows, whichever comes first in the text. Inside a loop decoding
/// stops at the first character that stands for no base, and the rest of the
/// loop is dropped without complaint.
pub fn parse_sequence(sequence: &str) -> (structure: Result<RnaStructure, ParseError>)
    ensures
        match structure {
            Ok(strand) => parsed(sequence@) == Ok::<Seq<Segment>, ParseError>(strand@)
                && total_bases(strand@) <= usize::MAX,
            Err(error) => parsed(sequence@) == Err::<Seq<Segment>, ParseError>(error),
        },
{
    let chars = characters(sequence);
    let n = chars.len();
    let mut segments: Vec<RnaSegment> = Vec::new();
    let mut pos: usize = 0;
    assert(chars@.skip(0) =~= chars@);
    assert(segment_views(segments@) + Seq::<Segment>::empty() =~= Seq::<Segment>::empty());
    assert(prepended(segment_views(segments@), parsed(chars@)) == parsed(chars@)) by {
        match parsed(chars@) {
            Ok(tail) => {
                assert(segment_views(segments@) + tail =~= tail);
            },
            Err(_) => {},
        }
    }
    while pos < n
        invariant
            chars@ == sequence@,
            n == chars@.len(),
            pos <= n,
            prepended(segment_views(segments@), parsed(chars@.skip(pos as int))) == parsed(chars@),
        decreases n - pos,
    {
        let ghost text = chars@.skip(pos as int);
        let ghost done = segment_views(segments@);
        let token = chars[pos];
        assert(text[0] == token);
        if token == '{' {
            let ghost body = text.drop_first();
            assert(body =~= chars@.skip(pos + 1));
            let mut close: usize = pos + 1;
            proof {
                assert(body.skip(0) =~= body);
            }
            while close < n && chars[close] != '}'
                invariant
                    n == chars@.len(),
                    pos < close <= n,
                    body == chars@.skip(pos + 1),
                    first_close(body) == (close - pos - 1) + first_close(
                        body.skip(close - pos - 1),
                    ),
                decreases n - close,
            {
                assert(body.skip(close - pos - 1)[0] == chars@[close as int]);
                assert(body.skip(close - pos - 1).drop_first() =~= body.skip(close - pos));
                close += 1;
            }
            proof {
                if close < n {
                    assert(body.skip(close - pos - 1)[0] == chars@[close as int]);
                }
                assert(first_close(body) == close - pos - 1);
            }
            if close == n {
                assert(parsed(text) == Err::<Seq<Segment>, ParseError>(
                    ParseError::UnterminatedLoop,
                ));
                return Err(ParseError::UnterminatedLoop);
            }
            let bases = decode_run(&chars, pos + 1, close);
            assert(body.take(close - pos - 1) =~= chars@.subrange(pos + 1, close as int));
            assert(body.skip(close - pos) =~= chars@.skip(close + 1));
            segments.push(RnaSegment::Loop(bases));
            proof {
                let first = seq![Segment::Loop(bases@)];
                assert(segment_views(segments@) =~= done + first);
                match parsed(chars@.skip(close + 1)) {
                    Ok(tail) => {
                        assert((done + first) + tail =~= done + (first + tail));
                    },
                    Err(_) => {},
                }
            }
            pos = close + 1;
        } else {
            match parse_single(token) {
                Ok(base) => {
                    assert(text.drop_first() =~= chars@.skip(pos + 1));
                    segments.push(RnaSegment::Single(base));
                    proof {
                        let first = seq![Segment::Single(base)];
                        assert(segment_views(segments@) =~= done + first);
                        match parsed(chars@.skip(pos + 1)) {
                            Ok(tail) => {
                                assert((done + first) + tail =~= done + (first + tail));
                            },
                            Err(_) => {},
                        }
                    }
                    pos += 1;
                },
                Err(error) => {
                    assert(parsed(text) == Err::<Seq<Segment>, ParseError>(error));
                    return Err(error);
                },
            }
        }
    }
    proof {
        assert(segment_views(segments@) + Seq::<Segment>::empty() =~= segment_views(segments@));
        lemma_parsed_bounded(chars@);
    }
    Ok(RnaStructure { segments })
}

/// The letter a base is written as.
pub open spec fn letter(base: RnaNucleotide) -> char {
    match base {
        RnaNucleotide::A => 'A',
        RnaNucleotide::C => 'C',
        RnaNucleotide::G => 'G',
        RnaNucleotide::U => 'U',
    }
}

/// The letters of a run of bases.
pub open spec fn letters(bases: Seq<RnaNucleotide>) -> Seq<char>
    decreases bases.len(),
{
    if bases.len() == 0 {
        Seq::empty()
    } else {
        seq![letter(bases[0])] + letters(bases.drop_first())
    }
}

/// How a segment is written: a lone base as its letter, a loop as the letters
/// of its bases between braces.
pub open spec fn segment_notation(segment: Segment) -> Seq<char> {
    match segment {
        Segment::Single(base) => seq![letter(base)],
        Segment::Loop(bases) => seq!['{'] + letters(bases) + seq!['}'],
    }
}

/// How a strand is written: its segments one after the other.
pub open spec fn notation(strand: Seq<Segment>) -> Seq<char>
    decreases strand.len(),
{
    if strand.len() == 0 {
        Seq::empty()
    } else {
        segment_notation(strand[0]) + notation(strand.drop_first())
    }
}

/// The letters of a run of bases, whatever follows them, decode to the run
/// again up to the first character that stands for no base.
pub proof fn lemma_letters_decode(bases: Seq<RnaNucleotide>)
    ensures
        letters(bases).len() == bases.len(),
        decoded_run(letters(bases)) == bases,
        forall|after: Seq<char>| first_close(#[trigger] (letters(bases) + seq!['}'] + after))
            == bases.len(),
    decreases bases.len(),
{
    if bases.len() == 0 {
        assert forall|after: Seq<char>| first_close(#[trigger] (letters(bases) + seq!['}'] + after))
            == bases.len() by {
            assert((letters(bases) + seq!['}'] + after)[0] == '}');
        }
    } else {
        let shorter = bases.drop_first();
        lemma_letters_decode(shorter);
        assert(letters(bases).drop_first() =~= letters(shorter));
        assert(decoded_run(letters(bases)) =~= bases);
        assert forall|after: Seq<char>| first_close(#[trigger] (letters(bases) + seq!['}'] + after))
            == bases.len() by {
            let text = letters(bases) + seq!['}'] + after;
            assert(text[0] == letter(bases[0]));
            assert(text.drop_first() =~= letters(shorter) + seq!['}'] + after);
        }
    }
}

/// Writing a strand and reading it again gives the strand back.
pub proof fn lemma_notation_round_trip(strand: Seq<Segment>)
    ensures
        parsed(notation(strand)) == Ok::<Seq<Segment>, ParseError>(strand),
    decreases strand.len(),
{
    if strand.len() > 0 {
        let shorter = strand.drop_first();
        let text = notation(strand);
        lemma_notation_round_trip(shorter);
        match strand[0] {
            Segment::Single(base) => {
                assert(text[0] == letter(base));
                assert(text.drop_first() =~= notation(shorter));
                assert(seq![strand[0]] + shorter =~= strand);
            },
            Segment::Loop(bases) => {
                lemma_letters_decode(bases);
                let body = text.drop_first();
                assert(text[0] == '{');
                assert(body =~= letters(bases) + seq!['}'] + notation(shorter));
                assert(first_close(body) == bases.len());
                assert(body.take(bases.len() as int) =~= letters(bases));
                assert(body.skip(bases.len() as int + 1) =~= notation(shorter));
                assert(seq![strand[0]] + shorter =~= strand);
            },
        }
    } else {
        assert(strand =~= Seq::<Segment>::empty());
    }
}

/// The letter of a base, as a text of one character.
fn letter_of(base: RnaNucleotide) -> (text: &'static str)
    ensures
        text@ == seq![letter(base)],
{
    proof {
        reveal_strlit("A");
        reveal_strlit("C");
        reveal_strlit("G");
        reveal_strlit("U");
    }
    let text = match base {
        RnaNucleotide::A => "A",
        RnaNucleotide::C => "C",
        RnaNucleotide::G => "G",
        RnaNucleotide::U => "U",
    };
    assert(text@ =~= seq![letter(base)]);
    text
}

impl RnaSegment {
    /// The segment as it is written.
    pub fn notation(&self) -> (text: String)
        ensures
            text@ == segment_notation(self@),
    {
        let mut text = String::new();
        match self {
            RnaSegment::Single(base) => {
                text.append(letter_of(*base));
                assert(text@ =~= segment_notation(self@));
            },
            RnaSegment::Loop(bases) => {
                proof {
                    reveal_strlit("{");
                    reveal_strlit("}");
                }
                text.append("{");
                let mut i: usize = 0;
                assert(bases@.skip(0) =~= bases@);
                assert(text@ =~= seq!['{']);
                while i < bases.len()
                    invariant
                        i <= bases.len(),
                        text@ + letters(bases@.skip(i as int)) == seq!['{'] + letters(bases@),
                    decreases bases.len() - i,
                {
                    let ghost before = text@;
                    assert(bases@.skip(i as int).drop_first() =~= bases@.skip(i + 1));
                    text.append(letter_of(bases[i]));
                    i += 1;
                    assert(text@ + letters(bases@.skip(i as int)) =~= before + letters(
                        bases@.skip(i - 1),
                    ));
                }
                let ghost before = text@;
                text.append("}");
                assert(text@ =~= segment_notation(self@)) by {
                    assert(before =~= seq!['{'] + letters(bases@));
                }
            },
        }
        text
    }
}

impl RnaStructure {
    /// The strand as it is written. Reading the text again gives the strand
    /// back.
    pub fn notation(&self) -> (text: String)
        ensures
            text@ == notation(self@),
            parsed(text@) == Ok::<Seq<Segment>, ParseError>(self@),
    {
        let mut text = String::new();
        let mut i: usize = 0;
        assert(self@.skip(0) =~= self@);
        while i < self.segments.len()
            invariant
                i <= self.segments.len(),
                text@ + notation(self@.skip(i as int)) == notation(self@),
            decreases self.segments.len() - i,
        {
            let ghost before = text@;
            assert(self@.skip(i as int).drop_first() =~= self@.skip(i + 1));
            assert(self@.skip(i as int)[0] == self.segments@[i as int]@);
            let written = self.segments[i].notation();
            text.append(written.as_str());
            i += 1;
            assert(text@ + notation(self@.skip(i as int)) =~= before + notation(
                self@.skip(i - 1),
            ));
        }
        proof {
            assert(text@ =~= notation(self@));
            lemma_notation_round_trip(self@);
        }
        text
    }
}

} // verus!
