use folding_1d::nucleotide::{Nucleotide, RnaNucleotide};
use folding_1d::parser::{parse_nucleotides, parse_sequence, parse_single, ParseError};
use folding_1d::segment::RnaSegment;
use folding_1d::structure::{PreconditionViolation, RnaStructure};

use folding_1d::nucleotide::RnaNucleotide::{A, C, G, U};

fn strand(text: &str) -> RnaStructure {
    parse_sequence(text).expect("the fixture is a strand")
}

fn single(base: RnaNucleotide) -> RnaSegment {
    RnaSegment::Single(base)
}

fn looped(bases: &[RnaNucleotide]) -> RnaSegment {
    RnaSegment::Loop(bases.to_vec())
}

#[test]
fn pairing_holds_for_the_four_canonical_pairs_only() {
    let all = [A, C, G, U];
    let mut bonded = 0;
    for a in all {
        for b in all {
            let expected = matches!((a, b), (A, U) | (U, A) | (C, G) | (G, C));
            assert_eq!(RnaNucleotide::can_pair(&a, &b), expected);
            assert_eq!(a.pairs_with(&b), expected);
            if expected {
                bonded += 1;
            }
        }
    }
    assert_eq!(bonded, 4);
}

#[test]
fn pairing_is_symmetric() {
    let all = [A, C, G, U];
    for a in all {
        for b in all {
            assert_eq!(RnaNucleotide::can_pair(&a, &b), RnaNucleotide::can_pair(&b, &a));
        }
    }
}

#[test]
fn a_lone_base_becomes_a_loop_of_one() {
    assert_eq!(single(G).as_loop(), looped(&[G]));
    assert_eq!(looped(&[A, C]).as_loop(), looped(&[A, C]));
    assert_eq!(single(G).base_count(), 1);
    assert_eq!(looped(&[A, C, U]).base_count(), 3);
    assert_eq!(looped(&[]).base_count(), 0);
    assert!(looped(&[A]).is_loop());
    assert!(!single(A).is_loop());
}

#[test]
fn cloning_keeps_the_segments() {
    let s = strand("AC{GU}A");
    assert_eq!(s.clone(), s);
    assert_eq!(single(U).clone(), single(U));
    assert_eq!(RnaStructure::default(), RnaStructure { segments: vec![] });
}

#[test]
fn major_loop_is_the_longest() {
    let (arm_a, major, arm_b) = strand("AC{G}U{CCC}GA{UU}").split_at_major_loop();
    assert_eq!(major, looped(&[C, C, C]));
    assert_eq!(
        arm_a,
        RnaStructure { segments: vec![single(U), looped(&[G]), single(C), single(A)] }
    );
    assert_eq!(arm_b, RnaStructure { segments: vec![single(G), single(A), looped(&[U, U])] });
}

#[test]
fn major_loop_tie_goes_to_the_later_loop() {
    let (arm_a, major, arm_b) = strand("A{CC}G{UU}C").split_at_major_loop();
    assert_eq!(major, looped(&[U, U]));
    assert_eq!(arm_a, RnaStructure { segments: vec![single(G), looped(&[C, C]), single(A)] });
    assert_eq!(arm_b, RnaStructure { segments: vec![single(C)] });
}

#[test]
fn major_loop_tie_of_three_goes_to_the_last() {
    let (arm_a, major, arm_b) = strand("{A}{C}{G}").split_at_major_loop();
    assert_eq!(major, looped(&[G]));
    assert_eq!(arm_a, RnaStructure { segments: vec![looped(&[C]), looped(&[A])] });
    assert_eq!(arm_b, RnaStructure::default());
}

#[test]
fn major_loop_at_either_end_leaves_an_empty_arm() {
    let (arm_a, major, arm_b) = strand("{GG}AC").split_at_major_loop();
    assert_eq!(arm_a, RnaStructure::default());
    assert_eq!(major, looped(&[G, G]));
    assert_eq!(arm_b, strand("AC"));
    let (arm_a, major, arm_b) = strand("AC{GG}").split_at_major_loop();
    assert_eq!(arm_a, strand("CA"));
    assert_eq!(major, looped(&[G, G]));
    assert_eq!(arm_b, RnaStructure::default());
}

#[test]
fn the_first_lone_base_is_the_one_looped() {
    assert_eq!(strand("{A}CG").with_first_single_looped(), strand("{A}{C}G"));
    assert_eq!(strand("ACG").with_first_single_looped(), strand("{A}CG"));
    assert_eq!(strand("{AA}{C}U").with_first_single_looped(), strand("{AA}{C}{U}"));
}

#[test]
fn strands_know_what_they_hold() {
    assert!(strand("A{C}").has_loop());
    assert!(!strand("AC").has_loop());
    assert!(!strand("").has_loop());
    assert!(strand("{C}A").has_single());
    assert!(!strand("{C}{A}").has_single());
    assert!(!strand("").has_single());
}

#[test]
fn splitting_after_the_first_segment() {
    let (first, rest) = strand("{AC}GU").split_after_first_segment();
    assert_eq!(first, strand("{AC}"));
    assert_eq!(rest, strand("GU"));
    let (first, rest) = strand("G").split_after_first_segment();
    assert_eq!(first, strand("G"));
    assert_eq!(rest, strand(""));
    let (first, rest) = strand("").split_after_first_segment();
    assert_eq!(first, strand(""));
    assert_eq!(rest, strand(""));
}

#[test]
fn a_loop_facing_a_lone_base_passes_alone() {
    let (a_head, a_tail, b_head, b_tail) = strand("{AC}G").split_at_first_pair(&strand("UA"));
    assert_eq!(a_head, strand("{AC}"));
    assert_eq!(a_tail, strand("G"));
    assert_eq!(b_head, strand(""));
    assert_eq!(b_tail, strand("UA"));
}

#[test]
fn a_lone_base_facing_a_loop_is_held_back() {
    let (a_head, a_tail, b_head, b_tail) = strand("UA").split_at_first_pair(&strand("{AC}G"));
    assert_eq!(a_head, strand(""));
    assert_eq!(a_tail, strand("UA"));
    assert_eq!(b_head, strand("{AC}"));
    assert_eq!(b_tail, strand("G"));
}

#[test]
fn like_fronts_are_taken_one_for_one() {
    let (a_head, a_tail, b_head, b_tail) = strand("AC").split_at_first_pair(&strand("UG"));
    assert_eq!((a_head, a_tail), (strand("A"), strand("C")));
    assert_eq!((b_head, b_tail), (strand("U"), strand("G")));
    let (a_head, a_tail, b_head, b_tail) = strand("{A}C").split_at_first_pair(&strand("{UU}G"));
    assert_eq!((a_head, a_tail), (strand("{A}"), strand("C")));
    assert_eq!((b_head, b_tail), (strand("{UU}"), strand("G")));
}

#[test]
fn an_exhausted_arm_gives_nothing_up() {
    let (a_head, a_tail, b_head, b_tail) = strand("").split_at_first_pair(&strand("{UU}G"));
    assert_eq!((a_head, a_tail), (strand(""), strand("")));
    assert_eq!((b_head, b_tail), (strand("{UU}"), strand("G")));
    let (a_head, a_tail, b_head, b_tail) = strand("AC").split_at_first_pair(&strand(""));
    assert_eq!((a_head, a_tail), (strand("A"), strand("C")));
    assert_eq!((b_head, b_tail), (strand(""), strand("")));
}

#[test]
fn joining_merges_loops_that_meet() {
    let mut s = strand("A{CC}");
    s.join(strand("{G}U"));
    assert_eq!(s, strand("A{CCG}U"));
}

#[test]
fn joining_leaves_other_segments_apart() {
    let mut s = strand("A{CC}");
    s.join(strand("G{U}"));
    assert_eq!(s, strand("A{CC}G{U}"));
    let mut s = strand("AC");
    s.join(strand("{G}U"));
    assert_eq!(s, strand("AC{G}U"));
    let mut s = strand("");
    s.join(strand("{G}U"));
    assert_eq!(s, strand("{G}U"));
    let mut s = strand("A{G}");
    s.join(strand(""));
    assert_eq!(s, strand("A{G}"));
}

#[test]
fn energy_counts_bases_and_gives_back_two_per_bond() {
    // 5 + 4 bases; lone bases A C G against U G A: A-U and C-G bond, G-A does not.
    assert_eq!(strand("A{CC}CG").paired_free_energy(&strand("UG{C}A")), 5 + 4 - 2 * 2);
}

#[test]
fn energy_pairs_lone_bases_by_position_past_loops() {
    assert_eq!(strand("{C}A").paired_free_energy(&strand("U")), 3 - 2);
    assert_eq!(strand("A").paired_free_energy(&strand("{GG}U{C}")), 5 - 2);
}

#[test]
fn energy_of_unequal_arms_pairs_only_what_faces_a_base() {
    assert_eq!(strand("AAAA").paired_free_energy(&strand("UU")), 6 - 4);
    assert_eq!(strand("").paired_free_energy(&strand("ACGU")), 4);
    assert_eq!(strand("").paired_free_energy(&strand("")), 0);
}

#[test]
fn search_keeps_the_first_of_equal_candidates() {
    // All three candidates come to 2: the arms as they stand win.
    let ((arm_a, arm_b), energy) = RnaStructure::strand_permute_search(&strand("A"), &strand("A"));
    assert_eq!(energy, 2);
    assert_eq!(arm_a, strand("A"));
    assert_eq!(arm_b, strand("A"));
    let first = RnaStructure::fold_candidate(&strand("A"), &strand("A"));
    let second = RnaStructure::fold_candidate(&strand("{A}"), &strand("A"));
    let third = RnaStructure::fold_candidate(&strand("A"), &strand("{A}"));
    assert_eq!(first.1, 2);
    assert_eq!(second.1, 2);
    assert_eq!(third.1, 2);
    assert_eq!(second.0, (strand("{A}"), strand("A")));
    assert_eq!(third.0, (strand("A"), strand("{A}")));
}

#[test]
fn search_takes_a_strictly_better_later_candidate() {
    // A against G U: looping G out lets A meet U.
    let ((arm_a, arm_b), energy) = RnaStructure::strand_permute_search(&strand("A"), &strand("GU"));
    assert_eq!(energy, 1);
    assert_eq!(arm_a, strand("A"));
    assert_eq!(arm_b, strand("{G}U"));
}

#[test]
fn search_leaves_out_candidates_with_no_lone_base_to_loop() {
    let ((arm_a, arm_b), energy) =
        RnaStructure::strand_permute_search(&strand("{CC}"), &strand("AU"));
    assert_eq!(energy, 4);
    assert_eq!(arm_a, strand("{CC}"));
    assert_eq!(arm_b, strand("AU"));
    let ((arm_a, arm_b), energy) = RnaStructure::strand_permute_search(&strand(""), &strand(""));
    assert_eq!(energy, 0);
    assert_eq!((arm_a, arm_b), (strand(""), strand("")));
}

#[test]
fn search_merges_loops_made_side_by_side() {
    // A against C C U: both of C C are looped out, one level after the other,
    // and end up as one loop.
    let ((arm_a, arm_b), energy) =
        RnaStructure::strand_permute_search(&strand("A"), &strand("CCU"));
    assert_eq!(arm_b, strand("{CC}U"));
    assert_eq!(arm_a, strand("A"));
    assert_eq!(energy, 2);
}

#[test]
fn search_prefers_the_default_alignment_among_equals_at_depth() {
    // A A against C C U: every candidate comes to 3, so the first level keeps
    // the arms as they stand and only the tails are changed.
    let ((arm_a, arm_b), energy) =
        RnaStructure::strand_permute_search(&strand("AA"), &strand("CCU"));
    assert_eq!(energy, 3);
    assert_eq!(arm_a, strand("AA"));
    assert_eq!(arm_b, strand("C{C}U"));
}

#[test]
fn folding_one_candidate_scores_exhausted_tails_as_they_stand() {
    let ((arm_a, arm_b), energy) = RnaStructure::fold_candidate(&strand("A"), &strand("UGC"));
    assert_eq!(energy, 0 + 2);
    assert_eq!((arm_a, arm_b), (strand("A"), strand("UGC")));
}

#[test]
fn four_pairs_around_a_loop_cost_only_the_loop() {
    let (folded, initial, optimized) = strand("AAAA{CCCC}UUUU").minimize_free_energy();
    assert_eq!(initial, 4);
    assert_eq!(optimized, 4);
    assert_eq!(folded, strand("AAAA{CCCC}UUUU"));
}

#[test]
fn bases_that_cannot_pair_all_count() {
    let (folded, initial, optimized) = strand("AA{G}AA").minimize_free_energy();
    assert_eq!(initial, 5);
    assert_eq!(optimized, 5);
    assert_eq!(folded, strand("AA{G}AA"));
}

#[test]
fn a_bulge_beats_a_mismatch_at_the_loop() {
    let (folded, initial, optimized) = strand("A{CCC}GU").minimize_free_energy();
    assert_eq!(initial, 6);
    assert_eq!(optimized, 4);
    assert!(optimized < initial);
    assert_eq!(folded.notation(), "A{CCC}{G}U");
}

#[test]
fn a_bulge_on_the_longer_first_arm() {
    // Arm A, read outward from the loop, is G A; arm B is U.
    let (folded, initial, optimized) = strand("AG{CC}U").minimize_free_energy();
    assert_eq!(initial, 5);
    assert_eq!(optimized, 3);
    assert_eq!(
        folded,
        RnaStructure { segments: vec![single(A), looped(&[G]), looped(&[C, C]), single(U)] }
    );
}

#[test]
fn minimizing_never_raises_the_energy() {
    for text in ["A{C}U", "{G}", "ACGU{AC}ACGU", "{A}{CC}GU", "GGA{U}CCA{AAAA}UGGAUCC", "AC{G}"] {
        let (folded, initial, optimized) = strand(text).minimize_free_energy();
        assert!(optimized <= initial, "{}", text);
        let arms = folded.split_at_major_loop();
        assert_eq!(arms.0.paired_free_energy(&arms.2) + arms.1.base_count(), optimized, "{}", text);
    }
}

#[test]
fn minimizing_a_strand_with_an_empty_arm() {
    let (folded, initial, optimized) = strand("{G}AA").minimize_free_energy();
    assert_eq!((initial, optimized), (3, 3));
    assert_eq!(folded, strand("{G}AA"));
}

#[test]
fn single_tokens_decode_in_either_case() {
    assert_eq!(parse_single('a'), Ok(A));
    assert_eq!(parse_single('A'), Ok(A));
    assert_eq!(parse_single('c'), Ok(C));
    assert_eq!(parse_single('C'), Ok(C));
    assert_eq!(parse_single('g'), Ok(G));
    assert_eq!(parse_single('G'), Ok(G));
    assert_eq!(parse_single('u'), Ok(U));
    assert_eq!(parse_single('U'), Ok(U));
    assert_eq!(parse_single('t'), Err(ParseError::InvalidToken('t')));
    assert_eq!(parse_single('{'), Err(ParseError::InvalidToken('{')));
}

#[test]
fn a_run_is_cut_at_its_first_invalid_token() {
    assert_eq!(parse_nucleotides("acgu"), Ok(vec![A, C, G, U]));
    assert_eq!(parse_nucleotides("ACxGU"), Ok(vec![A, C]));
    assert_eq!(parse_nucleotides("xACGU"), Ok(vec![]));
    assert_eq!(parse_nucleotides(""), Ok(vec![]));
}

#[test]
fn a_strand_is_read_segment_by_segment() {
    assert_eq!(
        parse_sequence("aC{gU}a"),
        Ok(RnaStructure { segments: vec![single(A), single(C), looped(&[G, U]), single(A)] })
    );
    assert_eq!(parse_sequence(""), Ok(RnaStructure { segments: vec![] }));
    assert_eq!(
        parse_sequence("{A}{C}"),
        Ok(RnaStructure { segments: vec![looped(&[A]), looped(&[C])] })
    );
}

#[test]
fn an_invalid_token_outside_a_loop_fails() {
    assert_eq!(parse_sequence("ACxGU"), Err(ParseError::InvalidToken('x')));
    assert_eq!(parse_sequence("AC}GU"), Err(ParseError::InvalidToken('}')));
    assert_eq!(parse_sequence("A C"), Err(ParseError::InvalidToken(' ')));
    assert_eq!(parse_sequence("A\u{e9}C"), Err(ParseError::InvalidToken('\u{e9}')));
}

#[test]
fn an_open_loop_fails() {
    assert_eq!(parse_sequence("AC{GU"), Err(ParseError::UnterminatedLoop));
    assert_eq!(parse_sequence("{"), Err(ParseError::UnterminatedLoop));
    assert_eq!(parse_sequence("{A}C{"), Err(ParseError::UnterminatedLoop));
}

#[test]
fn the_first_error_from_the_left_is_the_one_reported() {
    assert_eq!(parse_sequence("Ax{GU"), Err(ParseError::InvalidToken('x')));
    assert_eq!(parse_sequence("A{GUx"), Err(ParseError::UnterminatedLoop));
}

#[test]
fn inside_a_loop_decoding_stops_at_the_first_invalid_token() {
    assert_eq!(
        parse_sequence("A{CxG}U"),
        Ok(RnaStructure { segments: vec![single(A), looped(&[C]), single(U)] })
    );
    assert_eq!(parse_sequence("{xCG}"), Ok(RnaStructure { segments: vec![looped(&[])] }));
    assert_eq!(parse_sequence("{}"), Ok(RnaStructure { segments: vec![looped(&[])] }));
    assert_eq!(parse_sequence("{A{C}"), Ok(RnaStructure { segments: vec![looped(&[A])] }));
}

#[test]
fn notation_writes_loops_in_braces() {
    assert_eq!(single(G).notation(), "G");
    assert_eq!(looped(&[A, C, G, U]).notation(), "{ACGU}");
    assert_eq!(looped(&[]).notation(), "{}");
    assert_eq!(strand("ac{gu}a").notation(), "AC{GU}A");
    assert_eq!(strand("").notation(), "");
}

#[test]
fn notation_reads_back_as_the_same_strand() {
    let strands = [
        RnaStructure { segments: vec![] },
        RnaStructure { segments: vec![single(A), looped(&[C, G]), single(U)] },
        RnaStructure { segments: vec![looped(&[A]), looped(&[C]), looped(&[])] },
        RnaStructure { segments: vec![single(U), single(U), looped(&[G, G, G])] },
    ];
    for s in strands {
        assert_eq!(parse_sequence(&s.notation()), Ok(s));
    }
}

fn bases_of(s: &RnaStructure) -> Vec<RnaNucleotide> {
    let mut bases = Vec::new();
    for segment in &s.segments {
        match segment {
            RnaSegment::Single(base) => bases.push(*base),
            RnaSegment::Loop(run) => bases.extend(run.iter().copied()),
        }
    }
    bases
}

#[test]
fn search_only_changes_the_segments_the_bases_stand_in() {
    let arms = [("AA", "CCU"), ("GAUC", "AG"), ("{A}CG", "U{G}C"), ("", "ACG"), ("ACGU", "ACGU")];
    for (a, b) in arms {
        let ((arm_a, arm_b), _) = RnaStructure::strand_permute_search(&strand(a), &strand(b));
        assert_eq!(bases_of(&arm_a), bases_of(&strand(a)), "{} | {}", a, b);
        assert_eq!(bases_of(&arm_b), bases_of(&strand(b)), "{} | {}", a, b);
    }
}

#[test]
fn the_energy_found_is_the_score_of_the_arms_returned() {
    let arms = [("AA", "CCU"), ("GAUC", "AG"), ("{A}CG", "U{G}C"), ("", "ACG"), ("ACGU", "ACGU")];
    for (a, b) in arms {
        let ((arm_a, arm_b), energy) = RnaStructure::strand_permute_search(&strand(a), &strand(b));
        assert_eq!(arm_a.paired_free_energy(&arm_b), energy, "{} | {}", a, b);
        assert!(energy <= strand(a).paired_free_energy(&strand(b)), "{} | {}", a, b);
    }
}

#[test]
fn promoting_is_refused_where_no_lone_base_is_left() {
    assert_eq!(
        strand("{AC}{G}").try_with_first_single_looped(),
        Err(PreconditionViolation::NoSingleToPromote)
    );
    assert_eq!(
        strand("").try_with_first_single_looped(),
        Err(PreconditionViolation::NoSingleToPromote)
    );
    assert_eq!(strand("{AC}G").try_with_first_single_looped(), Ok(strand("{AC}{G}")));
}

#[test]
fn minimizing_is_refused_where_no_loop_is_there_to_fold_around() {
    assert_eq!(strand("ACGU").try_minimize_free_energy(), Err(PreconditionViolation::NoMajorLoop));
    assert_eq!(strand("").try_minimize_free_energy(), Err(PreconditionViolation::NoMajorLoop));
    assert_eq!(strand("A{CCC}GU").try_minimize_free_energy(), Ok((strand("A{CCC}{G}U"), 6, 4)));
}

#[test]
fn total_bases_counts_lone_bases_and_loop_bases() {
    assert_eq!(strand("").total_bases(), Some(0));
    assert_eq!(strand("AC{GUA}{}C").total_bases(), Some(6));
}

#[test]
fn a_strand_with_an_empty_loop_is_not_well_formed() {
    assert!(strand("A{C}G").is_well_formed());
    assert!(strand("").is_well_formed());
    assert!(!strand("A{}G").is_well_formed());
    assert!(!strand("A{x}G").is_well_formed());
}

#[test]
fn minimizing_keeps_loops_that_hold_bases() {
    for text in ["A{C}U", "GGA{U}CCA{AAAA}UGGAUCC", "AC{G}", "A{CCC}GU"] {
        let (folded, _, _) = strand(text).minimize_free_energy();
        assert!(folded.is_well_formed(), "{}", text);
        assert_eq!(folded.total_bases(), strand(text).total_bases(), "{}", text);
    }
}
