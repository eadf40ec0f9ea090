use unicode_bidi::explicit::compute;
use unicode_bidi::implicit::{resolve_levels, resolve_neutral, resolve_weak};
use unicode_bidi::isolates::is_isolate_initiator;
use unicode_bidi::prepare::{isolating_run_sequences, removed_by_x9, IsolatingRunSequence};
use unicode_bidi::BidiClass::{
    AL, AN, B, BN, CS, EN, ES, ET, FSI, L, LRE, LRI, LRO, NSM, ON, PDF, PDI, R, RLE, RLI, RLO, S,
    WS,
};
use unicode_bidi::{
    bidi_class, class_for_level, initial_scan, is_rtl, level_runs, BidiClass, InitialProperties,
    LevelRun, UNICODE_VERSION,
};

const ALL_CLASSES: [BidiClass; 23] = [
    AL, AN, B, BN, CS, EN, ES, ET, FSI, L, LRE, LRI, LRO, NSM, ON, PDF, PDI, R, RLE, RLI, RLO, S,
    WS,
];

fn explicit(para_level: u8, classes: &[BidiClass]) -> (Vec<u8>, Vec<BidiClass>) {
    let result = compute(para_level, classes);
    (result.levels, result.classes)
}

fn weak(sos: BidiClass, classes: &[BidiClass]) -> Vec<BidiClass> {
    let mut resolved = classes.to_vec();
    let sequence = IsolatingRunSequence { runs: vec![0..classes.len()], sos, eos: sos };
    resolve_weak(&sequence, &mut resolved);
    resolved
}

fn neutral(sos: BidiClass, eos: BidiClass, level: u8, classes: &[BidiClass]) -> Vec<BidiClass> {
    let mut resolved = classes.to_vec();
    let levels = vec![level; classes.len()];
    let sequence = IsolatingRunSequence { runs: vec![0..classes.len()], sos, eos };
    resolve_neutral(&sequence, &levels, &mut resolved);
    resolved
}

fn runs_of(sequences: &[IsolatingRunSequence]) -> Vec<Vec<LevelRun>> {
    sequences.iter().map(|s| s.runs.clone()).collect()
}

#[test]
fn every_class_has_a_character() {
    let samples = [
        ('\u{0627}', AL),
        ('\u{0660}', AN),
        ('\n', B),
        ('\u{2029}', B),
        ('\u{0000}', BN),
        (',', CS),
        ('0', EN),
        ('\u{06F0}', EN),
        ('+', ES),
        ('$', ET),
        ('\u{2068}', FSI),
        ('a', L),
        ('\u{4E00}', L),
        ('\u{202A}', LRE),
        ('\u{2066}', LRI),
        ('\u{202D}', LRO),
        ('\u{0300}', NSM),
        ('!', ON),
        ('\u{1F600}', ON),
        ('\u{202C}', PDF),
        ('\u{2069}', PDI),
        ('\u{05D0}', R),
        ('\u{10800}', R),
        ('\u{202B}', RLE),
        ('\u{2067}', RLI),
        ('\u{202E}', RLO),
        ('\t', S),
        (' ', WS),
        ('\u{3000}', WS),
    ];
    for (c, class) in samples {
        assert_eq!(bidi_class(c), class, "{:?}", c);
    }
}

#[test]
fn unassigned_characters_have_classes() {
    assert_eq!(bidi_class('\u{05FF}'), R);
    assert_eq!(bidi_class('\u{074B}'), AL);
    assert_eq!(bidi_class('\u{0378}'), L);
    assert_eq!(bidi_class('\u{10FFFF}'), BN);
}

#[test]
fn table_has_a_version() {
    assert_eq!(UNICODE_VERSION, (14, 0, 0));
}

#[test]
fn odd_levels_are_right_to_left() {
    assert!(!is_rtl(0));
    assert!(is_rtl(1));
    assert!(!is_rtl(124));
    assert!(is_rtl(255));
    assert_eq!(class_for_level(2), L);
    assert_eq!(class_for_level(3), R);
}

#[test]
fn isolate_initiators() {
    for class in ALL_CLASSES {
        assert_eq!(is_isolate_initiator(class), class == RLI || class == LRI || class == FSI);
    }
}

#[test]
fn scan_of_empty_text() {
    let expected = InitialProperties { para_level: 0, initial_classes: vec![] };
    assert_eq!(initial_scan("", None), expected);
}

#[test]
fn scan_keeps_given_level() {
    let expected = InitialProperties { para_level: 0, initial_classes: vec![R] };
    assert_eq!(initial_scan("\u{05D0}", Some(0)), expected);
    let expected = InitialProperties { para_level: 3, initial_classes: vec![L] };
    assert_eq!(initial_scan("a", Some(3)), expected);
}

#[test]
fn detected_level_given_changes_nothing() {
    for text in ["abc", "\u{05D0}bc", "12", "\u{2067}\u{05D0}\u{2069}a", "\u{0627}"] {
        let detected = initial_scan(text, None);
        assert!(detected.para_level <= 1);
        assert_eq!(initial_scan(text, Some(detected.para_level)), detected);
    }
}

#[test]
fn scan_skips_isolates() {
    // The Hebrew letter stands in an isolate, the Latin one behind it.
    let expected = InitialProperties { para_level: 0, initial_classes: vec![LRI, R, PDI, L] };
    assert_eq!(initial_scan("\u{2066}\u{05D0}\u{2069}a", None), expected);
    // The isolate is never closed, so no strong character stands outside.
    let expected = InitialProperties { para_level: 0, initial_classes: vec![LRI, R, R] };
    assert_eq!(initial_scan("\u{2066}\u{05D0}\u{05D1}", None), expected);
    // A PDI that matches nothing closes nothing.
    let expected = InitialProperties { para_level: 1, initial_classes: vec![PDI, R] };
    assert_eq!(initial_scan("\u{2069}\u{05D0}", None), expected);
}

#[test]
fn scan_settles_fsi() {
    let expected = InitialProperties { para_level: 0, initial_classes: vec![LRI, L, R, PDI] };
    assert_eq!(initial_scan("\u{2068}a\u{05D0}\u{2069}", None), expected);
    let expected = InitialProperties { para_level: 0, initial_classes: vec![RLI, AL, L, PDI] };
    assert_eq!(initial_scan("\u{2068}\u{0627}a\u{2069}", None), expected);
}

#[test]
fn scan_leaves_fsi_without_strong_character() {
    let expected = InitialProperties { para_level: 0, initial_classes: vec![FSI, EN, PDI, L] };
    assert_eq!(initial_scan("\u{2068}1\u{2069}a", None), expected);
}

#[test]
fn scan_settles_fsi_outside_nested_isolates() {
    let expected = InitialProperties {
        para_level: 0,
        initial_classes: vec![LRI, RLI, R, PDI, L, PDI],
    };
    assert_eq!(initial_scan("\u{2068}\u{2067}\u{05D0}\u{2069}a\u{2069}", None), expected);
}

#[test]
fn embeddings_open_and_close() {
    let classes = [RLE, L, PDF, L];
    assert_eq!(explicit(0, &classes), (vec![1, 1, 0, 0], classes.to_vec()));
    let classes = [LRE, R, PDF, R];
    assert_eq!(explicit(0, &classes), (vec![2, 2, 0, 0], classes.to_vec()));
    assert_eq!(explicit(1, &classes), (vec![2, 2, 1, 1], classes.to_vec()));
    let classes = [RLE, R, PDF, R];
    assert_eq!(explicit(1, &classes), (vec![3, 3, 1, 1], classes.to_vec()));
}

#[test]
fn overrides_change_classes() {
    assert_eq!(
        explicit(0, &[RLO, L, EN, PDF, L]),
        (vec![1, 1, 1, 0, 0], vec![RLO, R, R, PDF, L])
    );
    assert_eq!(explicit(0, &[LRO, R, WS, PDF]), (vec![2, 2, 2, 0], vec![LRO, L, L, PDF]));
}

#[test]
fn isolates_keep_overrides_out() {
    assert_eq!(
        explicit(0, &[RLO, RLI, L, PDI, L, PDF]),
        (vec![1, 1, 3, 1, 1, 0], vec![RLO, RLI, L, PDI, R, PDF])
    );
}

#[test]
fn isolate_restores_status() {
    // The embedding that is left open in the isolate ends with it.
    let classes = [RLE, LRI, RLE, L, PDI, L];
    assert_eq!(explicit(0, &classes).0, vec![1, 1, 3, 3, 1, 1]);
    // A PDF does not reach out of an isolate.
    let classes = [RLE, LRI, PDF, L, PDI, L];
    assert_eq!(explicit(0, &classes).0, vec![1, 1, 2, 2, 1, 1]);
    // An FSI that was not settled opens as an LRI.
    assert_eq!(explicit(0, &[FSI, L, PDI]).0, vec![0, 2, 0]);
}

#[test]
fn separators_and_boundary_neutrals_have_paragraph_level() {
    assert_eq!(explicit(0, &[RLE, BN, B, R, PDF]).0, vec![1, 0, 0, 1, 0]);
}

#[test]
fn closing_characters_that_close_nothing() {
    assert_eq!(explicit(1, &[PDI, PDF, L]).0, vec![1, 1, 1]);
    let classes = [RLE, PDI, R];
    assert_eq!(explicit(0, &classes), (vec![1, 1, 1], classes.to_vec()));
}

#[test]
fn too_many_embeddings() {
    let mut classes = vec![RLE; 64];
    classes.extend_from_slice(&[L, PDF, L, PDF, L]);
    let mut levels: Vec<u8> = (0..63).map(|k| 2 * k + 1).collect();
    levels.extend_from_slice(&[0, 125, 0, 125, 123, 123]);
    assert_eq!(explicit(0, &classes).0, levels);
}

#[test]
fn too_many_isolates() {
    let mut classes = vec![RLE; 63];
    classes.extend_from_slice(&[LRI, L, RLE, PDF, PDI, L, PDF, L]);
    let mut levels: Vec<u8> = (0..63).map(|k| 2 * k + 1).collect();
    levels.extend_from_slice(&[125, 125, 0, 0, 125, 125, 123, 123]);
    assert_eq!(explicit(0, &classes).0, levels);
}

#[test]
fn levels_stay_in_bounds() {
    let mut classes = vec![LRO; 100];
    classes.push(R);
    for level in explicit(5, &classes).0 {
        assert!(5 <= level && level <= 125);
    }
}

#[test]
fn classes_removed_by_x9() {
    for class in ALL_CLASSES {
        let expected = [RLE, LRE, RLO, LRO, PDF, BN].contains(&class);
        assert_eq!(removed_by_x9(class), expected);
    }
}

#[test]
fn level_runs_of_nothing() {
    let expected: Vec<LevelRun> = vec![];
    assert_eq!(level_runs(&[], &[]), expected);
}

#[test]
fn level_runs_pass_removed_characters() {
    assert_eq!(level_runs(&[0, 1, 0], &[L, BN, L]), vec![0..3]);
    assert_eq!(level_runs(&[0, 1, 1], &[L, RLE, R]), vec![0..2, 2..3]);
    assert_eq!(level_runs(&[1, 0, 0], &[BN, L, L]), vec![0..1, 1..3]);
}

#[test]
fn sequences_of_unclosed_isolates() {
    let sequences = isolating_run_sequences(0, &[L, RLI, R, LRI, L], &[0, 0, 1, 1, 2]);
    assert_eq!(runs_of(&sequences), vec![vec![4..5], vec![2..4], vec![0..2]]);
}

#[test]
fn sequences_link_matching_pdis() {
    // The first PDI matches the LRI, which does not end a run, so its run goes on from nowhere.
    let classes = [RLI, LRI, L, PDI, L, PDI, L];
    let sequences = isolating_run_sequences(0, &classes, &[0, 1, 1, 0, 1, 0, 0]);
    assert_eq!(
        runs_of(&sequences),
        vec![vec![1..3], vec![3..4], vec![4..5], vec![0..1, 5..7]]
    );
}

#[test]
fn sequences_pass_removed_characters() {
    let sequences = isolating_run_sequences(0, &[RLI, BN, R, PDI], &[0, 0, 1, 0]);
    assert_eq!(runs_of(&sequences), vec![vec![2..3], vec![0..2, 3..4]]);
    // The BN behind the RLI does not end the sequence.
    let sequences = isolating_run_sequences(0, &[L, RLI, BN, R], &[0, 0, 0, 1]);
    assert_eq!(runs_of(&sequences), vec![vec![3..4], vec![0..3]]);
    assert_eq!((sequences[1].sos, sequences[1].eos), (L, L));
}

#[test]
fn every_character_is_in_one_sequence() {
    let classes = [L, RLI, AL, LRI, L, R, L, PDI, AL, PDI, L];
    let levels = [0, 0, 1, 1, 2, 3, 2, 1, 1, 0, 0];
    let mut seen: Vec<usize> = vec![];
    for sequence in isolating_run_sequences(0, &classes, &levels) {
        for run in sequence.runs {
            seen.extend(run);
        }
    }
    seen.sort();
    assert_eq!(seen, (0..11).collect::<Vec<usize>>());
}

#[test]
fn ends_of_sequences() {
    let classes = [L, RLI, AL, LRI, L, R, L, PDI, AL, PDI, L];
    let levels = [0, 0, 1, 1, 2, 3, 2, 1, 1, 0, 0];
    let ends: Vec<(BidiClass, BidiClass)> = isolating_run_sequences(0, &classes, &levels)
        .iter()
        .map(|s| (s.sos, s.eos))
        .collect();
    assert_eq!(ends, vec![(L, R), (R, R), (R, L), (R, R), (L, L)]);
}

#[test]
fn ends_pass_removed_characters() {
    // The neighbours of the middle run are at level 1; the BNs next to it do not count.
    let classes = [R, BN, L, BN, R];
    let sequences = isolating_run_sequences(0, &classes, &[1, 0, 0, 0, 1]);
    assert_eq!(runs_of(&sequences), vec![vec![0..2], vec![2..4], vec![4..5]]);
    assert_eq!((sequences[1].sos, sequences[1].eos), (R, R));
}

#[test]
fn end_behind_an_initiator() {
    let sequences = isolating_run_sequences(0, &[L, RLI, R], &[0, 0, 1]);
    assert_eq!(runs_of(&sequences), vec![vec![2..3], vec![0..2]]);
    assert_eq!((sequences[1].sos, sequences[1].eos), (L, L));
}

#[test]
fn w1_nonspacing_marks() {
    assert_eq!(weak(L, &[NSM, R, NSM, NSM]), vec![L, R, R, R]);
    assert_eq!(weak(R, &[LRI, NSM, PDI, NSM]), vec![LRI, ON, PDI, ON]);
    assert_eq!(weak(R, &[EN, NSM]), vec![EN, EN]);
}

#[test]
fn w2_numbers_after_arabic_letters() {
    assert_eq!(weak(R, &[AL, EN]), vec![R, AN]);
    assert_eq!(weak(R, &[AL, WS, EN, R, EN]), vec![R, WS, AN, R, EN]);
    // They count as Arabic numbers in the rules that follow.
    assert_eq!(weak(R, &[AL, EN, CS, EN]), vec![R, AN, AN, AN]);
    assert_eq!(weak(R, &[AL, EN, ES, EN]), vec![R, AN, ON, AN]);
    assert_eq!(weak(R, &[AL, ET, EN]), vec![R, ON, AN]);
}

#[test]
fn w3_arabic_letters() {
    assert_eq!(weak(L, &[AL, WS, AL, AN]), vec![R, WS, R, AN]);
}

#[test]
fn w4_separators() {
    assert_eq!(weak(R, &[EN, ES, EN]), vec![EN, EN, EN]);
    assert_eq!(weak(R, &[EN, CS, EN]), vec![EN, EN, EN]);
    assert_eq!(weak(R, &[AN, CS, AN]), vec![AN, AN, AN]);
    assert_eq!(weak(R, &[AN, ES, AN]), vec![AN, ON, AN]);
    assert_eq!(weak(R, &[EN, CS, AN]), vec![EN, ON, AN]);
    assert_eq!(weak(R, &[EN, ES, ES, EN]), vec![EN, ON, ON, EN]);
    assert_eq!(weak(R, &[EN, CS]), vec![EN, ON]);
}

#[test]
fn w5_terminators_next_to_numbers() {
    assert_eq!(weak(R, &[ET, ET, EN]), vec![EN, EN, EN]);
    assert_eq!(weak(R, &[EN, ET, ET]), vec![EN, EN, EN]);
    assert_eq!(weak(R, &[AN, ET, EN]), vec![AN, EN, EN]);
}

#[test]
fn w6_other_terminators() {
    assert_eq!(weak(R, &[R, ET, R]), vec![R, ON, R]);
    assert_eq!(weak(R, &[ET, AN]), vec![ON, AN]);
    assert_eq!(weak(R, &[R, ET, WS, EN]), vec![R, ON, WS, EN]);
    assert_eq!(weak(R, &[R, ET]), vec![R, ON]);
    assert_eq!(weak(R, &[R, ET, ET]), vec![R, ON, ON]);
}

#[test]
fn w7_numbers_after_latin_letters() {
    assert_eq!(weak(R, &[L, EN]), vec![L, L]);
    assert_eq!(weak(R, &[L, ET, EN]), vec![L, L, L]);
    assert_eq!(weak(R, &[L, WS, EN, R, EN]), vec![L, WS, L, R, EN]);
    // The start of the sequence counts.
    assert_eq!(weak(L, &[EN]), vec![L]);
    assert_eq!(weak(R, &[EN]), vec![EN]);
}

#[test]
fn w7_comes_after_w4_and_w5() {
    assert_eq!(weak(R, &[L, EN, ET, R]), vec![L, L, L, R]);
    assert_eq!(weak(R, &[L, EN, CS, EN]), vec![L, L, L, L]);
}

#[test]
fn w1_comes_before_w4_and_w5() {
    assert_eq!(weak(R, &[ET, NSM, EN]), vec![EN, EN, EN]);
    assert_eq!(weak(R, &[EN, ES, NSM, EN]), vec![EN, ON, ON, EN]);
}

#[test]
fn weak_rules_ignore_removed_characters() {
    assert_eq!(weak(R, &[R, BN, NSM]), vec![R, BN, R]);
    assert_eq!(weak(R, &[EN, BN, ET]), vec![EN, BN, EN]);
    assert_eq!(weak(R, &[EN, BN, CS, PDF, EN]), vec![EN, BN, EN, PDF, EN]);
    assert_eq!(weak(R, &[RLE, BN]), vec![RLE, BN]);
}

#[test]
fn weak_rules_leave_five_classes_nowhere() {
    for first in ALL_CLASSES {
        for second in ALL_CLASSES {
            for third in ALL_CLASSES {
                for sos in [L, R] {
                    for class in weak(sos, &[first, second, third]) {
                        assert!(!matches!(class, AL | NSM | ES | ET | CS));
                    }
                }
            }
        }
    }
}

#[test]
fn weak_rules_follow_the_sequence() {
    let mut classes = vec![L, AL, EN];
    let sequence = IsolatingRunSequence { runs: vec![0..1, 2..3], sos: L, eos: L };
    resolve_weak(&sequence, &mut classes);
    assert_eq!(classes, vec![L, AL, L]);
}

#[test]
fn n1_neutrals_between_like_classes() {
    assert_eq!(neutral(L, L, 0, &[R, WS, R]), vec![R, R, R]);
    assert_eq!(neutral(L, L, 1, &[L, ON, L]), vec![L, L, L]);
    assert_eq!(neutral(L, L, 0, &[R, S, EN]), vec![R, R, EN]);
    assert_eq!(neutral(L, L, 0, &[AN, B, R]), vec![AN, R, R]);
    assert_eq!(neutral(L, L, 0, &[EN, PDI, AN]), vec![EN, R, AN]);
    assert_eq!(neutral(R, L, 0, &[WS, R]), vec![R, R]);
    assert_eq!(neutral(L, R, 0, &[R, LRI]), vec![R, R]);
}

#[test]
fn n2_neutrals_between_other_classes() {
    assert_eq!(neutral(L, L, 0, &[L, WS, R]), vec![L, L, R]);
    assert_eq!(neutral(L, L, 1, &[L, WS, R]), vec![L, R, R]);
    assert_eq!(neutral(L, R, 1, &[FSI]), vec![R]);
}

#[test]
fn whole_run_of_neutrals_is_resolved() {
    assert_eq!(neutral(L, L, 0, &[R, WS, WS, R]), vec![R, R, R, R]);
    assert_eq!(neutral(L, L, 0, &[R, ON, WS, EN]), vec![R, R, R, EN]);
    assert_eq!(neutral(L, L, 0, &[R, WS, ON, WS]), vec![R, L, L, L]);
    assert_eq!(neutral(R, R, 0, &[WS, WS]), vec![R, R]);
}

#[test]
fn neutral_rules_ignore_removed_characters() {
    assert_eq!(neutral(L, L, 0, &[R, BN, WS, R]), vec![R, BN, R, R]);
    assert_eq!(neutral(L, L, 0, &[R, WS, PDF, WS, R]), vec![R, R, PDF, R, R]);
}

#[test]
fn neutral_rules_follow_the_sequence() {
    let mut classes = vec![R, RLI, L, PDI, R];
    let sequence = IsolatingRunSequence { runs: vec![0..2, 3..5], sos: L, eos: L };
    resolve_neutral(&sequence, &[0, 0, 1, 0, 0], &mut classes);
    assert_eq!(classes, vec![R, R, L, R, R]);
}

#[test]
fn implicit_levels_of_classes() {
    let classes = [L, R, AN, EN, WS];
    let mut levels = [0; 5];
    assert_eq!(resolve_levels(&classes, &mut levels), 2);
    assert_eq!(levels, [0, 1, 2, 2, 0]);
    let mut levels = [1; 5];
    assert_eq!(resolve_levels(&classes, &mut levels), 2);
    assert_eq!(levels, [2, 1, 2, 2, 1]);
    let mut levels = [4, 3, 2, 1, 0];
    assert_eq!(resolve_levels(&classes, &mut levels), 4);
    assert_eq!(levels, [4, 3, 4, 2, 0]);
    assert_eq!(resolve_levels(&[], &mut []), 0);
}
