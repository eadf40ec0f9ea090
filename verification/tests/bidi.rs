use std::borrow::Cow;

use unicode_bidi::prepare::isolating_run_sequences;
use unicode_bidi::BidiClass::{AL, EN, L, LRI, PDI, R, RLI, WS};
use unicode_bidi::{
    bidi_class, initial_scan, level_runs, process_paragraph, reorder_line, InitialProperties,
    LevelRun, ParagraphInfo,
};

#[test]
fn test_level_runs() {
    assert_eq!(level_runs(&[0,0,0,1,1,2,0,0], &[L; 8]), &[0..3, 3..5, 5..6, 6..8]);
}

#[test]
fn test_isolating_run_sequences() {
    // Example 3 from http://www.unicode.org/reports/tr9/#BD13:

    //              0  1    2   3    4  5  6  7    8   9   10
    let classes = &[L, RLI, AL, LRI, L, R, L, PDI, AL, PDI, L];
    let levels =  &[0, 0,   1,  1,   2, 3, 2, 1,   1,  0,   0];
    let para_level = 0;

    let sequences = isolating_run_sequences(para_level, classes, levels);
    let runs: Vec<Vec<LevelRun>> = sequences.iter().map(|s| s.runs.clone()).collect();
    assert_eq!(runs, vec![vec![4..5], vec![5..6], vec![6..7], vec![2..4, 7..9], vec![0..2, 9..11]]);
}

#[test]
fn test_initial_scan() {
    assert_eq!(initial_scan("a1", None), InitialProperties {
        para_level: 0,
        initial_classes: vec![L, EN],
    });
    assert_eq!(initial_scan("غ א", None), InitialProperties {
        para_level: 1,
        initial_classes: vec![AL, WS, R],
    });

    let fsi = '\u{2068}';
    let pdi = '\u{2069}';

    let s = format!("{}א{}a", fsi, pdi);
    assert_eq!(initial_scan(&s, None), InitialProperties {
        para_level: 0,
        initial_classes: vec![RLI, R, PDI, L],
    });
}

#[test]
fn test_bidi_class() {
    assert_eq!(bidi_class('c'), L);
    assert_eq!(bidi_class('\u{05D1}'), R);
    assert_eq!(bidi_class('\u{0627}'), AL);
}

#[test]
fn test_paragraph_info() {
    assert_eq!(process_paragraph("abc123", Some(0)), ParagraphInfo {
        levels:  vec![0, 0, 0, 0,  0,  0],
        classes: vec![L, L, L, EN, EN, EN],
        para_level: 0,
        max_level: 0,
    });
    assert_eq!(process_paragraph("abc אבג", Some(0)), ParagraphInfo {
        levels:  vec![0, 0, 0, 0,  1, 1, 1],
        classes: vec![L, L, L, WS, R, R, R],
        para_level: 0,
        max_level: 1,
    });
    assert_eq!(process_paragraph("abc אבג", Some(1)), ParagraphInfo {
        levels:  vec![2, 2, 2, 1,  1, 1, 1],
        classes: vec![L, L, L, WS, R, R, R],
        para_level: 1,
        max_level: 2,
    });
    assert_eq!(process_paragraph("אבג abc", Some(0)), ParagraphInfo {
        levels:  vec![1, 1, 1, 0,  0, 0, 0],
        classes: vec![R, R, R, WS, L, L, L],
        para_level: 0,
        max_level: 1,
    });
    assert_eq!(process_paragraph("אבג abc", None), ParagraphInfo {
        levels:  vec![1, 1, 1, 1,  2, 2, 2],
        classes: vec![R, R, R, WS, L, L, L],
        para_level: 1,
        max_level: 2,
    });
    assert_eq!(process_paragraph("غ2ظ א2ג", Some(0)), ParagraphInfo {
        levels:  vec![1,  2,  1,  1,  1, 2,  1],
        classes: vec![AL, EN, AL, WS, R, EN, R],
        para_level: 0,
        max_level: 2,
    });
}

fn reorder(s: &str) -> Cow<str> {
    reorder_line(s, 0..s.chars().count(), &process_paragraph(s, None))
}

#[test]
fn test_reorder_line() {
    assert_eq!(reorder("abc123"), "abc123");
    assert_eq!(reorder("abc אבג"), "abc גבא");
    assert_eq!(reorder("אבג abc"), "abc גבא");
}
