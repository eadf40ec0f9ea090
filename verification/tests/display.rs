use std::borrow::Cow;

use unicode_bidi::BidiClass::{EN, L, LRI, PDF, PDI, R, RLE, RLI, WS};
use unicode_bidi::{process_paragraph, reorder_line, visual_runs, ParagraphInfo};

fn display(text: &str, level: Option<u8>) -> String {
    let info = process_paragraph(text, level);
    reorder_line(text, 0..text.chars().count(), &info).into_owned()
}

fn levels(text: &str, level: Option<u8>) -> Vec<u8> {
    process_paragraph(text, level).levels
}

fn sorted(text: &str) -> Vec<char> {
    let mut chars: Vec<char> = text.chars().collect();
    chars.sort();
    chars
}

#[test]
fn hebrew_before_latin() {
    let paragraph = "\u{05D0}\u{05D1}\u{05D2}abc";
    let info = process_paragraph(paragraph, None);
    assert_eq!(info.para_level, 1);
    let line = 0..paragraph.chars().count();
    assert_eq!(reorder_line(paragraph, line, &info), "abc\u{05D2}\u{05D1}\u{05D0}");
}

#[test]
fn empty_paragraph() {
    let info = ParagraphInfo { levels: vec![], classes: vec![], para_level: 0, max_level: 0 };
    assert_eq!(process_paragraph("", None), info);
    let info = ParagraphInfo { levels: vec![], classes: vec![], para_level: 1, max_level: 0 };
    assert_eq!(process_paragraph("", Some(1)), info);
}

#[test]
fn paragraph_with_embedding() {
    assert_eq!(process_paragraph("a\u{202B}b\u{202C}c", Some(0)), ParagraphInfo {
        levels: vec![0, 1, 2, 0, 0],
        classes: vec![L, RLE, L, PDF, L],
        para_level: 0,
        max_level: 2,
    });
}

#[test]
fn paragraph_with_isolate() {
    assert_eq!(process_paragraph("a\u{2067}b\u{2069}c", Some(0)), ParagraphInfo {
        levels: vec![0, 0, 2, 0, 0],
        classes: vec![L, RLI, L, PDI, L],
        para_level: 0,
        max_level: 2,
    });
    assert_eq!(process_paragraph("\u{05D0}\u{2066}a\u{2069}\u{05D1}", None), ParagraphInfo {
        levels: vec![1, 1, 2, 1, 1],
        classes: vec![R, LRI, L, PDI, R],
        para_level: 1,
        max_level: 2,
    });
}

#[test]
fn isolate_is_resolved_on_its_own() {
    // What stands in the isolate makes no difference outside, and the other way round.
    for inner in ["a", "\u{05D0}", "1", " "] {
        let text = format!("a \u{2067}{}\u{2069} b", inner);
        let got = levels(&text, Some(0));
        assert_eq!(got[..3], [0, 0, 0]);
        assert_eq!(got[4..], [0, 0, 0]);
    }
    for outer in ["a", "\u{05D0}"] {
        let text = format!("{}\u{2067}b1\u{2069}{}", outer, outer);
        assert_eq!(levels(&text, Some(0))[2..4], [2, 2]);
    }
}

#[test]
fn numbers_in_a_paragraph() {
    assert_eq!(process_paragraph("\u{05D0} 12", Some(0)), ParagraphInfo {
        levels: vec![1, 1, 2, 2],
        classes: vec![R, WS, EN, EN],
        para_level: 0,
        max_level: 2,
    });
}

#[test]
fn run_of_neutrals_in_a_paragraph() {
    assert_eq!(process_paragraph("\u{05D0}  \u{05D1}", Some(0)), ParagraphInfo {
        levels: vec![1, 1, 1, 1],
        classes: vec![R, WS, WS, R],
        para_level: 0,
        max_level: 1,
    });
}

#[test]
fn numbers_alone() {
    assert_eq!(levels("12 34", Some(0)), vec![0, 0, 0, 0, 0]);
    assert_eq!(levels("12 34", Some(1)), vec![2, 2, 1, 2, 2]);
}

#[test]
fn numbers_after_arabic_letters() {
    assert_eq!(levels("\u{0627}1,2", Some(0)), vec![1, 2, 2, 2]);
    assert_eq!(levels("\u{0627}1+2", Some(0)), vec![1, 2, 1, 2]);
}

#[test]
fn removed_characters_make_no_difference() {
    // A zero width space behind the first letter, and one behind the isolate initiator.
    assert_eq!(levels("\u{05D0}\u{200B} \u{05D1}", Some(1)), vec![1, 1, 1, 1]);
    let got = levels("\u{05D0}\u{200B} \u{05D1}", Some(0));
    assert_eq!((got[0], got[2], got[3]), (1, 1, 1));
    let got = levels("\u{05D0}\u{2067}\u{200B}a\u{2069}\u{05D1}", Some(0));
    assert_eq!((got[0], got[1], got[3], got[4], got[5]), (1, 1, 2, 1, 1));
}

#[test]
fn high_paragraph_levels() {
    assert_eq!(levels("a\u{05D0}", Some(2)), vec![2, 3]);
    let info = process_paragraph("a\u{202B}", Some(253));
    assert_eq!((info.levels, info.max_level), (vec![254, 253], 254));
    let info = process_paragraph("\u{05D0}", Some(255));
    assert_eq!((info.levels, info.max_level), (vec![255], 255));
}

#[test]
fn levels_lie_between_paragraph_and_highest() {
    for text in ["abc \u{05D0}12", "\u{202B}a\u{202A}1\u{202C}\u{0627}", "\u{2068}\u{05D0}"] {
        for level in [None, Some(0), Some(1)] {
            let info = process_paragraph(text, level);
            assert_eq!(info.levels.len(), text.chars().count());
            assert_eq!(info.levels.iter().max(), Some(&info.max_level));
            assert!(info.levels.iter().all(|&l| info.para_level <= l));
        }
    }
}

#[test]
fn runs_of_one_level() {
    assert_eq!(visual_runs(0..3, 0, 0, &[0, 0, 0]), vec![0..3]);
    assert_eq!(visual_runs(1..2, 1, 1, &[1, 1, 1]), vec![1..2]);
}

#[test]
fn runs_of_an_empty_line() {
    assert_eq!(visual_runs(1..1, 0, 1, &[0, 1, 1]), vec![1..1]);
    assert_eq!(visual_runs(3..3, 0, 1, &[0, 1, 1]), vec![3..3]);
}

#[test]
fn runs_in_visual_order() {
    assert_eq!(visual_runs(0..3, 0, 2, &[0, 1, 2]), vec![0..1, 2..3, 1..2]);
    assert_eq!(
        visual_runs(0..5, 0, 2, &[0, 1, 2, 1, 0]),
        vec![0..1, 3..4, 2..3, 1..2, 4..5]
    );
    assert_eq!(
        visual_runs(0..5, 0, 2, &[2, 1, 0, 1, 2]),
        vec![1..2, 0..1, 2..3, 4..5, 3..4]
    );
    assert_eq!(visual_runs(0..3, 1, 2, &[1, 2, 1]), vec![2..3, 1..2, 0..1]);
    assert_eq!(
        visual_runs(0..5, 0, 3, &[1, 2, 3, 2, 1]),
        vec![4..5, 1..2, 2..3, 3..4, 0..1]
    );
}

#[test]
fn runs_of_part_of_a_paragraph() {
    assert_eq!(visual_runs(1..4, 0, 1, &[0, 0, 1, 1, 0]), vec![1..2, 2..4]);
    assert_eq!(visual_runs(2..4, 0, 2, &[0, 0, 1, 2, 0]), vec![3..4, 2..3]);
}

#[test]
fn visual_runs_are_the_runs_of_the_line() {
    let levels = [0, 0, 1, 2, 2, 1, 3, 0, 2, 1];
    let mut runs = visual_runs(0..10, 0, 3, &levels);
    runs.sort_by_key(|run| run.start);
    assert_eq!(runs, vec![0..2, 2..3, 3..5, 5..6, 6..7, 7..8, 8..9, 9..10]);
}

#[test]
fn lines_of_a_paragraph() {
    let text = "abc \u{05D0}\u{05D1}\u{05D2}";
    let info = process_paragraph(text, Some(0));
    assert_eq!(reorder_line(text, 0..3, &info), "abc");
    assert_eq!(reorder_line(text, 4..7, &info), "\u{05D2}\u{05D1}\u{05D0}");
    assert_eq!(reorder_line(text, 2..6, &info), "c \u{05D1}\u{05D0}");
}

#[test]
fn empty_line() {
    let info = process_paragraph("abc", None);
    assert_eq!(reorder_line("abc", 1..1, &info), "");
    assert_eq!(reorder_line("abc", 3..3, &info), "");
    let text = "\u{05D0}\u{05D1}";
    let info = process_paragraph(text, None);
    assert_eq!(reorder_line(text, 1..1, &info), "");
    assert_eq!(reorder_line(text, 2..2, &info), "");
}

#[test]
fn line_of_an_empty_paragraph() {
    assert_eq!(reorder_line("", 0..0, &process_paragraph("", None)), "");
    assert_eq!(reorder_line("", 0..0, &process_paragraph("", Some(1))), "");
}

#[test]
fn left_to_right_lines_are_borrowed() {
    let info = process_paragraph("abc", None);
    assert!(matches!(reorder_line("abc", 0..2, &info), Cow::Borrowed("ab")));
    let info = process_paragraph("\u{05D0}", None);
    assert!(matches!(reorder_line("\u{05D0}", 0..1, &info), Cow::Owned(_)));
}

#[test]
fn numbers_in_right_to_left_text() {
    assert_eq!(display("\u{05D0}\u{05D1}12", None), "12\u{05D1}\u{05D0}");
    assert_eq!(display("abc \u{05D0}\u{05D1}12", Some(0)), "abc 12\u{05D1}\u{05D0}");
}

#[test]
fn left_to_right_text_is_unchanged() {
    for text in ["hello, world!", "1, 2", "a\u{202A}b\u{202C}c", "\u{2066}x\u{2069} y", "\u{2068}\u{2069}"] {
        assert!(levels(text, Some(0)).iter().all(|l| l % 2 == 0));
        assert_eq!(display(text, Some(0)), text);
    }
}

#[test]
fn right_to_left_text_is_reversed() {
    for text in ["\u{05D0}\u{05D1} \u{05D2}!", "\u{0627}\u{0300}.", " \u{05D0}\u{2069}"] {
        let info = process_paragraph(text, Some(1));
        assert!(info.levels.iter().all(|&l| l == 1));
        assert_eq!(display(text, Some(1)), text.chars().rev().collect::<String>());
    }
}

#[test]
fn display_has_the_characters_of_the_line() {
    let text = "ab \u{05D0}1\u{202B}\u{05D1} c\u{202C}\u{0627}2";
    for level in [None, Some(0), Some(1)] {
        assert_eq!(sorted(&display(text, level)), sorted(text));
    }
}
