use wiki_search::snippet::MatchSnippet;
use wiki_search::spans::{collapse_overlapped_ranges, Span};

#[test]
fn highlight_without_ranges_is_source_prefix() {
    let s = MatchSnippet::new("hello world".to_string(), "irrelevant", vec![], 5);
    assert_eq!(s.highlight("<b>", "</b>"), "hello");

    let s = MatchSnippet::new("short".to_string(), "", vec![], 400);
    assert_eq!(s.highlight("<b>", "</b>"), "short");
}

#[test]
fn highlight_merges_overlapping_ranges() {
    let ranges = vec![
        Span { start: 0, end: 5 },
        Span { start: 3, end: 8 },
        Span { start: 10, end: 12 },
    ];
    let s = MatchSnippet::new("abcdefghijkl".to_string(), "abcdefghijkl", ranges, 400);
    assert_eq!(s.highlight("[", "]"), "[abcdefgh]ij[kl]");
}

#[test]
fn highlight_separate_ranges_stay_separate() {
    let ranges = vec![Span { start: 0, end: 2 }, Span { start: 4, end: 6 }];
    let s = MatchSnippet::new("abcdef".to_string(), "abcdef", ranges, 400);
    assert_eq!(s.highlight("<", ">"), "<ab>cd<ef>");
}

#[test]
fn collapse_ranges_scenario() {
    let ranges = vec![
        Span { start: 0, end: 5 },
        Span { start: 3, end: 8 },
        Span { start: 10, end: 12 },
    ];
    let merged = collapse_overlapped_ranges(&ranges);
    assert_eq!(merged.len(), 2);
    assert_eq!((merged[0].start, merged[0].end), (0, 8));
    assert_eq!((merged[1].start, merged[1].end), (10, 12));
}

#[test]
fn collapse_ranges_touching_are_kept_apart() {
    let ranges = vec![Span { start: 0, end: 5 }, Span { start: 5, end: 8 }];
    let merged = collapse_overlapped_ranges(&ranges);
    assert_eq!(merged.len(), 2);
}

#[test]
fn collapse_ranges_empty_input() {
    let merged = collapse_overlapped_ranges(&vec![]);
    assert!(merged.is_empty());
}
