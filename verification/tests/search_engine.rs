use wiki_search::date::{parse_date, Date, TitleDate, WikiTimestamp};
use wiki_search::error::Error;
use wiki_search::handler::{render_results, SnippetOptions};
use wiki_search::index::Search;
use wiki_search::page::{Namespace, Page};
use wiki_search::query::QueryOptions;

fn page(id: i64, title: &str, text: &str, title_date: Option<Date>) -> Page {
    Page {
        id,
        title: title.to_string(),
        text: text.to_string(),
        title_date: TitleDate(title_date),
        updated: WikiTimestamp(0),
        namespace: Namespace::Main,
        categories: vec![],
        url: format!("https://wiki.example/{}", title),
    }
}

fn two_pages() -> Vec<Page> {
    vec![
        page(1, "Cats", "Cats are mammals", None),
        page(
            2,
            "Dogs 2020",
            "Dogs are mammals",
            Some(Date { year: 2020, month: 1, day: 1 }),
        ),
    ]
}

#[test]
fn scenario_score_and_date_ordering() {
    let mut s = Search::new();
    s.reindex_pages(&two_pages(), 1);
    assert_eq!(s.page_count(), 2);

    // no date filter: both pages match, score-ordered, scores present
    let r = s.query("mammals", &QueryOptions::default()).unwrap();
    assert_eq!(r.entries.len(), 2);
    assert_eq!(r.remaining, 2);
    assert_eq!(r.new_offset, None);
    let ids: Vec<i64> = r.entries.iter().map(|e| e.page_id).collect();
    assert!(ids.contains(&1) && ids.contains(&2));
    assert!(r.entries[0].score.is_some());

    // date filter: only the dated page matches, date-ordered, no scores
    let mut opts = QueryOptions::default();
    opts.date_after = Some(parse_date("2019-01-01").unwrap());
    let r = s.query("mammals", &opts).unwrap();
    assert_eq!(r.entries.len(), 1);
    assert_eq!(r.entries[0].page_id, 2);
    assert_eq!(r.entries[0].score, None);
}

#[test]
fn score_formula_exact_value() {
    let mut s = Search::new();
    s.reindex_pages(&vec![page(1, "Cats", "Cats are mammals", None)], 1);
    let r = s.query("mammals", &QueryOptions::default()).unwrap();
    // one hit, four indexed terms: 1 * 1000 / (4 + 1)
    assert_eq!(r.entries[0].score, Some(200));
}

#[test]
fn date_filter_excludes_undated_documents() {
    let mut s = Search::new();
    s.reindex_pages(&two_pages(), 1);

    let mut opts = QueryOptions::default();
    opts.date_before = Some(parse_date("2021-01-01").unwrap());
    let r = s.query("mammals", &opts).unwrap();
    let ids: Vec<i64> = r.entries.iter().map(|e| e.page_id).collect();
    assert_eq!(ids, vec![2]);

    let r = s.query("mammals", &QueryOptions::default()).unwrap();
    assert_eq!(r.entries.len(), 2);
}

#[test]
fn fuzzy_matching() {
    let mut s = Search::new();
    s.reindex_pages(&two_pages(), 1);

    // matches post-stemming with fuzzy on
    let mut opts = QueryOptions::default();
    opts.fuzzy = true;
    let r = s.query("mammal", &opts).unwrap();
    assert_eq!(r.entries.len(), 2);

    // fuzzy off is no error, just fewer or no hits for a typo
    let r = s.query("mammsl", &QueryOptions::default()).unwrap();
    assert_eq!(r.entries.len(), 0);

    // the typo is within edit distance one with fuzzy on
    let r = s.query("mammsl", &opts).unwrap();
    assert_eq!(r.entries.len(), 2);
}

#[test]
fn revision_monotonicity() {
    let mut s = Search::new();
    assert!(s.requires_reindex(1));
    s.reindex_pages(&two_pages(), 5);
    assert!(!s.requires_reindex(3));
    assert!(!s.requires_reindex(5));
    assert!(s.requires_reindex(6));
}

#[test]
fn reindex_idempotence() {
    let pages = two_pages();
    let mut s = Search::new();
    s.reindex_pages(&pages, 7);
    let first_count = s.page_count();
    let r1 = s.query("mammals", &QueryOptions::default()).unwrap();

    s.reindex_pages(&pages, 7);
    assert_eq!(s.page_count(), first_count);
    let r2 = s.query("mammals", &QueryOptions::default()).unwrap();

    let ids1: Vec<i64> = r1.entries.iter().map(|e| e.page_id).collect();
    let ids2: Vec<i64> = r2.entries.iter().map(|e| e.page_id).collect();
    assert_eq!(ids1, ids2);
    assert_eq!(r1.remaining, r2.remaining);
    assert_eq!(r1.new_offset, r2.new_offset);
    let h1 = render_results(&r1, &SnippetOptions::default());
    let h2 = render_results(&r2, &SnippetOptions::default());
    let t1: Vec<String> = h1.results.iter().map(|x| x.text.clone()).collect();
    let t2: Vec<String> = h2.results.iter().map(|x| x.text.clone()).collect();
    assert_eq!(t1, t2);
}

#[test]
fn pagination_walks_every_hit_once() {
    let mut pages = Vec::new();
    for i in 0..5 {
        pages.push(page(
            i,
            &format!("Page {}", i),
            &format!("entry {} about mammals", i),
            None,
        ));
    }
    let mut s = Search::new();
    s.reindex_pages(&pages, 1);

    let mut opts = QueryOptions::default();
    opts.count = 2;
    let mut seen: Vec<i64> = Vec::new();
    let mut lens = 0;
    loop {
        let r = s.query("mammals", &opts).unwrap();
        lens += r.entries.len();
        for e in &r.entries {
            seen.push(e.page_id);
        }
        match r.new_offset {
            Some(o) => opts.offset = o,
            None => break,
        }
    }
    assert_eq!(lens, 5);
    seen.sort();
    assert_eq!(seen, vec![0, 1, 2, 3, 4]);
}

#[test]
fn offset_beyond_total_is_empty_and_clamped() {
    let mut s = Search::new();
    s.reindex_pages(&two_pages(), 1);
    let mut opts = QueryOptions::default();
    opts.offset = 10;
    let r = s.query("mammals", &opts).unwrap();
    assert_eq!(r.entries.len(), 0);
    assert_eq!(r.remaining, 0);
    assert_eq!(r.new_offset, None);
}

#[test]
fn invalid_query_is_reported() {
    let s = Search::new();
    let r = s.query("\"unclosed phrase", &QueryOptions::default());
    assert!(matches!(r, Err(Error::InvalidQuery(_))));
}

#[test]
fn empty_query_matches_nothing() {
    let mut s = Search::new();
    s.reindex_pages(&two_pages(), 1);
    let r = s.query("", &QueryOptions::default()).unwrap();
    assert_eq!(r.entries.len(), 0);
    assert_eq!(r.remaining, 0);
}

#[test]
fn boolean_clauses() {
    let mut s = Search::new();
    s.reindex_pages(&two_pages(), 1);

    let r = s.query("mammals -dogs", &QueryOptions::default()).unwrap();
    let ids: Vec<i64> = r.entries.iter().map(|e| e.page_id).collect();
    assert_eq!(ids, vec![1]);

    let r = s.query("+cats", &QueryOptions::default()).unwrap();
    let ids: Vec<i64> = r.entries.iter().map(|e| e.page_id).collect();
    assert_eq!(ids, vec![1]);

    let r = s.query("\"are mammals\"", &QueryOptions::default()).unwrap();
    assert_eq!(r.entries.len(), 2);
}

#[test]
fn snippets_highlight_literal_hits() {
    let mut s = Search::new();
    s.reindex_pages(&two_pages(), 1);
    let r = s.query("mammals", &QueryOptions::default()).unwrap();
    let rendered = render_results(&r, &SnippetOptions::default());
    assert!(rendered
        .results
        .iter()
        .all(|x| x.text.contains("<span class=\"term\">mammals</span>")));
    // no literal hit in the title: unmarked source prefix instead
    assert!(!rendered.results[0].title.contains("<span"));
}

#[test]
fn cjk_query_end_to_end() {
    let mut s = Search::new();
    s.reindex_pages(
        &vec![page(1, "Lojban", "\u{903b}\u{8f91}\u{8bed}\u{8a00}\u{5f88}\u{6709}\u{8da3}", None)],
        1,
    );
    let r = s.query("\u{8bed}\u{8a00}", &QueryOptions::default()).unwrap();
    assert_eq!(r.entries.len(), 1);
    let r = s.query("\u{72ee}\u{5b50}", &QueryOptions::default()).unwrap();
    assert_eq!(r.entries.len(), 0);
}

#[test]
fn date_ordering_is_descending() {
    let mut s = Search::new();
    let pages = vec![
        page(1, "Old 2019", "mammals early", Some(Date { year: 2019, month: 5, day: 1 })),
        page(2, "New 2021", "mammals late", Some(Date { year: 2021, month: 5, day: 1 })),
        page(3, "Mid 2020", "mammals middle", Some(Date { year: 2020, month: 5, day: 1 })),
    ];
    s.reindex_pages(&pages, 1);
    let mut opts = QueryOptions::default();
    opts.date_after = Some(parse_date("2018-01-01").unwrap());
    let r = s.query("mammals", &opts).unwrap();
    let ids: Vec<i64> = r.entries.iter().map(|e| e.page_id).collect();
    assert_eq!(ids, vec![2, 3, 1]);
}

#[test]
fn snapshot_is_stable_under_reindex() {
    let mut s = Search::new();
    s.reindex_pages(&two_pages(), 1);
    let snap = s.snapshot();
    s.reindex_pages(&vec![page(9, "Nine", "something else entirely", None)], 2);
    assert_eq!(snap.page_count(), 2);
    let r = snap.query("mammals", &QueryOptions::default()).unwrap();
    assert_eq!(r.entries.len(), 2);
    let r2 = s.query("mammals", &QueryOptions::default()).unwrap();
    assert_eq!(r2.entries.len(), 0);
}
