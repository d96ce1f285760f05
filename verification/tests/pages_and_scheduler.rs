use wiki_search::date::{TitleDate, WikiTimestamp};
use wiki_search::index::Search;
use wiki_search::page::{Namespace, Page};
use wiki_search::scheduler::{Reindexer, SchedulerState};

#[test]
fn namespace_codes_decode() {
    assert_eq!(Namespace::from_code(0), Namespace::Main);
    assert_eq!(Namespace::from_code(2), Namespace::User);
    assert_eq!(Namespace::from_code(14), Namespace::Category);
    assert_eq!(Namespace::from_code(-1), Namespace::Special);
    assert_eq!(Namespace::from_code(828), Namespace::Module);
    assert_eq!(Namespace::from_code(42), Namespace::Other(42));
}

#[test]
fn namespace_prefixes() {
    assert_eq!(Namespace::Main.to_prefix(), "");
    assert_eq!(Namespace::UserTalk.to_prefix(), "User_talk:");
    assert_eq!(Namespace::Other(7).to_prefix(), "Unknown");
}

#[test]
fn namespace_names() {
    assert_eq!(Namespace::Main.name(), "Main");
    assert_eq!(Namespace::Other(42).name(), "42");
    assert_eq!(Namespace::Other(-7).name(), "-7");
    assert_eq!(Namespace::Other(0).name(), "0");
}

#[test]
fn page_url() {
    let p = Page {
        id: 1,
        title: "Tigers".to_string(),
        text: "big cats".to_string(),
        title_date: TitleDate(None),
        updated: WikiTimestamp(0),
        namespace: Namespace::Category,
        categories: vec![],
        url: String::new(),
    };
    assert_eq!(p.to_url("https://wiki.example/"), "https://wiki.example/Category:Tigers");
}

#[test]
fn blank_pages_are_not_indexed() {
    let p = Page {
        id: 1,
        title: "Empty".to_string(),
        text: "   \n  ".to_string(),
        title_date: TitleDate(None),
        updated: WikiTimestamp(0),
        namespace: Namespace::Main,
        categories: vec![],
        url: String::new(),
    };
    let mut s = Search::new();
    s.reindex_pages(&vec![p], 1);
    assert_eq!(s.page_count(), 0);
}

#[test]
fn scheduler_cycle_transitions() {
    let mut sched = Reindexer::new().with_interval(60);
    assert_eq!(sched.state, SchedulerState::Idle);
    assert_eq!(sched.interval_secs, 60);

    let mut search = Search::new();
    sched.on_tick();
    assert_eq!(sched.state, SchedulerState::Reindexing);

    // fresh index at revision 0: a rebuild is due
    assert!(sched.on_revision(&search, 3));
    let pages = vec![
        Page {
            id: 1,
            title: "One".to_string(),
            text: "first page".to_string(),
            title_date: TitleDate(None),
            updated: WikiTimestamp(0),
            namespace: Namespace::Main,
            categories: vec![],
            url: String::new(),
        },
    ];
    let count = sched.on_pages(&mut search, &pages, 3);
    assert_eq!(count, 1);
    assert_eq!(sched.state, SchedulerState::Idle);
    assert_eq!(search.page_count(), 1);

    // next tick: nothing changed at the source, the cycle is a no-op
    sched.on_tick();
    assert!(!sched.on_revision(&search, 3));
    assert_eq!(sched.state, SchedulerState::Idle);
    assert_eq!(search.page_count(), 1);

    // a failed cycle leaves the index alone
    sched.on_tick();
    assert!(sched.on_revision(&search, 9));
    sched.on_error();
    assert_eq!(sched.state, SchedulerState::Idle);
    assert_eq!(search.page_count(), 1);
    assert!(search.requires_reindex(9));
}
