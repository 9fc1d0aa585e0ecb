use datesync::filter::{NameFilter, contains_sub};
use datesync::pages::{DiscoverState, ListState, Page, SyncError};

fn page(entries: &[&str], truncated: bool, marker: Option<&str>) -> Page {
    Page {
        entries: entries.iter().map(|e| e.to_string()).collect(),
        truncated,
        next_marker: marker.map(|m| m.to_string()),
    }
}

#[test]
fn discovery_stops_at_watermark() {
    let mut st = DiscoverState::new();
    let p = page(&["20240104", "20240103", "20240102", "20240101"], true, Some("cur"));
    st.apply_page(&p, Some(20240102), 20240105).expect("page must fold in");
    assert_eq!(st.found, vec![20240104, 20240103]);
    assert!(st.done);
    assert_eq!(st.next_marker, None);
}

#[test]
fn discovery_skips_today() {
    let mut st = DiscoverState::new();
    let p = page(&["20240105", "20240104"], false, None);
    st.apply_page(&p, None, 20240105).expect("page must fold in");
    assert_eq!(st.found, vec![20240104]);
    assert!(st.done);
}

#[test]
fn discovery_follows_continuation() {
    let mut st = DiscoverState::new();
    let p1 = page(&["20240104"], true, Some("cursor-1"));
    st.apply_page(&p1, None, 20240105).expect("page must fold in");
    assert!(!st.done);
    assert_eq!(st.next_marker.as_deref(), Some("cursor-1"));
    let p2 = page(&["20240103"], false, None);
    st.apply_page(&p2, None, 20240105).expect("page must fold in");
    assert!(st.done);
    assert_eq!(st.found, vec![20240104, 20240103]);
}

#[test]
fn empty_page_ends_the_walk() {
    let mut st = DiscoverState::new();
    st.apply_page(&page(&[], true, Some("cur")), None, 20240105).expect("page must fold in");
    assert!(st.done);
    let mut ls = ListState::new();
    ls.apply_page(&page(&[], true, Some("cur"))).expect("page must fold in");
    assert!(ls.done);
}

#[test]
fn discovery_rejects_malformed_date() {
    let mut st = DiscoverState::new();
    let p = page(&["20240104", "2024010X"], false, None);
    let e = st.apply_page(&p, None, 20240105).unwrap_err();
    assert!(matches!(e, SyncError::BadDate));
    assert!(st.found.is_empty());
    assert!(!st.done);
}

#[test]
fn discovery_rejects_out_of_order_page() {
    let mut st = DiscoverState::new();
    let p = page(&["20240101", "20240102"], false, None);
    let e = st.apply_page(&p, None, 20240105).unwrap_err();
    assert!(matches!(e, SyncError::BadOrder));
    assert!(st.found.is_empty());
}

#[test]
fn discovery_rejects_out_of_order_across_pages() {
    let mut st = DiscoverState::new();
    st.apply_page(&page(&["20240104"], true, Some("m")), None, 20240105)
        .expect("page must fold in");
    let e = st.apply_page(&page(&["20240104"], false, None), None, 20240105).unwrap_err();
    assert!(matches!(e, SyncError::BadOrder));
    assert_eq!(st.found, vec![20240104]);
}

#[test]
fn discovery_rejects_impossible_date() {
    let mut st = DiscoverState::new();
    let p = page(&["20240230"], false, None);
    let e = st.apply_page(&p, None, 20240305).unwrap_err();
    assert!(matches!(e, SyncError::BadDate));
}

#[test]
fn listing_drains_pages_in_order() {
    let mut st = ListState::new();
    st.apply_page(&page(&["a.zip", "b.zip"], true, Some("m1"))).expect("page must fold in");
    assert!(!st.done);
    assert_eq!(st.next_marker.as_deref(), Some("m1"));
    st.apply_page(&page(&["c.zip"], false, None)).expect("page must fold in");
    assert!(st.done);
    let names: Vec<&str> = st.files.iter().map(|f| f.file_name.as_str()).collect();
    assert_eq!(names, vec!["a.zip", "b.zip", "c.zip"]);
}

#[test]
fn listing_rejects_unusable_name() {
    let mut st = ListState::new();
    let e = st.apply_page(&page(&["ok.zip", "bad name.zip"], false, None)).unwrap_err();
    assert!(matches!(e, SyncError::BadName));
    assert!(st.files.is_empty());
}

#[test]
fn listing_rejects_empty_name() {
    let mut st = ListState::new();
    let e = st.apply_page(&page(&[""], false, None)).unwrap_err();
    assert!(matches!(e, SyncError::BadName));
}

#[test]
fn substring_search_finds_needles() {
    assert!(contains_sub("BTC-USDT-SWAP-aggtrades.zip", "aggtrades"));
    assert!(contains_sub("abc", ""));
    assert!(contains_sub("abc", "abc"));
    assert!(!contains_sub("abc", "abcd"));
    assert!(!contains_sub("BTC-USDT.zip", "ETH"));
    assert!(contains_sub("aaab", "aab"));
}

#[test]
fn filter_with_no_lists_accepts_everything() {
    let f = NameFilter::accept_all();
    assert!(f.accepts("anything-at-all.zip"));
}

#[test]
fn filter_includes_and_excludes() {
    let f = NameFilter {
        includes: Some(vec!["BTC".to_string(), "ETH".to_string()]),
        excludes: Some(vec!["SWAP".to_string()]),
    };
    assert!(f.accepts("BTC-USDT-trades.zip"));
    assert!(f.accepts("ETH-USDT-trades.zip"));
    assert!(!f.accepts("SOL-USDT-trades.zip"));
    assert!(!f.accepts("BTC-USDT-SWAP-trades.zip"));
}

#[test]
fn filter_exclude_only() {
    let f = NameFilter { includes: None, excludes: Some(vec!["aggtrades".to_string()]) };
    assert!(f.accepts("BTC-USDT-trades.zip"));
    assert!(!f.accepts("BTC-USDT-aggtrades.zip"));
}
