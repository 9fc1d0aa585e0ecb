use datesync::DataType;
use datesync::catalog::{Catalog, DateRecord, FileRecord};
use datesync::codec::{encode_catalog, parse_catalog};
use datesync::dates::check_date_key;
use datesync::engine::{DateFilesFetcher, keys_all_valid, should_fetch};
use datesync::filter::NameFilter;
use datesync::pages::{DiscoverState, Page};

fn fr(name: &str) -> FileRecord {
    FileRecord { file_name: name.to_string() }
}

fn page(entries: &[&str], truncated: bool, marker: Option<&str>) -> Page {
    Page {
        entries: entries.iter().map(|e| e.to_string()).collect(),
        truncated,
        next_marker: marker.map(|m| m.to_string()),
    }
}

fn downloaded_of(e: &DateFilesFetcher, key: u32) -> bool {
    e.catalog
        .records
        .iter()
        .find(|(k, _)| *k == key)
        .map(|(_, r)| r.downloaded)
        .expect("record must exist")
}

fn files_of(e: &DateFilesFetcher, key: u32) -> Vec<String> {
    e.catalog
        .records
        .iter()
        .find(|(k, _)| *k == key)
        .map(|(_, r)| r.files.iter().map(|f| f.file_name.clone()).collect())
        .expect("record must exist")
}

#[test]
fn date_validity_follows_the_calendar() {
    assert!(check_date_key(20240229)); // leap year
    assert!(!check_date_key(20230229));
    assert!(check_date_key(20231231));
    assert!(!check_date_key(20231301));
    assert!(!check_date_key(20231100 + 31)); // November 31st
    assert!(!check_date_key(123));
}

#[test]
fn data_type_path_segments() {
    assert_eq!(DataType::SwapRate.as_str(), "swaprate");
    assert_eq!(DataType::AggTrades.as_str(), "aggtrades");
    assert_eq!(DataType::Trades.as_str(), "trades");
}

#[test]
fn url_and_path_builders() {
    let e = DateFilesFetcher::new(DataType::Trades, 20240104, None);
    assert_eq!(
        e.build_file_download_url(20240101, "a.zip"),
        "https://static.okx.com/cdn/okex/traderecords/trades/daily/20240101/a.zip"
    );
    assert_eq!(e.build_file_save_path(20240101, "a.zip"), "./data/trades/20240101/a.zip");
}

#[test]
fn bootstrap_on_empty_catalog() {
    let mut e = DateFilesFetcher::new(DataType::Trades, 20240104, None);
    assert!(e.needs_discovery());
    let mut st = DiscoverState::new();
    st.apply_page(&page(&["20240103", "20240102", "20240101"], false, None), None, 20240104)
        .expect("page must fold in");
    assert!(st.done);
    assert!(keys_all_valid(&st.found));
    e.apply_discovery(&st.found);
    assert!(!e.needs_discovery());
    assert_eq!(e.catalog.watermark, Some(20240104));
    assert_eq!(e.get_records_num(), 3);
    for key in [20240101, 20240102, 20240103] {
        assert!(!downloaded_of(&e, key));
        assert!(files_of(&e, key).is_empty());
    }
}

#[test]
fn rediscovery_never_overwrites_known_records() {
    let loaded = Catalog {
        watermark: Some(20240103),
        records: vec![(20240102, DateRecord { downloaded: true, files: vec![fr("a.zip")] })],
    };
    assert!(loaded.is_well_formed());
    let mut e = DateFilesFetcher::new(DataType::Trades, 20240104, Some(loaded));
    assert!(e.needs_discovery());
    // The remote repeats an already-known key next to a fresh one.
    e.apply_discovery(&vec![20240103, 20240102]);
    assert_eq!(e.get_records_num(), 2);
    assert!(downloaded_of(&e, 20240102));
    assert_eq!(files_of(&e, 20240102), vec!["a.zip".to_string()]);
    assert!(files_of(&e, 20240103).is_empty());
    assert_eq!(e.catalog.watermark, Some(20240104));
}

#[test]
fn refresh_fills_only_empty_records() {
    let loaded = Catalog {
        watermark: Some(20240104),
        records: vec![
            (20240101, DateRecord { downloaded: false, files: vec![fr("old.zip")] }),
            (20240102, DateRecord { downloaded: false, files: vec![] }),
        ],
    };
    let mut e = DateFilesFetcher::new(DataType::Trades, 20240104, Some(loaded));
    let listings = vec![
        (20240101, vec![fr("new.zip")]),
        (20240102, vec![fr("b.zip"), fr("c.zip")]),
    ];
    let pending = e.update_file_lists(&listings);
    // The already-listed record is a no-op for the listing phase.
    assert_eq!(files_of(&e, 20240101), vec!["old.zip".to_string()]);
    assert_eq!(files_of(&e, 20240102), vec!["b.zip".to_string(), "c.zip".to_string()]);
    assert_eq!(pending, 2);
}

#[test]
fn refresh_ignores_unknown_partitions() {
    let loaded = Catalog {
        watermark: Some(20240104),
        records: vec![(20240101, DateRecord { downloaded: false, files: vec![] })],
    };
    let mut e = DateFilesFetcher::new(DataType::Trades, 20240104, Some(loaded));
    let listings = vec![(20240199, vec![fr("stray.zip")]), (20240101, vec![fr("a.zip")])];
    e.update_file_lists(&listings);
    assert_eq!(e.get_records_num(), 1);
    assert_eq!(files_of(&e, 20240101), vec!["a.zip".to_string()]);
}

#[test]
fn refresh_counts_repair_mode() {
    let loaded = Catalog {
        watermark: Some(20240104),
        records: vec![
            (20240101, DateRecord { downloaded: true, files: vec![fr("a.zip")] }),
            (20240102, DateRecord { downloaded: false, files: vec![fr("b.zip")] }),
        ],
    };
    let mut e = DateFilesFetcher::new(DataType::Trades, 20240104, Some(loaded));
    assert_eq!(e.update_file_lists(&vec![]), 1);
    e.set_ignore_undownloaded();
    assert_eq!(e.update_file_lists(&vec![]), 2);
}

#[test]
fn existing_file_is_never_fetched() {
    let loaded = Catalog {
        watermark: Some(20240104),
        records: vec![(20240101, DateRecord { downloaded: false, files: vec![fr("a.zip")] })],
    };
    let mut e = DateFilesFetcher::new(DataType::Trades, 20240104, Some(loaded));
    let filter = NameFilter::accept_all();
    let plan = e.download_plan(&filter);
    assert_eq!(plan.len(), 1);
    assert!(plan[0].eligible);
    // The sole file already sits on disk: zero fetches are issued ...
    assert!(!should_fetch(&plan[0].items[0], true));
    // ... and it still counts as successful, whatever the transfers did.
    e.apply_download_results(&filter, &vec![vec![true]], &vec![vec![false]]);
    assert!(downloaded_of(&e, 20240101));
}

#[test]
fn full_first_sync_scenario() {
    // Empty catalog, remote reports 20240101..20240103, today is 20240104.
    let mut e = DateFilesFetcher::new(DataType::Trades, 20240104, None);
    assert!(e.needs_discovery());
    let mut st = DiscoverState::new();
    st.apply_page(&page(&["20240103", "20240102", "20240101"], false, None), None, 20240104)
        .expect("page must fold in");
    e.apply_discovery(&st.found);
    assert_eq!(e.catalog.watermark, Some(20240104));
    assert_eq!(e.get_records_num(), 3);

    // Every partition lists the files a.zip and b.zip.
    let listings: Vec<(u32, Vec<FileRecord>)> = vec![
        (20240103, vec![fr("a.zip"), fr("b.zip")]),
        (20240102, vec![fr("a.zip"), fr("b.zip")]),
        (20240101, vec![fr("a.zip"), fr("b.zip")]),
    ];
    let pending = e.update_file_lists(&listings);
    assert_eq!(pending, 3);

    // 20240101/a.zip already sits on disk: one skip, five fetches.
    let filter = NameFilter::accept_all();
    let plan = e.download_plan(&filter);
    let mut present: Vec<Vec<bool>> = Vec::new();
    let mut fetches = 0;
    for rp in plan.iter() {
        let mut row = Vec::new();
        for item in rp.items.iter() {
            let on_disk = rp.key == 20240101 && item.file_name == "a.zip";
            if rp.eligible && should_fetch(item, on_disk) {
                fetches += 1;
            }
            row.push(on_disk);
        }
        present.push(row);
    }
    assert_eq!(fetches, 5);

    // All five transfers succeed: every partition ends up downloaded.
    let ok: Vec<Vec<bool>> = plan.iter().map(|rp| vec![true; rp.items.len()]).collect();
    e.apply_download_results(&filter, &present, &ok);
    for key in [20240101, 20240102, 20240103] {
        assert!(downloaded_of(&e, key));
    }

    // Persist and reload: the catalog survives the round trip.
    let text = encode_catalog(&e.catalog);
    let back = parse_catalog(text.as_str()).expect("persisted text must parse");
    assert!(back == e.catalog);
}

#[test]
fn failed_transfer_leaves_partition_for_retry() {
    // Three listed partitions, one transfer in 20240102 fails.
    let records = vec![
        (20240101, DateRecord { downloaded: false, files: vec![fr("a.zip"), fr("b.zip")] }),
        (20240102, DateRecord { downloaded: false, files: vec![fr("a.zip"), fr("b.zip")] }),
        (20240103, DateRecord { downloaded: false, files: vec![fr("a.zip"), fr("b.zip")] }),
    ];
    let loaded = Catalog { watermark: Some(20240104), records };
    let mut e = DateFilesFetcher::new(DataType::Trades, 20240104, Some(loaded));
    let filter = NameFilter::accept_all();

    let present = vec![vec![false, false], vec![false, false], vec![false, false]];
    let ok = vec![vec![true, true], vec![true, false], vec![true, true]];
    e.apply_download_results(&filter, &present, &ok);
    assert!(downloaded_of(&e, 20240101));
    assert!(!downloaded_of(&e, 20240102));
    assert!(downloaded_of(&e, 20240103));

    // The next run re-attempts only the one missing file of 20240102.
    let plan = e.download_plan(&filter);
    let mut fetched: Vec<(u32, String)> = Vec::new();
    for rp in plan.iter() {
        for item in rp.items.iter() {
            // Everything fetched with success last time is on disk now.
            let on_disk = !(rp.key == 20240102 && item.file_name == "b.zip");
            if rp.eligible && should_fetch(item, on_disk) {
                fetched.push((rp.key, item.file_name.clone()));
            }
        }
    }
    assert_eq!(fetched, vec![(20240102, "b.zip".to_string())]);
}

#[test]
fn filtered_out_files_do_not_block_success() {
    let loaded = Catalog {
        watermark: Some(20240104),
        records: vec![
            (
                20240101,
                DateRecord { downloaded: false, files: vec![fr("keep.zip"), fr("drop.zip")] },
            ),
        ],
    };
    let mut e = DateFilesFetcher::new(DataType::Trades, 20240104, Some(loaded));
    let filter = NameFilter { includes: Some(vec!["keep".to_string()]), excludes: None };
    // The excluded file was neither on disk nor fetched; the kept one
    // was fetched with success.  The partition still counts as done.
    e.apply_download_results(&filter, &vec![vec![false, false]], &vec![vec![true, false]]);
    assert!(downloaded_of(&e, 20240101));
}

#[test]
fn resync_same_day_changes_nothing() {
    // First sync of the day.
    let mut e = DateFilesFetcher::new(DataType::Trades, 20240104, None);
    let mut st = DiscoverState::new();
    st.apply_page(&page(&["20240103"], false, None), None, 20240104).expect("page must fold in");
    e.apply_discovery(&st.found);
    e.update_file_lists(&vec![(20240103, vec![fr("a.zip")])]);
    let persisted = encode_catalog(&e.catalog);

    // A second Bootstrap the same day: the persisted text loads back
    // to the very same catalog, and no discovery pass is due.
    let reloaded = parse_catalog(persisted.as_str()).expect("persisted text must parse");
    assert!(reloaded == e.catalog);
    let e2 = DateFilesFetcher::new(DataType::Trades, 20240104, Some(reloaded));
    assert!(!e2.needs_discovery());
    assert!(e2.catalog == e.catalog);
    assert_eq!(encode_catalog(&e2.catalog), persisted);
}

#[test]
fn engine_drops_unusable_persisted_state() {
    // A catalog that fails its own invariant is treated as absent.
    let bad = Catalog {
        watermark: Some(20240104),
        records: vec![(99999999, DateRecord { downloaded: false, files: vec![] })],
    };
    assert!(!bad.is_well_formed());
    let loaded = if bad.is_well_formed() { Some(bad) } else { None };
    let e = DateFilesFetcher::new(DataType::Trades, 20240104, loaded);
    assert_eq!(e.get_records_num(), 0);
    assert!(e.needs_discovery());
}
