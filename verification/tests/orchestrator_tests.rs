use manga_downloader::archive::read_archive;
use manga_downloader::orchestrator::Orchestrator;
use manga_downloader::text::episode_filename;

/// Drives a whole batch the way the runtime would: resolves episodes with
/// the scripted locator lists, completes fetches (last-issued first when
/// `lifo`, else first-issued first) with the scripted outcomes, persists
/// with the scripted result. Returns the report, the archive bytes per
/// episode, and the highest number of fetches ever in flight at once.
fn drive(
    filenames: Vec<String>,
    limit: usize,
    locators: Vec<Option<Vec<String>>>,
    fail_fetch: Vec<Vec<bool>>,
    persist_ok: Vec<bool>,
    lifo: bool,
) -> (Vec<String>, Vec<Option<Vec<u8>>>, usize) {
    let n = filenames.len();
    let mut orch = Orchestrator::new(filenames, limit);
    let mut outstanding: Vec<(usize, usize, String)> = Vec::new();
    let mut archives: Vec<Option<Vec<u8>>> = vec![None; n];
    let mut max_in_flight: usize = 0;
    let mut steps = 0u32;
    while !orch.is_done() {
        steps += 1;
        assert!(steps < 10_000, "driver stuck");
        assert!(orch.in_flight <= limit, "concurrency cap exceeded");
        if let Some(ep) = orch.next_resolve() {
            if let Some((_fname, bytes)) = orch.on_resolved(ep, locators[ep].clone()) {
                archives[ep] = Some(bytes);
                orch.on_persisted(ep, persist_ok[ep]);
            }
            continue;
        }
        while let Some(t) = orch.next_fetch() {
            assert!(orch.in_flight <= limit, "concurrency cap exceeded");
            if orch.in_flight > max_in_flight {
                max_in_flight = orch.in_flight;
            }
            outstanding.push(t);
        }
        let next = if lifo {
            outstanding.pop()
        } else if outstanding.is_empty() {
            None
        } else {
            Some(outstanding.remove(0))
        };
        if let Some((ep, idx, _url)) = next {
            let payload = if fail_fetch[ep][idx] {
                None
            } else {
                Some(vec![ep as u8, idx as u8, 42])
            };
            if let Some((_fname, bytes)) = orch.on_fetch_done(ep, idx, payload) {
                archives[ep] = Some(bytes);
                orch.on_persisted(ep, persist_ok[ep]);
            }
        }
    }
    (orch.into_report(), archives, max_in_flight)
}

fn urls(n: usize) -> Option<Vec<String>> {
    Some((0..n).map(|i| format!("https://example.com/{}.jpg", i)).collect())
}

#[test]
fn batch_with_one_download_failure() {
    // Three episodes; the second 404s on its second resource. The batch
    // report holds exactly that episode's download-failure line, and the
    // other two archives exist with the expected entry count.
    let names = vec![
        episode_filename("1", "one"),
        episode_filename("2", "two"),
        episode_filename("3", "three"),
    ];
    let (report, archives, _) = drive(
        names,
        6,
        vec![urls(2), urls(2), urls(2)],
        vec![vec![false, false], vec![false, true], vec![false, false]],
        vec![true, true, true],
        false,
    );
    assert_eq!(report, vec!["[2]two.zip download failed".to_string()]);
    assert!(archives[1].is_none());
    for ep in [0usize, 2] {
        let bytes = archives[ep].as_ref().expect("archive produced");
        let entries = read_archive(bytes).expect("readable archive");
        assert_eq!(entries.len(), 2);
    }
}

#[test]
fn concurrency_cap_is_respected() {
    // Cap 2, five locators per episode, two episodes: never more than two
    // fetches in flight at once, yet everything completes.
    let names = vec![episode_filename("1", "a"), episode_filename("2", "b")];
    let (report, archives, max_in_flight) = drive(
        names,
        2,
        vec![urls(5), urls(5)],
        vec![vec![false; 5], vec![false; 5]],
        vec![true, true],
        false,
    );
    assert!(report.is_empty());
    assert_eq!(max_in_flight, 2);
    assert!(archives[0].is_some() && archives[1].is_some());
}

#[test]
fn payload_order_matches_locator_order() {
    // Fetches complete in reverse order of issue; entry i still holds the
    // payload delivered for index i.
    let names = vec![episode_filename("1", "a")];
    let (report, archives, _) = drive(
        names,
        3,
        vec![urls(5)],
        vec![vec![false; 5]],
        vec![true],
        true,
    );
    assert!(report.is_empty());
    let entries = read_archive(archives[0].as_ref().unwrap()).unwrap();
    assert_eq!(entries.len(), 5);
    for (i, (name, data)) in entries.iter().enumerate() {
        assert_eq!(name, &format!("{}.jpg", i));
        assert_eq!(data, &vec![0u8, i as u8, 42]);
    }
}

#[test]
fn every_episode_is_processed_despite_failures() {
    // A resolution failure, an empty locator list and a persist failure
    // never stop the remaining episodes.
    let names = vec![
        episode_filename("1", "bad-resolve"),
        episode_filename("2", "empty"),
        episode_filename("3", "bad-disk"),
        episode_filename("4", "good"),
    ];
    let (report, archives, _) = drive(
        names,
        6,
        vec![None, Some(Vec::new()), urls(1), urls(1)],
        vec![Vec::new(), Vec::new(), vec![false], vec![false]],
        vec![true, true, false, true],
        false,
    );
    assert_eq!(
        report,
        vec![
            "[1]bad-resolve.zip locator resolution failed".to_string(),
            "[3]bad-disk.zip archive write failed".to_string(),
        ]
    );
    assert!(archives[3].is_some());
    let entries = read_archive(archives[3].as_ref().unwrap()).unwrap();
    assert_eq!(entries.len(), 1);
}

#[test]
fn empty_locator_list_yields_empty_archive() {
    // A group with no fetches has no failing fetch: its (empty) archive
    // goes out for persisting and the report stays clean.
    let names = vec![episode_filename("5", "empty")];
    let (report, archives, _) = drive(
        names,
        2,
        vec![Some(Vec::new())],
        vec![Vec::new()],
        vec![true],
        false,
    );
    assert!(report.is_empty());
    let entries = read_archive(archives[0].as_ref().unwrap()).unwrap();
    assert!(entries.is_empty());
}

#[test]
fn failed_group_produces_no_archive() {
    let names = vec![episode_filename("9", "only")];
    let (report, archives, _) = drive(
        names,
        2,
        vec![urls(3)],
        vec![vec![false, true, false]],
        vec![true],
        false,
    );
    assert_eq!(report, vec!["[9]only.zip download failed".to_string()]);
    assert!(archives[0].is_none());
}

#[test]
fn resolution_is_sequential() {
    let names = vec![episode_filename("1", "a"), episode_filename("2", "b")];
    let mut orch = Orchestrator::new(names, 2);
    let first = orch.next_resolve();
    assert_eq!(first, Some(0));
    // while one resolution is outstanding no second one is handed out
    assert_eq!(orch.next_resolve(), None);
    assert!(orch.on_resolved(0, None).is_none());
    assert_eq!(orch.next_resolve(), Some(1));
    assert!(orch.on_resolved(1, None).is_none());
    assert_eq!(orch.next_resolve(), None);
    assert!(orch.is_done());
    assert_eq!(orch.into_report().len(), 2);
}

#[test]
fn progress_signal_grows_to_the_group_size() {
    let names = vec![episode_filename("1", "a")];
    let mut orch = Orchestrator::new(names, 2);
    assert_eq!(orch.progress(0), None);
    let ep = orch.next_resolve().unwrap();
    assert!(orch.on_resolved(ep, urls(3)).is_none());
    assert_eq!(orch.progress(0), Some((0, 3)));
    let mut last = 0usize;
    while let Some((e, i, _)) = orch.next_fetch() {
        let done = orch.on_fetch_done(e, i, Some(vec![1]));
        let (completed, total) = orch.progress(0).unwrap_or((3, 3));
        assert!(completed > last || completed == 3);
        assert_eq!(total, 3);
        last = completed;
        if let Some((_, _bytes)) = done {
            orch.on_persisted(e, true);
        }
    }
    assert!(orch.is_done());
}

#[test]
fn empty_batch_is_done_at_once() {
    let orch = Orchestrator::new(Vec::new(), 1);
    assert!(orch.is_done());
    assert!(orch.into_report().is_empty());
}
