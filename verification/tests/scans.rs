use mus::scan::{commit_scan, plan_scan, ExtractionOutcome, TrackMetadata};
use mus::store::TrackStore;
use mus::track::Library;

fn meta_for(path: &str) -> TrackMetadata {
    TrackMetadata {
        title: Some(format!("Title of {}", path)),
        artist: Some("Artist".to_string()),
        album: Some("Album".to_string()),
        comment: None,
        genre: None,
        year: Some(2001),
        track: Some(1),
        length: 180,
        bitrate: 256,
        samplerate: 48000,
    }
}

/// A stand-in extractor: `.mp3` files are media, `.err` files fail to
/// read, everything else is not a media file.
fn extract(path: &str) -> ExtractionOutcome {
    if path.ends_with(".err") {
        ExtractionOutcome::ReadError
    } else if path.ends_with(".mp3") {
        ExtractionOutcome::Media(meta_for(path))
    } else {
        ExtractionOutcome::NotMedia
    }
}

fn outcomes_for(candidates: &Vec<String>) -> Vec<ExtractionOutcome> {
    candidates.iter().map(|p| extract(p)).collect()
}

fn walk(paths: &[&str]) -> Vec<String> {
    paths.iter().map(|p| p.to_string()).collect()
}

fn scan(store: &mut TrackStore, library: &Library, walked: &Vec<String>, full: bool) -> Vec<String> {
    let plan = plan_scan(store, library, walked, full);
    let outcomes = outcomes_for(&plan.candidates);
    commit_scan(store, library, plan, outcomes)
}

fn library_paths(store: &TrackStore, library_id: i64) -> Vec<String> {
    let mut paths = store.tracks_of(library_id);
    paths.sort();
    paths
}

#[test]
fn full_scan_populates_library() {
    let mut store = TrackStore::new();
    let lib = store.add_library("/music".to_string(), "Music".to_string()).unwrap();
    let walked = walk(&["/music/a.mp3", "/music/b.mp3", "/music/cover.jpg"]);
    let removed = scan(&mut store, &lib, &walked, true);
    assert!(removed.is_empty());
    assert_eq!(
        library_paths(&store, lib.id()),
        vec!["/music/a.mp3".to_string(), "/music/b.mp3".to_string()]
    );
    let t = &store.dump_all_tracks()[0];
    assert_eq!(t.title(), Some("Title of /music/a.mp3"));
    assert_eq!(t.samplerate(), 48000);
    assert_eq!(t.rating(), None);
}

#[test]
fn duplicate_walked_paths_enter_once() {
    // Several link paths may resolve to the same canonical file.
    let mut store = TrackStore::new();
    let lib = store.add_library("/music".to_string(), "Music".to_string()).unwrap();
    let walked = walk(&["/music/a.mp3", "/music/a.mp3", "/music/a.mp3"]);
    scan(&mut store, &lib, &walked, false);
    assert_eq!(store.dump_all_tracks().len(), 1);
}

#[test]
fn incremental_scan_twice_is_idempotent() {
    let mut store = TrackStore::new();
    let lib = store.add_library("/music".to_string(), "Music".to_string()).unwrap();
    let walked = walk(&["/music/a.mp3", "/music/b.mp3", "/music/cover.jpg"]);
    let removed1 = scan(&mut store, &lib, &walked, false);
    assert!(removed1.is_empty());
    let count = store.dump_all_tracks().len();
    let ids: Vec<i64> = store.dump_all_tracks().iter().map(|t| t.id()).collect();

    let removed2 = scan(&mut store, &lib, &walked, false);
    assert!(removed2.is_empty());
    assert_eq!(store.dump_all_tracks().len(), count);
    let ids2: Vec<i64> = store.dump_all_tracks().iter().map(|t| t.id()).collect();
    assert_eq!(ids, ids2);
}

#[test]
fn incremental_scan_removes_missing_and_keeps_walked() {
    let mut store = TrackStore::new();
    let lib = store.add_library("/m".to_string(), "M".to_string()).unwrap();
    scan(&mut store, &lib, &walk(&["/m/x.mp3", "/m/y.mp3", "/m/z.mp3"]), false);
    let kept_before = store
        .dump_all_tracks()
        .iter()
        .find(|t| t.path() == "/m/y.mp3")
        .map(|t| (t.id(), t.title().map(|s| s.to_string())))
        .unwrap();

    let mut removed = scan(&mut store, &lib, &walk(&["/m/y.mp3"]), false);
    removed.sort();
    assert_eq!(removed, vec!["/m/x.mp3".to_string(), "/m/z.mp3".to_string()]);

    let tracks = store.dump_all_tracks();
    assert_eq!(tracks.len(), 1);
    assert_eq!(tracks[0].path(), "/m/y.mp3");
    // The kept track is untouched: same id, unchanged metadata.
    assert_eq!(tracks[0].id(), kept_before.0);
    assert_eq!(tracks[0].title().map(|s| s.to_string()), kept_before.1);
}

#[test]
fn incremental_scan_does_not_reextract_stored_paths() {
    let mut store = TrackStore::new();
    let lib = store.add_library("/m".to_string(), "M".to_string()).unwrap();
    scan(&mut store, &lib, &walk(&["/m/a.mp3"]), false);
    let plan = plan_scan(&store, &lib, &walk(&["/m/a.mp3", "/m/b.mp3"]), false);
    // Only the new path is a candidate for extraction.
    assert_eq!(plan.candidates, vec!["/m/b.mp3".to_string()]);
    assert!(plan.to_remove.is_empty());
}

#[test]
fn deleting_a_track_deletes_its_memberships() {
    let mut store = TrackStore::new();
    let lib = store.add_library("/m".to_string(), "M".to_string()).unwrap();
    scan(&mut store, &lib, &walk(&["/m/a.mp3", "/m/b.mp3"]), false);
    let gone_id =
        store.dump_all_tracks().iter().find(|t| t.path() == "/m/a.mp3").unwrap().id();
    let kept_id =
        store.dump_all_tracks().iter().find(|t| t.path() == "/m/b.mp3").unwrap().id();
    store.add_membership(1, gone_id).unwrap();
    store.add_membership(1, kept_id).unwrap();
    store.add_membership(2, gone_id).unwrap();

    let removed = scan(&mut store, &lib, &walk(&["/m/b.mp3"]), false);
    assert_eq!(removed, vec!["/m/a.mp3".to_string()]);
    assert!(store.memberships().iter().all(|m| m.track_id != gone_id));
    assert_eq!(store.memberships().len(), 1);
    assert_eq!(store.memberships()[0].track_id, kept_id);
}

#[test]
fn full_rescan_cascades_over_memberships() {
    let mut store = TrackStore::new();
    let lib = store.add_library("/m".to_string(), "M".to_string()).unwrap();
    scan(&mut store, &lib, &walk(&["/m/a.mp3"]), false);
    let old_id = store.dump_all_tracks()[0].id();
    store.add_membership(9, old_id).unwrap();

    scan(&mut store, &lib, &walk(&["/m/a.mp3"]), true);
    assert!(store.memberships().is_empty());
    assert_eq!(store.dump_all_tracks().len(), 1);
    assert!(store.dump_all_tracks()[0].id() != old_id);
}

#[test]
fn full_rescan_wipes_and_repopulates() {
    let mut store = TrackStore::new();
    let lib = store.add_library("/m".to_string(), "M".to_string()).unwrap();
    scan(
        &mut store,
        &lib,
        &walk(&["/m/1.mp3", "/m/2.mp3", "/m/3.mp3", "/m/4.mp3", "/m/5.mp3"]),
        false,
    );
    assert_eq!(store.dump_all_tracks().len(), 5);
    let max_old_id = store.dump_all_tracks().iter().map(|t| t.id()).max().unwrap();

    // Three walked paths, two of them overlapping the stored five.
    let removed = scan(&mut store, &lib, &walk(&["/m/4.mp3", "/m/5.mp3", "/m/6.mp3"]), true);
    assert!(removed.is_empty());
    assert_eq!(
        library_paths(&store, lib.id()),
        vec!["/m/4.mp3".to_string(), "/m/5.mp3".to_string(), "/m/6.mp3".to_string()]
    );
    // All five original records are gone, overlap included: every surviving
    // track of the library was re-extracted under a fresh id.
    assert!(store.dump_all_tracks().iter().all(|t| t.id() > max_old_id));
}

#[test]
fn non_media_paths_never_enter_and_are_never_reported() {
    let mut store = TrackStore::new();
    let lib = store.add_library("/m".to_string(), "M".to_string()).unwrap();
    let removed = scan(&mut store, &lib, &walk(&["/m/x.mp3", "/m/readme.txt"]), false);
    assert!(removed.is_empty());
    assert_eq!(library_paths(&store, lib.id()), vec!["/m/x.mp3".to_string()]);

    // Still absent on the next scan, and still never reported as removed.
    let removed2 = scan(&mut store, &lib, &walk(&["/m/x.mp3", "/m/readme.txt"]), false);
    assert!(removed2.is_empty());
    assert_eq!(library_paths(&store, lib.id()), vec!["/m/x.mp3".to_string()]);
}

#[test]
fn per_path_read_errors_are_skipped_not_fatal() {
    let mut store = TrackStore::new();
    let lib = store.add_library("/m".to_string(), "M".to_string()).unwrap();
    let removed = scan(&mut store, &lib, &walk(&["/m/locked.err", "/m/ok.mp3"]), false);
    assert!(removed.is_empty());
    assert_eq!(library_paths(&store, lib.id()), vec!["/m/ok.mp3".to_string()]);
}

#[test]
fn scans_of_different_libraries_are_independent() {
    let mut store = TrackStore::new();
    let a = store.add_library("/a".to_string(), "A".to_string()).unwrap();
    let b = store.add_library("/b".to_string(), "B".to_string()).unwrap();
    scan(&mut store, &a, &walk(&["/a/1.mp3"]), false);
    scan(&mut store, &b, &walk(&["/b/1.mp3", "/b/2.mp3"]), false);

    // Wiping library A leaves library B's catalog untouched.
    let removed = scan(&mut store, &a, &walk(&[]), true);
    assert!(removed.is_empty());
    assert!(library_paths(&store, a.id()).is_empty());
    assert_eq!(
        library_paths(&store, b.id()),
        vec!["/b/1.mp3".to_string(), "/b/2.mp3".to_string()]
    );
}
