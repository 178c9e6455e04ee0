use mus::decimal::i32_to_decimal;
use mus::store::{StoreError, TrackStore};
use mus::track::{TrackField, TrackRecord};
use mus::tracklist::TrackListData;

fn record(path: &str, title: &str) -> TrackRecord {
    TrackRecord {
        path: path.to_string(),
        title: Some(title.to_string()),
        artist: Some("Artist".to_string()),
        album: None,
        comment: None,
        genre: Some("Genre".to_string()),
        year: Some(1999),
        track: Some(7),
        length: 215,
        bitrate: 320,
        samplerate: 44100,
    }
}

#[test]
fn sentinel_library_present() {
    let store = TrackStore::new();
    let libs = store.libraries();
    assert_eq!(libs.len(), 1);
    assert_eq!(libs[0].name(), "Individual Tracks");
    assert!(libs[0].path().is_none());
}

#[test]
fn add_library_assigns_fresh_ids() {
    let mut store = TrackStore::new();
    let a = store.add_library("/music".to_string(), "Music".to_string()).unwrap();
    let b = store.add_library("/tapes".to_string(), "Tapes".to_string()).unwrap();
    assert_eq!(a.id(), 2);
    assert_eq!(b.id(), 3);
    assert_eq!(a.name(), "Music");
    assert_eq!(a.path().unwrap(), "/music");
    assert_eq!(store.libraries().len(), 3);
}

#[test]
fn add_library_duplicate_pair_refused() {
    let mut store = TrackStore::new();
    store.add_library("/music".to_string(), "Music".to_string()).unwrap();
    let dup = store.add_library("/music".to_string(), "Music".to_string());
    assert!(matches!(dup, Err(StoreError::LibraryExists)));
    // The pair is the key: the same root under another name is a new library.
    assert!(store.add_library("/music".to_string(), "Mirror".to_string()).is_ok());
    assert_eq!(store.libraries().len(), 3);
}

#[test]
fn insert_tracks_and_dump() {
    let mut store = TrackStore::new();
    let lib = store.add_library("/music".to_string(), "Music".to_string()).unwrap();
    let records = vec![record("/music/a.mp3", "A"), record("/music/b.mp3", "B")];
    store.insert_tracks(lib.id(), &records).unwrap();
    let tracks = store.dump_all_tracks();
    assert_eq!(tracks.len(), 2);
    assert_eq!(tracks[0].id(), 1);
    assert_eq!(tracks[1].id(), 2);
    assert_eq!(tracks[0].library_id(), lib.id());
    assert_eq!(tracks[0].path(), "/music/a.mp3");
    assert_eq!(tracks[0].title(), Some("A"));
    assert_eq!(tracks[0].artist(), Some("Artist"));
    assert_eq!(tracks[0].album(), None);
    assert_eq!(tracks[0].genre(), Some("Genre"));
    assert_eq!(tracks[0].year(), Some(1999));
    assert_eq!(tracks[0].track(), Some(7));
    assert_eq!(tracks[0].length(), 215);
    assert_eq!(tracks[0].bitrate(), 320);
    assert_eq!(tracks[0].samplerate(), 44100);
    assert_eq!(tracks[0].rating(), None);
}

#[test]
fn insert_into_unknown_library_refused() {
    let mut store = TrackStore::new();
    let records = vec![record("/music/a.mp3", "A")];
    let res = store.insert_tracks(42, &records);
    assert!(matches!(res, Err(StoreError::NoSuchLibrary)));
}

#[test]
fn insert_duplicate_path_in_batch_refused() {
    let mut store = TrackStore::new();
    let lib = store.add_library("/music".to_string(), "Music".to_string()).unwrap();
    let records = vec![record("/music/a.mp3", "A"), record("/music/a.mp3", "A again")];
    let res = store.insert_tracks(lib.id(), &records);
    assert!(matches!(res, Err(StoreError::DuplicateTrackPath(1))));
    assert_eq!(store.dump_all_tracks().len(), 0);
}

#[test]
fn insert_already_stored_path_refused() {
    let mut store = TrackStore::new();
    let lib = store.add_library("/music".to_string(), "Music".to_string()).unwrap();
    store.insert_tracks(lib.id(), &vec![record("/music/a.mp3", "A")]).unwrap();
    let res = store.insert_tracks(lib.id(), &vec![record("/music/a.mp3", "A again")]);
    assert!(matches!(res, Err(StoreError::DuplicateTrackPath(0))));
    assert_eq!(store.dump_all_tracks().len(), 1);
}

#[test]
fn same_path_allowed_in_another_library() {
    let mut store = TrackStore::new();
    let a = store.add_library("/music".to_string(), "Music".to_string()).unwrap();
    let b = store.add_library("/backup".to_string(), "Backup".to_string()).unwrap();
    store.insert_tracks(a.id(), &vec![record("/shared/x.mp3", "X")]).unwrap();
    store.insert_tracks(b.id(), &vec![record("/shared/x.mp3", "X")]).unwrap();
    assert_eq!(store.dump_all_tracks().len(), 2);
}

#[test]
fn membership_requires_existing_track() {
    let mut store = TrackStore::new();
    let res = store.add_membership(1, 99);
    assert!(matches!(res, Err(StoreError::NoSuchTrack)));
    let lib = store.add_library("/music".to_string(), "Music".to_string()).unwrap();
    store.insert_tracks(lib.id(), &vec![record("/music/a.mp3", "A")]).unwrap();
    let track_id = store.dump_all_tracks()[0].id();
    store.add_membership(1, track_id).unwrap();
    assert_eq!(store.memberships().len(), 1);
    assert_eq!(store.memberships()[0].playlist_id, 1);
    assert_eq!(store.memberships()[0].track_id, track_id);
}

#[test]
fn tracks_of_lists_library_paths() {
    let mut store = TrackStore::new();
    let a = store.add_library("/music".to_string(), "Music".to_string()).unwrap();
    let b = store.add_library("/tapes".to_string(), "Tapes".to_string()).unwrap();
    store
        .insert_tracks(a.id(), &vec![record("/music/a.mp3", "A"), record("/music/b.mp3", "B")])
        .unwrap();
    store.insert_tracks(b.id(), &vec![record("/tapes/c.mp3", "C")]).unwrap();
    let paths = store.tracks_of(a.id());
    assert_eq!(paths, vec!["/music/a.mp3".to_string(), "/music/b.mp3".to_string()]);
    assert_eq!(store.tracks_of(b.id()), vec!["/tapes/c.mp3".to_string()]);
    assert!(store.tracks_of(77).is_empty());
}

#[test]
fn field_strings_render_each_column() {
    let mut store = TrackStore::new();
    let lib = store.add_library("/music".to_string(), "Music".to_string()).unwrap();
    store.insert_tracks(lib.id(), &vec![record("/music/a.mp3", "A")]).unwrap();
    let t = &store.dump_all_tracks()[0];
    assert_eq!(t.get_field_as_string(TrackField::Path), "/music/a.mp3");
    assert_eq!(t.get_field_as_string(TrackField::Title), "A");
    assert_eq!(t.get_field_as_string(TrackField::Artist), "Artist");
    assert_eq!(t.get_field_as_string(TrackField::Album), "");
    assert_eq!(t.get_field_as_string(TrackField::Comment), "");
    assert_eq!(t.get_field_as_string(TrackField::Genre), "Genre");
    assert_eq!(t.get_field_as_string(TrackField::Year), "1999");
    assert_eq!(t.get_field_as_string(TrackField::Track), "7");
    assert_eq!(t.get_field_as_string(TrackField::Length), "215");
    assert_eq!(t.get_field_as_string(TrackField::Bitrate), "320");
    assert_eq!(t.get_field_as_string(TrackField::Samplerate), "44100");
    assert_eq!(t.get_field_as_string(TrackField::Rating), "-1");
}

#[test]
fn decimal_rendering_is_exact() {
    assert_eq!(i32_to_decimal(0), "0");
    assert_eq!(i32_to_decimal(7), "7");
    assert_eq!(i32_to_decimal(10), "10");
    assert_eq!(i32_to_decimal(44100), "44100");
    assert_eq!(i32_to_decimal(-1), "-1");
    assert_eq!(i32_to_decimal(-123), "-123");
    assert_eq!(i32_to_decimal(i32::MAX), "2147483647");
    assert_eq!(i32_to_decimal(i32::MIN), "-2147483648");
}

#[test]
fn tracklist_data_selection() {
    let mut store = TrackStore::new();
    let lib = store.add_library("/music".to_string(), "Music".to_string()).unwrap();
    store
        .insert_tracks(lib.id(), &vec![record("/music/a.mp3", "A"), record("/music/b.mp3", "B")])
        .unwrap();
    let rows = store.dump_all_tracks().clone();
    let mut data = TrackListData::new(rows);
    assert_eq!(data.tracks().len(), 2);
    assert!(data.selected_tracks().is_empty());
    data.select_row(1);
    assert_eq!(data.selected_tracks(), &vec![1usize]);
    data.select_row(0);
    assert_eq!(data.selected_tracks(), &vec![0usize]);
}
