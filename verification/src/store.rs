//! The track store: the persisted catalog of libraries, tracks and playlist
//! memberships.
//!
//! The store owns three record sets — `Library`, `Track` and the externally
//! owned `PlaylistEntry` rows referencing tracks — and keeps them well
//! formed (`wf`): ids are unique, a track's path is unique within its
//! library, every track belongs to an existing library, and no membership
//! row references a non-existent track. Deletions cascade: a track never
//! disappears without the membership rows referencing it.

use vstd::prelude::*;
use vstd::string::StringExecFns;

use crate::paths::{
    contains_string, lemma_filter_congruent, lemma_filter_distinct, lemma_filter_in_original,
    lemma_filter_pairwise, path_views, views_distinct,
};
use crate::track::{Library, LibraryView, Track, TrackRecord, TrackView, RecordView, track_of};

verus! {

broadcast use crate::track::lemma_track_view, crate::track::lemma_library_view;

/// A playlist membership row: externally owned, referenced here only so
/// that track deletion can keep referential integrity.
#[derive(Debug, Clone, Copy, PartialEq, Eq, Structural)]
pub struct PlaylistEntry {
    pub playlist_id: i64,
    pub track_id: i64,
}

/// Why a store operation was refused. Every refusal leaves the store
/// unchanged.
#[derive(Debug, Clone, Copy, PartialEq, Eq, Structural)]
pub enum StoreError {
    /// A library with the same name and path already exists.
    LibraryExists,
    /// The library id the operation names does not exist.
    NoSuchLibrary,
    /// The track id the membership references does not exist.
    NoSuchTrack,
    /// The record at this index has a path already stored for the library,
    /// or repeats the path of an earlier record of the same batch.
    DuplicateTrackPath(usize),
    /// The id space is exhausted.
    IdsExhausted,
}

/// Mathematical image of the whole store.
#[verifier::ext_equal]
pub ghost struct StoreView {
    pub libraries: Seq<LibraryView>,
    pub tracks: Seq<TrackView>,
    pub memberships: Seq<PlaylistEntry>,
    pub next_library_id: i64,
    pub next_track_id: i64,
}

/// Whether a library with this id exists.
pub open spec fn lib_id_exists(ls: Seq<LibraryView>, id: i64) -> bool {
    exists|i: int| 0 <= i < ls.len() && ls[i].id == id
}

/// Whether a library with this name and path exists.
pub open spec fn lib_pair_exists(ls: Seq<LibraryView>, name: Seq<char>, path: Seq<char>) -> bool {
    exists|i: int| 0 <= i < ls.len() && ls[i].name == name && ls[i].path == path
}

/// Whether a track with this id exists.
pub open spec fn track_id_exists(ts: Seq<TrackView>, id: i64) -> bool {
    exists|i: int| 0 <= i < ts.len() && ts[i].id == id
}

/// Whether the library holds a track with this path.
pub open spec fn lib_has_path(ts: Seq<TrackView>, library_id: i64, p: Seq<char>) -> bool {
    exists|i: int| 0 <= i < ts.len() && ts[i].library_id == library_id && ts[i].path == p
}

/// The paths of one library's tracks, in storage order.
pub open spec fn lib_paths(ts: Seq<TrackView>, library_id: i64) -> Seq<Seq<char>> {
    ts.filter(|t: TrackView| t.library_id == library_id).map_values(|t: TrackView| t.path)
}

/// Well-formedness of the catalog: unique ids bounded by the id counters,
/// per-library path uniqueness, unique (name, path) pairs for idempotent
/// library creation, every track in an existing library, and no dangling
/// membership row.
pub open spec fn wf(s: StoreView) -> bool {
    &&& forall|i: int, j: int|
        0 <= i < j < s.libraries.len() ==> (#[trigger] s.libraries[i]).id != (
        #[trigger] s.libraries[j]).id
    &&& forall|i: int, j: int|
        0 <= i < j < s.libraries.len() ==> !((#[trigger] s.libraries[i]).name == (
        #[trigger] s.libraries[j]).name && s.libraries[i].path == s.libraries[j].path)
    &&& forall|i: int|
        0 <= i < s.libraries.len() ==> 1 <= (#[trigger] s.libraries[i]).id < s.next_library_id
    &&& forall|i: int, j: int|
        0 <= i < j < s.tracks.len() ==> (#[trigger] s.tracks[i]).id != (#[trigger] s.tracks[j]).id
    &&& forall|i: int, j: int|
        0 <= i < j < s.tracks.len() ==> !((#[trigger] s.tracks[i]).library_id == (
        #[trigger] s.tracks[j]).library_id && s.tracks[i].path == s.tracks[j].path)
    &&& forall|i: int|
        0 <= i < s.tracks.len() ==> 1 <= (#[trigger] s.tracks[i]).id < s.next_track_id
    &&& forall|i: int|
        0 <= i < s.tracks.len() ==> lib_id_exists(s.libraries, (#[trigger] s.tracks[i]).library_id)
    &&& forall|i: int|
        0 <= i < s.memberships.len() ==> track_id_exists(
            s.tracks,
            (#[trigger] s.memberships[i]).track_id,
        )
    &&& 1 <= s.next_library_id
    &&& 1 <= s.next_track_id
}

/// A membership row never references a track the catalog does not hold:
/// in particular, after a track is deleted, no membership row references
/// its id.
pub proof fn lemma_cascading_integrity(s: StoreView, track_id: i64)
    requires
        wf(s),
        !track_id_exists(s.tracks, track_id),
    ensures
        forall|k: int|
            0 <= k < s.memberships.len() ==> (#[trigger] s.memberships[k]).track_id != track_id,
{
}

/// `lib_paths` holds exactly the paths the library has a track under.
pub proof fn lemma_lib_paths_membership(ts: Seq<TrackView>, library_id: i64)
    ensures
        forall|p: Seq<char>|
            #[trigger] lib_paths(ts, library_id).contains(p) <==> lib_has_path(ts, library_id, p),
{
    let pred = |t: TrackView| t.library_id == library_id;
    let f = ts.filter(pred);
    lemma_filter_in_original(ts, pred);
    assert forall|p: Seq<char>|
        #[trigger] lib_paths(ts, library_id).contains(p) <==> lib_has_path(
            ts,
            library_id,
            p,
        ) by {
        if lib_paths(ts, library_id).contains(p) {
            let mapped = f.map_values(|t: TrackView| t.path);
            let k = choose|k: int| 0 <= k < mapped.len() && mapped[k] == p;
            assert(f[k].path == p);
            assert(f.contains(f[k]));
            let a = choose|a: int| 0 <= a < ts.len() && ts[a] == f[k];
            assert(lib_has_path(ts, library_id, p));
        }
        if lib_has_path(ts, library_id, p) {
            let i = choose|i: int|
                0 <= i < ts.len() && ts[i].library_id == library_id && ts[i].path == p;
            ts.lemma_filter_contains(pred, i);
            let j = choose|j: int| 0 <= j < f.len() && f[j] == ts[i];
            assert(f.map_values(|t: TrackView| t.path)[j] == p);
            assert(lib_paths(ts, library_id).contains(p));
        }
    }
}

/// In a catalog whose tracks have unique ids and per-library unique paths,
/// one library's path list has no duplicates.
pub proof fn lemma_lib_paths_distinct(ts: Seq<TrackView>, library_id: i64)
    requires
        forall|i: int, j: int|
            0 <= i < j < ts.len() ==> (#[trigger] ts[i]).id != (#[trigger] ts[j]).id,
        forall|i: int, j: int|
            0 <= i < j < ts.len() ==> !((#[trigger] ts[i]).library_id == (
            #[trigger] ts[j]).library_id && ts[i].path == ts[j].path),
    ensures
        views_distinct(lib_paths(ts, library_id)),
{
    let pred = |t: TrackView| t.library_id == library_id;
    let f = ts.filter(pred);
    assert(forall|i: int, j: int| 0 <= i < j < ts.len() ==> ts[i] != ts[j]);
    lemma_filter_distinct(ts, pred);
    lemma_filter_in_original(ts, pred);
    assert forall|i: int, j: int| 0 <= i < j < f.len() implies f[i].path != f[j].path by {
        assert(f[i] != f[j]);
        assert(f.contains(f[i]));
        assert(f.contains(f[j]));
        assert(pred(f[i]) && pred(f[j]));
        let a = choose|a: int| 0 <= a < ts.len() && ts[a] == f[i];
        let b = choose|b: int| 0 <= b < ts.len() && ts[b] == f[j];
        assert(a != b);
        if a < b {
            assert(!(ts[a].library_id == ts[b].library_id && ts[a].path == ts[b].path));
        } else {
            assert(!(ts[b].library_id == ts[a].library_id && ts[b].path == ts[a].path));
        }
    }
    assert forall|i: int, j: int|
        0 <= i < j < lib_paths(ts, library_id).len() implies lib_paths(ts, library_id)[i]
        != lib_paths(ts, library_id)[j] by {
        assert(lib_paths(ts, library_id)[i] == f[i].path);
        assert(lib_paths(ts, library_id)[j] == f[j].path);
    }
}

/// Filtering tracks never introduces a path a library did not hold.
pub proof fn lemma_filter_keeps_no_path(
    ts: Seq<TrackView>,
    pred: spec_fn(TrackView) -> bool,
    library_id: i64,
    p: Seq<char>,
)
    requires
        !lib_has_path(ts, library_id, p),
    ensures
        !lib_has_path(ts.filter(pred), library_id, p),
{
    let f = ts.filter(pred);
    lemma_filter_in_original(ts, pred);
    if lib_has_path(f, library_id, p) {
        let k = choose|k: int| 0 <= k < f.len() && f[k].library_id == library_id && f[k].path == p;
        assert(f.contains(f[k]));
        let a = choose|a: int| 0 <= a < ts.len() && ts[a] == f[k];
        assert(lib_has_path(ts, library_id, p));
    }
}

/// The persisted catalog.
pub struct TrackStore {
    libraries: Vec<Library>,
    tracks: Vec<Track>,
    memberships: Vec<PlaylistEntry>,
    next_library_id: i64,
    next_track_id: i64,
}

impl View for TrackStore {
    type V = StoreView;

    closed spec fn view(&self) -> StoreView {
        StoreView {
            libraries: self.libraries@.map_values(|l: Library| l@),
            tracks: self.tracks@.map_values(|t: Track| t@),
            memberships: self.memberships@,
            next_library_id: self.next_library_id,
            next_track_id: self.next_track_id,
        }
    }
}

impl TrackStore {
    /// An empty catalog holding only the sentinel ungrouped-tracks library,
    /// which has no filesystem root and is never scanned.
    pub fn new() -> (s: TrackStore)
        ensures
            wf(s@),
            s@.libraries == seq![
                LibraryView { id: 1, path: "NONE"@, name: "Individual Tracks"@ },
            ],
            s@.tracks == Seq::<TrackView>::empty(),
            s@.memberships == Seq::<PlaylistEntry>::empty(),
            s@.next_library_id == 2,
            s@.next_track_id == 1,
    {
        let sentinel = Library {
            id: 1,
            path: String::from_str("NONE"),
            name: String::from_str("Individual Tracks"),
        };
        let mut libraries: Vec<Library> = Vec::new();
        libraries.push(sentinel);
        let s = TrackStore {
            libraries,
            tracks: Vec::new(),
            memberships: Vec::new(),
            next_library_id: 2,
            next_track_id: 1,
        };
        proof {
            assert(s@.libraries =~= seq![
                LibraryView { id: 1, path: "NONE"@, name: "Individual Tracks"@ },
            ]);
            assert(s@.tracks =~= Seq::<TrackView>::empty());
            assert(s@.memberships =~= Seq::<PlaylistEntry>::empty());
        }
        s
    }

    /// All libraries, in creation order. Libraries are flat — never nested.
    pub fn libraries(&self) -> (r: &Vec<Library>)
        ensures
            r@.map_values(|l: Library| l@) == self@.libraries,
    {
        &self.libraries
    }

    /// The full catalog read used by read-side consumers.
    pub fn dump_all_tracks(&self) -> (r: &Vec<Track>)
        ensures
            r@.map_values(|t: Track| t@) == self@.tracks,
    {
        &self.tracks
    }

    /// All playlist membership rows.
    pub fn memberships(&self) -> (r: &Vec<PlaylistEntry>)
        ensures
            r@ == self@.memberships,
    {
        &self.memberships
    }

    /// Whether a library with this name and path exists.
    fn has_library_pair(&self, name: &String, path: &String) -> (r: bool)
        ensures
            r == lib_pair_exists(self@.libraries, name@, path@),
    {
        let mut i: usize = 0;
        while i < self.libraries.len()
            invariant
                i <= self.libraries@.len(),
                self@.libraries.len() == self.libraries@.len(),
                forall|k: int|
                    0 <= k < i ==> !((#[trigger] self@.libraries[k]).name == name@
                        && self@.libraries[k].path == path@),
            decreases self.libraries@.len() - i,
        {
            if self.libraries[i].name == *name && self.libraries[i].path == *path {
                proof {
                    assert(self@.libraries[i as int] == self.libraries@[i as int]@);
                }
                return true;
            }
            proof {
                assert(self@.libraries[i as int] == self.libraries@[i as int]@);
            }
            i = i + 1;
        }
        false
    }

    /// Whether a library with this id exists.
    fn has_library(&self, library_id: i64) -> (r: bool)
        ensures
            r == lib_id_exists(self@.libraries, library_id),
    {
        let mut i: usize = 0;
        while i < self.libraries.len()
            invariant
                i <= self.libraries@.len(),
                self@.libraries.len() == self.libraries@.len(),
                forall|k: int| 0 <= k < i ==> (#[trigger] self@.libraries[k]).id != library_id,
            decreases self.libraries@.len() - i,
        {
            if self.libraries[i].id == library_id {
                proof {
                    assert(self@.libraries[i as int] == self.libraries@[i as int]@);
                }
                return true;
            }
            proof {
                assert(self@.libraries[i as int] == self.libraries@[i as int]@);
            }
            i = i + 1;
        }
        false
    }

    /// Whether the library holds a track with this path.
    fn has_lib_path(&self, library_id: i64, path: &String) -> (r: bool)
        ensures
            r == lib_has_path(self@.tracks, library_id, path@),
    {
        let mut i: usize = 0;
        while i < self.tracks.len()
            invariant
                i <= self.tracks@.len(),
                self@.tracks.len() == self.tracks@.len(),
                forall|k: int|
                    0 <= k < i ==> !((#[trigger] self@.tracks[k]).library_id == library_id
                        && self@.tracks[k].path == path@),
            decreases self.tracks@.len() - i,
        {
            if self.tracks[i].library_id == library_id && self.tracks[i].path == *path {
                proof {
                    assert(self@.tracks[i as int] == self.tracks@[i as int]@);
                }
                return true;
            }
            proof {
                assert(self@.tracks[i as int] == self.tracks@[i as int]@);
            }
            i = i + 1;
        }
        false
    }

    /// Whether a track with this id exists.
    fn has_track(&self, track_id: i64) -> (r: bool)
        ensures
            r == track_id_exists(self@.tracks, track_id),
    {
        let mut i: usize = 0;
        while i < self.tracks.len()
            invariant
                i <= self.tracks@.len(),
                self@.tracks.len() == self.tracks@.len(),
                forall|k: int| 0 <= k < i ==> (#[trigger] self@.tracks[k]).id != track_id,
            decreases self.tracks@.len() - i,
        {
            if self.tracks[i].id == track_id {
                proof {
                    assert(self@.tracks[i as int] == self.tracks@[i as int]@);
                }
                return true;
            }
            proof {
                assert(self@.tracks[i as int] == self.tracks@[i as int]@);
            }
            i = i + 1;
        }
        false
    }

    /// Creates a library. The (name, path) pair is the key a caller may use
    /// for idempotent creation, so a second library under an existing pair
    /// is refused; the created library gets the next free id.
    pub fn add_library(&mut self, path: String, name: String) -> (r: Result<Library, StoreError>)
        requires
            wf(old(self)@),
        ensures
            wf(final(self)@),
            ({
                let dup = lib_pair_exists(old(self)@.libraries, name@, path@);
                let full = old(self)@.next_library_id == i64::MAX;
                match r {
                    Ok(lib) => {
                        &&& !dup
                        &&& !full
                        &&& lib@ == (LibraryView {
                            id: old(self)@.next_library_id,
                            path: path@,
                            name: name@,
                        })
                        &&& final(self)@ == (StoreView {
                            libraries: old(self)@.libraries.push(lib@),
                            next_library_id: (old(self)@.next_library_id + 1) as i64,
                            ..old(self)@
                        })
                    },
                    Err(e) => {
                        &&& final(self)@ == old(self)@
                        &&& if dup {
                            e == StoreError::LibraryExists
                        } else {
                            full && e == StoreError::IdsExhausted
                        }
                    },
                }
            }),
    {
        if self.has_library_pair(&name, &path) {
            return Err(StoreError::LibraryExists);
        }
        if self.next_library_id == i64::MAX {
            return Err(StoreError::IdsExhausted);
        }
        let id = self.next_library_id;
        let stored = Library { id, path: path.clone(), name: name.clone() };
        let ghost pre = self@;
        self.libraries.push(stored);
        self.next_library_id = self.next_library_id + 1;
        proof {
            assert(self@.libraries =~= pre.libraries.push(
                LibraryView { id: pre.next_library_id, path: path@, name: name@ },
            ));
            assert(self@ =~= (StoreView {
                libraries: pre.libraries.push(
                    LibraryView { id: pre.next_library_id, path: path@, name: name@ },
                ),
                next_library_id: (pre.next_library_id + 1) as i64,
                ..pre
            }));
            let ls = self@.libraries;
            assert forall|i: int|
                0 <= i < self@.tracks.len() implies lib_id_exists(
                ls,
                (#[trigger] self@.tracks[i]).library_id,
            ) by {
                assert(lib_id_exists(pre.libraries, self@.tracks[i].library_id));
                let a = choose|a: int|
                    0 <= a < pre.libraries.len() && pre.libraries[a].id
                        == self@.tracks[i].library_id;
                assert(ls[a].id == self@.tracks[i].library_id);
            }
        }
        Ok(Library { id, path, name })
    }

    /// The cheap existence query a scan diffs against: the paths of the
    /// library's tracks, without materializing full records.
    pub fn tracks_of(&self, library_id: i64) -> (r: Vec<String>)
        ensures
            path_views(r@) == lib_paths(self@.tracks, library_id),
    {
        let ghost tv = self@.tracks;
        let ghost pred = |t: TrackView| t.library_id == library_id;
        let mut out: Vec<String> = Vec::new();
        let mut i: usize = 0;
        proof {
            reveal(Seq::filter);
            assert(path_views(out@) =~= tv.take(0).filter(pred).map_values(
                |t: TrackView| t.path,
            ));
        }
        while i < self.tracks.len()
            invariant
                i <= self.tracks@.len(),
                tv == self@.tracks,
                tv.len() == self.tracks@.len(),
                pred == (|t: TrackView| t.library_id == library_id),
                path_views(out@) == tv.take(i as int).filter(pred).map_values(
                    |t: TrackView| t.path,
                ),
            decreases self.tracks@.len() - i,
        {
            let ghost pre = path_views(out@);
            proof {
                assert(tv[i as int] == self.tracks@[i as int]@);
            }
            if self.tracks[i].library_id == library_id {
                out.push(self.tracks[i].path.clone());
                proof {
                    assert(path_views(out@) =~= pre.push(tv[i as int].path));
                }
            }
            proof {
                reveal(Seq::filter);
                assert(tv.take(i + 1).drop_last() =~= tv.take(i as int));
                assert(tv.take(i + 1).last() == tv[i as int]);
                if pred(tv[i as int]) {
                    assert(tv.take(i + 1).filter(pred) == tv.take(i as int).filter(pred).push(
                        tv[i as int],
                    ));
                    assert(path_views(out@) =~= tv.take(i + 1).filter(pred).map_values(
                        |t: TrackView| t.path,
                    ));
                } else {
                    assert(path_views(out@) =~= tv.take(i + 1).filter(pred).map_values(
                        |t: TrackView| t.path,
                    ));
                }
            }
            i = i + 1;
        }
        proof {
            assert(tv.take(tv.len() as int) =~= tv);
        }
        out
    }

    /// Deletes the library's tracks whose path occurs in `paths`, and, in
    /// the same atomic unit, every membership row referencing a deleted
    /// track.
    pub fn delete_tracks_by_path(&mut self, library_id: i64, paths: &Vec<String>)
        requires
            wf(old(self)@),
        ensures
            wf(final(self)@),
            final(self)@.libraries == old(self)@.libraries,
            final(self)@.next_library_id == old(self)@.next_library_id,
            final(self)@.next_track_id == old(self)@.next_track_id,
            final(self)@.tracks == old(self)@.tracks.filter(
                (|t: TrackView| !(t.library_id == library_id && path_views(paths@).contains(
                    t.path,
                ))),
            ),
            final(self)@.memberships == old(self)@.memberships.filter(
                (|m: PlaylistEntry| track_id_exists(final(self)@.tracks, m.track_id)),
            ),
    {
        let ghost oldv = self@.tracks;
        let ghost oldm = self@.memberships;
        let ghost pred = |t: TrackView|
            !(t.library_id == library_id && path_views(paths@).contains(t.path));

        let mut taken: Vec<Track> = Vec::new();
        core::mem::swap(&mut taken, &mut self.tracks);
        let ghost mid = self@;
        let mut kept: Vec<Track> = Vec::new();
        let mut doomed_ids: Vec<i64> = Vec::new();
        proof {
            reveal(Seq::filter);
            assert(taken@.map_values(|t: Track| t@) =~= oldv);
            assert(oldv.skip(0) =~= oldv);
            assert(kept@.map_values(|t: Track| t@) =~= oldv.take(0).filter(pred));
        }
        while taken.len() > 0
            invariant
                self@ == mid,
                pred == (|t: TrackView| !(t.library_id == library_id && path_views(
                    paths@,
                ).contains(t.path))),
                taken@.len() <= oldv.len(),
                taken@.map_values(|t: Track| t@) == oldv.skip(oldv.len() - taken@.len()),
                kept@.map_values(|t: Track| t@) == oldv.take(oldv.len() - taken@.len()).filter(
                    pred,
                ),
                forall|id: i64|
                    #[trigger] doomed_ids@.contains(id) <==> exists|k: int|
                        0 <= k < oldv.len() - taken@.len() && !pred(#[trigger] oldv[k])
                            && oldv[k].id == id,
            decreases taken@.len(),
        {
            let ghost i = oldv.len() - taken@.len();
            let ghost taken_pre = taken@;
            let t = taken.remove(0);
            proof {
                taken_pre.remove_ensures(0);
                assert(taken_pre.map_values(|t: Track| t@)[0] == oldv.skip(i as int)[0]);
                assert(t@ == oldv[i as int]);
                assert(taken@ == taken_pre.remove(0));
                assert forall|kk: int| #![trigger oldv.skip(i + 1)[kk]]
                    0 <= kk < taken@.len() implies taken@.map_values(|t: Track| t@)[kk]
                    == oldv.skip(i + 1)[kk] by {
                    assert(taken@[kk] == taken_pre[kk + 1]);
                    assert(taken_pre.map_values(|t: Track| t@)[kk + 1] == taken_pre[kk + 1]@);
                    assert(oldv.skip(i as int)[kk + 1] == oldv[i + 1 + kk]);
                }
                assert(taken@.map_values(|t: Track| t@) =~= oldv.skip(i + 1));
            }
            let doomed = t.library_id == library_id && contains_string(paths, &t.path);
            proof {
                assert(doomed == !pred(oldv[i as int]));
                assert(oldv.take(i + 1).drop_last() =~= oldv.take(i as int));
                assert(oldv.take(i + 1).last() == oldv[i as int]);
            }
            if doomed {
                let ghost pre_d = doomed_ids@;
                doomed_ids.push(t.id);
                proof {
                    reveal(Seq::filter);
                    assert(t@.id == t.id);
                    assert(doomed_ids@ == pre_d.push(t@.id));
                    assert forall|id: i64| #[trigger] doomed_ids@.contains(id) implies exists|
                        k: int,
                    |
                        0 <= k < i + 1 && !pred(#[trigger] oldv[k]) && oldv[k].id == id by {
                        let a = choose|a: int| 0 <= a < doomed_ids@.len() && doomed_ids@[a] == id;
                        if a < pre_d.len() {
                            assert(pre_d[a] == id);
                            assert(pre_d.contains(id));
                            let k = choose|k: int|
                                0 <= k < i && !pred(#[trigger] oldv[k]) && oldv[k].id == id;
                            assert(0 <= k < i + 1 && !pred(oldv[k]) && oldv[k].id == id);
                        } else {
                            assert(doomed_ids@[a] == t@.id);
                            assert(!pred(oldv[i as int]) && oldv[i as int].id == id);
                        }
                    }
                    assert forall|id: i64|
                        (exists|k: int|
                            0 <= k < i + 1 && !pred(#[trigger] oldv[k]) && oldv[k].id
                                == id) implies #[trigger] doomed_ids@.contains(id) by {
                        let k = choose|k: int|
                            0 <= k < i + 1 && !pred(#[trigger] oldv[k]) && oldv[k].id == id;
                        if k < i {
                            assert(pre_d.contains(id));
                            let a = choose|a: int| 0 <= a < pre_d.len() && pre_d[a] == id;
                            assert(doomed_ids@[a] == id);
                        } else {
                            assert(doomed_ids@[doomed_ids@.len() - 1] == id);
                        }
                    }
                    assert(kept@.map_values(|t: Track| t@) =~= oldv.take(i + 1).filter(pred));
                }
            } else {
                kept.push(t);
                proof {
                    reveal(Seq::filter);
                    assert(kept@.map_values(|t: Track| t@) =~= oldv.take(i as int).filter(
                        pred,
                    ).push(oldv[i as int]));
                    assert(kept@.map_values(|t: Track| t@) =~= oldv.take(i + 1).filter(pred));
                }
            }
        }
        self.tracks = kept;
        proof {
            assert(oldv.take(oldv.len() as int) =~= oldv);
            assert(self@.tracks == oldv.filter(pred));
        }

        // Cascade: drop every membership row referencing a deleted track.
        let ghost newv = self@.tracks;
        let ghost mpred = |m: PlaylistEntry| !doomed_ids@.contains(m.track_id);
        let mut mtaken: Vec<PlaylistEntry> = Vec::new();
        core::mem::swap(&mut mtaken, &mut self.memberships);
        let ghost mid2 = self@;
        let mut mkept: Vec<PlaylistEntry> = Vec::new();
        proof {
            reveal(Seq::filter);
            assert(mtaken@ =~= oldm);
            assert(oldm.skip(0) =~= oldm);
            assert(mkept@ =~= oldm.take(0).filter(mpred));
        }
        while mtaken.len() > 0
            invariant
                self@ == mid2,
                mpred == (|m: PlaylistEntry| !doomed_ids@.contains(m.track_id)),
                mtaken@.len() <= oldm.len(),
                mtaken@ == oldm.skip(oldm.len() - mtaken@.len()),
                mkept@ == oldm.take(oldm.len() - mtaken@.len()).filter(mpred),
            decreases mtaken@.len(),
        {
            let ghost i = oldm.len() - mtaken@.len();
            let ghost mtaken_pre = mtaken@;
            let m = mtaken.remove(0);
            proof {
                mtaken_pre.remove_ensures(0);
                assert(m == oldm.skip(i as int)[0]);
                assert(m == oldm[i as int]);
                assert forall|kk: int| 0 <= kk < mtaken@.len() implies mtaken@[kk] == oldm.skip(
                    i + 1,
                )[kk] by {
                    assert(mtaken@[kk] == mtaken_pre[kk + 1]);
                    assert(oldm.skip(i as int)[kk + 1] == oldm[i + 1 + kk]);
                }
                assert(mtaken@ =~= oldm.skip(i + 1));
                assert(oldm.take(i + 1).drop_last() =~= oldm.take(i as int));
                assert(oldm.take(i + 1).last() == oldm[i as int]);
            }
            if !contains_i64(&doomed_ids, m.track_id) {
                mkept.push(m);
                proof {
                    reveal(Seq::filter);
                    assert(mkept@ =~= oldm.take(i as int).filter(mpred).push(oldm[i as int]));
                    assert(mkept@ =~= oldm.take(i + 1).filter(mpred));
                }
            } else {
                proof {
                    reveal(Seq::filter);
                    assert(mkept@ =~= oldm.take(i + 1).filter(mpred));
                }
            }
        }
        self.memberships = mkept;
        proof {
            assert(oldm.take(oldm.len() as int) =~= oldm);
            assert(self@.memberships == oldm.filter(mpred));

            // A membership row survives exactly when its track survived.
            let epred = |m: PlaylistEntry| track_id_exists(newv, m.track_id);
            lemma_filter_in_original(oldv, pred);
            assert forall|m: PlaylistEntry| oldm.contains(m) implies (mpred(m) <==> epred(m)) by {
                let a = choose|a: int| 0 <= a < oldm.len() && oldm[a] == m;
                assert(track_id_exists(oldv, oldm[a].track_id));
                let k0 = choose|k0: int| 0 <= k0 < oldv.len() && oldv[k0].id == m.track_id;
                if pred(oldv[k0]) {
                    oldv.lemma_filter_contains(pred, k0);
                    let j = choose|j: int| 0 <= j < newv.len() && newv[j] == oldv[k0];
                    assert(epred(m));
                    if doomed_ids@.contains(m.track_id) {
                        let k = choose|k: int|
                            0 <= k < oldv.len() && !pred(#[trigger] oldv[k]) && oldv[k].id
                                == m.track_id;
                        if k != k0 {
                            if k < k0 {
                                assert(oldv[k].id != oldv[k0].id);
                            } else {
                                assert(oldv[k0].id != oldv[k].id);
                            }
                        }
                        assert(false);
                    }
                    assert(mpred(m));
                } else {
                    assert(doomed_ids@.contains(m.track_id));
                    assert(!mpred(m));
                    if track_id_exists(newv, m.track_id) {
                        let j = choose|j: int| 0 <= j < newv.len() && newv[j].id == m.track_id;
                        assert(newv.contains(newv[j]));
                        let b = choose|b: int| 0 <= b < oldv.len() && oldv[b] == newv[j];
                        assert(pred(oldv[b]));
                        if b != k0 {
                            if b < k0 {
                                assert(oldv[b].id != oldv[k0].id);
                            } else {
                                assert(oldv[k0].id != oldv[b].id);
                            }
                        }
                        assert(false);
                    }
                    assert(!epred(m));
                }
            }
            lemma_filter_congruent(oldm, mpred, epred);
            assert(self@.memberships == oldm.filter(epred));

            // Well-formedness of the filtered catalog.
            lemma_filter_pairwise(oldv, pred, |a: TrackView, b: TrackView| a.id != b.id);
            lemma_filter_pairwise(
                oldv,
                pred,
                |a: TrackView, b: TrackView| !(a.library_id == b.library_id && a.path == b.path),
            );
            assert forall|i: int| 0 <= i < newv.len() implies 1 <= (#[trigger] newv[i]).id
                < self@.next_track_id && lib_id_exists(self@.libraries, newv[i].library_id) by {
                assert(newv.contains(newv[i]));
                let a = choose|a: int| 0 <= a < oldv.len() && oldv[a] == newv[i];
            }
            lemma_filter_in_original(oldm, epred);
            assert forall|i: int|
                0 <= i < self@.memberships.len() implies track_id_exists(
                newv,
                (#[trigger] self@.memberships[i]).track_id,
            ) by {
                assert(self@.memberships.contains(self@.memberships[i]));
                let a = choose|a: int| 0 <= a < oldm.len() && oldm[a] == self@.memberships[i];
                assert(epred(oldm[a]));
            }
        }
    }

    /// Deletes all tracks of the library — the full-rescan wipe — with the
    /// same cascading guarantee. The library record itself stays.
    pub fn delete_all_tracks(&mut self, library_id: i64)
        requires
            wf(old(self)@),
        ensures
            wf(final(self)@),
            final(self)@.libraries == old(self)@.libraries,
            final(self)@.next_library_id == old(self)@.next_library_id,
            final(self)@.next_track_id == old(self)@.next_track_id,
            final(self)@.tracks == old(self)@.tracks.filter(
                (|t: TrackView| t.library_id != library_id),
            ),
            final(self)@.memberships == old(self)@.memberships.filter(
                (|m: PlaylistEntry| track_id_exists(final(self)@.tracks, m.track_id)),
            ),
    {
        let ghost oldv = self@.tracks;
        let paths = self.tracks_of(library_id);
        self.delete_tracks_by_path(library_id, &paths);
        proof {
            let dpred = |t: TrackView|
                !(t.library_id == library_id && path_views(paths@).contains(t.path));
            let apred = |t: TrackView| t.library_id != library_id;
            lemma_lib_paths_membership(oldv, library_id);
            assert forall|t: TrackView| oldv.contains(t) implies (dpred(t) <==> apred(t)) by {
                if t.library_id == library_id {
                    let a = choose|a: int| 0 <= a < oldv.len() && oldv[a] == t;
                    assert(lib_has_path(oldv, library_id, t.path));
                    assert(path_views(paths@).contains(t.path));
                }
            }
            lemma_filter_congruent(oldv, dpred, apred);
        }
    }

    /// Batch insert of freshly extracted records into one library. The
    /// batch is checked as a whole and either fully applied or fully
    /// refused: an unknown library, a record whose path the library already
    /// holds (or that repeats an earlier record's path), or id-space
    /// exhaustion refuse the batch and leave the store unchanged.
    pub fn insert_tracks(&mut self, library_id: i64, records: &Vec<TrackRecord>) -> (r: Result<
        (),
        StoreError,
    >)
        requires
            wf(old(self)@),
        ensures
            wf(final(self)@),
            ({
                let lib_ok = lib_id_exists(old(self)@.libraries, library_id);
                let fits = old(self)@.next_track_id + records@.len() <= i64::MAX;
                let recs = records@.map_values(|rec: TrackRecord| rec@);
                match r {
                    Ok(()) => {
                        &&& lib_ok
                        &&& fits
                        &&& forall|k: int|
                            0 <= k < recs.len() ==> !record_conflict(
                                old(self)@.tracks,
                                library_id,
                                recs,
                                k,
                            )
                        &&& final(self)@ == (StoreView {
                            tracks: old(self)@.tracks + inserted_tracks(
                                library_id,
                                old(self)@.next_track_id,
                                recs,
                            ),
                            next_track_id: (old(self)@.next_track_id + records@.len()) as i64,
                            ..old(self)@
                        })
                    },
                    Err(e) => {
                        &&& final(self)@ == old(self)@
                        &&& match e {
                            StoreError::NoSuchLibrary => !lib_ok,
                            StoreError::IdsExhausted => lib_ok && !fits,
                            StoreError::DuplicateTrackPath(k) => {
                                &&& lib_ok
                                &&& fits
                                &&& 0 <= (k as int) < recs.len()
                                &&& record_conflict(old(self)@.tracks, library_id, recs, k as int)
                                &&& forall|j: int|
                                    0 <= j < k as int ==> !record_conflict(
                                        old(self)@.tracks,
                                        library_id,
                                        recs,
                                        j,
                                    )
                            },
                            _ => false,
                        }
                    },
                }
            }),
    {
        let ghost recs = records@.map_values(|rec: TrackRecord| rec@);
        if !self.has_library(library_id) {
            return Err(StoreError::NoSuchLibrary);
        }
        let room: i64 = i64::MAX - self.next_track_id;
        if (records.len() as u64) > (room as u64) {
            return Err(StoreError::IdsExhausted);
        }

        // Validate the whole batch before touching the store.
        let mut k: usize = 0;
        while k < records.len()
            invariant
                self@ == old(self)@,
                wf(old(self)@),
                k <= records@.len(),
                recs == records@.map_values(|rec: TrackRecord| rec@),
                recs.len() == records@.len(),
                lib_id_exists(old(self)@.libraries, library_id),
                old(self)@.next_track_id + records@.len() <= i64::MAX,
                forall|j: int| 0 <= j < k ==> !record_conflict(self@.tracks, library_id, recs, j),
            decreases records@.len() - k,
        {
            if self.has_lib_path(library_id, &records[k].path) {
                proof {
                    assert(recs[k as int].path == records@[k as int]@.path);
                }
                return Err(StoreError::DuplicateTrackPath(k));
            }
            let mut j: usize = 0;
            while j < k
                invariant
                    self@ == old(self)@,
                    wf(old(self)@),
                    j <= k < records@.len(),
                    recs == records@.map_values(|rec: TrackRecord| rec@),
                    recs.len() == records@.len(),
                    lib_id_exists(old(self)@.libraries, library_id),
                    old(self)@.next_track_id + records@.len() <= i64::MAX,
                    forall|b: int|
                        0 <= b < k ==> !record_conflict(self@.tracks, library_id, recs, b),
                    forall|a: int| 0 <= a < j ==> recs[a].path != recs[k as int].path,
                decreases k - j,
            {
                if records[j].path == records[k].path {
                    proof {
                        assert(recs[j as int].path == recs[k as int].path);
                    }
                    return Err(StoreError::DuplicateTrackPath(k));
                }
                j = j + 1;
            }
            proof {
                assert(!record_conflict(self@.tracks, library_id, recs, k as int));
            }
            k = k + 1;
        }

        // Apply: assign consecutive fresh ids and append.
        let ghost pre = self@;
        let mut idx: usize = 0;
        proof {
            assert(recs.take(0) =~= Seq::<RecordView>::empty());
            assert(self@.tracks =~= pre.tracks + inserted_tracks(
                library_id,
                pre.next_track_id,
                recs.take(0),
            ));
        }
        while idx < records.len()
            invariant
                idx <= records@.len(),
                pre == old(self)@,
                wf(pre),
                lib_id_exists(pre.libraries, library_id),
                forall|b: int| 0 <= b < recs.len() ==> !record_conflict(
                    pre.tracks,
                    library_id,
                    recs,
                    b,
                ),
                recs == records@.map_values(|rec: TrackRecord| rec@),
                recs.len() == records@.len(),
                pre.next_track_id + records@.len() <= i64::MAX,
                self.next_track_id == pre.next_track_id + idx,
                self@.tracks == pre.tracks + inserted_tracks(
                    library_id,
                    pre.next_track_id,
                    recs.take(idx as int),
                ),
                self@.libraries == pre.libraries,
                self@.memberships == pre.memberships,
                self@.next_library_id == pre.next_library_id,
            decreases records@.len() - idx,
        {
            let ghost tracks_pre = self@.tracks;
            let t = records[idx].into_track(library_id, self.next_track_id);
            self.tracks.push(t);
            self.next_track_id = self.next_track_id + 1;
            proof {
                assert(self@.tracks =~= tracks_pre.push(
                    track_of(
                        library_id,
                        (pre.next_track_id + idx) as i64,
                        recs[idx as int],
                    ),
                ));
                assert(recs.take(idx as int) =~= recs.take(idx + 1).drop_last());
                assert(self@.tracks =~= pre.tracks + inserted_tracks(
                    library_id,
                    pre.next_track_id,
                    recs.take(idx + 1),
                ));
            }
            idx = idx + 1;
        }
        proof {
            assert(recs.take(recs.len() as int) =~= recs);
            assert(self@ =~= (StoreView {
                tracks: pre.tracks + inserted_tracks(library_id, pre.next_track_id, recs),
                next_track_id: (pre.next_track_id + records@.len()) as i64,
                ..pre
            }));
            lemma_insert_wf(pre, library_id, recs, self@);
        }
        Ok(())
    }

    /// Records a playlist membership for an existing track. A membership
    /// referencing an unknown track is refused: rows never dangle.
    pub fn add_membership(&mut self, playlist_id: i64, track_id: i64) -> (r: Result<
        (),
        StoreError,
    >)
        requires
            wf(old(self)@),
        ensures
            wf(final(self)@),
            match r {
                Ok(()) => track_id_exists(old(self)@.tracks, track_id) && final(self)@
                    == (StoreView {
                    memberships: old(self)@.memberships.push(
                        PlaylistEntry { playlist_id, track_id },
                    ),
                    ..old(self)@
                }),
                Err(e) => {
                    &&& e == StoreError::NoSuchTrack
                    &&& !track_id_exists(old(self)@.tracks, track_id)
                    &&& final(self)@ == old(self)@
                },
            },
    {
        if !self.has_track(track_id) {
            return Err(StoreError::NoSuchTrack);
        }
        let ghost pre = self@;
        self.memberships.push(PlaylistEntry { playlist_id, track_id });
        proof {
            assert(self@ =~= (StoreView {
                memberships: pre.memberships.push(PlaylistEntry { playlist_id, track_id }),
                ..pre
            }));
            assert forall|i: int|
                0 <= i < self@.memberships.len() implies track_id_exists(
                self@.tracks,
                (#[trigger] self@.memberships[i]).track_id,
            ) by {
                if i < pre.memberships.len() {
                    assert(self@.memberships[i] == pre.memberships[i]);
                } else {
                    assert(self@.memberships[i].track_id == track_id);
                }
            }
        }
        Ok(())
    }
}

/// Whether a conflict stops the record at index `k` of a batch: its path is
/// already stored for the library, or an earlier record of the batch has
/// the same path.
pub open spec fn record_conflict(
    tracks: Seq<TrackView>,
    library_id: i64,
    recs: Seq<RecordView>,
    k: int,
) -> bool {
    lib_has_path(tracks, library_id, recs[k].path) || exists|j: int|
        0 <= j < k && recs[j].path == recs[k].path
}

/// The tracks a batch insert appends: one per record, in batch order, with
/// consecutive ids starting at `base`.
pub open spec fn inserted_tracks(library_id: i64, base: i64, recs: Seq<RecordView>) -> Seq<
    TrackView,
> {
    Seq::new(recs.len(), |i: int| track_of(library_id, (base + i) as i64, recs[i]))
}

/// A conflict-free batch appended with fresh consecutive ids keeps the
/// catalog well formed.
proof fn lemma_insert_wf(pre: StoreView, library_id: i64, recs: Seq<RecordView>, post: StoreView)
    requires
        wf(pre),
        lib_id_exists(pre.libraries, library_id),
        pre.next_track_id + recs.len() <= i64::MAX,
        forall|k: int| 0 <= k < recs.len() ==> !record_conflict(pre.tracks, library_id, recs, k),
        post == (StoreView {
            tracks: pre.tracks + inserted_tracks(library_id, pre.next_track_id, recs),
            next_track_id: (pre.next_track_id + recs.len()) as i64,
            ..pre
        }),
    ensures
        wf(post),
{
    let added = inserted_tracks(library_id, pre.next_track_id, recs);
    let n = pre.tracks.len();
    assert forall|i: int, j: int|
        0 <= i < j < post.tracks.len() implies (#[trigger] post.tracks[i]).id != (
    #[trigger] post.tracks[j]).id by {
        if i >= n {
            assert(post.tracks[i] == added[i - n] && post.tracks[j] == added[j - n]);
        } else if j >= n {
            assert(post.tracks[i] == pre.tracks[i] && post.tracks[j] == added[j - n]);
        } else {
            assert(post.tracks[i] == pre.tracks[i] && post.tracks[j] == pre.tracks[j]);
        }
    }
    assert forall|i: int, j: int|
        0 <= i < j < post.tracks.len() implies !((#[trigger] post.tracks[i]).library_id == (
    #[trigger] post.tracks[j]).library_id && post.tracks[i].path == post.tracks[j].path) by {
        if i >= n {
            assert(post.tracks[i] == added[i - n] && post.tracks[j] == added[j - n]);
            assert(!record_conflict(pre.tracks, library_id, recs, j - n));
            assert(recs[i - n].path != recs[j - n].path);
        } else if j >= n {
            assert(post.tracks[i] == pre.tracks[i] && post.tracks[j] == added[j - n]);
            assert(!record_conflict(pre.tracks, library_id, recs, j - n));
            if post.tracks[i].library_id == library_id && post.tracks[i].path == recs[j
                - n].path {
                assert(lib_has_path(pre.tracks, library_id, recs[j - n].path));
                assert(false);
            }
        } else {
            assert(post.tracks[i] == pre.tracks[i] && post.tracks[j] == pre.tracks[j]);
        }
    }
    assert forall|i: int|
        0 <= i < post.tracks.len() implies 1 <= (#[trigger] post.tracks[i]).id
        < post.next_track_id && lib_id_exists(post.libraries, post.tracks[i].library_id) by {
        if i < n {
            assert(post.tracks[i] == pre.tracks[i]);
        } else {
            assert(post.tracks[i] == added[i - n]);
            assert(post.tracks[i].id == pre.next_track_id + (i - n));
        }
    }
    assert forall|i: int|
        0 <= i < post.memberships.len() implies track_id_exists(
        post.tracks,
        (#[trigger] post.memberships[i]).track_id,
    ) by {
        assert(post.memberships[i] == pre.memberships[i]);
        assert(track_id_exists(pre.tracks, pre.memberships[i].track_id));
        let a = choose|a: int|
            0 <= a < pre.tracks.len() && pre.tracks[a].id == pre.memberships[i].track_id;
        assert(post.tracks[a] == pre.tracks[a]);
    }
}

/// Whether `x` occurs in `v`.
fn contains_i64(v: &Vec<i64>, x: i64) -> (r: bool)
    ensures
        r == v@.contains(x),
{
    let mut j: usize = 0;
    while j < v.len()
        invariant
            j <= v@.len(),
            forall|k: int| 0 <= k < j ==> v@[k] != x,
        decreases v@.len() - j,
    {
        if v[j] == x {
            return true;
        }
        j = j + 1;
    }
    false
}

} // verus!
