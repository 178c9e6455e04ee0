//! The reconciliation engine.
//!
//! A scan of one library happens in two verified phases around the one
//! step this crate cannot perform itself — reading tags from disk:
//!
//! 1. `plan_scan` diffs the walked path set against the stored path set and
//!    decides what to remove and which paths are candidates for extraction.
//! 2. The caller runs the metadata extractor once per candidate, in order,
//!    and hands the outcomes to `commit_scan`, which applies the deletions
//!    (cascading over playlist memberships) and inserts the extracted
//!    records as one batch.
//!
//! A full rescan wipes the library first and treats every walked path as a
//! candidate; an incremental scan touches only additions and removals keyed
//! by path identity and leaves paths both walked and stored alone.

use vstd::prelude::*;

use crate::paths::{
    dedup_paths, diff_paths, lemma_dedup, lemma_diff_membership, lemma_filter_all,
    lemma_filter_congruent, lemma_filter_distinct, lemma_filter_in_original, lemma_filter_none,
    path_views, spec_dedup, spec_diff, views_distinct,
};
use crate::store::{
    inserted_tracks, lib_has_path, lib_id_exists, lib_paths, lemma_lib_paths_distinct,
    lemma_lib_paths_membership, lemma_filter_keeps_no_path, record_conflict, track_id_exists,
    wf, PlaylistEntry, StoreView, TrackStore,
};
use crate::track::{Library, RecordView, TrackRecord, TrackView};

verus! {

/// Mathematical image of extracted track metadata.
#[verifier::ext_equal]
pub ghost struct MetadataView {
    pub title: Option<Seq<char>>,
    pub artist: Option<Seq<char>>,
    pub album: Option<Seq<char>>,
    pub comment: Option<Seq<char>>,
    pub genre: Option<Seq<char>>,
    pub year: Option<i32>,
    pub track: Option<i32>,
    pub length: i32,
    pub bitrate: i32,
    pub samplerate: i32,
}

/// The tags and stream properties extracted from one media file. Every tag
/// is independently optional; the stream properties are required — a file
/// lacking them is not a valid track.
#[derive(Debug, Clone)]
pub struct TrackMetadata {
    pub title: Option<String>,
    pub artist: Option<String>,
    pub album: Option<String>,
    pub comment: Option<String>,
    pub genre: Option<String>,
    pub year: Option<i32>,
    pub track: Option<i32>,
    pub length: i32,
    pub bitrate: i32,
    pub samplerate: i32,
}

impl View for TrackMetadata {
    type V = MetadataView;

    open spec fn view(&self) -> MetadataView {
        MetadataView {
            title: self.title.deep_view(),
            artist: self.artist.deep_view(),
            album: self.album.deep_view(),
            comment: self.comment.deep_view(),
            genre: self.genre.deep_view(),
            year: self.year,
            track: self.track,
            length: self.length,
            bitrate: self.bitrate,
            samplerate: self.samplerate,
        }
    }
}

/// What the metadata extractor reports for one candidate path. `NotMedia`
/// is a normal outcome — the path is silently excluded from the catalog —
/// and a per-path read error is likewise absorbed: the path is skipped and
/// the scan continues.
#[derive(Debug, Clone)]
pub enum ExtractionOutcome {
    /// A readable media file: its tags and stream properties.
    Media(TrackMetadata),
    /// Not a readable media file; never enters the catalog.
    NotMedia,
    /// A per-path I/O-class extraction failure; skipped like `NotMedia`.
    ReadError,
}

/// The record a media outcome at `path` contributes to the insert batch.
pub open spec fn record_view_of(path: Seq<char>, m: MetadataView) -> RecordView {
    RecordView {
        path: path,
        title: m.title,
        artist: m.artist,
        album: m.album,
        comment: m.comment,
        genre: m.genre,
        year: m.year,
        track: m.track,
        length: m.length,
        bitrate: m.bitrate,
        samplerate: m.samplerate,
    }
}

/// The insert batch a scan builds: one record per candidate whose outcome
/// is media, in candidate order.
pub open spec fn media_records(cands: Seq<Seq<char>>, outs: Seq<ExtractionOutcome>) -> Seq<
    RecordView,
>
    recommends
        cands.len() == outs.len(),
    decreases cands.len(),
{
    if cands.len() == 0 || outs.len() == 0 {
        Seq::empty()
    } else {
        let rest = media_records(cands.drop_last(), outs.drop_last());
        match outs.last() {
            ExtractionOutcome::Media(m) => rest.push(record_view_of(cands.last(), m@)),
            _ => rest,
        }
    }
}

/// The tracks a scan leaves untouched: for a full rescan, every track of
/// other libraries; for an incremental scan, additionally this library's
/// tracks whose path was not scheduled for removal.
pub open spec fn scan_survivors(
    ts: Seq<TrackView>,
    library_id: i64,
    full_rescan: bool,
    removed: Seq<Seq<char>>,
) -> Seq<TrackView> {
    if full_rescan {
        ts.filter(|t: TrackView| t.library_id != library_id)
    } else {
        ts.filter(|t: TrackView| !(t.library_id == library_id && removed.contains(t.path)))
    }
}

/// The catalog's tracks after a scan commits: the survivors, followed by
/// one freshly inserted track per media candidate, with consecutive ids
/// starting at `base`.
pub open spec fn scan_tracks(
    ts: Seq<TrackView>,
    library_id: i64,
    full_rescan: bool,
    removed: Seq<Seq<char>>,
    cands: Seq<Seq<char>>,
    outs: Seq<ExtractionOutcome>,
    base: i64,
) -> Seq<TrackView> {
    scan_survivors(ts, library_id, full_rescan, removed) + inserted_tracks(
        library_id,
        base,
        media_records(cands, outs),
    )
}

/// What a scan decided before extraction: the mode, the stored paths to
/// remove, and the walked paths to hand to the extractor.
pub struct ScanPlan {
    pub full_rescan: bool,
    pub to_remove: Vec<String>,
    pub candidates: Vec<String>,
}

/// Diffs the walked path set against the stored path set of `library`.
///
/// For a full rescan nothing is scheduled for removal (the wipe happens at
/// commit) and every walked path, deduplicated, is a candidate. For an
/// incremental scan the stored paths missing from the walk are scheduled
/// for removal, and the walked paths not yet stored are the candidates;
/// paths both walked and stored are left untouched.
///
/// The sentinel ungrouped-tracks library has no filesystem root and is
/// never scanned.
pub fn plan_scan(
    store: &TrackStore,
    library: &Library,
    walked: &Vec<String>,
    full_rescan: bool,
) -> (plan: ScanPlan)
    requires
        wf(store@),
        library@.path != "NONE"@,
    ensures
        plan.full_rescan == full_rescan,
        views_distinct(path_views(plan.candidates@)),
        views_distinct(path_views(plan.to_remove@)),
        full_rescan ==> path_views(plan.to_remove@) == Seq::<Seq<char>>::empty()
            && path_views(plan.candidates@) == spec_dedup(path_views(walked@)),
        !full_rescan ==> path_views(plan.to_remove@) == spec_diff(
            lib_paths(store@.tracks, library@.id),
            path_views(walked@),
        ) && path_views(plan.candidates@) == spec_diff(
            spec_dedup(path_views(walked@)),
            lib_paths(store@.tracks, library@.id),
        ),
        !full_rescan ==> forall|k: int|
            0 <= k < plan.candidates@.len() ==> !lib_has_path(
                store@.tracks,
                library@.id,
                path_views(plan.candidates@)[k],
            ),
{
    let deduped = dedup_paths(walked);
    if full_rescan {
        let plan = ScanPlan { full_rescan, to_remove: Vec::new(), candidates: deduped };
        proof {
            assert(path_views(plan.to_remove@) =~= Seq::<Seq<char>>::empty());
        }
        plan
    } else {
        let stored = store.tracks_of(library.id());
        let to_remove = diff_paths(&stored, walked);
        let candidates = diff_paths(&deduped, &stored);
        let plan = ScanPlan { full_rescan, to_remove, candidates };
        proof {
            let tv = store@.tracks;
            let lid = library@.id;
            let pw = path_views(walked@);
            lemma_lib_paths_distinct(tv, lid);
            lemma_filter_distinct(
                lib_paths(tv, lid),
                |p: Seq<char>| !pw.contains(p),
            );
            lemma_dedup(pw);
            lemma_filter_distinct(
                spec_dedup(pw),
                |p: Seq<char>| !lib_paths(tv, lid).contains(p),
            );
            lemma_lib_paths_membership(tv, lid);
            lemma_filter_in_original(
                spec_dedup(pw),
                |p: Seq<char>| !lib_paths(tv, lid).contains(p),
            );
            let cv = path_views(plan.candidates@);
            assert forall|k: int| 0 <= k < cv.len() implies !lib_has_path(tv, lid, cv[k]) by {
                assert(cv.contains(cv[k]));
                assert(!lib_paths(tv, lid).contains(cv[k]));
            }
        }
        plan
    }
}

/// Applies a planned scan, given the extraction outcome for each candidate
/// (in candidate order): deletes what the plan scheduled — for a full
/// rescan, everything the library holds — cascading over playlist
/// memberships, and inserts one track per media candidate as a single
/// batch. Returns the removed paths.
pub fn commit_scan(
    store: &mut TrackStore,
    library: &Library,
    plan: ScanPlan,
    outcomes: Vec<ExtractionOutcome>,
) -> (removed: Vec<String>)
    requires
        wf(old(store)@),
        lib_id_exists(old(store)@.libraries, library@.id),
        outcomes@.len() == plan.candidates@.len(),
        views_distinct(path_views(plan.candidates@)),
        plan.full_rescan ==> plan.to_remove@.len() == 0,
        !plan.full_rescan ==> forall|k: int|
            0 <= k < plan.candidates@.len() ==> !lib_has_path(
                old(store)@.tracks,
                library@.id,
                path_views(plan.candidates@)[k],
            ),
        old(store)@.next_track_id + plan.candidates@.len() <= i64::MAX,
    ensures
        wf(final(store)@),
        final(store)@.libraries == old(store)@.libraries,
        final(store)@.next_library_id == old(store)@.next_library_id,
        final(store)@.tracks == scan_tracks(
            old(store)@.tracks,
            library@.id,
            plan.full_rescan,
            path_views(plan.to_remove@),
            path_views(plan.candidates@),
            outcomes@,
            old(store)@.next_track_id,
        ),
        final(store)@.memberships == old(store)@.memberships.filter(
            (|m: PlaylistEntry| track_id_exists(final(store)@.tracks, m.track_id)),
        ),
        removed@ == plan.to_remove@,
{
    let ghost pre = store@;
    let ghost lid = library@.id;
    let ghost pc = path_views(plan.candidates@);
    let ghost po = outcomes@;
    let ghost rm = path_views(plan.to_remove@);
    let ScanPlan { full_rescan, to_remove, candidates } = plan;

    if full_rescan {
        store.delete_all_tracks(library.id());
    } else {
        store.delete_tracks_by_path(library.id(), &to_remove);
    }
    let ghost mid = store@;
    proof {
        if full_rescan {
            assert(mid.tracks == scan_survivors(pre.tracks, lid, full_rescan, rm));
        } else {
            let dpred = |t: TrackView| !(t.library_id == lid && path_views(to_remove@).contains(
                t.path,
            ));
            let spred = |t: TrackView| !(t.library_id == lid && rm.contains(t.path));
            assert forall|t: TrackView| pre.tracks.contains(t) implies (dpred(t) <==> spred(
                t,
            )) by {}
            lemma_filter_congruent(pre.tracks, dpred, spred);
            assert(mid.tracks == scan_survivors(pre.tracks, lid, full_rescan, rm));
        }
    }

    // Build the insert batch: one record per media candidate, in order.
    let mut records: Vec<TrackRecord> = Vec::new();
    let mut cands = candidates;
    let mut outs = outcomes;
    proof {
        assert(pc.take(0) =~= Seq::<Seq<char>>::empty());
        assert(po.take(0) =~= Seq::<ExtractionOutcome>::empty());
        assert(records@.map_values(|r: TrackRecord| r@) =~= media_records(
            pc.take(0),
            po.take(0),
        ));
        assert(path_views(cands@) =~= pc.skip(0));
        assert(outs@ =~= po.skip(0));
    }
    while cands.len() > 0
        invariant
            store@ == mid,
            pc.len() == po.len(),
            cands@.len() == outs@.len(),
            cands@.len() <= pc.len(),
            path_views(cands@) == pc.skip(pc.len() - cands@.len()),
            outs@ == po.skip(pc.len() - cands@.len()),
            records@.map_values(|r: TrackRecord| r@) == media_records(
                pc.take(pc.len() - cands@.len()),
                po.take(pc.len() - cands@.len()),
            ),
            records@.len() <= pc.len() - cands@.len(),
        decreases cands@.len(),
    {
        let ghost i = pc.len() - cands@.len();
        let ghost cands_pre = cands@;
        let ghost outs_pre = outs@;
        let p = cands.remove(0);
        let o = outs.remove(0);
        proof {
            cands_pre.remove_ensures(0);
            outs_pre.remove_ensures(0);
            assert(path_views(cands_pre)[0] == pc.skip(i as int)[0]);
            assert(p@ == pc[i as int]);
            assert(o == po.skip(i as int)[0]);
            assert(o == po[i as int]);
            assert forall|kk: int| #![trigger pc.skip(i + 1)[kk]]
                0 <= kk < cands@.len() implies path_views(cands@)[kk] == pc.skip(i + 1)[kk] by {
                assert(cands@[kk] == cands_pre[kk + 1]);
                assert(path_views(cands_pre)[kk + 1] == cands_pre[kk + 1]@);
                assert(pc.skip(i as int)[kk + 1] == pc[i + 1 + kk]);
            }
            assert(path_views(cands@) =~= pc.skip(i + 1));
            assert forall|kk: int| 0 <= kk < outs@.len() implies outs@[kk] == po.skip(i + 1)[kk] by {
                assert(outs@[kk] == outs_pre[kk + 1]);
                assert(po.skip(i as int)[kk + 1] == po[i + 1 + kk]);
            }
            assert(outs@ =~= po.skip(i + 1));
            assert(pc.take(i + 1).drop_last() =~= pc.take(i as int));
            assert(po.take(i + 1).drop_last() =~= po.take(i as int));
            assert(pc.take(i + 1).last() == pc[i as int]);
            assert(po.take(i + 1).last() == po[i as int]);
        }
        let ghost records_pre = records@;
        match o {
            ExtractionOutcome::Media(m) => {
                let rec = TrackRecord {
                    path: p,
                    title: m.title,
                    artist: m.artist,
                    album: m.album,
                    comment: m.comment,
                    genre: m.genre,
                    year: m.year,
                    track: m.track,
                    length: m.length,
                    bitrate: m.bitrate,
                    samplerate: m.samplerate,
                };
                records.push(rec);
                proof {
                    assert(records@.map_values(|r: TrackRecord| r@) =~= records_pre.map_values(
                        |r: TrackRecord| r@,
                    ).push(record_view_of(pc[i as int], m@)));
                    assert(records@.map_values(|r: TrackRecord| r@) =~= media_records(
                        pc.take(i + 1),
                        po.take(i + 1),
                    ));
                }
            },
            _ => {
                proof {
                    assert(records@.map_values(|r: TrackRecord| r@) =~= media_records(
                        pc.take(i + 1),
                        po.take(i + 1),
                    ));
                }
            },
        }
    }
    proof {
        assert(pc.take(pc.len() as int) =~= pc);
        assert(po.take(po.len() as int) =~= po);
    }

    // The batch is conflict-free by construction, so the insert succeeds.
    let ghost mrecs = media_records(pc, po);
    proof {
        lemma_media_record_paths(pc, po);
        let recs = records@.map_values(|r: TrackRecord| r@);
        assert(recs == mrecs);
        assert forall|k: int| 0 <= k < recs.len() implies !record_conflict(
            mid.tracks,
            lid,
            recs,
            k,
        ) by {
            let i = choose|i: int|
                0 <= i < pc.len() && pc[i] == (#[trigger] mrecs[k]).path && po[i] is Media;
            if full_rescan {
                if lib_has_path(mid.tracks, lid, recs[k].path) {
                    let a = choose|a: int|
                        0 <= a < mid.tracks.len() && mid.tracks[a].library_id == lid
                            && mid.tracks[a].path == recs[k].path;
                    assert(mid.tracks.contains(mid.tracks[a]));
                    lemma_filter_in_original(
                        pre.tracks,
                        |t: TrackView| t.library_id != lid,
                    );
                    assert(false);
                }
            } else {
                assert(!lib_has_path(pre.tracks, lid, pc[i]));
                lemma_filter_keeps_no_path(
                    pre.tracks,
                    |t: TrackView| !(t.library_id == lid && rm.contains(t.path)),
                    lid,
                    pc[i],
                );
            }
            assert forall|j: int| 0 <= j < k implies (#[trigger] recs[j]).path != recs[k].path by {
                assert(mrecs[j].path != mrecs[k].path);
            }
        }
    }
    let insert_result = store.insert_tracks(library.id(), &records);
    proof {
        assert(records@.len() <= pc.len());
        assert(insert_result is Ok);
        assert(store@.tracks == mid.tracks + inserted_tracks(lid, mid.next_track_id, mrecs));
        assert(store@.tracks == scan_tracks(pre.tracks, lid, full_rescan, rm, pc, po,
            pre.next_track_id,
        ));

        // The membership rows that survived the cascade reference tracks
        // that also survive the insert.
        let mpred = |m: PlaylistEntry| track_id_exists(mid.tracks, m.track_id);
        let fpred = |m: PlaylistEntry| track_id_exists(store@.tracks, m.track_id);
        assert forall|m: PlaylistEntry| pre.memberships.contains(m) implies (mpred(m) <==> fpred(
            m,
        )) by {
            if mpred(m) {
                let a = choose|a: int|
                    0 <= a < mid.tracks.len() && mid.tracks[a].id == m.track_id;
                assert(store@.tracks[a] == mid.tracks[a]);
                assert(fpred(m));
            }
            if fpred(m) {
                let a = choose|a: int|
                    0 <= a < store@.tracks.len() && store@.tracks[a].id == m.track_id;
                if a < mid.tracks.len() {
                    assert(mpred(m));
                } else {
                    let b = choose|b: int| 0 <= b < pre.memberships.len() && pre.memberships[b] == m;
                    assert(track_id_exists(pre.tracks, m.track_id));
                    let c = choose|c: int|
                        0 <= c < pre.tracks.len() && pre.tracks[c].id == m.track_id;
                    assert(pre.tracks[c].id < pre.next_track_id);
                    assert(store@.tracks[a].id >= mid.next_track_id);
                    assert(false);
                }
            }
        }
        lemma_filter_congruent(pre.memberships, mpred, fpred);
    }
    to_remove
}

/// Whether some candidate is this path with a media outcome.
pub open spec fn media_candidate(
    cands: Seq<Seq<char>>,
    outs: Seq<ExtractionOutcome>,
    p: Seq<char>,
) -> bool {
    exists|i: int| 0 <= i < cands.len() && cands[i] == p && outs[i] is Media
}

/// Whether some record of a batch has this path.
pub open spec fn batch_has_path(recs: Seq<RecordView>, p: Seq<char>) -> bool {
    exists|k: int| 0 <= k < recs.len() && (#[trigger] recs[k]).path == p
}

/// The batch a scan builds has one record per media candidate: its paths
/// are candidate paths with a media outcome — each at most once when the
/// candidates are distinct — and every media candidate's path appears.
pub proof fn lemma_media_record_paths(cands: Seq<Seq<char>>, outs: Seq<ExtractionOutcome>)
    requires
        cands.len() == outs.len(),
        views_distinct(cands),
    ensures
        media_records(cands, outs).len() <= cands.len(),
        forall|k: int|
            0 <= k < media_records(cands, outs).len() ==> exists|i: int|
                0 <= i < cands.len() && cands[i] == (#[trigger] media_records(cands, outs)[k]).path
                    && outs[i] is Media,
        forall|k1: int, k2: int|
            0 <= k1 < k2 < media_records(cands, outs).len() ==> (#[trigger] media_records(
                cands,
                outs,
            )[k1]).path != (#[trigger] media_records(cands, outs)[k2]).path,
        forall|p: Seq<char>|
            #[trigger] batch_has_path(media_records(cands, outs), p) <==> media_candidate(
                cands,
                outs,
                p,
            ),
    decreases cands.len(),
{
    let mr = media_records(cands, outs);
    if cands.len() == 0 {
    } else {
        let cr = cands.drop_last();
        let or = outs.drop_last();
        assert(views_distinct(cr));
        lemma_media_record_paths(cr, or);
        let rest = media_records(cr, or);
        assert forall|k: int|
            0 <= k < mr.len() implies exists|i: int|
                0 <= i < cands.len() && cands[i] == (#[trigger] mr[k]).path && outs[i]
                    is Media by {
            if k < rest.len() {
                assert(mr[k] == rest[k]);
                let i = choose|i: int|
                    0 <= i < cr.len() && cr[i] == (#[trigger] rest[k]).path && or[i] is Media;
                assert(cands[i] == mr[k].path && outs[i] is Media);
            } else {
                assert(outs.last() is Media);
                assert(mr[k].path == cands.last());
                assert(cands[cands.len() - 1] == mr[k].path && outs[cands.len() - 1] is Media);
            }
        }
        assert forall|k1: int, k2: int|
            0 <= k1 < k2 < mr.len() implies (#[trigger] mr[k1]).path != (
        #[trigger] mr[k2]).path by {
            if k2 < rest.len() {
                assert(mr[k1] == rest[k1] && mr[k2] == rest[k2]);
            } else {
                assert(mr[k1] == rest[k1]);
                let i = choose|i: int|
                    0 <= i < cr.len() && cr[i] == (#[trigger] rest[k1]).path && or[i] is Media;
                assert(cands[i] == mr[k1].path);
                assert(mr[k2].path == cands.last());
                assert(cands[cands.len() - 1] == cands.last());
                assert(cands[i] != cands[cands.len() - 1]);
            }
        }
        assert forall|p: Seq<char>|
            #[trigger] batch_has_path(mr, p) <==> media_candidate(cands, outs, p) by {
            if batch_has_path(mr, p) {
                let k = choose|k: int| 0 <= k < mr.len() && (#[trigger] mr[k]).path == p;
                if k < rest.len() {
                    assert(rest[k].path == p);
                    assert(batch_has_path(rest, p));
                    assert(media_candidate(cr, or, p));
                    let i = choose|i: int| 0 <= i < cr.len() && cr[i] == p && or[i] is Media;
                    assert(cands[i] == p && outs[i] is Media);
                    assert(media_candidate(cands, outs, p));
                } else {
                    assert(outs.last() is Media);
                    assert(cands[cands.len() - 1] == p && outs[cands.len() - 1] is Media);
                    assert(media_candidate(cands, outs, p));
                }
            }
            if media_candidate(cands, outs, p) {
                let i = choose|i: int| 0 <= i < cands.len() && cands[i] == p && outs[i] is Media;
                if i < cands.len() - 1 {
                    assert(cr[i] == p && or[i] is Media);
                    assert(media_candidate(cr, or, p));
                    assert(batch_has_path(rest, p));
                    let k = choose|k: int| 0 <= k < rest.len() && (#[trigger] rest[k]).path == p;
                    assert(mr[k] == rest[k]);
                    assert(batch_has_path(mr, p));
                } else {
                    assert(outs.last() is Media);
                    assert(mr[mr.len() - 1].path == cands.last());
                    assert(batch_has_path(mr, p));
                }
            }
        }
    }
}

/// A batch with no media outcome is empty.
proof fn lemma_media_records_empty(cands: Seq<Seq<char>>, outs: Seq<ExtractionOutcome>)
    requires
        cands.len() == outs.len(),
        forall|i: int| 0 <= i < outs.len() ==> !((#[trigger] outs[i]) is Media),
    ensures
        media_records(cands, outs) == Seq::<RecordView>::empty(),
    decreases cands.len(),
{
    if cands.len() == 0 {
        assert(media_records(cands, outs) =~= Seq::<RecordView>::empty());
    } else {
        assert(forall|i: int|
            0 <= i < outs.drop_last().len() ==> !((#[trigger] outs.drop_last()[i]) is Media));
        lemma_media_records_empty(cands.drop_last(), outs.drop_last());
        assert(outs[outs.len() - 1] == outs.last());
        assert(!(outs.last() is Media));
    }
}

/// After a scan commits, the library holds a path exactly when either an
/// untouched track held it, or a media candidate contributed it.
pub proof fn lemma_scan_track_paths(
    ts: Seq<TrackView>,
    library_id: i64,
    full_rescan: bool,
    removed: Seq<Seq<char>>,
    cands: Seq<Seq<char>>,
    outs: Seq<ExtractionOutcome>,
    base: i64,
)
    requires
        cands.len() == outs.len(),
    ensures
        forall|p: Seq<char>|
            #[trigger] lib_has_path(
                scan_tracks(ts, library_id, full_rescan, removed, cands, outs, base),
                library_id,
                p,
            ) <==> ((lib_has_path(ts, library_id, p) && !full_rescan && !removed.contains(p))
                || media_candidate(cands, outs, p)),
{
    let surv = scan_survivors(ts, library_id, full_rescan, removed);
    let mr = media_records(cands, outs);
    let added = inserted_tracks(library_id, base, mr);
    let post = scan_tracks(ts, library_id, full_rescan, removed, cands, outs, base);
    let fpred = |t: TrackView| t.library_id != library_id;
    let ipred = |t: TrackView| !(t.library_id == library_id && removed.contains(t.path));
    lemma_filter_in_original(ts, fpred);
    lemma_filter_in_original(ts, ipred);
    lemma_media_paths_iff(cands, outs);
    assert forall|p: Seq<char>|
        #[trigger] lib_has_path(post, library_id, p) <==> ((lib_has_path(ts, library_id, p)
            && !full_rescan && !removed.contains(p)) || media_candidate(cands, outs, p)) by {
        if lib_has_path(post, library_id, p) {
            let k = choose|k: int|
                0 <= k < post.len() && post[k].library_id == library_id && post[k].path == p;
            if k < surv.len() {
                assert(post[k] == surv[k]);
                assert(surv.contains(surv[k]));
                if full_rescan {
                    assert(fpred(surv[k]));
                    assert(false);
                } else {
                    assert(ipred(surv[k]));
                    assert(!removed.contains(p));
                    let a = choose|a: int| 0 <= a < ts.len() && ts[a] == surv[k];
                    assert(lib_has_path(ts, library_id, p));
                }
            } else {
                assert(post[k] == added[k - surv.len()]);
                assert(added[k - surv.len()].path == mr[k - surv.len()].path);
                assert(batch_has_path(mr, p));
                assert(media_candidate(cands, outs, p));
            }
        }
        if lib_has_path(ts, library_id, p) && !full_rescan && !removed.contains(p) {
            let i = choose|i: int|
                0 <= i < ts.len() && ts[i].library_id == library_id && ts[i].path == p;
            assert(ipred(ts[i]));
            ts.lemma_filter_contains(ipred, i);
            let j = choose|j: int| 0 <= j < surv.len() && surv[j] == ts[i];
            assert(post[j] == surv[j]);
            assert(lib_has_path(post, library_id, p));
        }
        if media_candidate(cands, outs, p) {
            assert(batch_has_path(mr, p));
            let k = choose|k: int| 0 <= k < mr.len() && (#[trigger] mr[k]).path == p;
            assert(added[k].library_id == library_id && added[k].path == p);
            assert(post[surv.len() + k] == added[k]);
            assert(lib_has_path(post, library_id, p));
        }
    }
}

/// The batch holds a path exactly when some candidate is that path with a
/// media outcome — with no distinctness assumption on the candidates.
proof fn lemma_media_paths_iff(cands: Seq<Seq<char>>, outs: Seq<ExtractionOutcome>)
    requires
        cands.len() == outs.len(),
    ensures
        forall|p: Seq<char>|
            #[trigger] batch_has_path(media_records(cands, outs), p) <==> media_candidate(
                cands,
                outs,
                p,
            ),
    decreases cands.len(),
{
    let mr = media_records(cands, outs);
    if cands.len() == 0 {
    } else {
        let cr = cands.drop_last();
        let or = outs.drop_last();
        lemma_media_paths_iff(cr, or);
        let rest = media_records(cr, or);
        assert forall|p: Seq<char>|
            #[trigger] batch_has_path(mr, p) <==> media_candidate(cands, outs, p) by {
            if batch_has_path(mr, p) {
                let k = choose|k: int| 0 <= k < mr.len() && (#[trigger] mr[k]).path == p;
                if k < rest.len() {
                    assert(rest[k].path == p);
                    assert(batch_has_path(rest, p));
                    assert(media_candidate(cr, or, p));
                    let i = choose|i: int| 0 <= i < cr.len() && cr[i] == p && or[i] is Media;
                    assert(cands[i] == p && outs[i] is Media);
                    assert(media_candidate(cands, outs, p));
                } else {
                    assert(outs.last() is Media);
                    assert(cands[cands.len() - 1] == p && outs[cands.len() - 1] is Media);
                    assert(media_candidate(cands, outs, p));
                }
            }
            if media_candidate(cands, outs, p) {
                let i = choose|i: int| 0 <= i < cands.len() && cands[i] == p && outs[i] is Media;
                if i < cands.len() - 1 {
                    assert(cr[i] == p && or[i] is Media);
                    assert(media_candidate(cr, or, p));
                    assert(batch_has_path(rest, p));
                    let k = choose|k: int| 0 <= k < rest.len() && (#[trigger] rest[k]).path == p;
                    assert(mr[k] == rest[k]);
                    assert(batch_has_path(mr, p));
                } else {
                    assert(outs.last() is Media);
                    assert(mr[mr.len() - 1].path == cands.last());
                    assert(batch_has_path(mr, p));
                }
            }
        }
    }
}

/// The outcome the extractor, modelled as a per-path map, reports for each
/// candidate.
pub open spec fn ext_outcomes(
    cands: Seq<Seq<char>>,
    ext: Map<Seq<char>, ExtractionOutcome>,
) -> Seq<ExtractionOutcome> {
    cands.map_values(|p: Seq<char>| ext[p])
}

/// The catalog's tracks after an incremental scan that walked `walked` and
/// extracted each candidate according to `ext`: exactly what `plan_scan`
/// and `commit_scan` produce together.
pub open spec fn incremental_scan(
    ts: Seq<TrackView>,
    library_id: i64,
    walked: Seq<Seq<char>>,
    ext: Map<Seq<char>, ExtractionOutcome>,
    base: i64,
) -> Seq<TrackView> {
    let stored = lib_paths(ts, library_id);
    let missing = spec_diff(stored, walked);
    let cands = spec_diff(spec_dedup(walked), stored);
    scan_tracks(ts, library_id, false, missing, cands, ext_outcomes(cands, ext), base)
}

/// The catalog's tracks after a full rescan that walked `walked`.
pub open spec fn full_scan(
    ts: Seq<TrackView>,
    library_id: i64,
    walked: Seq<Seq<char>>,
    ext: Map<Seq<char>, ExtractionOutcome>,
    base: i64,
) -> Seq<TrackView> {
    let cands = spec_dedup(walked);
    scan_tracks(ts, library_id, true, Seq::empty(), cands, ext_outcomes(cands, ext), base)
}

/// Incremental scans are idempotent: with no filesystem change between
/// runs — the same walked path set, and the same per-path extraction
/// outcome — the second scan schedules nothing for removal and leaves the
/// catalog's tracks exactly as the first scan left them.
pub proof fn lemma_incremental_scan_idempotent(
    ts: Seq<TrackView>,
    library_id: i64,
    walked: Seq<Seq<char>>,
    ext: Map<Seq<char>, ExtractionOutcome>,
    base1: i64,
    base2: i64,
)
    ensures
        ({
            let ts1 = incremental_scan(ts, library_id, walked, ext, base1);
            &&& spec_diff(lib_paths(ts1, library_id), walked) == Seq::<Seq<char>>::empty()
            &&& incremental_scan(ts1, library_id, walked, ext, base2) == ts1
        }),
{
    let stored0 = lib_paths(ts, library_id);
    let missing1 = spec_diff(stored0, walked);
    let cands1 = spec_diff(spec_dedup(walked), stored0);
    let outs1 = ext_outcomes(cands1, ext);
    let ts1 = scan_tracks(ts, library_id, false, missing1, cands1, outs1, base1);
    lemma_dedup(walked);
    lemma_scan_track_paths(ts, library_id, false, missing1, cands1, outs1, base1);
    lemma_lib_paths_membership(ts, library_id);
    lemma_lib_paths_membership(ts1, library_id);
    lemma_diff_membership(stored0, walked);
    lemma_diff_membership(spec_dedup(walked), stored0);
    let stored1 = lib_paths(ts1, library_id);

    // Everything the first scan left in the library was walked.
    assert forall|p: Seq<char>| #[trigger] stored1.contains(p) implies walked.contains(p) by {
        assert(lib_has_path(ts1, library_id, p));
        if lib_has_path(ts, library_id, p) && !missing1.contains(p) {
            assert(stored0.contains(p));
            if !walked.contains(p) {
                assert(missing1.contains(p));
            }
        } else {
            assert(media_candidate(cands1, outs1, p));
            let i = choose|i: int| 0 <= i < cands1.len() && cands1[i] == p && outs1[i] is Media;
            assert(cands1.contains(p));
            assert(spec_dedup(walked).contains(p));
        }
    }

    // So the second scan finds nothing missing.
    let missing2 = spec_diff(stored1, walked);
    lemma_filter_none(stored1, |p: Seq<char>| !walked.contains(p));
    assert(missing2 == Seq::<Seq<char>>::empty());

    // And every remaining candidate already failed extraction.
    let cands2 = spec_diff(spec_dedup(walked), stored1);
    let outs2 = ext_outcomes(cands2, ext);
    lemma_diff_membership(spec_dedup(walked), stored1);
    assert forall|i: int| 0 <= i < outs2.len() implies !((#[trigger] outs2[i]) is Media) by {
        let p = cands2[i];
        assert(cands2.contains(p));
        assert(spec_dedup(walked).contains(p) && !stored1.contains(p));
        assert(walked.contains(p));
        assert(!lib_has_path(ts1, library_id, p));
        if ext[p] is Media {
            if stored0.contains(p) {
                assert(lib_has_path(ts, library_id, p));
                if missing1.contains(p) {
                    assert(!walked.contains(p));
                }
                assert(lib_has_path(ts1, library_id, p));
                assert(false);
            } else {
                assert(cands1.contains(p));
                let j = choose|j: int| 0 <= j < cands1.len() && cands1[j] == p;
                assert(outs1[j] == ext[p]);
                assert(media_candidate(cands1, outs1, p));
                assert(lib_has_path(ts1, library_id, p));
                assert(false);
            }
        }
        assert(outs2[i] == ext[p]);
    }
    lemma_media_records_empty(cands2, outs2);

    // Nothing removed, nothing added: the catalog stands still.
    let spred2 = |t: TrackView| !(t.library_id == library_id && missing2.contains(t.path));
    assert forall|t: TrackView| ts1.contains(t) implies spred2(t) by {
        assert(!missing2.contains(t.path));
    }
    lemma_filter_all(ts1, spred2);
    assert(inserted_tracks(library_id, base2, media_records(cands2, outs2)).len() == 0);
    assert(scan_tracks(ts1, library_id, false, missing2, cands2, outs2, base2) =~= ts1);
}

/// Convergence: after a scan of a library whose root holds exactly the
/// walked paths, the library's catalog holds exactly the walked paths the
/// extractor reports as media. For an incremental scan this holds provided
/// the walked paths already stored still extract as media — stored tracks
/// both walked and kept are deliberately not re-extracted.
pub proof fn lemma_scan_convergence(
    ts: Seq<TrackView>,
    library_id: i64,
    walked: Seq<Seq<char>>,
    ext: Map<Seq<char>, ExtractionOutcome>,
    base: i64,
    full_rescan: bool,
)
    requires
        !full_rescan ==> forall|p: Seq<char>|
            (#[trigger] lib_has_path(ts, library_id, p)) && #[trigger] walked.contains(p)
                ==> ext[p] is Media,
    ensures
        ({
            let post = if full_rescan {
                full_scan(ts, library_id, walked, ext, base)
            } else {
                incremental_scan(ts, library_id, walked, ext, base)
            };
            forall|p: Seq<char>|
                #[trigger] lib_has_path(post, library_id, p) <==> (walked.contains(p) && ext[p]
                    is Media)
        }),
{
    let stored0 = lib_paths(ts, library_id);
    lemma_dedup(walked);
    lemma_lib_paths_membership(ts, library_id);
    if full_rescan {
        let cands = spec_dedup(walked);
        let outs = ext_outcomes(cands, ext);
        let post = full_scan(ts, library_id, walked, ext, base);
        lemma_scan_track_paths(ts, library_id, true, Seq::empty(), cands, outs, base);
        assert forall|p: Seq<char>|
            #[trigger] lib_has_path(post, library_id, p) <==> (walked.contains(p) && ext[p]
                is Media) by {
            if lib_has_path(post, library_id, p) {
                assert(media_candidate(cands, outs, p));
                let i = choose|i: int| 0 <= i < cands.len() && cands[i] == p && outs[i] is Media;
                assert(cands.contains(p));
                assert(outs[i] == ext[p]);
            }
            if walked.contains(p) && ext[p] is Media {
                assert(cands.contains(p));
                let i = choose|i: int| 0 <= i < cands.len() && cands[i] == p;
                assert(outs[i] == ext[p]);
                assert(media_candidate(cands, outs, p));
            }
        }
    } else {
        let missing = spec_diff(stored0, walked);
        let cands = spec_diff(spec_dedup(walked), stored0);
        let outs = ext_outcomes(cands, ext);
        let post = incremental_scan(ts, library_id, walked, ext, base);
        lemma_scan_track_paths(ts, library_id, false, missing, cands, outs, base);
        lemma_diff_membership(stored0, walked);
        lemma_diff_membership(spec_dedup(walked), stored0);
        assert forall|p: Seq<char>|
            #[trigger] lib_has_path(post, library_id, p) <==> (walked.contains(p) && ext[p]
                is Media) by {
            if lib_has_path(post, library_id, p) {
                if lib_has_path(ts, library_id, p) && !missing.contains(p) {
                    assert(stored0.contains(p));
                    if !walked.contains(p) {
                        assert(missing.contains(p));
                    }
                    assert(ext[p] is Media);
                } else {
                    assert(media_candidate(cands, outs, p));
                    let i = choose|i: int|
                        0 <= i < cands.len() && cands[i] == p && outs[i] is Media;
                    assert(cands.contains(p));
                    assert(spec_dedup(walked).contains(p));
                    assert(outs[i] == ext[p]);
                }
            }
            if walked.contains(p) && ext[p] is Media {
                if stored0.contains(p) {
                    assert(lib_has_path(ts, library_id, p));
                    if missing.contains(p) {
                        assert(!walked.contains(p));
                    }
                    assert(lib_has_path(post, library_id, p));
                } else {
                    assert(spec_dedup(walked).contains(p));
                    assert(cands.contains(p));
                    let i = choose|i: int| 0 <= i < cands.len() && cands[i] == p;
                    assert(outs[i] == ext[p]);
                    assert(media_candidate(cands, outs, p));
                }
            }
        }
    }
}

/// Full-rescan wipe: after a full rescan the library's tracks are exactly
/// the freshly inserted media candidates — none of the tracks the library
/// held before survives, whether or not its path was walked again.
pub proof fn lemma_full_rescan_wipe(
    ts: Seq<TrackView>,
    library_id: i64,
    walked: Seq<Seq<char>>,
    ext: Map<Seq<char>, ExtractionOutcome>,
    base: i64,
)
    requires
        base + spec_dedup(walked).len() <= i64::MAX,
    ensures
        ({
            let post = full_scan(ts, library_id, walked, ext, base);
            let cands = spec_dedup(walked);
            &&& post.filter((|t: TrackView| t.library_id == library_id)) == inserted_tracks(
                library_id,
                base,
                media_records(cands, ext_outcomes(cands, ext)),
            )
            &&& forall|k: int|
                0 <= k < post.len() && (#[trigger] post[k]).library_id == library_id
                    ==> post[k].id >= base
        }),
{
    let cands = spec_dedup(walked);
    let outs = ext_outcomes(cands, ext);
    let mr = media_records(cands, outs);
    lemma_dedup(walked);
    lemma_media_record_paths(cands, outs);
    assert(mr.len() <= cands.len());
    let surv = ts.filter(|t: TrackView| t.library_id != library_id);
    let added = inserted_tracks(library_id, base, mr);
    let post = full_scan(ts, library_id, walked, ext, base);
    assert(post == surv + added);
    let inpred = |t: TrackView| t.library_id == library_id;
    Seq::filter_distributes_over_add(surv, added, inpred);
    lemma_filter_in_original(ts, |t: TrackView| t.library_id != library_id);
    assert forall|t: TrackView| surv.contains(t) implies !inpred(t) by {}
    lemma_filter_none(surv, inpred);
    assert forall|t: TrackView| added.contains(t) implies inpred(t) by {
        let k = choose|k: int| 0 <= k < added.len() && added[k] == t;
    }
    lemma_filter_all(added, inpred);
    assert(post.filter(inpred) =~= added);
    assert forall|k: int|
        0 <= k < post.len() && (#[trigger] post[k]).library_id == library_id implies post[k].id
        >= base by {
        if k < surv.len() {
            assert(surv.contains(surv[k]));
            assert(post[k] == surv[k]);
            assert(false);
        } else {
            assert(post[k] == added[k - surv.len()]);
        }
    }
}

/// Non-media skip: a walked path the extractor reports as `NotMedia` (and
/// that the library does not already hold) neither enters the catalog nor
/// is reported as removed, in either scan mode — it simply never existed
/// for the catalog.
pub proof fn lemma_non_media_skipped(
    ts: Seq<TrackView>,
    library_id: i64,
    walked: Seq<Seq<char>>,
    ext: Map<Seq<char>, ExtractionOutcome>,
    base: i64,
    full_rescan: bool,
    p: Seq<char>,
)
    requires
        walked.contains(p),
        ext[p] is NotMedia,
        !lib_has_path(ts, library_id, p),
    ensures
        ({
            let post = if full_rescan {
                full_scan(ts, library_id, walked, ext, base)
            } else {
                incremental_scan(ts, library_id, walked, ext, base)
            };
            !lib_has_path(post, library_id, p)
        }),
        !spec_diff(lib_paths(ts, library_id), walked).contains(p),
{
    let stored0 = lib_paths(ts, library_id);
    lemma_diff_membership(stored0, walked);
    let missing = spec_diff(stored0, walked);
    let cands = if full_rescan {
        spec_dedup(walked)
    } else {
        spec_diff(spec_dedup(walked), stored0)
    };
    let outs = ext_outcomes(cands, ext);
    if full_rescan {
        lemma_scan_track_paths(ts, library_id, true, Seq::empty(), cands, outs, base);
    } else {
        lemma_scan_track_paths(ts, library_id, false, missing, cands, outs, base);
    }
    let post = if full_rescan {
        full_scan(ts, library_id, walked, ext, base)
    } else {
        incremental_scan(ts, library_id, walked, ext, base)
    };
    if lib_has_path(post, library_id, p) {
        assert(media_candidate(cands, outs, p));
        let i = choose|i: int| 0 <= i < cands.len() && cands[i] == p && outs[i] is Media;
        assert(outs[i] == ext[p]);
        assert(false);
    }
}

} // verus!
