//! The catalog's record types: libraries, tracks, and the metadata a scan
//! extracts for a new track.
//!
//! Each executable type has a mathematical view (`LibraryView`, `TrackView`,
//! `RecordView`) over which every contract in the crate is stated.

use vstd::prelude::*;
use vstd::string::StringExecFns;

use crate::decimal::{i32_to_decimal, spec_i32_str};

verus! {

/// Mathematical image of a stored library record.
#[verifier::ext_equal]
pub ghost struct LibraryView {
    pub id: i64,
    pub path: Seq<char>,
    pub name: Seq<char>,
}

/// A named scan scope over a filesystem root. The root path `"NONE"` is the
/// sentinel for the ungrouped-tracks library, which has no root and is never
/// scanned.
#[derive(Debug, Clone)]
pub struct Library {
    pub(crate) id: i64,
    pub(crate) path: String,
    pub(crate) name: String,
}

impl View for Library {
    type V = LibraryView;

    closed spec fn view(&self) -> LibraryView {
        LibraryView { id: self.id, path: self.path@, name: self.name@ }
    }
}

impl Library {
    /// Returns the path of this library, or None for the 'Individual Tracks' library.
    pub fn path(&self) -> (r: Option<&String>)
        ensures
            self@.path == "NONE"@ ==> r is None,
            self@.path != "NONE"@ ==> (r matches Some(p) && p@ == self@.path),
    {
        let sentinel = String::from_str("NONE");
        if self.path == sentinel {
            None
        } else {
            Some(&self.path)
        }
    }

    pub fn name(&self) -> (r: &String)
        ensures
            r@ == self@.name,
    {
        &self.name
    }

    pub fn id(&self) -> (r: i64)
        ensures
            r == self@.id,
    {
        self.id
    }
}

/// Mathematical image of a stored track record.
#[verifier::ext_equal]
pub ghost struct TrackView {
    pub id: i64,
    pub library_id: i64,
    pub path: Seq<char>,
    pub title: Option<Seq<char>>,
    pub artist: Option<Seq<char>>,
    pub album: Option<Seq<char>>,
    pub comment: Option<Seq<char>>,
    pub genre: Option<Seq<char>>,
    pub year: Option<i32>,
    pub track: Option<i32>,
    pub length: i32,
    pub bitrate: i32,
    pub samplerate: i32,
    pub rating: Option<i32>,
}

/// A catalog record describing one media file: its canonical path, the tags
/// read from it, and its required stream properties.
#[derive(Debug, Clone)]
pub struct Track {
    pub(crate) id: i64,
    pub(crate) library_id: i64,
    pub(crate) path: String,
    pub(crate) title: Option<String>,
    pub(crate) artist: Option<String>,
    pub(crate) album: Option<String>,
    pub(crate) comment: Option<String>,
    pub(crate) genre: Option<String>,
    pub(crate) year: Option<i32>,
    pub(crate) track: Option<i32>,
    pub(crate) length: i32,
    pub(crate) bitrate: i32,
    pub(crate) samplerate: i32,
    pub(crate) rating: Option<i32>,
}

impl View for Track {
    type V = TrackView;

    closed spec fn view(&self) -> TrackView {
        TrackView {
            id: self.id,
            library_id: self.library_id,
            path: self.path@,
            title: self.title.deep_view(),
            artist: self.artist.deep_view(),
            album: self.album.deep_view(),
            comment: self.comment.deep_view(),
            genre: self.genre.deep_view(),
            year: self.year,
            track: self.track,
            length: self.length,
            bitrate: self.bitrate,
            samplerate: self.samplerate,
            rating: self.rating,
        }
    }
}

/// Lets the store's proofs relate a track value to its view without
/// unfolding the (closed) view function.
pub(crate) broadcast proof fn lemma_track_view(t: Track)
    ensures
        #[trigger] t@ == (TrackView {
            id: t.id,
            library_id: t.library_id,
            path: t.path@,
            title: t.title.deep_view(),
            artist: t.artist.deep_view(),
            album: t.album.deep_view(),
            comment: t.comment.deep_view(),
            genre: t.genre.deep_view(),
            year: t.year,
            track: t.track,
            length: t.length,
            bitrate: t.bitrate,
            samplerate: t.samplerate,
            rating: t.rating,
        }),
{
}

/// Lets the store's proofs relate a library value to its view without
/// unfolding the (closed) view function.
pub(crate) broadcast proof fn lemma_library_view(l: Library)
    ensures
        #[trigger] l@ == (LibraryView { id: l.id, path: l.path@, name: l.name@ }),
{
}

/// The view of an optional borrowed string.
pub open spec fn opt_str_view(o: Option<&str>) -> Option<Seq<char>> {
    match o {
        Some(s) => Some(s@),
        None => None,
    }
}

/// The string shown for an absent optional tag: the tag itself, or empty.
pub open spec fn opt_or_empty(o: Option<Seq<char>>) -> Seq<char> {
    match o {
        Some(s) => s,
        None => Seq::empty(),
    }
}

/// A column of the track table, as shown by the presentation layer.
#[derive(Debug, Copy, Clone, PartialEq, Eq, Structural)]
pub enum TrackField {
    Path,
    Title,
    Artist,
    Album,
    Comment,
    Genre,
    Year,
    Track,
    Length,
    Bitrate,
    Samplerate,
    Rating,
}

/// The string rendering of one field of a track: string tags render as
/// themselves (empty when absent), numeric fields render as decimal numerals
/// (empty when an optional one is absent), and an absent rating renders as
/// `-1`.
pub open spec fn spec_field_string(t: TrackView, field: TrackField) -> Seq<char> {
    match field {
        TrackField::Path => t.path,
        TrackField::Title => opt_or_empty(t.title),
        TrackField::Artist => opt_or_empty(t.artist),
        TrackField::Album => opt_or_empty(t.album),
        TrackField::Comment => opt_or_empty(t.comment),
        TrackField::Genre => opt_or_empty(t.genre),
        TrackField::Year => match t.year {
            Some(y) => spec_i32_str(y as int),
            None => Seq::empty(),
        },
        TrackField::Track => match t.track {
            Some(n) => spec_i32_str(n as int),
            None => Seq::empty(),
        },
        TrackField::Length => spec_i32_str(t.length as int),
        TrackField::Bitrate => spec_i32_str(t.bitrate as int),
        TrackField::Samplerate => spec_i32_str(t.samplerate as int),
        TrackField::Rating => match t.rating {
            Some(r) => spec_i32_str(r as int),
            None => spec_i32_str(-1),
        },
    }
}

/// Clones an optional string, keeping its view.
fn clone_opt_string(o: &Option<String>) -> (r: Option<String>)
    ensures
        r.deep_view() == o.deep_view(),
{
    match o {
        Some(s) => Some(s.clone()),
        None => None,
    }
}

/// Clones an optional string, replacing absence by the empty string.
fn opt_string_or_empty(o: &Option<String>) -> (r: String)
    ensures
        r@ == opt_or_empty(o.deep_view()),
{
    match o {
        Some(s) => s.clone(),
        None => String::new(),
    }
}

impl Track {
    pub fn get_field_as_string(&self, field: TrackField) -> (s: String)
        ensures
            s@ == spec_field_string(self@, field),
    {
        match field {
            TrackField::Path => self.path.clone(),
            TrackField::Title => opt_string_or_empty(&self.title),
            TrackField::Artist => opt_string_or_empty(&self.artist),
            TrackField::Album => opt_string_or_empty(&self.album),
            TrackField::Comment => opt_string_or_empty(&self.comment),
            TrackField::Genre => opt_string_or_empty(&self.genre),
            TrackField::Year => match self.year {
                Some(y) => i32_to_decimal(y),
                None => String::new(),
            },
            TrackField::Track => match self.track {
                Some(n) => i32_to_decimal(n),
                None => String::new(),
            },
            TrackField::Length => i32_to_decimal(self.length),
            TrackField::Bitrate => i32_to_decimal(self.bitrate),
            TrackField::Samplerate => i32_to_decimal(self.samplerate),
            TrackField::Rating => match self.rating {
                Some(r) => i32_to_decimal(r),
                None => i32_to_decimal(-1),
            },
        }
    }
}

impl Track {
    pub fn id(&self) -> (r: i64)
        ensures
            r == self@.id,
    {
        self.id
    }

    pub fn library_id(&self) -> (r: i64)
        ensures
            r == self@.library_id,
    {
        self.library_id
    }

    pub fn path(&self) -> (r: &str)
        ensures
            r@ == self@.path,
    {
        self.path.as_str()
    }

    pub fn title(&self) -> (r: Option<&str>)
        ensures
            opt_str_view(r) == self@.title,
    {
        match &self.title {
            Some(s) => Some(s.as_str()),
            None => None,
        }
    }

    pub fn artist(&self) -> (r: Option<&str>)
        ensures
            opt_str_view(r) == self@.artist,
    {
        match &self.artist {
            Some(s) => Some(s.as_str()),
            None => None,
        }
    }

    pub fn album(&self) -> (r: Option<&str>)
        ensures
            opt_str_view(r) == self@.album,
    {
        match &self.album {
            Some(s) => Some(s.as_str()),
            None => None,
        }
    }

    pub fn comment(&self) -> (r: Option<&str>)
        ensures
            opt_str_view(r) == self@.comment,
    {
        match &self.comment {
            Some(s) => Some(s.as_str()),
            None => None,
        }
    }

    pub fn genre(&self) -> (r: Option<&str>)
        ensures
            opt_str_view(r) == self@.genre,
    {
        match &self.genre {
            Some(s) => Some(s.as_str()),
            None => None,
        }
    }

    pub fn year(&self) -> (r: Option<i32>)
        ensures
            r == self@.year,
    {
        self.year
    }

    pub fn track(&self) -> (r: Option<i32>)
        ensures
            r == self@.track,
    {
        self.track
    }

    pub fn length(&self) -> (r: i32)
        ensures
            r == self@.length,
    {
        self.length
    }

    pub fn bitrate(&self) -> (r: i32)
        ensures
            r == self@.bitrate,
    {
        self.bitrate
    }

    pub fn samplerate(&self) -> (r: i32)
        ensures
            r == self@.samplerate,
    {
        self.samplerate
    }

    pub fn rating(&self) -> (r: Option<i32>)
        ensures
            r == self@.rating,
    {
        self.rating
    }
}

/// Mathematical image of the metadata extracted for one new track.
#[verifier::ext_equal]
pub ghost struct RecordView {
    pub path: Seq<char>,
    pub title: Option<Seq<char>>,
    pub artist: Option<Seq<char>>,
    pub album: Option<Seq<char>>,
    pub comment: Option<Seq<char>>,
    pub genre: Option<Seq<char>>,
    pub year: Option<i32>,
    pub track: Option<i32>,
    pub length: i32,
    pub bitrate: i32,
    pub samplerate: i32,
}

/// What a scan knows about one new media file before the store assigns an
/// id: the canonical path plus the extracted tags and stream properties.
/// The rating is never populated by scanning.
#[derive(Debug, Clone)]
pub struct TrackRecord {
    pub path: String,
    pub title: Option<String>,
    pub artist: Option<String>,
    pub album: Option<String>,
    pub comment: Option<String>,
    pub genre: Option<String>,
    pub year: Option<i32>,
    pub track: Option<i32>,
    pub length: i32,
    pub bitrate: i32,
    pub samplerate: i32,
}

impl View for TrackRecord {
    type V = RecordView;

    open spec fn view(&self) -> RecordView {
        RecordView {
            path: self.path@,
            title: self.title.deep_view(),
            artist: self.artist.deep_view(),
            album: self.album.deep_view(),
            comment: self.comment.deep_view(),
            genre: self.genre.deep_view(),
            year: self.year,
            track: self.track,
            length: self.length,
            bitrate: self.bitrate,
            samplerate: self.samplerate,
        }
    }
}

/// The track a store holding `record` under library `library_id` with the
/// fresh id `id` will contain.
pub open spec fn track_of(library_id: i64, id: i64, record: RecordView) -> TrackView {
    TrackView {
        id: id,
        library_id: library_id,
        path: record.path,
        title: record.title,
        artist: record.artist,
        album: record.album,
        comment: record.comment,
        genre: record.genre,
        year: record.year,
        track: record.track,
        length: record.length,
        bitrate: record.bitrate,
        samplerate: record.samplerate,
        rating: None,
    }
}

impl TrackRecord {
    /// Builds the track record the store persists for this metadata.
    pub(crate) fn into_track(&self, library_id: i64, id: i64) -> (t: Track)
        ensures
            t@ == track_of(library_id, id, self@),
    {
        Track {
            id: id,
            library_id: library_id,
            path: self.path.clone(),
            title: clone_opt_string(&self.title),
            artist: clone_opt_string(&self.artist),
            album: clone_opt_string(&self.album),
            comment: clone_opt_string(&self.comment),
            genre: clone_opt_string(&self.genre),
            year: self.year,
            track: self.track,
            length: self.length,
            bitrate: self.bitrate,
            samplerate: self.samplerate,
            rating: None,
        }
    }
}

} // verus!
