//! The data behind a track-list view: the catalog rows it shows and the
//! currently selected rows. The rendering itself is presentation-layer
//! work and lives outside this crate.

use vstd::prelude::*;

use crate::track::{Track, TrackView};

verus! {

/// Mathematical image of the track-list data.
#[verifier::ext_equal]
pub ghost struct TrackListView {
    pub tracks: Seq<TrackView>,
    pub selected_tracks: Seq<usize>,
}

/// The rows a track-list view displays, with the selected row indices.
pub struct TrackListData {
    tracks: Vec<Track>,
    selected_tracks: Vec<usize>,
}

impl View for TrackListData {
    type V = TrackListView;

    closed spec fn view(&self) -> TrackListView {
        TrackListView {
            tracks: self.tracks@.map_values(|t: Track| t@),
            selected_tracks: self.selected_tracks@,
        }
    }
}

impl TrackListData {
    /// A fresh list showing these tracks, with nothing selected.
    pub fn new(tracks: Vec<Track>) -> (d: TrackListData)
        ensures
            d@.tracks == tracks@.map_values(|t: Track| t@),
            d@.selected_tracks == Seq::<usize>::empty(),
    {
        let d = TrackListData { tracks, selected_tracks: Vec::new() };
        proof {
            assert(d@.selected_tracks =~= Seq::<usize>::empty());
        }
        d
    }

    /// The displayed tracks, in row order.
    pub fn tracks(&self) -> (r: &Vec<Track>)
        ensures
            r@.map_values(|t: Track| t@) == self@.tracks,
    {
        &self.tracks
    }

    /// The selected row indices.
    pub fn selected_tracks(&self) -> (r: &Vec<usize>)
        ensures
            r@ == self@.selected_tracks,
    {
        &self.selected_tracks
    }

    /// Replaces the selection by the single row `row`, as a click does.
    pub fn select_row(&mut self, row: usize)
        ensures
            final(self)@.tracks == old(self)@.tracks,
            final(self)@.selected_tracks == seq![row],
    {
        self.selected_tracks = Vec::new();
        self.selected_tracks.push(row);
        proof {
            assert(self@.selected_tracks =~= seq![row]);
        }
    }
}

} // verus!
