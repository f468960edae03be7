//! Transposing the song.
//!
//! Transposition is a parameter of the song; notes are not rewritten. Whatever
//! makes a pitch asks here whether its track follows, and which key sounds.

use crate::beat::{Beat, SIGN};
use crate::model::automation::{AutomationClip, AutomationLane, AutomationTarget, ModRouting};
use crate::model::lookup;
use crate::model::track_enable;
use crate::model::{LaneModel, Song, SongModel, TrackModel};
use crate::model;
use crate::song_index::params;
use crate::song_index::params::read_intervals;
use crate::song_index::ranges;
use crate::song_index::CoverIndex;
use vstd::prelude::*;

verus! {

/// How far a song is transposed at most, in semitones, up or down.
pub const TRANSPOSE_MAX_SEMITONES: i8 = 24;

/// The bit pattern of the double half a semitone below `n`, from 1 to 24.
pub open spec fn half_below(n: nat) -> u64 {
    if n == 1 {
        0x3fe0_0000_0000_0000
    } else if n == 2 {
        0x3ff8_0000_0000_0000
    } else if n == 3 {
        0x4004_0000_0000_0000
    } else if n == 4 {
        0x400c_0000_0000_0000
    } else if n == 5 {
        0x4012_0000_0000_0000
    } else if n == 6 {
        0x4016_0000_0000_0000
    } else if n == 7 {
        0x401a_0000_0000_0000
    } else if n == 8 {
        0x401e_0000_0000_0000
    } else if n == 9 {
        0x4021_0000_0000_0000
    } else if n == 10 {
        0x4023_0000_0000_0000
    } else if n == 11 {
        0x4025_0000_0000_0000
    } else if n == 12 {
        0x4027_0000_0000_0000
    } else if n == 13 {
        0x4029_0000_0000_0000
    } else if n == 14 {
        0x402b_0000_0000_0000
    } else if n == 15 {
        0x402d_0000_0000_0000
    } else if n == 16 {
        0x402f_0000_0000_0000
    } else if n == 17 {
        0x4030_8000_0000_0000
    } else if n == 18 {
        0x4031_8000_0000_0000
    } else if n == 19 {
        0x4032_8000_0000_0000
    } else if n == 20 {
        0x4033_8000_0000_0000
    } else if n == 21 {
        0x4034_8000_0000_0000
    } else if n == 22 {
        0x4035_8000_0000_0000
    } else if n == 23 {
        0x4036_8000_0000_0000
    } else {
        0x4037_8000_0000_0000
    }
}

fn half_before(n: u64) -> (r: u64)
    requires
        1 <= n <= 24,
    ensures
        r == half_below(n as nat),
{
    if n == 1 {
        0x3fe0_0000_0000_0000
    } else if n == 2 {
        0x3ff8_0000_0000_0000
    } else if n == 3 {
        0x4004_0000_0000_0000
    } else if n == 4 {
        0x400c_0000_0000_0000
    } else if n == 5 {
        0x4012_0000_0000_0000
    } else if n == 6 {
        0x4016_0000_0000_0000
    } else if n == 7 {
        0x401a_0000_0000_0000
    } else if n == 8 {
        0x401e_0000_0000_0000
    } else if n == 9 {
        0x4021_0000_0000_0000
    } else if n == 10 {
        0x4023_0000_0000_0000
    } else if n == 11 {
        0x4025_0000_0000_0000
    } else if n == 12 {
        0x4027_0000_0000_0000
    } else if n == 13 {
        0x4029_0000_0000_0000
    } else if n == 14 {
        0x402b_0000_0000_0000
    } else if n == 15 {
        0x402d_0000_0000_0000
    } else if n == 16 {
        0x402f_0000_0000_0000
    } else if n == 17 {
        0x4030_8000_0000_0000
    } else if n == 18 {
        0x4031_8000_0000_0000
    } else if n == 19 {
        0x4032_8000_0000_0000
    } else if n == 20 {
        0x4033_8000_0000_0000
    } else if n == 21 {
        0x4034_8000_0000_0000
    } else if n == 22 {
        0x4035_8000_0000_0000
    } else if n == 23 {
        0x4036_8000_0000_0000
    } else {
        0x4037_8000_0000_0000
    }
}

/// The whole number up to `n` that is nearest to a number with the given magnitude,
/// the larger one if two are as near: the largest that is no more than half above it.
pub open spec fn nearest(magnitude: u64, n: nat) -> nat
    decreases n,
{
    if n == 0 {
        0
    } else if half_below(n) <= magnitude {
        n
    } else {
        nearest(magnitude, (n - 1) as nat)
    }
}

/// What a number is as a transposition in whole semitones: the nearest, within
/// bounds; zero if it is no number or beyond all.
pub open spec fn quantized(plain: Beat) -> i32 {
    if !plain.is_finite() {
        0
    } else if plain.bits >= SIGN {
        -(nearest(plain.magnitude(), TRANSPOSE_MAX_SEMITONES as nat) as int) as i32
    } else {
        nearest(plain.magnitude(), TRANSPOSE_MAX_SEMITONES as nat) as i32
    }
}

/// A number as a transposition in whole semitones, see [`quantized`].
pub fn quantize_transpose(plain: Beat) -> (r: i32)
    ensures
        r == quantized(plain),
        -(TRANSPOSE_MAX_SEMITONES as int) <= r <= TRANSPOSE_MAX_SEMITONES,
{
    if !plain.is_finite() {
        return 0;
    }
    let m: u64 = plain.magnitude();
    let mut n: u64 = 24;
    while n > 0 && half_before(n) > m
        invariant
            n <= 24,
            nearest(m, 24) == nearest(m, n as nat),
        decreases n,
    {
        n -= 1;
    }
    let steps: i32 = n as i32;
    if plain.bits >= SIGN {
        -steps
    } else {
        steps
    }
}

/// The key that sounds, if it is one of the 128 there are. Keys beyond do not
/// sound: moved to the nearest they would collide with other notes.
pub open spec fn key_of(pitch: u8, semitones: i32) -> Option<u8> {
    if 0 <= pitch + semitones <= 127 {
        Some((pitch + semitones) as u8)
    } else {
        None
    }
}

/// The key that sounds when `pitch` is transposed, see [`key_of`].
pub fn sounding_key(pitch: u8, semitones: i32) -> (r: Option<u8>)
    ensures
        r == key_of(pitch, semitones),
{
    let key: i64 = pitch as i64 + semitones as i64;
    if 0 <= key && key <= 127 {
        Some(key as u8)
    } else {
        None
    }
}

/// Whether a lane decides the transposition.
pub open spec fn decides_transpose(l: LaneModel) -> bool {
    l.enabled && l.target == AutomationTarget::SongTranspose
}

/// The place of the lane that decides the transposition: the first enabled one
/// for it.
pub open spec fn transpose_place(lanes: Seq<LaneModel>, from: int) -> Option<int>
    decreases lanes.len() - from,
{
    if from < 0 || from >= lanes.len() {
        None
    } else if decides_transpose(lanes[from]) {
        Some(from)
    } else {
        transpose_place(lanes, from + 1)
    }
}

fn find_transpose_lane(song: &Song) -> (r: Option<usize>)
    ensures
        match r {
            Some(i) => i < song.song_lanes@.len() && transpose_place(song@.song_lanes, 0) == Some(i as int),
            None => transpose_place(song@.song_lanes, 0) is None,
        },
{
    let ghost all = song@.song_lanes;
    let mut i: usize = 0;
    while i < song.song_lanes.len()
        invariant
            all == song@.song_lanes,
            i <= song.song_lanes@.len(),
            transpose_place(all, 0) == transpose_place(all, i as int),
        decreases song.song_lanes@.len() - i,
    {
        assert(all[i as int] == song.song_lanes@[i as int]@);
        if song.song_lanes[i].enabled && song.song_lanes[i].target == AutomationTarget::SongTranspose {
            return Some(i);
        }
        i += 1;
    }
    None
}

/// The lane that decides the transposition.
pub fn transpose_lane(song: &Song) -> (r: Option<&AutomationLane>)
    ensures
        match r {
            Some(l) => transpose_place(song@.song_lanes, 0) matches Some(i) && l@ == song@.song_lanes[i],
            None => transpose_place(song@.song_lanes, 0) is None,
        },
{
    match find_transpose_lane(song) {
        Some(i) => {
            assert(song@.song_lanes[i as int] == song.song_lanes@[i as int]@);
            Some(&song.song_lanes[i])
        },
        None => None,
    }
}

/// The transposition without lanes and modulation, in semitones.
pub open spec fn base_semitones(transpose: i8) -> i32 {
    if transpose > TRANSPOSE_MAX_SEMITONES {
        TRANSPOSE_MAX_SEMITONES as i32
    } else if transpose < -TRANSPOSE_MAX_SEMITONES {
        -(TRANSPOSE_MAX_SEMITONES as i32) as i32
    } else {
        transpose as i32
    }
}

/// The transposition where no lane and no modulation decides it: that of the song
/// itself, within bounds.
fn transpose_base(song: &Song) -> (r: i32)
    ensures
        r == base_semitones(song@.transpose),
{
    if song.transpose > TRANSPOSE_MAX_SEMITONES {
        TRANSPOSE_MAX_SEMITONES as i32
    } else if song.transpose < -TRANSPOSE_MAX_SEMITONES {
        -(TRANSPOSE_MAX_SEMITONES as i32)
    } else {
        song.transpose as i32
    }
}

/// The transposition of a song in semitones at a place: what modulation makes of it,
/// else the value of the lane that decides there, else that of the song.
pub open spec fn semitones(song: SongModel, lane_value: Beat, modulated: Option<Beat>) -> i32 {
    match modulated {
        Some(plain) => quantized(plain),
        None => if transpose_place(song.song_lanes, 0) is Some {
            quantized(lane_value)
        } else {
            base_semitones(song.transpose)
        },
    }
}

/// The transposition of a song in semitones at a place, see [`semitones`].
/// `lane_value` is the value there of the lane that decides, and counts only if there
/// is one; `modulated` is what modulation makes of the value there, if there is any.
pub fn transpose_in_clip(song: &Song, lane_value: Beat, modulated: Option<Beat>) -> (r: i32)
    ensures
        r == semitones(song@, lane_value, modulated),
{
    match modulated {
        Some(plain) => quantize_transpose(plain),
        None => match find_transpose_lane(song) {
            Some(_) => quantize_transpose(lane_value),
            None => transpose_base(song),
        },
    }
}

/// The transposition of a song along its time, without modulation.
pub struct TransposeCurve<'a> {
    song: &'a Song,
    /// The place of the lane that decides, with the index of its clips.
    lane: Option<(usize, CoverIndex)>,
}

impl<'a> TransposeCurve<'a> {
    /// The song.
    pub closed spec fn song(self) -> SongModel {
        self.song@
    }

    #[verifier::type_invariant]
    spec fn inv(self) -> bool {
        match self.lane {
            Some((i, cover)) => transpose_place(self.song@.song_lanes, 0) == Some(i as int) && i
                < self.song.song_lanes@.len() && cover.of() == params::clip_intervals(
                self.song@.song_lanes[i as int].clips,
            ),
            None => transpose_place(self.song@.song_lanes, 0) is None,
        }
    }

    pub fn of(song: &'a Song) -> (r: TransposeCurve<'a>)
        ensures
            r.song() == song@,
    {
        match find_transpose_lane(song) {
            Some(i) => {
                assert(song@.song_lanes[i as int] == song.song_lanes@[i as int]@);
                let cover = CoverIndex::build(&read_intervals(&song.song_lanes[i].clips));
                TransposeCurve { song, lane: Some((i, cover)) }
            },
            None => TransposeCurve { song, lane: None },
        }
    }

    /// What decides at a place: the lane, and its clip there, if there is one. None if
    /// no lane decides.
    pub fn lane_at(&self, beat: Beat) -> (r: Option<(&'a AutomationLane, Option<&'a AutomationClip>)>)
        ensures
            match transpose_place(self.song().song_lanes, 0) {
                None => r is None,
                Some(i) => r matches Some((lane, clip)) && lane@ == self.song().song_lanes[i] && match ranges::covering(
                    params::clip_intervals(lane@.clips),
                    beat,
                ) {
                    Some(k) => clip matches Some(c) && *c == lane@.clips[k],
                    None => clip is None,
                },
            },
    {
        proof {
            use_type_invariant(self);
        }
        match &self.lane {
            None => None,
            Some((i, cover)) => {
                let lane = &self.song.song_lanes[*i];
                assert(self.song@.song_lanes[*i as int] == lane@);
                match cover.first_covering(beat) {
                    Some(k) => Some((lane, Some(&lane.clips[k]))),
                    None => Some((lane, None)),
                }
            },
        }
    }

    /// The semitones at a place. `lane_value` is the value there of what decides, see
    /// [`TransposeCurve::lane_at`]; it counts only if a lane does.
    pub fn at(&self, lane_value: Beat) -> (r: i32)
        ensures
            r == semitones(self.song(), lane_value, None),
    {
        proof {
            use_type_invariant(self);
        }
        match &self.lane {
            Some(_) => quantize_transpose(lane_value),
            None => transpose_base(self.song),
        }
    }

    /// The semitones of notes that have no place in the song, such as those of cells
    /// of the launcher: no lane decides them.
    pub fn base(&self) -> (r: i32)
        ensures
            r == base_semitones(self.song().transpose),
    {
        transpose_base(self.song)
    }
}

/// Which tracks follow the transposition themselves.
pub open spec fn own_follow(tracks: Seq<TrackModel>) -> Seq<bool> {
    Seq::new(tracks.len(), |i: int| tracks[i].follow_transpose)
}

/// Whether the track `id` follows the transposition together with every group
/// above it. A track that does not exist does not.
pub open spec fn follows(tracks: Seq<TrackModel>, id: u32) -> bool {
    track_enable::lineage_ok(tracks, id, tracks.len(), 0, own_follow(tracks))
}

/// Whether something moves a song: it itself, an enabled lane or an enabled routing.
pub open spec fn can_be_nonzero(song: SongModel) -> bool {
    ||| song.transpose != 0
    ||| exists|i: int| 0 <= i < song.song_lanes.len() && decides_transpose(#[trigger] song.song_lanes[i])
    ||| exists|i: int|
        0 <= i < song.song_mod_routings.len() && (#[trigger] song.song_mod_routings[i]).enabled
            && song.song_mod_routings[i].target == AutomationTarget::SongTranspose
}

impl Song {
    /// The flags of the tracks themselves.
    fn follow_flags(&self) -> (r: Vec<bool>)
        ensures
            r@ == own_follow(self@.tracks),
    {
        let mut r: Vec<bool> = Vec::new();
        let mut i: usize = 0;
        while i < self.tracks.len()
            invariant
                i <= self.tracks@.len(),
                r@.len() == i,
                forall|k: int| 0 <= k < i ==> #[trigger] r@[k] == self@.tracks[k].follow_transpose,
            decreases self.tracks@.len() - i,
        {
            assert(self@.tracks[i as int] == self.tracks@[i as int]@);
            r.push(self.tracks[i].follow_transpose);
            i += 1;
        }
        assert(r@ =~= own_follow(self@.tracks));
        r
    }

    /// Whether the track follows the transposition: it and every group above it
    /// do.
    pub fn track_follows_transpose(&self, track_id: u32) -> (r: bool)
        ensures
            r == follows(self@.tracks, track_id),
    {
        let flags = self.follow_flags();
        self.lineage_all(track_id, &flags)
    }

    /// [`Song::track_follows_transpose`] of every track, in song order.
    pub fn follows_transpose_mask(&self) -> (r: Vec<bool>)
        ensures
            r@.len() == self@.tracks.len(),
            forall|i: int| 0 <= i < r@.len() ==> #[trigger] r@[i] == follows(self@.tracks, self@.tracks[i].id),
    {
        let flags = self.follow_flags();
        self.mask_of(&flags)
    }

    /// Whether the transposition can be anything but zero: the song, an enabled
    /// lane or an enabled routing moves it.
    pub fn transpose_can_be_nonzero(&self) -> (r: bool)
        ensures
            r == can_be_nonzero(self@),
    {
        if self.transpose != 0 {
            return true;
        }
        let ghost lanes = self@.song_lanes;
        let mut i: usize = 0;
        while i < self.song_lanes.len()
            invariant
                lanes == self@.song_lanes,
                i <= self.song_lanes@.len(),
                forall|k: int| 0 <= k < i ==> !decides_transpose(#[trigger] lanes[k]),
            decreases self.song_lanes@.len() - i,
        {
            assert(lanes[i as int] == self.song_lanes@[i as int]@);
            if self.song_lanes[i].enabled && self.song_lanes[i].target == AutomationTarget::SongTranspose {
                assert(decides_transpose(lanes[i as int]));
                return true;
            }
            i += 1;
        }
        let mut j: usize = 0;
        while j < self.song_mod_routings.len()
            invariant
                lanes == self@.song_lanes,
                self.transpose == 0,
                forall|k: int| 0 <= k < lanes.len() ==> !decides_transpose(#[trigger] lanes[k]),
                j <= self.song_mod_routings@.len(),
                forall|k: int|
                    0 <= k < j ==> !((#[trigger] self.song_mod_routings@[k]).enabled && self.song_mod_routings@[k].target
                        == AutomationTarget::SongTranspose),
            decreases self.song_mod_routings@.len() - j,
        {
            if self.song_mod_routings[j].enabled && self.song_mod_routings[j].target
                == AutomationTarget::SongTranspose {
                return true;
            }
            j += 1;
        }
        false
    }
}

/// Which key the notes of one track sound.
#[derive(Clone, Copy, Debug, PartialEq, Eq, Structural)]
pub struct TrackTranspose {
    /// Whether the track follows the transposition.
    pub follows: bool,
}

impl TrackTranspose {
    /// That of the track `track_id`.
    pub fn of(song: &Song, track_id: u32) -> (r: TrackTranspose)
        ensures
            r.follows == follows(song@.tracks, track_id),
    {
        TrackTranspose { follows: song.track_follows_transpose(track_id) }
    }

    /// That of notes that sound as they are written.
    pub fn written() -> (r: TrackTranspose)
        ensures
            !r.follows,
    {
        TrackTranspose { follows: false }
    }

    /// The key that a note sounds where the song is transposed by `semitones`.
    /// On a track that does not follow it is the one that is written.
    pub fn key(&self, pitch: u8, semitones: i32) -> (r: Option<u8>)
        ensures
            r == if self.follows {
                key_of(pitch, semitones)
            } else {
                Some(pitch)
            },
    {
        if !self.follows {
            return Some(pitch);
        }
        sounding_key(pitch, semitones)
    }
}

/// A track follows exactly when it and every group above it, at whatever
/// distance, do: taking a group out takes its tracks out with it.
pub proof fn law_follows_with_every_group(tracks: Seq<TrackModel>, id: u32)
    requires
        lookup::track_place(tracks, id) is Some,
    ensures
        follows(tracks, id) <==> (forall|k: nat|
            #![trigger track_enable::group_above(tracks, lookup::track_place(tracks, id)->0, k)]
            track_enable::group_above(tracks, lookup::track_place(tracks, id)->0, k) matches Some(j)
                ==> tracks[j].follow_transpose),
{
    lookup::lemma_track_place(tracks, id);
    let i = lookup::track_place(tracks, id)->0;
    let ok = own_follow(tracks);
    track_enable::law_lineage_is_every_group(tracks, id, ok);
    assert forall|k: nat| (#[trigger] track_enable::group_above(tracks, i, k)) is Some implies ok[track_enable::group_above(
        tracks,
        i,
        k,
    )->0] == tracks[track_enable::group_above(tracks, i, k)->0].follow_transpose by {
        track_enable::lemma_group_above_place(tracks, i, k);
    }
}

/// Different notes transposed alike sound different keys.
pub proof fn law_keys_stay_apart(a: u8, b: u8, semitones: i32)
    requires
        a != b,
    ensures
        key_of(a, semitones) is None || key_of(a, semitones) != key_of(b, semitones),
{
}

proof fn lemma_no_place(lanes: Seq<LaneModel>, from: int)
    requires
        0 <= from <= lanes.len(),
        forall|i: int| 0 <= i < lanes.len() ==> !decides_transpose(#[trigger] lanes[i]),
    ensures
        transpose_place(lanes, from) is None,
    decreases lanes.len() - from,
{
    if from < lanes.len() {
        lemma_no_place(lanes, from + 1);
    }
}

/// A song that nothing moves is where it is at every place, whatever value is read
/// off a lane, and so are notes that have no place; and no enabled routing changes
/// that.
pub proof fn law_what_nothing_moves_stays(song: SongModel, lane_value: Beat)
    requires
        !can_be_nonzero(song),
    ensures
        semitones(song, lane_value, None) == 0,
        base_semitones(song.transpose) == 0,
        forall|i: int|
            0 <= i < song.song_mod_routings.len() && (#[trigger] song.song_mod_routings[i]).target
                == AutomationTarget::SongTranspose ==> !song.song_mod_routings[i].enabled,
{
    lemma_no_place(song.song_lanes, 0);
}

proof fn lemma_nearest(a: u64, b: u64, n: nat)
    requires
        a <= b,
    ensures
        nearest(a, n) <= nearest(b, n) <= n,
    decreases n,
{
    if n > 0 {
        lemma_nearest(a, b, (n - 1) as nat);
        lemma_nearest_bound(a, n);
    }
}

proof fn lemma_nearest_bound(m: u64, n: nat)
    ensures
        nearest(m, n) <= n,
        m == 0 ==> nearest(m, n) == 0,
    decreases n,
{
    if n > 0 {
        lemma_nearest_bound(m, (n - 1) as nat);
    }
}

/// A higher number is no lower transposition.
pub proof fn law_quantizing_keeps_the_order(a: Beat, b: Beat)
    requires
        a.is_finite(),
        b.is_finite(),
        a.le(b),
    ensures
        quantized(a) <= quantized(b),
{
    if a.magnitude() <= b.magnitude() {
        lemma_nearest(a.magnitude(), b.magnitude(), TRANSPOSE_MAX_SEMITONES as nat);
    }
    if b.magnitude() <= a.magnitude() {
        lemma_nearest(b.magnitude(), a.magnitude(), TRANSPOSE_MAX_SEMITONES as nat);
    }
    lemma_nearest_bound(a.magnitude(), TRANSPOSE_MAX_SEMITONES as nat);
    lemma_nearest_bound(b.magnitude(), TRANSPOSE_MAX_SEMITONES as nat);
}

/// Transposing up and down by as much is alike, and never by more than the most.
pub proof fn law_quantizing_is_alike_both_ways(a: Beat, b: Beat)
    requires
        a.is_finite(),
        b.is_finite(),
        a.magnitude() == b.magnitude(),
        a.bits < SIGN <= b.bits,
    ensures
        quantized(a) == -quantized(b),
        0 <= quantized(a) <= TRANSPOSE_MAX_SEMITONES,
{
    lemma_nearest_most(a.magnitude(), TRANSPOSE_MAX_SEMITONES as nat);
}

proof fn lemma_nearest_most(magnitude: u64, n: nat)
    ensures
        nearest(magnitude, n) <= n,
    decreases n,
{
    if n > 0 {
        lemma_nearest_most(magnitude, (n - 1) as nat);
    }
}

/// The transposition of a song without lanes is its own, as far as that goes.
pub proof fn law_the_base_is_the_song_s_own(transpose: i8)
    ensures
        -TRANSPOSE_MAX_SEMITONES <= transpose <= TRANSPOSE_MAX_SEMITONES ==> base_semitones(transpose) == transpose,
        transpose > TRANSPOSE_MAX_SEMITONES ==> base_semitones(transpose) == TRANSPOSE_MAX_SEMITONES,
        transpose < -TRANSPOSE_MAX_SEMITONES ==> base_semitones(transpose) == -TRANSPOSE_MAX_SEMITONES,
{
}

/// Transposing a key back gives the key, and a key is lost if and only if it leaves the
/// keys that there are.
pub proof fn law_transposing_back(pitch: u8, semitones: i32)
    requires
        pitch <= 127,
        -128 < semitones < 128,
    ensures
        key_of(pitch, semitones) matches Some(key) ==> key_of(key, (-semitones) as i32) == Some(pitch) && key - pitch
            == semitones,
        key_of(pitch, semitones) is None <==> pitch + semitones < 0 || pitch + semitones > 127,
{
}

} // verus!
