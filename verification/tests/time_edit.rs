use common::beat::Beat;
use common::model::automation::{AutomationClip, AutomationLane, AutomationTarget};
use common::model::crossfade::{xfade_reach, Crossfade, Edge, XfadeSide};
use common::model::time_ops::{ClipSums, CopiedContent, RangeSums, Section, TimeRange, TimeRangeCopy};
use common::scale::{Scale, ScaleChange};
use common::model::time_paste::{
    can_insert, hand_out_sections, section_grows, section_moves, section_stays, section_without, Ripple,
};
use common::model::time_place::{Placed, PlacedTime};
use common::model::time_shift::{move_changes, SongSums, SplitSums};
use common::model::clip::Fade;
use common::model::{Clip, ClipContent, ClipKey, ContentEvent, LaneRef, Material, Song, StretchMode, TimeSelection, Track, MASTER_TRACK_ID};
use common::setting::Setting;

fn beat(x: f64) -> Beat {
    Beat { bits: x.to_bits() }
}

fn clip(id: u32, start: f64, length: f64, content_id: u32) -> Clip {
    Clip {
        id,
        start_beat: beat(start),
        length_beats: beat(length),
        end_beat: beat(start + length),
        content_id,
        content_offset_beats: beat(0.0),
        xfade_lead_beats: beat(0.0),
        xfade_tail_beats: beat(0.0),
        muted: false,
    }
}

fn auto_clip(id: u32, start: f64, length: f64, content_id: u32) -> AutomationClip {
    AutomationClip {
        id,
        start_beat: beat(start),
        length_beats: beat(length),
        end_beat: beat(start + length),
        content_id,
        content_offset_beats: beat(0.0),
    }
}

fn copy() -> TimeRangeCopy {
    TimeRangeCopy {
        span_beats: beat(4.0),
        clips: vec![(1, clip(9, 0.0, 2.0, 5)), (99, clip(9, 0.0, 2.0, 5)), (1, clip(8, 1.0, 2.0, 6))],
        automation: vec![(MASTER_TRACK_ID, 3, auto_clip(1, 0.0, 4.0, 7))],
        contents: vec![
            CopiedContent { id: 5, content: ClipContent::Midi(Vec::new()), name: "a".into() },
            CopiedContent { id: 7, content: ClipContent::Automation(vec![1, 2]), name: "b".into() },
        ],
        scale_changes: Vec::new(),
        sections: vec![section(5, 0.0, 4.0)],
    }
}

fn section(id: u32, start: f64, len: f64) -> Section {
    Section {
        id,
        name: format!("s{id}"),
        start_beat: beat(start),
        len_beats: beat(len),
        end_beat: beat(start + len),
    }
}

fn song() -> Song {
    let mut track = Track { id: 1, ..Track::default() };
    track.clips.push(clip(1, 0.0, 4.0, 5));
    track.next_clip_id = 2;
    let mut lane = AutomationLane::new(AutomationTarget::SongTempo, 0);
    lane.id = 3;
    let mut song = Song { tracks: vec![track], song_lanes: vec![lane], ..Song::default() };
    song.clip_contents.push((5, ClipContent::Midi(Vec::new())));
    song
}

fn placed(song: &Song, copy: &TimeRangeCopy, at: f64) -> PlacedTime {
    let sums = sums_at(song, at);
    let mut split = song.clone();
    split.split_clips_at(beat(at), &sums);
    let place = |start: Beat, len: Beat| {
        let s = f64::from_bits(start.bits) + at;
        Placed { start_beat: beat(s), end_beat: beat(s + f64::from_bits(len.bits)) }
    };
    PlacedTime {
        sums,
        moved: moved_by(&split, f64::from_bits(copy.span_beats.bits)),
        clips: copy.clips.iter().map(|c| place(c.1.start_beat, c.1.length_beats)).collect(),
        automation: copy.automation.iter().map(|c| place(c.2.start_beat, c.2.length_beats)).collect(),
    }
}

#[test]
fn in_its_own_project_a_paste_shares_what_is_there() {
    let mut s = song();
    let c = copy();
    let at_eight = placed(&s, &c, 8.0);
    let p = s.paste_time_range(beat(8.0), &c, true, 20, 3, &at_eight).unwrap();
    assert_eq!((p.created, p.next_content_id), (vec![(7, 20)], 21));
    assert_eq!((p.section_ids, p.next_section_id), (vec![3], 4));
    let clips = &s.tracks[0].clips;
    assert_eq!(clips.len(), 3, "what has no track is dropped");
    assert_eq!((clips[1].id, clips[1].content_id, clips[1].start_beat), (2, 5, beat(8.0)));
    assert_eq!((clips[2].id, clips[2].content_id, clips[2].end_beat), (3, 6, beat(11.0)), "in neither: as it is");
    assert_eq!(s.tracks[0].next_clip_id, 4);
    assert_eq!(s.song_lanes[0].clips[0].content_id, 20);
    assert_eq!(s.clip_contents.len(), 2);
    assert_eq!(s.clip_contents[1].0, 20);
}

#[test]
fn in_another_project_a_paste_shares_nothing() {
    let mut s = song();
    let c = copy();
    let at_eight = placed(&s, &c, 8.0);
    let p = s.paste_time_range(beat(8.0), &c, false, 20, 0, &at_eight).unwrap();
    assert_eq!((p.created, p.next_content_id), (vec![(5, 20), (7, 21)], 22));
    assert_eq!((p.section_ids, p.next_section_id), (vec![1], 2));
    assert_eq!(s.tracks[0].clips.len(), 2, "what was not copied along is dropped");
    assert_eq!(s.tracks[0].clips[1].content_id, 20);
    assert_eq!(s.clip_contents.len(), 3);
}

#[test]
fn a_paste_opens_the_time_that_it_needs() {
    let mut s = song();
    s.tracks[0].clips.push(clip(2, 6.0, 2.0, 5));
    s.tracks[0].next_clip_id = 3;
    s.song_lanes[0].clips.push(auto_clip(1, 0.0, 4.0, 7));
    s.song_lanes[0].next_clip_id = 2;
    let c = copy();
    let at_one = placed(&s, &c, 1.0);
    let p = s.paste_time_range(beat(1.0), &c, true, 20, 3, &at_one).unwrap();
    assert_eq!(p.ripple, Ripple { from_beat: beat(1.0), delta_beats: beat(4.0) });
    assert_eq!(
        spans(&s),
        vec![(1, 0.0, 1.0, 0.0), (2, 10.0, 12.0, 0.0), (3, 5.0, 8.0, 1.0), (4, 1.0, 3.0, 0.0), (5, 2.0, 4.0, 0.0)],
        "what was there, split and moved, and then what is pasted"
    );
    let lane: Vec<(Beat, Beat)> = s.song_lanes[0].clips.iter().map(|c| (c.start_beat, c.end_beat)).collect();
    assert_eq!(lane, vec![(beat(0.0), beat(1.0)), (beat(5.0), beat(8.0)), (beat(1.0), beat(5.0))]);
}

#[test]
fn nothing_is_pasted_nowhere_nor_without_a_length() {
    let c = copy();
    for at in [-1.0, f64::NAN, f64::INFINITY] {
        let mut s = song();
        let nowhere = placed(&s, &c, at);
        assert!(s.paste_time_range(beat(at), &c, true, 20, 1, &nowhere).is_none());
        assert_eq!(s.tracks[0].clips, song().tracks[0].clips);
    }
    for span in [0.0, -2.0, f64::NAN, f64::INFINITY] {
        let c = TimeRangeCopy { span_beats: beat(span), ..copy() };
        let mut s = song();
        let at_eight = placed(&s, &c, 8.0);
        assert!(s.paste_time_range(beat(8.0), &c, true, 20, 1, &at_eight).is_none());
        assert_eq!(s.tracks[0].clips, song().tracks[0].clips);
        assert_eq!(s.clip_contents.len(), 1);
    }
}

#[test]
fn a_copy_from_outside_keeps_what_makes_sense() {
    let mut c = copy();
    c.clips.push((1, clip(1, -1.0, 2.0, 5)));
    c.clips.push((1, clip(1, f64::NAN, 2.0, 5)));
    c.clips.push((1, clip(1, 0.0, 0.0, 5)));
    c.sections.push(Section {
        id: 1,
        name: "x".into(),
        start_beat: beat(0.0),
        len_beats: beat(f64::INFINITY),
        end_beat: beat(f64::INFINITY),
    });
    let kept = c.sanitized().unwrap();
    assert_eq!(kept.clips.len(), 3);
    assert_eq!(kept.sections.len(), 1);
    assert!(TimeRangeCopy { span_beats: beat(0.0), ..copy() }.sanitized().is_none());
    assert!(TimeRangeCopy { span_beats: beat(f64::NAN), ..copy() }.sanitized().is_none());
}

fn sums_at(s: &Song, at: f64) -> SongSums<SplitSums> {
    for_clips(s, |start, end, offset| SplitSums {
        left_length: beat(at - start),
        right_length: beat(end - at),
        right_offset: beat(offset + (at - start)),
    })
}

fn moved_by(s: &Song, by: f64) -> SongSums<(Beat, Beat)> {
    for_clips(s, |start, end, _| (beat(start + by), beat(end + by)))
}

fn delete(s: &mut Song, a: f64, b: f64) -> Option<Ripple> {
    let mut left = s.clone();
    let at_start = sums_at(&left, a);
    left.split_clips_at(beat(a), &at_start);
    let at_end = sums_at(&left, b);
    left.split_clips_at(beat(b), &at_end);
    left.clear_range(beat(a), beat(b));
    let to = moved_by(&left, a - b);
    s.delete_time_range(beat(a), beat(b), beat(b - a), &at_start, &at_end, &to)
}

fn insert(s: &mut Song, at: f64, len: f64) -> Option<Ripple> {
    let sums = sums_at(s, at);
    let mut split = s.clone();
    split.split_clips_at(beat(at), &sums);
    let to = moved_by(&split, len);
    s.insert_time(beat(at), beat(len), &sums, &to)
}

fn spans(s: &Song) -> Vec<(u32, f64, f64, f64)> {
    let n = |b: Beat| f64::from_bits(b.bits);
    s.tracks[0].clips.iter().map(|c| (c.id, n(c.start_beat), n(c.end_beat), n(c.content_offset_beats))).collect()
}

#[test]
fn taking_time_out_leaves_no_clip_that_starts_there() {
    let mut s = song();
    s.tracks[0].clips.push(clip(2, 4.0, 2.0, 5));
    s.tracks[0].clips.push(clip(3, 6.0, 2.0, 5));
    s.tracks[0].next_clip_id = 4;
    assert!(delete(&mut s, 6.0, 6.0).is_none());
    assert!(delete(&mut s, f64::NAN, 6.0).is_none());
    assert_eq!(s.tracks[0].clips.len(), 3);
    let closed = delete(&mut s, 4.0, 6.0).unwrap();
    assert_eq!(closed, Ripple { from_beat: beat(6.0), delta_beats: beat(-2.0) });
    assert_eq!(spans(&s), vec![(1, 0.0, 4.0, 0.0), (3, 4.0, 6.0, 0.0)]);
}

#[test]
fn clips_over_the_edges_of_what_is_taken_out_keep_the_rest() {
    let mut s = song();
    s.tracks[0].clips = vec![clip(1, 0.0, 8.0, 5)];
    s.song_lanes[0].clips.push(auto_clip(1, 3.0, 4.0, 7));
    delete(&mut s, 2.0, 5.0).unwrap();
    assert_eq!(spans(&s), vec![(1, 0.0, 2.0, 0.0), (3, 2.0, 5.0, 5.0)]);
    let parts: Vec<(Beat, Beat)> = s.song_lanes[0].clips.iter().map(|c| (c.start_beat, c.end_beat)).collect();
    assert_eq!(parts, vec![(beat(2.0), beat(4.0))]);
}

#[test]
fn time_is_put_in_and_what_lies_behind_is_moved() {
    let mut s = song();
    s.tracks[0].clips.push(clip(2, 6.0, 2.0, 5));
    s.tracks[0].next_clip_id = 3;
    for (at, len) in [(-1.0, 2.0), (f64::NAN, 2.0), (1.0, 0.0), (1.0, f64::INFINITY)] {
        assert!(insert(&mut s, at, len).is_none());
    }
    assert_eq!(spans(&s), vec![(1, 0.0, 4.0, 0.0), (2, 6.0, 8.0, 0.0)]);
    let opened = insert(&mut s, 1.5, 2.0).unwrap();
    assert_eq!(opened, Ripple { from_beat: beat(1.5), delta_beats: beat(2.0) });
    assert_eq!(spans(&s), vec![(1, 0.0, 1.5, 0.0), (2, 8.0, 10.0, 0.0), (3, 3.5, 6.0, 1.5)]);
}

#[test]
fn sections_shrink_and_grow_with_the_time() {
    let b = |s: f64, e: f64| (beat(s), beat(e));
    assert_eq!(section_without(b(0.0, 8.0), b(-2.0, 6.0), beat(2.0), beat(4.0)), b(0.0, 6.0), "around the range");
    assert_eq!(section_without(b(2.5, 3.5), b(0.5, 1.5), beat(2.0), beat(4.0)), b(2.0, 2.0), "within the range");
    assert_eq!(section_without(b(6.0, 8.0), b(4.0, 6.0), beat(2.0), beat(4.0)), b(4.0, 6.0), "behind the range");
    assert_eq!(section_without(b(0.0, 2.0), b(-2.0, 0.0), beat(2.0), beat(4.0)), b(0.0, 2.0), "before the range");
    assert!(!section_stays(beat(0.0)) && section_stays(beat(1.0)));
    assert!(section_moves(beat(4.0), beat(4.0)) && !section_moves(beat(3.0), beat(4.0)));
    assert!(section_grows(beat(0.0), beat(4.0), beat(2.0)) && !section_grows(beat(0.0), beat(4.0), beat(4.0)));
    assert!(can_insert(beat(0.0), beat(1.0)) && !can_insert(beat(0.0), beat(0.0)) && !can_insert(beat(-1.0), beat(1.0)));
    assert_eq!(hand_out_sections(0, 3), (vec![1, 2, 3], 4));
}

fn clip_sums(s: f64, e: f64, offset: f64, a: f64, b: f64) -> ClipSums {
    ClipSums {
        start_tolerance: beat(s + f64::EPSILON),
        start_in_range: beat(s - a),
        end_in_range: beat(e - a),
        length: beat(e - s),
        length_to_edge: beat(b - s),
        end_of_whole: beat((s - a) + (e - s)),
        end_of_head: beat((s - a) + (b - s)),
        offset_at_edge: beat(offset + (a - s)),
    }
}

fn for_clips<T>(song: &Song, f: impl Fn(f64, f64, f64) -> T) -> SongSums<T> {
    let num = |b: Beat| f64::from_bits(b.bits);
    let lanes = |v: &Vec<AutomationLane>| {
        v.iter()
            .map(|l| {
                l.clips.iter().map(|c| f(num(c.start_beat), num(c.end_beat), num(c.content_offset_beats))).collect()
            })
            .collect()
    };
    SongSums {
        clips: song
            .tracks
            .iter()
            .map(|t| {
                t.clips.iter().map(|c| f(num(c.start_beat), num(c.end_beat), num(c.content_offset_beats))).collect()
            })
            .collect(),
        lanes: song.tracks.iter().map(|t| lanes(&t.automation_lanes)).collect(),
        song_lanes: lanes(&song.song_lanes),
    }
}

fn range(a: f64, b: f64) -> TimeRange {
    TimeRange {
        start: beat(a),
        end: beat(b),
        span: beat(b - a),
        start_tolerance: beat(a + f64::EPSILON),
        outer_start: beat(a - f64::EPSILON),
        outer_end: beat(b + f64::EPSILON),
    }
}

fn copied(s: &Song, a: f64, b: f64, changes: &Vec<ScaleChange>, sections: &Vec<Section>) -> Option<TimeRangeCopy> {
    let of_clips = for_clips(s, |start, end, offset| clip_sums(start, end, offset, a, b));
    let sums = RangeSums {
        clips: of_clips.clips,
        lanes: of_clips.lanes,
        song_lanes: of_clips.song_lanes,
        scale_changes: changes.iter().map(|c| beat(f64::from_bits(c.beat.bits) - a)).collect(),
        sections: sections
            .iter()
            .map(|x| (beat(f64::from_bits(x.start_beat.bits) - a), beat(f64::from_bits(x.end_beat.bits) - a)))
            .collect(),
    };
    s.copy_time_range(range(a, b), &sums, changes, sections, &vec![(5, "verse".to_string())])
}

#[test]
fn what_a_range_holds_is_copied_with_what_it_shows() {
    let mut s = song();
    s.tracks[0].clips.push(clip(2, 8.0, 2.0, 6));
    s.song_lanes[0].clips.push(auto_clip(1, 0.0, 16.0, 7));
    s.clip_contents.push((7, ClipContent::Automation(vec![3])));
    let change = |at: f64| ScaleChange { beat: beat(at), root: 0, scale: Scale::Major };
    let changes = vec![change(1.5), change(5.0)];
    let sections = vec![section(1, 1.0, 1.0), section(2, 1.0, 9.0), section(3, 1.0 - f64::EPSILON / 2.0, 2.0)];
    let c = copied(&s, 1.0, 3.0, &changes, &sections).unwrap();
    assert_eq!(c.span_beats, beat(2.0));
    assert_eq!(c.clips.len(), 1);
    assert_eq!((c.clips[0].0, c.clips[0].1.content_offset_beats, c.clips[0].1.length_beats), (1, beat(1.0), beat(2.0)));
    assert_eq!((c.automation[0].0, c.automation[0].1), (MASTER_TRACK_ID, 3));
    assert_eq!((c.automation[0].2.start_beat, c.automation[0].2.end_beat), (beat(0.0), beat(2.0)));
    let ids: Vec<(u32, &str)> = c.contents.iter().map(|x| (x.id, x.name.as_str())).collect();
    assert_eq!(ids, vec![(5, "verse"), (7, "")]);
    assert_eq!(c.scale_changes.iter().map(|x| x.beat).collect::<Vec<_>>(), vec![beat(0.5)]);
    assert_eq!(c.sections.iter().map(|x| x.id).collect::<Vec<_>>(), vec![1, 3], "what lies within the range");
    assert_eq!((c.sections[1].start_beat, c.sections[1].end_beat), (beat(0.0), beat(2.0)));
    assert!(copied(&s, 1.0, 1.0, &changes, &sections).is_none());
    assert!(copied(&s, f64::NAN, 1.0, &changes, &sections).is_none());
}

#[test]
fn a_clip_is_taken_with_the_part_that_lies_in_the_range() {
    let mut s = Song { tracks: vec![Track { id: 1, ..Track::default() }], ..Song::default() };
    let mut faded = clip(2, 2.0, 6.0, 5);
    faded.xfade_lead_beats = beat(0.5);
    faded.muted = true;
    s.tracks[0].clips = vec![
        clip(1, 0.0, 3.0, 5),
        faded,
        clip(3, 2.5, 1.0, 5),
        clip(4, 4.0, 1.0, 5),
        clip(5, 0.0, 2.0, 5),
        clip(6, 0.0, 9.0, 5),
    ];
    let c = copied(&s, 2.0, 4.0, &Vec::new(), &Vec::new()).unwrap();
    let parts: Vec<(u32, f64, f64, f64, f64)> = c
        .clips
        .iter()
        .map(|(_, c)| {
            let n = |b: Beat| f64::from_bits(b.bits);
            (c.id, n(c.start_beat), n(c.length_beats), n(c.end_beat), n(c.content_offset_beats))
        })
        .collect();
    assert_eq!(
        parts,
        vec![
            (1, 0.0, 1.0, 1.0, 2.0),
            (2, 0.0, 2.0, 2.0, 0.0),
            (3, 0.5, 1.0, 1.5, 0.0),
            (6, 0.0, 2.0, 2.0, 2.0),
        ],
        "what only touches the range is left out"
    );
    assert_eq!((c.clips[1].1.xfade_lead_beats, c.clips[1].1.muted), (beat(0.0), true));
}

#[test]
fn clips_are_split_at_a_place_and_moved_behind_it() {
    let mut s = song();
    s.tracks[0].clips.push(clip(2, 6.0, 2.0, 6));
    s.tracks[0].next_clip_id = 3;
    s.song_lanes[0].clips.push(auto_clip(1, 0.0, 16.0, 7));
    let at = 1.5;
    let sums = sums_at(&s, at);
    s.split_clips_at(beat(at), &sums);
    assert_eq!(spans(&s), vec![(1, 0.0, 1.5, 0.0), (2, 6.0, 8.0, 0.0), (3, 1.5, 4.0, 1.5)]);
    assert_eq!(s.tracks[0].next_clip_id, 4);
    assert_eq!(s.song_lanes[0].clips.len(), 2);
    let to = moved_by(&s, 2.0);
    s.move_clips_from(beat(at), &to);
    assert_eq!(spans(&s), vec![(1, 0.0, 1.5, 0.0), (2, 8.0, 10.0, 0.0), (3, 3.5, 6.0, 1.5)]);
    assert_eq!(s.song_lanes[0].clips[1].start_beat, beat(3.5));

    let change = |at: f64| ScaleChange { beat: beat(at), root: 0, scale: Scale::Major };
    let moved = move_changes(&vec![change(1.0), change(1.5)], beat(at), &vec![beat(3.0), beat(3.5)]);
    assert_eq!(moved.iter().map(|c| c.beat).collect::<Vec<_>>(), vec![beat(1.0), beat(3.5)]);
}

#[test]
fn selections_are_put_in_order_and_widened() {
    let lanes = vec![LaneRef::Track(3), LaneRef::Track(1)];
    let mut sel = TimeSelection::new(beat(4.0), beat(1.0), beat(3.0), lanes).unwrap();
    assert_eq!((sel.start_beat, sel.end_beat), (beat(1.0), beat(4.0)));
    assert!(sel.has_track(3) && !sel.has_track(2));
    assert!(sel.has_lane(LaneRef::Track(1)));
    assert!(sel.intersects(beat(3.0), beat(9.0)) && !sel.intersects(beat(4.0), beat(9.0)));
    sel.extend(beat(0.0), beat(2.0), &vec![LaneRef::Track(2), LaneRef::Track(3)]);
    assert_eq!((sel.start_beat, sel.end_beat), (beat(0.0), beat(4.0)));
    assert_eq!(sel.track_ids(), vec![3, 1, 2]);
    assert_eq!(sel.track_row_ids(), vec![3, 1, 2]);
    assert!(TimeSelection::new(beat(1.0), beat(1.0), beat(0.0), vec![LaneRef::Track(1)]).is_none());
}

fn material() -> Material {
    Material {
        source_id: 1,
        source_start_frames: 12_000,
        source_end_frames: 108_000,
        gain_db: Setting { bits: 0 },
        pitch_semitones: Setting { bits: 2.0f32.to_bits() },
        reversed: false,
        stretch_mode: StretchMode::Repitch,
    }
}

fn event(id: u32, start: f64, end: f64) -> ContentEvent {
    let none = Fade { beats: beat(0.0), curve: 2, over_beats: beat(0.0) };
    ContentEvent {
        id,
        take_id: 0,
        start_beat: beat(start),
        end_beat: beat(end),
        fade_in: none,
        fade_out: none,
        take_start_beat: beat(start),
        take_end_beat: beat(end),
        muted: false,
        material: material(),
    }
}

#[test]
fn a_crossfade_fades_both_sides_over_one_stretch() {
    let mut s = Song { tracks: vec![Track { id: 1, ..Track::default() }], ..Song::default() };
    s.tracks[0].clips = vec![clip(1, 0.0, 4.0, 5), clip(2, 4.0, 4.0, 6)];
    s.clip_contents.push((5, ClipContent::Audio(vec![event(1, 0.0, 4.0)])));
    s.clip_contents.push((6, ClipContent::Audio(vec![event(1, 0.0, 4.0)])));
    let prev = ClipKey { track_id: 1, clip_id: 1 };
    let next = ClipKey { track_id: 1, clip_id: 2 };
    let end = beat(4.0);
    let side = |key: ClipKey, at_end: bool, room: f64| {
        let (content_id, run) = s.xfade_side(key, at_end, end, &vec![beat(-1e-9)]).unwrap();
        XfadeSide { content_id, run, room: beat(room), len: beat(4.0) }
    };
    let p = side(prev, true, 0.25);
    let n = side(next, false, 3.0);
    assert_eq!((p.content_id, n.content_id), (5, 6));
    assert!(s.xfade_side(prev, true, end, &vec![beat(1.1e-9)]).is_none());
    assert!(s.xfade_side(prev, true, end, &vec![beat(f64::NAN)]).is_none());
    assert!(s.xfade_side(ClipKey { track_id: 1, clip_id: 9 }, true, end, &vec![beat(0.0)]).is_none());
    let (lead, tail) = xfade_reach(beat(0.5), &p, &n);
    assert_eq!((lead, tail), (beat(0.5), beat(0.25)), "as far as there is material");
    assert_eq!(xfade_reach(beat(-1.0), &p, &n), (beat(0.0), beat(0.0)));
    assert_eq!(xfade_reach(beat(f64::NAN), &p, &n), (beat(0.0), beat(0.0)));

    let none = s.crossfade_adjacent(prev, next, Some(&p), None, beat(0.5), beat(0.75), true);
    assert_eq!(none, Crossfade { applied: false, changed: true });
    let short = s.crossfade_adjacent(prev, next, Some(&p), Some(&n), beat(5e-10), beat(1e-9), false);
    assert_eq!(short, Crossfade { applied: false, changed: false });

    let done = s.crossfade_adjacent(prev, next, Some(&p), Some(&n), beat(0.5), beat(0.75), false);
    assert_eq!(done, Crossfade { applied: true, changed: true });
    assert_eq!(s.tracks[0].clips[0].xfade_tail_beats, tail);
    assert_eq!(s.tracks[0].clips[1].xfade_lead_beats, lead);
    let fades = |c: usize| match &s.clip_contents[c].1 {
        ClipContent::Audio(v) => (v[0].fade_in, v[0].fade_out),
        _ => unreachable!(),
    };
    assert_eq!(fades(0).1, Fade { beats: beat(0.75), curve: 2, over_beats: tail });
    assert_eq!(fades(1).0, Fade { beats: beat(0.75), curve: 2, over_beats: lead });
}

#[test]
fn a_clip_gets_the_content_that_is_cut_at_its_edge() {
    let mut s = Song { tracks: vec![Track { id: 1, ..Track::default() }], ..Song::default() };
    s.tracks[0].clips = vec![clip(1, 0.0, 4.0, 5), clip(2, 4.0, 4.0, 6), clip(3, 8.0, 4.0, 5)];
    s.clip_contents.push((5, ClipContent::Audio(vec![event(1, 0.0, 3.0), event(2, 3.0, 8.0)])));
    s.clip_contents.push((6, ClipContent::Midi(Vec::new())));
    let key = |clip_id: u32| ClipKey { track_id: 1, clip_id };
    let edge = |at: f64| Edge { before: beat(at - 1e-9), behind: beat(at + 1e-9) };
    assert!(!s.cut_at_window_edge(key(1), edge(3.0), 9), "nothing lies across the edge");
    assert!(!s.cut_at_window_edge(key(1), edge(8.0 - 1e-10), 9), "next to nothing lies across the edge");
    assert!(!s.cut_at_window_edge(key(2), edge(4.0), 9), "no audio");
    assert!(!s.cut_at_window_edge(key(7), edge(4.0), 9), "no such clip");
    assert!(s.crosses_window_edge(key(1), edge(4.0)));
    assert!(s.cut_at_window_edge(key(1), edge(4.0), 9));
    let contents: Vec<u32> = s.tracks[0].clips.iter().map(|c| c.content_id).collect();
    assert_eq!(contents, vec![9, 6, 5], "the other clip of the content keeps it");
}

#[test]
fn a_selection_holds_what_sticks_out_by_next_to_nothing() {
    let s = TimeSelection::new(beat(1.0), beat(3.0), beat(2.0), vec![LaneRef::Track(1)]).unwrap();
    let outer = (beat(1.0 - 1e-9), beat(3.0 + 1e-9));
    assert!(s.contains_span(beat(1.0), beat(3.0), outer));
    assert!(s.contains_span(beat(1.0 - 1e-10), beat(3.0 + 1e-10), outer));
    assert!(!s.contains_span(beat(0.5), beat(2.0), outer));
    assert!(!s.contains_span(beat(2.0), beat(3.5), outer));
    assert!(s.contains_beat(beat(1.0), outer));
    assert!(s.contains_beat(beat(3.0), outer));
    assert!(!s.contains_beat(beat(3.1), outer));
    assert!(!s.contains_beat(beat(f64::NAN), outer));
}

#[test]
fn rows_of_tracks_and_lanes_are_those_of_the_arrangement() {
    let clip = ClipKey { track_id: 1, clip_id: 2 };
    assert!(LaneRef::Track(1).is_arrangement_row());
    assert!(!LaneRef::AudioLane(clip).is_arrangement_row());
    assert!(!LaneRef::KeyTrack { clip, pitch: 60 }.is_arrangement_row());
}
