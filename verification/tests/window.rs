use common::beat::Beat;
use common::model::clip::Fade;
use common::model::window_edit::{
    edge_run, edit_run, edit_runs, joined_run, piece_runs, run_fade, shown_in, shown_indices, sorted_by_start,
    EventFade, TimedEvent,
};
use common::model::{ClipContent, ContentEvent, Material, StretchMode};
use common::setting::Setting;

fn beat(x: f64) -> Beat {
    Beat { bits: x.to_bits() }
}

fn fade(beats: f64) -> Fade {
    Fade { beats: beat(beats), curve: 0, over_beats: beat(0.0) }
}

/// A source of two seconds, played at the speed that makes it four beats.
fn material() -> Material {
    Material {
        source_id: 1,
        source_start_frames: 12_000,
        source_end_frames: 108_000,
        gain_db: Setting { bits: 0 },
        pitch_semitones: Setting { bits: 2.0f32.to_bits() },
        reversed: false,
        stretch_mode: StretchMode::Repitch,
    }
}

fn event(id: u32, start: f64, end: f64) -> ContentEvent {
    ContentEvent {
        id,
        take_id: 0,
        start_beat: beat(start),
        end_beat: beat(end),
        fade_in: fade(0.0),
        fade_out: fade(0.0),
        take_start_beat: beat(start),
        take_end_beat: beat(end),
        muted: false,
        material: material(),
    }
}

/// Four beats that fade in and out.
fn take() -> ContentEvent {
    ContentEvent { fade_in: fade(0.5), fade_out: fade(0.75), ..event(7, 0.0, 4.0) }
}

/// A take cut at the given places. The first piece stays who it was.
fn split(e: &ContentEvent, cuts: &[f64]) -> Vec<ContentEvent> {
    let start = f64::from_bits(e.start_beat.bits);
    let end = f64::from_bits(e.end_beat.bits);
    let mut edges = vec![start];
    edges.extend_from_slice(cuts);
    edges.push(end);
    (0..edges.len() - 1)
        .map(|k| {
            let id = if k == 0 { e.id } else { 100 + k as u32 };
            e.event_piece(&event(id, edges[k], edges[k + 1]))
        })
        .collect()
}

const CUTS: [f64; 3] = [1.0, 2.25, 3.0];

fn assert_edit_commutes_with_split(label: &str, edit: impl Fn(&mut ContentEvent)) {
    let mut edited = take();
    edit(&mut edited);
    let want = split(&edited, &CUTS);
    let mut got = split(&take(), &CUTS);
    let all: Vec<usize> = (0..got.len()).collect();
    assert_eq!(piece_runs(&got, &all), vec![all.clone()], "{label}: one run");
    assert_eq!(edit_runs(&mut got, &all, &edit), 1);
    assert_eq!(got, want, "{label}");
}

/// Lets the take be no more than what the event shows of it.
fn rebase_take(e: &mut ContentEvent) {
    e.take_start_beat = e.start_beat;
    e.take_end_beat = e.end_beat;
}

#[test]
fn editing_a_run_is_editing_before_the_cut() {
    assert_edit_commutes_with_split("fade in", |e| e.fade_in = fade(1.6));
    assert_edit_commutes_with_split("fade out", |e| e.fade_out = fade(2.9));
    assert_edit_commutes_with_split("gain", |e| e.material.gain_db = Setting { bits: (-6.0f32).to_bits() });
    assert_edit_commutes_with_split("reversed", |e| {
        rebase_take(e);
        e.material.reversed = true;
    });
    assert_edit_commutes_with_split("stretch mode", |e| {
        rebase_take(e);
        e.material.stretch_mode = StretchMode::Raw;
    });
    assert_edit_commutes_with_split("mute", |e| e.muted = true);
}

#[test]
fn pieces_without_ids_are_one_run_too() {
    let e = ContentEvent { id: 0, ..take() };
    let cut = |e: &ContentEvent| vec![e.event_piece(&event(0, 0.0, 1.0)), e.event_piece(&event(0, 1.0, 4.0))];
    let mut got = cut(&e);
    assert_eq!(edit_runs(&mut got, &vec![0, 1], |e: &mut ContentEvent| e.fade_in = fade(1.6)), 1);
    assert_eq!(got, cut(&ContentEvent { fade_in: fade(1.6), ..e }));
}

#[test]
fn editing_piece_by_piece_is_another_matter() {
    let mut edited = take();
    edited.fade_in = fade(1.6);
    let want = split(&edited, &CUTS);
    let mut per_piece = split(&take(), &CUTS);
    for e in &mut per_piece {
        e.fade_in = fade(1.6);
    }
    assert_ne!(per_piece, want);
    let mut reversed = split(&take(), &CUTS);
    let mut whole = take();
    rebase_take(&mut whole);
    whole.material.reversed = true;
    for e in &mut reversed {
        rebase_take(e);
        e.material.reversed = true;
    }
    assert_ne!(reversed, split(&whole, &CUTS), "each piece would be turned round by itself");
}

#[test]
fn only_what_a_window_shows_is_edited() {
    let pieces = split(&take(), &[2.25]);
    let left = (beat(0.0), beat(2.25));
    let right = (beat(2.25), beat(4.0));
    assert_eq!(shown_indices(&pieces, left), vec![0]);
    assert_eq!(shown_indices(&pieces, right), vec![1]);

    let mut events = pieces.clone();
    let targets = shown_indices(&events, right);
    edit_runs(&mut events, &targets, |e: &mut ContentEvent| {
        e.fade_in = fade(0.5);
        e.material.gain_db = Setting { bits: 3.0f32.to_bits() };
        e.muted = true;
    });
    assert_eq!(events[0], pieces[0], "the other piece is as it was");
    assert_eq!(events[1].fade_in, fade(0.5));
    assert!(events[1].muted);
    assert_eq!(events[1].material.gain_db, Setting { bits: 3.0f32.to_bits() });
    assert_eq!((events[1].id, events[1].take_id), (pieces[1].id, pieces[1].take_id), "and is who it was");

    let whole = split(&take(), &CUTS);
    let all: Vec<usize> = (0..whole.len()).collect();
    let shown = run_fade(&whole, &all).expect("fade");
    assert_eq!((shown.start_beat, shown.end_beat), (beat(0.0), beat(4.0)));
    assert_eq!((shown.fade_in, shown.fade_out), (take().fade_in, take().fade_out));
}

#[test]
fn pieces_are_of_the_take_and_join_to_it() {
    let pieces = split(&take(), &CUTS);
    assert_eq!(pieces.len(), 4);
    assert!(pieces.iter().all(|e| e.take_key() == 7));
    assert!(pieces.iter().all(|e| e.material == material() && (e.take_start_beat, e.take_end_beat) == (beat(0.0), beat(4.0))));
    let mut other = pieces[1];
    other.material.reversed = true;
    assert!(pieces[0].joinable(&pieces[1]) && !pieces[0].joinable(&other), "another way to play it");
    let joined = joined_run(&pieces, &vec![0, 1, 2, 3]).unwrap();
    assert_eq!(joined, ContentEvent { take_id: 7, ..take() });
    assert_eq!(joined_run(&pieces, &Vec::new()), None);
    assert_eq!(joined_run(&pieces, &vec![0, 9]), None);
    assert_eq!(run_fade(&pieces, &vec![9]), None);
}

#[test]
fn places_come_in_the_order_of_their_starts() {
    let events = vec![event(1, 4.0, 5.0), event(2, 0.0, 1.0), event(3, 4.0, 6.0), event(4, -0.0, 1.0)];
    assert_eq!(sorted_by_start(&events, &vec![2, 0, 9, 1, 3, 0]), vec![3, 1, 0, 2]);
    assert!(shown_in(&events[0], (beat(4.5), beat(8.0))));
    assert!(!shown_in(&events[0], (beat(5.0), beat(8.0))), "it ends where the window starts");
    assert!(!shown_in(&events[0], (beat(0.0), beat(4.0))), "it starts where the window ends");
}

#[test]
fn a_run_of_one_becomes_what_it_was_edited_to() {
    let mut events = vec![event(1, 0.0, 1.0), event(2, 5.0, 6.0)];
    assert_eq!(piece_runs(&events, &vec![0, 1]), vec![vec![0], vec![1]]);
    edit_run(&mut events, &vec![1], |e: &mut ContentEvent| e.muted = true);
    assert!(!events[0].muted && events[1].muted);
    assert_eq!(events[1].take_id, 0);
    let before = events.clone();
    edit_run(&mut events, &vec![5], |e: &mut ContentEvent| e.muted = true);
    assert_eq!(events, before);
}

#[test]
fn the_run_at_an_edge_is_the_first_that_touches_it() {
    let mut events = split(&take(), &CUTS);
    events.push(event(50, 5.0, 6.0));
    let window = (beat(0.0), beat(6.0));
    assert_eq!(edge_run(&events, window, true, &vec![false, false, false, false, true]), Some(vec![4]));
    assert_eq!(edge_run(&events, window, false, &vec![true, false, false, false, false]), Some(vec![0, 1, 2, 3]));
    assert_eq!(edge_run(&events, window, true, &vec![true, false, false, false, false]), None);
}

#[test]
fn fades_are_read_and_written_whatever_the_content_is() {
    let window = (beat(0.0), beat(8.0));
    let pieces = split(&take(), &CUTS);
    let kinds = [
        ClipContent::Audio(pieces.clone()),
        ClipContent::Video(pieces.clone()),
        ClipContent::Image(pieces.clone()),
        ClipContent::Text(pieces.clone()),
    ];
    for mut content in kinds {
        let fades = content.window_fades(window);
        assert_eq!(fades.len(), 1);
        assert_eq!(fades[0].0, 0);
        assert_eq!(fades[0].1.fade_out, fade(0.75));
        assert!(content.set_window_fade(window, 2, |f: EventFade| EventFade { fade_out: fade(2.0), ..f }));
        assert_eq!(content.window_fades(window)[0].1.fade_out, fade(2.0));
        assert!(!content.set_window_fade(window, 9, |f: EventFade| f), "no such event");
        assert!(!content.set_window_fade((beat(9.0), beat(10.0)), 2, |f: EventFade| f), "not shown");
    }
    let mut midi = ClipContent::Midi(Vec::new());
    assert!(midi.window_fades(window).is_empty());
    assert!(!midi.set_window_fade(window, 0, |f: EventFade| f));
}
