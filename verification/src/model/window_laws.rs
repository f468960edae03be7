//! What holds of the pieces that a window shows, and of crossfades between clips.

use super::clip::{Clip, ContentEvent, ContentModel, Fade};
use super::crossfade;
use super::crossfade::{XfadeSide, XfadeSpan};
use super::ids;
use super::lookup;
use super::song::SongModel;
use super::time_paste;
use super::time_selection::ClipKey;
use super::track_ids;
use super::window_edit;
use super::window_edit::{EventFade, TimedEvent};
use crate::beat::Beat;
use vstd::prelude::*;

verus! {

// ---------------------------------------------------------------------------
// What a window shows
// ---------------------------------------------------------------------------

/// A window shows an event if and only if there is a moment that lies in both.
pub proof fn law_shown_is_sharing_a_moment(fade: EventFade, window: (Beat, Beat))
    requires
        fade.start_beat.lt(fade.end_beat),
        window.0.lt(window.1),
    ensures
        window_edit::is_shown(fade, window) <==> exists|x: Beat|
            fade.start_beat.le(x) && #[trigger] x.lt(fade.end_beat) && window.0.le(x) && x.lt(window.1),
{
    if window_edit::is_shown(fade, window) {
        let x = if fade.start_beat.le(window.0) {
            window.0
        } else {
            fade.start_beat
        };
        assert(fade.start_beat.le(x) && x.lt(fade.end_beat) && window.0.le(x) && x.lt(window.1));
    }
}

// ---------------------------------------------------------------------------
// Runs
// ---------------------------------------------------------------------------

/// The event that an event is a piece of: itself, if it is not said to be one.
pub open spec fn origin(e: ContentEvent) -> u32 {
    if e.take_id != 0 {
        e.take_id
    } else {
        e.id
    }
}

/// Whether two events are neighbouring pieces of one: the one stops where the other
/// starts, and they are of one take and sound or look alike.
pub open spec fn goes_on(a: ContentEvent, b: ContentEvent) -> bool {
    &&& a.end_beat == b.start_beat
    &&& origin(a) == origin(b)
    &&& (a.take_start_beat, a.take_end_beat) == (b.take_start_beat, b.take_end_beat)
    &&& a.material == b.material
    &&& a.muted == b.muted
}

/// Whether every event of a run goes on with the next one.
pub open spec fn is_unbroken(events: Seq<ContentEvent>, run: Seq<usize>) -> bool {
    forall|k: int, l: int|
        0 <= k < run.len() && 0 <= l < run.len() && l == k + 1 ==> goes_on(
            events[#[trigger] run[k] as int],
            events[#[trigger] run[l] as int],
        )
}

/// In a run every event goes on with the next one, and where a run ends the next event
/// does not go on: a run is neither broken nor cut short.
pub proof fn law_runs_are_what_goes_on(events: Seq<ContentEvent>, places: Seq<usize>)
    ensures
        forall|r: int|
            0 <= r < window_edit::runs_of(events, places).len() ==> is_unbroken(
                events,
                #[trigger] window_edit::runs_of(events, places)[r],
            ),
        forall|r: int, s: int|
            0 <= r < window_edit::runs_of(events, places).len() && 0 <= s < window_edit::runs_of(events, places).len()
                && s == r + 1 ==> !goes_on(
                events[(#[trigger] window_edit::runs_of(events, places)[r]).last() as int],
                events[(#[trigger] window_edit::runs_of(events, places)[s])[0] as int],
            ),
    decreases places.len(),
{
    if places.len() > 0 {
        let before = places.drop_last();
        law_runs_are_what_goes_on(events, before);
        window_edit::law_runs_hold_every_place(events, before);
        let front = window_edit::runs_of(events, before);
        let all = window_edit::runs_of(events, places);
        let i = places.last();
        let n = front.len() as int;
        let follows = n > 0 && events[front.last().last() as int].spec_joins(&events[i as int]);
        assert(n > 0 ==> follows == goes_on(events[front.last().last() as int], events[i as int]));
        if follows {
            assert(all == front.update(n - 1, front.last().push(i)));
            assert forall|r: int| 0 <= r < all.len() implies is_unbroken(events, #[trigger] all[r]) by {
                assert(is_unbroken(events, front[r]));
                if r == n - 1 {
                    let run = front[r];
                    let grown = all[r];
                    assert forall|k: int, l: int|
                        0 <= k < grown.len() && 0 <= l < grown.len() && l == k + 1 implies goes_on(
                        events[#[trigger] grown[k] as int],
                        events[#[trigger] grown[l] as int],
                    ) by {
                        if l < run.len() {
                            assert(grown[k] == run[k] && grown[l] == run[l]);
                        } else {
                            assert(grown[k] == run.last());
                        }
                    }
                }
            }
            assert forall|r: int, s: int| 0 <= r < all.len() && 0 <= s < all.len() && s == r + 1 implies !goes_on(
                events[(#[trigger] all[r]).last() as int],
                events[(#[trigger] all[s])[0] as int],
            ) by {
                assert(all[r] == front[r]);
                assert(front[s].len() > 0);
                assert(all[s][0] == front[s][0]);
            }
        } else {
            assert(all == front.push(seq![i]));
            assert forall|r: int| 0 <= r < all.len() implies is_unbroken(events, #[trigger] all[r]) by {
                if r < n {
                    assert(is_unbroken(events, front[r]));
                }
            }
            assert forall|r: int, s: int| 0 <= r < all.len() && 0 <= s < all.len() && s == r + 1 implies !goes_on(
                events[(#[trigger] all[r]).last() as int],
                events[(#[trigger] all[s])[0] as int],
            ) by {
                assert(all[r] == front[r]);
                if s < n {
                    assert(all[s] == front[s]);
                }
            }
        }
    }
}

/// A run as one event starts where its first event starts and fades in as that does, and
/// ends where its last one ends and fades out as that does. The rest it has from the
/// first.
pub proof fn law_a_run_is_from_its_first_to_its_last(events: Seq<ContentEvent>, run: Seq<usize>)
    requires
        run.len() > 0,
    ensures
        ({
            let first = events[run[0] as int];
            let last = events[run.last() as int];
            let whole = window_edit::whole_of(events, run);
            &&& whole == (ContentEvent { end_beat: last.end_beat, fade_out: last.fade_out, ..first })
            &&& window_edit::run_fade_of(events, run) == (EventFade {
                start_beat: first.start_beat,
                end_beat: last.end_beat,
                fade_in: first.fade_in,
                fade_out: last.fade_out,
            })
        }),
{
    lemma_joined_upto(events, run, run.len());
}

proof fn lemma_joined_upto(events: Seq<ContentEvent>, run: Seq<usize>, n: nat)
    requires
        0 < n <= run.len(),
    ensures
        window_edit::joined_upto(events, run, n) == (ContentEvent {
            end_beat: events[run[n - 1] as int].end_beat,
            fade_out: events[run[n - 1] as int].fade_out,
            ..events[run[0] as int]
        }),
    decreases n,
{
    if n > 1 {
        lemma_joined_upto(events, run, (n - 1) as nat);
    }
}

/// Whether places are those of events, none of them twice.
pub open spec fn are_places(run: Seq<usize>, n: nat) -> bool {
    &&& run.len() > 0
    &&& forall|k: int| 0 <= k < run.len() ==> #[trigger] run[k] < n
    &&& run.no_duplicates()
}

proof fn lemma_recut_upto(events: Seq<ContentEvent>, run: Seq<usize>, whole: ContentEvent, n: nat)
    requires
        are_places(run, events.len()),
        n <= run.len(),
    ensures
        ({
            let now = window_edit::recut_upto(events, run, whole, n);
            &&& now.len() == events.len()
            &&& forall|i: int|
                0 <= i < events.len() && (forall|k: int| 0 <= k < n ==> run[k] != i) ==> #[trigger] now[i] == events[i]
            &&& forall|k: int| 0 <= k < n ==> now[#[trigger] run[k] as int] == whole.spec_piece(&events[run[k] as int])
        }),
    decreases n,
{
    if n > 0 {
        lemma_recut_upto(events, run, whole, (n - 1) as nat);
        let front = window_edit::recut_upto(events, run, whole, (n - 1) as nat);
        let now = window_edit::recut_upto(events, run, whole, n);
        assert(front[run[n - 1] as int] == events[run[n - 1] as int]);
        assert forall|k: int| 0 <= k < n implies now[#[trigger] run[k] as int] == whole.spec_piece(
            &events[run[k] as int],
        ) by {
            if k < n - 1 {
                assert(run[k] != run[n - 1]);
                assert(front[run[k] as int] == whole.spec_piece(&events[run[k] as int]));
            }
        }
        assert forall|i: int| 0 <= i < events.len() && (forall|k: int| 0 <= k < n ==> run[k] != i) implies
            #[trigger] now[i] == events[i] by {
            assert(run[n - 1] != i);
            assert(front[i] == events[i]);
        }
    }
}

proof fn lemma_recut(events: Seq<ContentEvent>, run: Seq<usize>, whole: ContentEvent)
    requires
        are_places(run, events.len()),
    ensures
        ({
            let now = window_edit::recut(events, run, whole);
            &&& now.len() == events.len()
            &&& forall|i: int| 0 <= i < events.len() && !run.contains(i as usize) ==> #[trigger] now[i] == events[i]
            &&& run.len() == 1 ==> now[run[0] as int] == whole
            &&& run.len() > 1 ==> forall|k: int|
                0 <= k < run.len() ==> now[#[trigger] run[k] as int] == whole.spec_piece(&events[run[k] as int])
        }),
{
    let now = window_edit::recut(events, run, whole);
    lemma_recut_upto(events, run, whole, run.len());
    assert forall|i: int| 0 <= i < events.len() && !run.contains(i as usize) implies #[trigger] now[i] == events[i] by {
        assert forall|k: int| 0 <= k < run.len() implies run[k] != i by {
            assert(run.contains(run[k]));
        }
    }
    assert(run[0] < events.len());
}

/// What comes of an edit of a run as one event. Events that are not in the run stay as
/// they are. The others stay where they are and who they are, and all of them get what
/// the edited event is made of; it fades in with the first of them and out with the
/// last, and nothing fades where it was cut.
pub proof fn law_an_edit_reaches_the_whole_run(events: Seq<ContentEvent>, run: Seq<usize>, edited: ContentEvent)
    requires
        are_places(run, events.len()),
        is_unbroken(events, run),
        forall|k: int|
            0 <= k < run.len() ==> events[#[trigger] run[k] as int].start_beat.lt(events[run[k] as int].end_beat),
        edited.start_beat == events[run[0] as int].start_beat,
        edited.end_beat == events[run.last() as int].end_beat,
        edited.id == events[run[0] as int].id,
        origin(edited) == origin(events[run[0] as int]),
    ensures
        ({
            let now = window_edit::recut(events, run, edited);
            &&& now.len() == events.len()
            &&& forall|i: int| 0 <= i < events.len() && !run.contains(i as usize) ==> #[trigger] now[i] == events[i]
            &&& forall|k: int|
                0 <= k < run.len() ==> {
                    let e = now[#[trigger] run[k] as int];
                    let was = events[run[k] as int];
                    &&& (e.id, e.start_beat, e.end_beat) == (was.id, was.start_beat, was.end_beat)
                    &&& origin(e) == origin(was)
                    &&& (e.material, e.muted) == (edited.material, edited.muted)
                    &&& (e.take_start_beat, e.take_end_beat) == (edited.take_start_beat, edited.take_end_beat)
                    &&& k == 0 ==> e.fade_in == edited.fade_in
                    &&& k == run.len() - 1 ==> e.fade_out == edited.fade_out
                    &&& k > 0 ==> e.fade_in.beats.rank() == 0 && e.fade_in.over_beats.rank() == 0
                    &&& k < run.len() - 1 ==> e.fade_out.beats.rank() == 0 && e.fade_out.over_beats.rank() == 0
                }
        }),
{
    lemma_recut(events, run, edited);
    let now = window_edit::recut(events, run, edited);
    assert forall|k: int| 0 <= k < run.len() implies {
        let e = now[#[trigger] run[k] as int];
        let was = events[run[k] as int];
        &&& (e.id, e.start_beat, e.end_beat) == (was.id, was.start_beat, was.end_beat)
        &&& origin(e) == origin(was)
        &&& (e.material, e.muted) == (edited.material, edited.muted)
        &&& (e.take_start_beat, e.take_end_beat) == (edited.take_start_beat, edited.take_end_beat)
        &&& k == 0 ==> e.fade_in == edited.fade_in
        &&& k == run.len() - 1 ==> e.fade_out == edited.fade_out
        &&& k > 0 ==> e.fade_in.beats.rank() == 0 && e.fade_in.over_beats.rank() == 0
        &&& k < run.len() - 1 ==> e.fade_out.beats.rank() == 0 && e.fade_out.over_beats.rank() == 0
    } by {
        lemma_unbroken(events, run, 0, k);
        lemma_unbroken(events, run, k, run.len() - 1);
        if run.len() > 1 {
            assert(now[run[k] as int] == edited.spec_piece(&events[run[k] as int]));
        }
    }
}

/// Of one run the events are of one take, and come one behind the other.
proof fn lemma_unbroken(events: Seq<ContentEvent>, run: Seq<usize>, k: int, l: int)
    requires
        is_unbroken(events, run),
        forall|k: int|
            0 <= k < run.len() ==> events[#[trigger] run[k] as int].start_beat.lt(events[run[k] as int].end_beat),
        0 <= k <= l < run.len(),
    ensures
        origin(events[run[k] as int]) == origin(events[run[l] as int]),
        k < l ==> events[run[k] as int].start_beat.rank() < events[run[l] as int].start_beat.rank(),
        k < l ==> events[run[k] as int].end_beat.rank() < events[run[l] as int].end_beat.rank(),
    decreases l - k,
{
    if k < l {
        lemma_unbroken(events, run, k, l - 1);
        assert(goes_on(events[run[l - 1] as int], events[run[l] as int]));
    }
}

/// The pieces that an event is cut into show all of it and nothing else: each has its
/// own place and id, is of the event and made as it is, and fades only where the event
/// begins or ends.
pub proof fn law_pieces_show_the_event(e: ContentEvent, likes: Seq<ContentEvent>, k: int)
    requires
        window_edit::covers(likes, e),
        forall|i: int| 0 <= i < likes.len() ==> (#[trigger] likes[i]).start_beat.lt(likes[i].end_beat),
        origin(e) != 0,
        0 <= k < likes.len(),
    ensures
        ({
            let piece = window_edit::pieces_of(e, likes)[k];
            &&& (piece.id, piece.start_beat, piece.end_beat) == (likes[k].id, likes[k].start_beat, likes[k].end_beat)
            &&& origin(piece) == origin(e)
            &&& (piece.material, piece.muted) == (e.material, e.muted)
            &&& (piece.take_start_beat, piece.take_end_beat) == (e.take_start_beat, e.take_end_beat)
            &&& k == 0 ==> piece.fade_in == e.fade_in
            &&& k == likes.len() - 1 ==> piece.fade_out == e.fade_out
            &&& k > 0 ==> piece.fade_in.beats.rank() == 0 && piece.fade_in.over_beats.rank() == 0
            &&& k < likes.len() - 1 ==> piece.fade_out.beats.rank() == 0 && piece.fade_out.over_beats.rank() == 0
        }),
{
    lemma_covers(likes, e, 0, k);
    lemma_covers(likes, e, k, likes.len() - 1);
}

proof fn lemma_covers(likes: Seq<ContentEvent>, e: ContentEvent, k: int, l: int)
    requires
        window_edit::covers(likes, e),
        forall|i: int| 0 <= i < likes.len() ==> (#[trigger] likes[i]).start_beat.lt(likes[i].end_beat),
        0 <= k <= l < likes.len(),
    ensures
        k < l ==> likes[k].start_beat.rank() < likes[l].start_beat.rank(),
        k < l ==> likes[k].end_beat.rank() < likes[l].end_beat.rank(),
    decreases l - k,
{
    if k < l {
        lemma_covers(likes, e, k, l - 1);
        assert(likes[l].start_beat == likes[l - 1].end_beat);
    }
}

/// Setting the fade of a run sets how its first event fades in and how its last one fades
/// out, and changes nothing else.
pub proof fn law_a_fade_is_set_at_the_ends(events: Seq<ContentEvent>, run: Seq<usize>, next: EventFade)
    requires
        are_places(run, events.len()),
        is_unbroken(events, run),
        forall|k: int|
            0 <= k < run.len() ==> events[#[trigger] run[k] as int].start_beat.lt(events[run[k] as int].end_beat),
    ensures
        ({
            let now = window_edit::recut(events, run, window_edit::whole_of(events, run).with_fade(next));
            &&& now[run[0] as int].fade_in == next.fade_in
            &&& now[run.last() as int].fade_out == next.fade_out
            &&& forall|i: int| 0 <= i < events.len() && !run.contains(i as usize) ==> #[trigger] now[i] == events[i]
            &&& forall|k: int|
                0 <= k < run.len() ==> {
                    let e = now[#[trigger] run[k] as int];
                    let was = events[run[k] as int];
                    &&& (e.id, e.start_beat, e.end_beat) == (was.id, was.start_beat, was.end_beat)
                    &&& (e.material, e.muted) == (was.material, was.muted)
                }
        }),
{
    let edited = window_edit::whole_of(events, run).with_fade(next);
    law_a_run_is_from_its_first_to_its_last(events, run);
    law_an_edit_reaches_the_whole_run(events, run, edited);
    let now = window_edit::recut(events, run, edited);
    assert(run[0] < events.len());
    assert forall|k: int| 0 <= k < run.len() implies {
        let e = now[#[trigger] run[k] as int];
        let was = events[run[k] as int];
        &&& (e.id, e.start_beat, e.end_beat) == (was.id, was.start_beat, was.end_beat)
        &&& (e.material, e.muted) == (was.material, was.muted)
    } by {
        lemma_alike(events, run, k);
    }
}

proof fn lemma_alike(events: Seq<ContentEvent>, run: Seq<usize>, k: int)
    requires
        is_unbroken(events, run),
        0 <= k < run.len(),
    ensures
        events[run[k] as int].material == events[run[0] as int].material,
        events[run[k] as int].muted == events[run[0] as int].muted,
    decreases k,
{
    if k > 0 {
        lemma_alike(events, run, k - 1);
        assert(goes_on(events[run[k - 1] as int], events[run[k] as int]));
    }
}

/// The run at an edge of a window is one that the window shows, and touches the edge with
/// its last event, or with its first. There is one if the window shows an event that
/// touches the edge and does not go on beyond it.
pub proof fn law_the_run_at_an_edge_touches_it(
    events: Seq<ContentEvent>,
    window: (Beat, Beat),
    at_end: bool,
    touches: Seq<bool>,
    found: Option<Seq<usize>>,
)
    requires
        events.len() == touches.len(),
        events.len() <= usize::MAX,
        window_edit::is_edge_run(events, window, at_end, touches, found),
    ensures
        found matches Some(run) ==> {
            &&& run.len() > 0
            &&& is_unbroken(events, run)
            &&& forall|k: int|
                0 <= k < run.len() ==> #[trigger] run[k] < events.len() && events[run[k] as int].start_beat.lt(window.1)
                    && window.0.lt(events[run[k] as int].end_beat)
            &&& at_end ==> touches[run.last() as int]
            &&& !at_end ==> touches[run[0] as int]
        },
        found is None ==> forall|i: int|
            0 <= i < events.len() && touches[i] && (#[trigger] events[i]).start_beat.lt(window.1) && window.0.lt(
                events[i].end_beat,
            ) ==> exists|j: int|
                0 <= j < events.len() && if at_end {
                    goes_on(events[i], #[trigger] events[j])
                } else {
                    goes_on(events[j], events[i])
                },
{
    let places = choose|places: Seq<usize>|
        window_edit::are_shown(events, window, places) && window_edit::is_first_reaching(
            #[trigger] window_edit::runs_of(events, places),
            at_end,
            touches,
            found,
        );
    let runs = window_edit::runs_of(events, places);
    law_runs_are_what_goes_on(events, places);
    window_edit::law_runs_hold_every_place(events, places);
    if let Some(run) = found {
        let r = choose|r: int| 0 <= r < runs.len() && run == #[trigger] runs[r];
        assert(runs[r].len() > 0);
        assert forall|k: int| 0 <= k < run.len() implies #[trigger] run[k] < events.len()
            && events[run[k] as int].start_beat.lt(window.1) && window.0.lt(events[run[k] as int].end_beat) by {
            window_edit::lemma_flattened_contains(runs, run[k]);
            assert(runs[r].contains(run[k]));
            assert(places.contains(run[k]));
        }
        assert(run[run.len() - 1] < events.len());
        assert(run[0] < events.len());
    } else {
        assert forall|i: int|
            0 <= i < events.len() && touches[i] && (#[trigger] events[i]).start_beat.lt(window.1) && window.0.lt(
                events[i].end_beat,
            ) implies exists|j: int|
            0 <= j < events.len() && if at_end {
                goes_on(events[i], #[trigger] events[j])
            } else {
                goes_on(events[j], events[i])
            } by {
            let p = i as usize;
            assert(places.contains(p));
            window_edit::lemma_flattened_contains(runs, p);
            let r = choose|r: int| 0 <= r < runs.len() && (#[trigger] runs[r]).contains(p);
            let run = runs[r];
            assert(is_unbroken(events, run));
            let k = choose|k: int| 0 <= k < run.len() && run[k] == p;
            assert(!window_edit::reaches(runs[r], at_end, touches));
            if at_end {
                assert(k != run.len() - 1);
                let j = run[k + 1];
                assert(run.contains(j));
                window_edit::lemma_flattened_contains(runs, j);
                assert(places.contains(j));
                assert(goes_on(events[run[k] as int], events[run[k + 1] as int]));
                assert(goes_on(events[i], events[j as int]));
            } else {
                assert(k != 0);
                let j = run[k - 1];
                assert(run.contains(j));
                window_edit::lemma_flattened_contains(runs, j);
                assert(places.contains(j));
                assert(goes_on(events[run[k - 1] as int], events[run[k] as int]));
                assert(goes_on(events[j as int], events[i]));
            }
        }
    }
}

// ---------------------------------------------------------------------------
// Crossfades
// ---------------------------------------------------------------------------

/// Whether a number is the least of some: one of them, and no more than each of them.
/// What is no number does not count.
pub open spec fn is_least(x: Beat, a: Beat, b: Beat, c: Beat) -> bool {
    &&& x == a || x == b || x == c
    &&& !x.is_nan()
    &&& a.is_nan() || x.le(a)
    &&& b.is_nan() || x.le(b)
    &&& c.is_nan() || x.le(c)
}

/// A crossfade reaches as far as it can: before the edge up to half of what was asked
/// for, as much as the next clip has of material before it, and as long as the run of
/// the previous clip is; behind the edge likewise with the clips exchanged.
pub proof fn law_crossfades_reach_as_far_as_they_can(half: Beat, prev: XfadeSide, next: XfadeSide)
    ensures
        ({
            let asked = if half.is_nan() || half.le(Beat { bits: 0 }) {
                Beat { bits: 0 }
            } else {
                half
            };
            let (lead, tail) = crossfade::reach_of(half, prev, next);
            &&& is_least(lead, asked, next.room, prev.len)
            &&& is_least(tail, asked, prev.room, next.len)
        }),
{
}

/// The reach of a crossfade is the same seen from both sides: with the clips exchanged,
/// what was before the edge is behind it.
pub proof fn law_crossfades_are_alike_from_both_sides(half: Beat, prev: XfadeSide, next: XfadeSide)
    ensures
        crossfade::reach_of(half, prev, next).0 == crossfade::reach_of(half, next, prev).1,
        crossfade::reach_of(half, prev, next).1 == crossfade::reach_of(half, next, prev).0,
{
}

/// An edge is touched from no further than a billionth of a beat, on either side.
pub proof fn law_touching_is_being_close(gap: Beat)
    ensures
        crossfade::is_touching(gap) == (gap.le(Beat { bits: 0x3e11_2e0b_e826_d695 }) && (Beat {
            bits: 0xbe11_2e0b_e826_d695,
        }).le(gap)),
{
}

/// The first place of an id among ids.
pub open spec fn is_first(ids: Seq<u32>, id: u32, at: int) -> bool {
    0 <= at < ids.len() && ids[at] == id && forall|j: int| 0 <= j < at ==> #[trigger] ids[j] != id
}

/// Whether a clip of a song is at a place: on the first track with the id, and there the
/// first with the id.
pub open spec fn clip_is_at(song: SongModel, key: ClipKey, t: int, c: int) -> bool {
    &&& is_first(song.tracks.map_values(|t: super::TrackModel| t.id), key.track_id, t)
    &&& is_first(song.tracks[t].clips.map_values(|c: Clip| c.id), key.clip_id, c)
}

proof fn lemma_first(s: Seq<u32>, id: u32, at: int, from: int)
    requires
        is_first(s, id, at),
        0 <= from <= at,
    ensures
        ids::place_from(s, id, from) == Some(at),
    decreases at - from,
{
    if from < at {
        assert(s[from] != id);
        lemma_first(s, id, at, from + 1);
    }
}

proof fn lemma_first_track(tracks: Seq<super::TrackModel>, id: u32, at: int, from: int)
    requires
        is_first(tracks.map_values(|t: super::TrackModel| t.id), id, at),
        0 <= from <= at,
    ensures
        lookup::track_place_from(tracks, id, from) == Some(at),
    decreases at - from,
{
    let all = tracks.map_values(|t: super::TrackModel| t.id);
    assert(all[from] == tracks[from].id);
    if from < at {
        assert(all[from] != id);
        lemma_first_track(tracks, id, at, from + 1);
    }
}

proof fn lemma_clip_place(song: SongModel, key: ClipKey, t: int, c: int)
    requires
        clip_is_at(song, key, t, c),
    ensures
        crossfade::clip_place(song, key) == Some((t, c)),
{
    lemma_first_track(song.tracks, key.track_id, t, 0);
    assert(track_ids::clip_ids(song.tracks[t].clips) =~= song.tracks[t].clips.map_values(|c: Clip| c.id));
    lemma_first(track_ids::clip_ids(song.tracks[t].clips), key.clip_id, c, 0);
}

/// Whether the audio content with an id is at a place, with these events.
pub open spec fn audio_is_at(song: SongModel, content_id: u32, i: int, events: Seq<ContentEvent>) -> bool {
    &&& is_first(song.clip_contents.map_values(|c: (u32, ContentModel)| c.0), content_id, i)
    &&& song.clip_contents[i].1 == ContentModel::Audio(events)
}

/// A song of which one audio content was edited, as one run.
proof fn lemma_edited(
    song: SongModel,
    content_id: u32,
    i: int,
    events: Seq<ContentEvent>,
    run: Seq<usize>,
    g: spec_fn(ContentEvent) -> ContentEvent,
)
    requires
        audio_is_at(song, content_id, i, events),
        are_places(run, events.len()),
    ensures
        crossfade::with_run_edited(song, content_id, run, g) == (SongModel {
            clip_contents: song.clip_contents.update(
                i,
                (
                    content_id,
                    ContentModel::Audio(window_edit::recut(events, run, g(window_edit::whole_of(events, run)))),
                ),
            ),
            ..song
        }),
{
    assert(time_paste::content_ids(song) =~= song.clip_contents.map_values(|c: (u32, ContentModel)| c.0));
    lemma_first(time_paste::content_ids(song), content_id, i, 0);
    assert(song.clip_contents[i].0 == content_id);
    assert(crossfade::audio_events(song, content_id) == Some(events));
    assert(window_edit::is_run(events, run));
}

/// How a side of a crossfade is heard: what it fades over is as long as the whole
/// stretch, and it sounds beyond the edge as far as is said. The curve stays.
pub open spec fn fades_over(now: Fade, was: Fade, ramp: Beat, beyond: Beat) -> bool {
    now.beats == ramp && now.over_beats == beyond && now.curve == was.curve
}

/// A crossfade is heard on both sides of the edge. The last event of the previous clip
/// fades out over the whole stretch and sounds as far behind the edge as the stretch
/// goes, and so does that clip; the first event of the next clip fades in over the whole
/// stretch and sounds as far before the edge, and so does that clip. No other clip
/// changes, no other event, and nothing else of the song.
pub proof fn law_a_crossfade_is_heard_on_both_sides(
    song: SongModel,
    prev: ClipKey,
    next: ClipKey,
    prev_at: (int, int),
    next_at: (int, int),
    prev_side: (u32, Seq<usize>),
    next_side: (u32, Seq<usize>),
    contents: (int, int),
    events: (Seq<ContentEvent>, Seq<ContentEvent>),
    span: XfadeSpan,
)
    requires
        clip_is_at(song, prev, prev_at.0, prev_at.1),
        clip_is_at(song, next, next_at.0, next_at.1),
        prev_at != next_at,
        audio_is_at(song, prev_side.0, contents.0, events.0),
        audio_is_at(song, next_side.0, contents.1, events.1),
        are_places(prev_side.1, events.0.len()),
        are_places(next_side.1, events.1.len()),
        prev_side.0 == next_side.0 ==> forall|i: usize|
            #[trigger] prev_side.1.contains(i) ==> !next_side.1.contains(i),
        events.0.len() <= usize::MAX,
        events.1.len() <= usize::MAX,
    ensures
        ({
            let now = crossfade::crossfaded(song, prev, next, prev_side, next_side, span);
            let out = prev_side.1.last() as int;
            let into = next_side.1[0] as int;
            let a = now.tracks[prev_at.0].clips[prev_at.1];
            let b = now.tracks[next_at.0].clips[next_at.1];
            &&& now.clip_contents[contents.0].1 matches ContentModel::Audio(v) && v.len() == events.0.len()
                && fades_over(v[out].fade_out, events.0[out].fade_out, span.ramp, span.tail)
            &&& now.clip_contents[contents.1].1 matches ContentModel::Audio(v) && v.len() == events.1.len()
                && fades_over(v[into].fade_in, events.1[into].fade_in, span.ramp, span.lead) && forall|i: int|
                0 <= i < v.len() && !next_side.1.contains(i as usize) && !(contents.0 == contents.1
                    && prev_side.1.contains(i as usize)) ==> #[trigger] v[i] == events.1[i]
            &&& a == (Clip { xfade_tail_beats: span.tail, ..song.tracks[prev_at.0].clips[prev_at.1] })
            &&& b == (Clip { xfade_lead_beats: span.lead, ..song.tracks[next_at.0].clips[next_at.1] })
            &&& now.tracks.len() == song.tracks.len()
            &&& forall|t: int|
                0 <= t < song.tracks.len() ==> (#[trigger] now.tracks[t]) == (super::TrackModel {
                    clips: now.tracks[t].clips,
                    ..song.tracks[t]
                }) && now.tracks[t].clips.len() == song.tracks[t].clips.len()
            &&& forall|t: int, c: int|
                0 <= t < song.tracks.len() && 0 <= c < song.tracks[t].clips.len() && (t, c) != prev_at && (t, c)
                    != next_at ==> #[trigger] now.tracks[t].clips[c] == song.tracks[t].clips[c]
            &&& now.clip_contents.len() == song.clip_contents.len()
            &&& forall|i: int|
                0 <= i < song.clip_contents.len() && i != contents.0 && i != contents.1
                    ==> #[trigger] now.clip_contents[i] == song.clip_contents[i]
            &&& now == (SongModel { tracks: now.tracks, clip_contents: now.clip_contents, ..song })
        }),
{
    let ga = |e: ContentEvent| crossfade::faded(e, true, span);
    let gb = |e: ContentEvent| crossfade::faded(e, false, span);
    let b = crossfade::with_run_edited(
        crossfade::with_run_edited(song, prev_side.0, prev_side.1, ga),
        next_side.0,
        next_side.1,
        gb,
    );
    lemma_contents_fade(song, prev_side, next_side, contents, events, span);
    lemma_clips_sound_on(b, prev, next, prev_at, next_at, span);
    let now = crossfade::crossfaded(song, prev, next, prev_side, next_side, span);
    assert(now.clip_contents == b.clip_contents);
}

proof fn lemma_clips_sound_on(
    song: SongModel,
    prev: ClipKey,
    next: ClipKey,
    prev_at: (int, int),
    next_at: (int, int),
    span: XfadeSpan,
)
    requires
        clip_is_at(song, prev, prev_at.0, prev_at.1),
        clip_is_at(song, next, next_at.0, next_at.1),
        prev_at != next_at,
    ensures
        ({
            let c = crossfade::with_clip_at(song, prev, |x: Clip| Clip { xfade_tail_beats: span.tail, ..x });
            let now = crossfade::with_clip_at(c, next, |x: Clip| Clip { xfade_lead_beats: span.lead, ..x });
            let a = now.tracks[prev_at.0].clips[prev_at.1];
            let b = now.tracks[next_at.0].clips[next_at.1];
            &&& a == (Clip { xfade_tail_beats: span.tail, ..song.tracks[prev_at.0].clips[prev_at.1] })
            &&& b == (Clip { xfade_lead_beats: span.lead, ..song.tracks[next_at.0].clips[next_at.1] })
            &&& now.tracks.len() == song.tracks.len()
            &&& forall|t: int|
                0 <= t < song.tracks.len() ==> (#[trigger] now.tracks[t]) == (super::TrackModel {
                    clips: now.tracks[t].clips,
                    ..song.tracks[t]
                }) && now.tracks[t].clips.len() == song.tracks[t].clips.len()
            &&& forall|t: int, c: int|
                0 <= t < song.tracks.len() && 0 <= c < song.tracks[t].clips.len() && (t, c) != prev_at && (t, c)
                    != next_at ==> #[trigger] now.tracks[t].clips[c] == song.tracks[t].clips[c]
            &&& now == (SongModel { tracks: now.tracks, ..song })
        }),
{
    lemma_clip_place(song, prev, prev_at.0, prev_at.1);
    let tail = |x: Clip| Clip { xfade_tail_beats: span.tail, ..x };
    let c = crossfade::with_clip_at(song, prev, tail);
    assert(clip_is_at(c, next, next_at.0, next_at.1)) by {
        assert(c.tracks.map_values(|t: super::TrackModel| t.id) =~= song.tracks.map_values(
            |t: super::TrackModel| t.id,
        ));
        assert(c.tracks[next_at.0].clips.map_values(|c: Clip| c.id) =~= song.tracks[next_at.0].clips.map_values(
            |c: Clip| c.id,
        ));
    }
    lemma_clip_place(c, next, next_at.0, next_at.1);
}

proof fn lemma_contents_fade(
    song: SongModel,
    prev_side: (u32, Seq<usize>),
    next_side: (u32, Seq<usize>),
    contents: (int, int),
    events: (Seq<ContentEvent>, Seq<ContentEvent>),
    span: XfadeSpan,
)
    requires
        audio_is_at(song, prev_side.0, contents.0, events.0),
        audio_is_at(song, next_side.0, contents.1, events.1),
        are_places(prev_side.1, events.0.len()),
        are_places(next_side.1, events.1.len()),
        prev_side.0 == next_side.0 ==> forall|i: usize|
            #[trigger] prev_side.1.contains(i) ==> !next_side.1.contains(i),
        events.0.len() <= usize::MAX,
        events.1.len() <= usize::MAX,
    ensures
        ({
            let ga = |e: ContentEvent| crossfade::faded(e, true, span);
            let gb = |e: ContentEvent| crossfade::faded(e, false, span);
            let now = crossfade::with_run_edited(
                crossfade::with_run_edited(song, prev_side.0, prev_side.1, ga),
                next_side.0,
                next_side.1,
                gb,
            );
            let out = prev_side.1.last() as int;
            let into = next_side.1[0] as int;
            &&& now.clip_contents[contents.0].1 matches ContentModel::Audio(v) && v.len() == events.0.len()
                && fades_over(v[out].fade_out, events.0[out].fade_out, span.ramp, span.tail)
            &&& now.clip_contents[contents.1].1 matches ContentModel::Audio(v) && v.len() == events.1.len()
                && fades_over(v[into].fade_in, events.1[into].fade_in, span.ramp, span.lead) && forall|i: int|
                0 <= i < v.len() && !next_side.1.contains(i as usize) && !(contents.0 == contents.1
                    && prev_side.1.contains(i as usize)) ==> #[trigger] v[i] == events.1[i]
            &&& now.clip_contents.len() == song.clip_contents.len()
            &&& forall|i: int|
                0 <= i < song.clip_contents.len() && i != contents.0 && i != contents.1
                    ==> #[trigger] now.clip_contents[i] == song.clip_contents[i]
            &&& now == (SongModel { clip_contents: now.clip_contents, ..song })
        }),
{
    let ga = |e: ContentEvent| crossfade::faded(e, true, span);
    let gb = |e: ContentEvent| crossfade::faded(e, false, span);
    let pr = prev_side.1;
    let nr = next_side.1;
    let wa = ga(window_edit::whole_of(events.0, pr));
    let va = window_edit::recut(events.0, pr, wa);
    let a = crossfade::with_run_edited(song, prev_side.0, pr, ga);
    let ids_then = song.clip_contents.map_values(|c: (u32, ContentModel)| c.0);
    let same = contents.0 == contents.1;
    let eb = if same {
        va
    } else {
        events.1
    };
    lemma_edited(song, prev_side.0, contents.0, events.0, pr, ga);
    lemma_side_fades(events.0, pr, true, span);
    assert(audio_is_at(a, next_side.0, contents.1, eb)) by {
        assert(ids_then[contents.0] == prev_side.0 && ids_then[contents.1] == next_side.0);
        assert(a.clip_contents.map_values(|c: (u32, ContentModel)| c.0) =~= ids_then);
    }
    if prev_side.0 == next_side.0 && !same {
        if contents.0 < contents.1 {
            assert(ids_then[contents.0] != next_side.0);
        } else {
            assert(ids_then[contents.1] != prev_side.0);
        }
    }
    lemma_edited(a, next_side.0, contents.1, eb, nr, gb);
    lemma_side_fades(eb, nr, false, span);
    let vb = window_edit::recut(eb, nr, gb(window_edit::whole_of(eb, nr)));
    let last = pr.last();
    let first = nr[0];
    assert(pr.contains(last) && nr.contains(first));
    assert(pr[pr.len() - 1] < events.0.len() && nr[0] < events.1.len());
    if same {
        assert(!pr.contains(first));
        assert(va[first as int] == events.0[first as int]);
        assert(vb[last as int] == va[last as int]);
        assert forall|i: int| 0 <= i < vb.len() && !nr.contains(i as usize) && !pr.contains(i as usize) implies
            #[trigger] vb[i] == events.1[i] by {
            assert(vb[i] == va[i]);
        }
    }
}

/// One side of a crossfade: its outer event fades.
proof fn lemma_side_fades(events: Seq<ContentEvent>, run: Seq<usize>, out: bool, span: XfadeSpan)
    requires
        are_places(run, events.len()),
    ensures
        ({
            let v = window_edit::recut(events, run, crossfade::faded(window_edit::whole_of(events, run), out, span));
            let last = run.last() as int;
            let first = run[0] as int;
            &&& v.len() == events.len()
            &&& out ==> fades_over(v[last].fade_out, events[last].fade_out, span.ramp, span.tail)
            &&& !out ==> fades_over(v[first].fade_in, events[first].fade_in, span.ramp, span.lead)
            &&& forall|i: int| 0 <= i < events.len() && !run.contains(i as usize) ==> #[trigger] v[i] == events[i]
        }),
{
    let whole = crossfade::faded(window_edit::whole_of(events, run), out, span);
    law_a_run_is_from_its_first_to_its_last(events, run);
    lemma_recut(events, run, whole);
    let v = window_edit::recut(events, run, whole);
    assert(run[0] < events.len() && run[run.len() - 1] < events.len());
    if run.len() > 1 {
        assert(v[run[0] as int] == whole.spec_piece(&events[run[0] as int]));
        assert(v[run[run.len() - 1] as int] == whole.spec_piece(&events[run[run.len() - 1] as int]));
    }
}

} // verus!
