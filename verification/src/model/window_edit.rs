//! Editing the pieces that a clip shows.
//!
//! Splitting a clip leaves pieces of one take behind. Pieces that follow on each
//! other are edited as the one event that they came from, and are cut again
//! where they were cut: it makes no difference whether an event is split before
//! it is edited or after.

use super::clip::{ClipContent, ContentEvent, ContentModel, Fade};
use crate::beat::Beat;
use vstd::prelude::*;

verus! {

/// Where an event is and how it fades in and out.
#[derive(Clone, Copy, Debug, PartialEq, Eq, Structural)]
pub struct EventFade {
    pub start_beat: Beat,
    pub end_beat: Beat,
    pub fade_in: Fade,
    pub fade_out: Fade,
}

/// An event that can be cut into pieces and put together again.
pub trait TimedEvent: Sized {
    spec fn spec_fade(&self) -> EventFade;

    /// The event with other fades. It stays where it is.
    spec fn with_fade(&self, fade: EventFade) -> Self;

    /// Whether the next event goes on where this one stops, as pieces of one
    /// event do.
    spec fn spec_joins(&self, next: &Self) -> bool;

    /// This event and the next as one.
    spec fn spec_joined(&self, next: &Self) -> Self;

    /// The piece of this event where another one is, under the identity of that.
    spec fn spec_piece(&self, like: &Self) -> Self;

    fn fade(&self) -> (r: EventFade)
        ensures
            r == self.spec_fade(),
    ;

    fn set_fade(&mut self, fade: &EventFade)
        ensures
            *final(self) == old(self).with_fade(*fade),
    ;

    fn joinable(&self, next: &Self) -> (r: bool)
        ensures
            r == self.spec_joins(next),
    ;

    fn join_into(&mut self, next: &Self)
        ensures
            *final(self) == old(self).spec_joined(next),
    ;

    fn event_piece(&self, like: &Self) -> (r: Self)
        ensures
            r == self.spec_piece(like),
    ;

    fn copied(&self) -> (r: Self)
        ensures
            r == *self,
    ;
}

// ---------------------------------------------------------------------------
// What a window shows
// ---------------------------------------------------------------------------

/// Whether something of an event is in a window.
pub open spec fn is_shown(fade: EventFade, window: (Beat, Beat)) -> bool {
    fade.start_beat.lt(window.1) && window.0.lt(fade.end_beat)
}

/// Whether something of an event is in a window.
pub fn shown_in<E: TimedEvent>(event: &E, window: (Beat, Beat)) -> (r: bool)
    ensures
        r == is_shown(event.spec_fade(), window),
{
    let f = event.fade();
    f.start_beat.lt(window.1) && window.0.lt(f.end_beat)
}

/// Whether one place comes before another: by where the events start, and by the
/// places if that is the same.
pub open spec fn comes_before<E: TimedEvent>(events: Seq<E>, i: int, j: int) -> bool {
    let a = events[i].spec_fade().start_beat.total_rank();
    let b = events[j].spec_fade().start_beat.total_rank();
    a < b || (a == b && i < j)
}

/// Whether places are those of events in order, none of them twice.
pub open spec fn in_order<E: TimedEvent>(events: Seq<E>, places: Seq<usize>) -> bool {
    &&& forall|k: int| 0 <= k < places.len() ==> #[trigger] places[k] < events.len()
    &&& forall|k: int, l: int| 0 <= k < l < places.len() ==> comes_before(events, places[k] as int, places[l] as int)
}

/// Puts a place where it belongs, unless it is there already.
fn insert_place<E: TimedEvent>(events: &Vec<E>, places: &mut Vec<usize>, place: usize)
    requires
        in_order(events@, old(places)@),
        place < events@.len(),
    ensures
        in_order(events@, final(places)@),
        forall|i: usize| #[trigger] final(places)@.contains(i) <==> old(places)@.contains(i) || i == place,
{
    let ghost before = places@;
    let at: i64 = events[place].fade().start_beat.order_total_rank();
    let mut k: usize = 0;
    while k < places.len()
        invariant
            before == places@,
            in_order(events@, before),
            place < events@.len(),
            at == events@[place as int].spec_fade().start_beat.total_rank(),
            k <= before.len(),
            forall|l: int| 0 <= l < k ==> comes_before(events@, #[trigger] before[l] as int, place as int),
        ensures
            k < before.len() ==> comes_before(events@, place as int, before[k as int] as int),
        decreases before.len() - k,
    {
        let other: usize = places[k];
        if other == place {
            assert(before[k as int] == place);
            return;
        }
        let there: i64 = events[other].fade().start_beat.order_total_rank();
        if at < there || (at == there && place < other) {
            break;
        }
        k += 1;
    }
    places.insert(k, place);
    proof {
        let after = places@;
        assert forall|i: int, j: int| 0 <= i < j < after.len() implies comes_before(
            events@,
            after[i] as int,
            after[j] as int,
        ) by {
            if j < k {
                assert(after[i] == before[i] && after[j] == before[j]);
            } else if j == k {
                assert(after[i] == before[i]);
            } else if i < k {
                assert(after[i] == before[i] && after[j] == before[j - 1]);
            } else if i == k {
                assert(after[j] == before[j - 1]);
                if j - 1 > k {
                    assert(comes_before(events@, before[k as int] as int, before[j - 1] as int));
                }
            } else {
                assert(after[i] == before[i - 1] && after[j] == before[j - 1]);
            }
        }
        assert forall|i: usize| #[trigger] after.contains(i) <==> before.contains(i) || i == place by {
            if before.contains(i) {
                let l = choose|l: int| 0 <= l < before.len() && before[l] == i;
                if l < k {
                    assert(after[l] == i);
                } else {
                    assert(after[l + 1] == i);
                }
            }
            if i == place {
                assert(after[k as int] == i);
            }
            if after.contains(i) && i != place {
                let l = choose|l: int| 0 <= l < after.len() && after[l] == i;
                if l < k {
                    assert(before[l] == i);
                } else {
                    assert(before[l - 1] == i);
                }
            }
        }
    }
}

/// The given places in order, each once. What is no place of an event is left
/// out.
pub fn sorted_by_start<E: TimedEvent>(events: &Vec<E>, targets: &Vec<usize>) -> (r: Vec<usize>)
    ensures
        in_order(events@, r@),
        forall|i: usize| #[trigger] r@.contains(i) <==> targets@.contains(i) && i < events@.len(),
{
    let mut r: Vec<usize> = Vec::new();
    let mut k: usize = 0;
    while k < targets.len()
        invariant
            k <= targets@.len(),
            in_order(events@, r@),
            forall|i: usize| #[trigger] r@.contains(i) <==> targets@.take(k as int).contains(i) && i < events@.len(),
        decreases targets@.len() - k,
    {
        let ghost before = r@;
        if targets[k] < events.len() {
            insert_place(events, &mut r, targets[k]);
        }
        proof {
            let done = targets@.take(k as int);
            let next = targets@.take(k + 1);
            assert(next =~= done.push(targets@[k as int]));
            assert forall|i: usize| #[trigger] r@.contains(i) <==> next.contains(i) && i < events@.len() by {
                assert(before.contains(i) <==> done.contains(i) && i < events@.len());
                if done.contains(i) {
                    let l = choose|l: int| 0 <= l < done.len() && done[l] == i;
                    assert(next[l] == i);
                }
                if next.contains(i) && i != targets@[k as int] {
                    let l = choose|l: int| 0 <= l < next.len() && next[l] == i;
                    assert(done[l] == i);
                }
                if i == targets@[k as int] {
                    assert(next[k as int] == i);
                }
            }
        }
        k += 1;
    }
    assert(targets@.take(k as int) =~= targets@);
    r
}

/// The events that a window shows, in order.
pub fn shown_indices<E: TimedEvent>(events: &Vec<E>, window: (Beat, Beat)) -> (r: Vec<usize>)
    ensures
        in_order(events@, r@),
        forall|i: usize|
            #[trigger] r@.contains(i) <==> i < events@.len() && is_shown(events@[i as int].spec_fade(), window),
{
    let mut r: Vec<usize> = Vec::new();
    let mut k: usize = 0;
    while k < events.len()
        invariant
            k <= events@.len(),
            in_order(events@, r@),
            forall|i: usize|
                #[trigger] r@.contains(i) <==> i < k && is_shown(events@[i as int].spec_fade(), window),
        decreases events@.len() - k,
    {
        if shown_in(&events[k], window) {
            insert_place(events, &mut r, k);
        }
        k += 1;
    }
    r
}

// ---------------------------------------------------------------------------
// Runs
// ---------------------------------------------------------------------------

/// Places gathered into runs: those that go on where the one before stops are in
/// one.
pub open spec fn runs_of<E: TimedEvent>(events: Seq<E>, places: Seq<usize>) -> Seq<Seq<usize>>
    decreases places.len(),
{
    if places.len() == 0 {
        Seq::empty()
    } else {
        let front = runs_of(events, places.drop_last());
        let i = places.last();
        if front.len() > 0 && events[front.last().last() as int].spec_joins(&events[i as int]) {
            front.update(front.len() - 1, front.last().push(i))
        } else {
            front.push(seq![i])
        }
    }
}

/// Runs as sequences.
pub open spec fn run_seqs(v: Seq<Vec<usize>>) -> Seq<Seq<usize>> {
    v.map_values(|r: Vec<usize>| r@)
}

/// Everything in runs, one behind the other.
pub open spec fn flattened(runs: Seq<Seq<usize>>) -> Seq<usize>
    decreases runs.len(),
{
    if runs.len() == 0 {
        Seq::empty()
    } else {
        flattened(runs.drop_last()) + runs.last()
    }
}

/// Runs hold the places that were gathered, in order; none of them is empty.
pub proof fn law_runs_hold_every_place<E: TimedEvent>(events: Seq<E>, places: Seq<usize>)
    ensures
        flattened(runs_of(events, places)) == places,
        forall|r: int| 0 <= r < runs_of(events, places).len() ==> (#[trigger] runs_of(events, places)[r]).len() > 0,
    decreases places.len(),
{
    if places.len() > 0 {
        law_runs_hold_every_place(events, places.drop_last());
        let front = runs_of(events, places.drop_last());
        let all = runs_of(events, places);
        let i = places.last();
        if front.len() > 0 && events[front.last().last() as int].spec_joins(&events[i as int]) {
            assert(all.drop_last() =~= front.drop_last());
            assert(all.last() =~= front.last().push(i));
            assert(flattened(all) =~= flattened(front).push(i));
        } else {
            assert(all.drop_last() =~= front);
            assert(flattened(all) =~= flattened(front).push(i));
        }
        assert(places =~= places.drop_last().push(i));
    }
}

proof fn lemma_runs_in<E: TimedEvent>(events: Seq<E>, places: Seq<usize>)
    requires
        forall|k: int| 0 <= k < places.len() ==> #[trigger] places[k] < events.len(),
    ensures
        forall|r: int, k: int|
            0 <= r < runs_of(events, places).len() && 0 <= k < runs_of(events, places)[r].len() ==> #[trigger] runs_of(
                events,
                places,
            )[r][k] < events.len(),
    decreases places.len(),
{
    if places.len() > 0 {
        assert forall|k: int| 0 <= k < places.drop_last().len() implies #[trigger] places.drop_last()[k]
            < events.len() by {
            assert(places.drop_last()[k] == places[k]);
        }
        lemma_runs_in(events, places.drop_last());
        law_runs_hold_every_place(events, places.drop_last());
        let front = runs_of(events, places.drop_last());
        let all = runs_of(events, places);
        assert forall|r: int, k: int| 0 <= r < all.len() && 0 <= k < all[r].len() implies #[trigger] all[r][k]
            < events.len() by {
            if r < front.len() && k < front[r].len() {
                assert(all[r][k] == front[r][k]);
            } else {
                assert(all[r][k] == places[places.len() - 1]);
            }
        }
    }
}

fn gather_runs<E: TimedEvent>(events: &Vec<E>, places: &Vec<usize>) -> (runs: Vec<Vec<usize>>)
    requires
        forall|k: int| 0 <= k < places@.len() ==> #[trigger] places@[k] < events@.len(),
    ensures
        run_seqs(runs@) == runs_of(events@, places@),
{
    let mut runs: Vec<Vec<usize>> = Vec::new();
    let mut k: usize = 0;
    assert(run_seqs(runs@) =~= runs_of(events@, places@.take(0)));
    while k < places.len()
        invariant
            forall|k: int| 0 <= k < places@.len() ==> #[trigger] places@[k] < events@.len(),
            k <= places@.len(),
            run_seqs(runs@) == runs_of(events@, places@.take(k as int)),
        decreases places@.len() - k,
    {
        let i: usize = places[k];
        let ghost done = places@.take(k as int);
        let ghost next = places@.take(k + 1);
        let ghost front = run_seqs(runs@);
        proof {
            assert(next.drop_last() =~= done);
            assert(next.last() == i);
            law_runs_hold_every_place(events@, done);
            assert forall|j: int| 0 <= j < done.len() implies #[trigger] done[j] < events@.len() by {
                assert(done[j] == places@[j]);
            }
            lemma_runs_in(events@, done);
        }
        let n: usize = runs.len();
        let mut follows: bool = false;
        if n > 0 {
            assert(front[n - 1] == runs@[n - 1]@);
            assert(front[n - 1].len() > 0);
            let m: usize = runs[n - 1].len();
            let last: usize = runs[n - 1][m - 1];
            assert(front[n - 1][m - 1] == last);
            follows = events[last].joinable(&events[i]);
        }
        if follows {
            let run = &mut runs[n - 1];
            run.push(i);
            assert(run_seqs(runs@) =~= front.update(n - 1, front[n - 1].push(i)));
        } else {
            let mut run: Vec<usize> = Vec::new();
            run.push(i);
            runs.push(run);
            assert(run@ =~= seq![i]);
            assert(run_seqs(runs@) =~= front.push(seq![i]));
        }
        k += 1;
    }
    assert(places@.take(k as int) =~= places@);
    runs
}

/// The events at places, gathered into runs.
pub fn piece_runs<E: TimedEvent>(events: &Vec<E>, targets: &Vec<usize>) -> (runs: Vec<Vec<usize>>)
    ensures
        exists|places: Seq<usize>|
            #![trigger runs_of(events@, places)]
            in_order(events@, places) && (forall|i: usize|
                #[trigger] places.contains(i) <==> targets@.contains(i) && i < events@.len()) && run_seqs(runs@)
                == runs_of(events@, places),
{
    let places = sorted_by_start(events, targets);
    let runs = gather_runs(events, &places);
    assert(run_seqs(runs@) == runs_of(events@, places@));
    runs
}

/// The events of the first `n` places of a run as one.
pub open spec fn joined_upto<E: TimedEvent>(events: Seq<E>, run: Seq<usize>, n: nat) -> E
    decreases n,
{
    if n <= 1 {
        events[run[0] as int]
    } else {
        joined_upto(events, run, (n - 1) as nat).spec_joined(&events[run[n - 1] as int])
    }
}

/// The events of a run as one.
pub open spec fn whole_of<E: TimedEvent>(events: Seq<E>, run: Seq<usize>) -> E {
    joined_upto(events, run, run.len())
}

/// Whether a run has places, and all of them are those of events.
pub open spec fn is_run<E: TimedEvent>(events: Seq<E>, run: Seq<usize>) -> bool {
    run.len() > 0 && forall|k: int| 0 <= k < run.len() ==> #[trigger] run[k] < events.len()
}

/// The events of a run as one. None if it has no places, or one that is not that
/// of an event.
pub fn joined_run<E: TimedEvent>(events: &Vec<E>, run: &Vec<usize>) -> (r: Option<E>)
    ensures
        r is Some == is_run(events@, run@),
        r matches Some(e) ==> e == whole_of(events@, run@),
{
    if run.len() == 0 {
        return None;
    }
    if run[0] >= events.len() {
        return None;
    }
    let mut joined = events[run[0]].copied();
    let mut k: usize = 1;
    while k < run.len()
        invariant
            1 <= k <= run@.len(),
            forall|j: int| 0 <= j < k ==> #[trigger] run@[j] < events@.len(),
            joined == joined_upto(events@, run@, k as nat),
        decreases run@.len() - k,
    {
        let i: usize = run[k];
        if i >= events.len() {
            assert(!(run@[k as int] < events@.len()));
            return None;
        }
        joined.join_into(&events[i]);
        k += 1;
    }
    Some(joined)
}

/// Where the events of a run are as one, and how that fades: in as the first
/// does, and out as the last does. None as above.
pub fn run_fade<E: TimedEvent>(events: &Vec<E>, run: &Vec<usize>) -> (r: Option<EventFade>)
    ensures
        r is Some == (run@.len() > 0 && run@[0] < events@.len() && run@.last() < events@.len()),
        r matches Some(f) ==> f == run_fade_of(events@, run@),
{
    if run.len() == 0 {
        return None;
    }
    let first: usize = run[0];
    let last: usize = run[run.len() - 1];
    if first >= events.len() || last >= events.len() {
        return None;
    }
    let a = events[first].fade();
    let b = events[last].fade();
    Some(EventFade { start_beat: a.start_beat, end_beat: b.end_beat, fade_in: a.fade_in, fade_out: b.fade_out })
}

/// Where the events of a run are as one, and how that fades.
pub open spec fn run_fade_of<E: TimedEvent>(events: Seq<E>, run: Seq<usize>) -> EventFade {
    let a = events[run[0] as int].spec_fade();
    let b = events[run.last() as int].spec_fade();
    EventFade { end_beat: b.end_beat, fade_out: b.fade_out, ..a }
}

/// The events after the first `n` places of a run were cut again from one event.
pub open spec fn recut_upto<E: TimedEvent>(events: Seq<E>, run: Seq<usize>, whole: E, n: nat) -> Seq<E>
    decreases n,
{
    if n == 0 {
        events
    } else {
        let front = recut_upto(events, run, whole, (n - 1) as nat);
        let i = run[n - 1] as int;
        front.update(i, whole.spec_piece(&front[i]))
    }
}

/// The events after a run became one event: that itself where the run has one
/// place, and its pieces where it has several.
pub open spec fn recut<E: TimedEvent>(events: Seq<E>, run: Seq<usize>, whole: E) -> Seq<E> {
    if run.len() == 1 {
        events.update(run[0] as int, whole)
    } else {
        recut_upto(events, run, whole, run.len())
    }
}

/// Cuts a run again from the one event that it became.
pub(crate) fn cut_again<E: TimedEvent>(events: &mut Vec<E>, run: &Vec<usize>, whole: E)
    requires
        is_run(old(events)@, run@),
    ensures
        final(events)@ == recut(old(events)@, run@, whole),
        final(events)@.len() == old(events)@.len(),
{
    let ghost before = events@;
    if run.len() == 1 {
        events.set(run[0], whole);
        return;
    }
    let mut k: usize = 0;
    while k < run.len()
        invariant
            is_run(before, run@),
            events@.len() == before.len(),
            k <= run@.len(),
            events@ == recut_upto(before, run@, whole, k as nat),
        decreases run@.len() - k,
    {
        let i: usize = run[k];
        let piece = whole.event_piece(&events[i]);
        events.set(i, piece);
        k += 1;
    }
}

/// Edits a run as one event. There is nothing to do for what is no run.
pub fn edit_run<E: TimedEvent>(events: &mut Vec<E>, run: &Vec<usize>, f: impl FnOnce(&mut E))
    requires
        forall|e: &mut E|
            is_run(old(events)@, run@) && *e == whole_of(old(events)@, run@) ==> #[trigger] call_requires(f, (e,)),
    ensures
        final(events)@.len() == old(events)@.len(),
        !is_run(old(events)@, run@) ==> final(events)@ == old(events)@,
        is_run(old(events)@, run@) ==> exists|e: &mut E|
            *e == whole_of(old(events)@, run@) && #[trigger] call_ensures(f, (e,), ()) && final(events)@ == recut(
                old(events)@,
                run@,
                *final(e),
            ),
{
    let joined = joined_run(events, run);
    match joined {
        Some(mut whole) => {
            f(&mut whole);
            cut_again(events, run, whole);
        },
        None => {},
    }
}

/// Whether places are the targets among events, in order.
pub open spec fn are_targets<E: TimedEvent>(events: Seq<E>, targets: Seq<usize>, places: Seq<usize>) -> bool {
    in_order(events, places) && forall|i: usize|
        #[trigger] places.contains(i) <==> targets.contains(i) && i < events.len()
}

/// Events after the first `n` runs were edited, each as one event.
pub open spec fn edited_upto<E: TimedEvent>(
    events: Seq<E>,
    runs: Seq<Seq<usize>>,
    g: spec_fn(E) -> E,
    n: nat,
) -> Seq<E>
    decreases n,
{
    if n == 0 {
        events
    } else {
        let front = edited_upto(events, runs, g, (n - 1) as nat);
        recut(front, runs[n - 1], g(whole_of(front, runs[n - 1])))
    }
}

/// Whether an edit of the `n` runs of the targets, each as one event, leads from
/// some events to others.
pub open spec fn runs_are_edited<E: TimedEvent>(
    before: Seq<E>,
    after: Seq<E>,
    targets: Seq<usize>,
    g: spec_fn(E) -> E,
    n: nat,
) -> bool {
    exists|places: Seq<usize>|
        #[trigger] are_targets(before, targets, places) && n == runs_of(before, places).len() && after == edited_upto(
            before,
            runs_of(before, places),
            g,
            n,
        )
}

/// Edits the events at places, run by run, each run as one event. Returns how
/// many runs there are.
pub fn edit_runs<E: TimedEvent, F: Fn(&mut E)>(events: &mut Vec<E>, targets: &Vec<usize>, f: F) -> (r: usize)
    requires
        forall|e: &mut E| #[trigger] call_requires(f, (e,)),
    ensures
        final(events)@.len() == old(events)@.len(),
        exists|places: Seq<usize>, states: Seq<Seq<E>>|
            #![trigger runs_of(old(events)@, places), states.len()]
            are_targets(old(events)@, targets@, places) && r == runs_of(old(events)@, places).len() && states.len() == r
                + 1 && states[0] == old(events)@ && states[r as int] == final(events)@ && (forall|k: int|
                0 <= k < r ==> exists|e: &mut E|
                    *e == whole_of(#[trigger] states[k], runs_of(old(events)@, places)[k]) && #[trigger] call_ensures(
                        f,
                        (e,),
                        (),
                    ) && states[k + 1] == recut(states[k], runs_of(old(events)@, places)[k], *final(e))),
        forall|g: spec_fn(E) -> E|
            (forall|e: &mut E| #[trigger] call_ensures(f, (e,), ()) ==> *final(e) == g(*e))
                ==> #[trigger] runs_are_edited(old(events)@, final(events)@, targets@, g, r as nat),
{
    let ghost before = events@;
    let places = sorted_by_start(events, targets);
    let runs = gather_runs(events, &places);
    let ghost all = runs_of(before, places@);
    let ghost mut states: Seq<Seq<E>> = seq![before];
    proof {
        law_runs_hold_every_place(before, places@);
        lemma_runs_in(before, places@);
    }
    let mut k: usize = 0;
    while k < runs.len()
        invariant
            forall|e: &mut E| #[trigger] call_requires(f, (e,)),
            run_seqs(runs@) == all,
            events@.len() == before.len(),
            forall|r: int| 0 <= r < all.len() ==> (#[trigger] all[r]).len() > 0,
            forall|r: int, j: int| 0 <= r < all.len() && 0 <= j < all[r].len() ==> #[trigger] all[r][j] < before.len(),
            k <= all.len(),
            states.len() == k + 1,
            states[0] == before,
            states[k as int] == events@,
            forall|j: int|
                0 <= j < k ==> exists|e: &mut E|
                    *e == whole_of(#[trigger] states[j], all[j]) && #[trigger] call_ensures(f, (e,), ()) && states[j + 1]
                        == recut(states[j], all[j], *final(e)),
            forall|g: spec_fn(E) -> E|
                (forall|e: &mut E| #[trigger] call_ensures(f, (e,), ()) ==> *final(e) == g(*e)) ==> events@
                    == #[trigger] edited_upto(before, all, g, k as nat),
        decreases runs@.len() - k,
    {
        let run = &runs[k];
        let ghost now = events@;
        let ghost had = states;
        assert(all[k as int] == run@);
        assert(is_run(now, run@));
        if let Some(mut whole) = joined_run(events, run) {
            f(&mut whole);
            cut_again(events, run, whole);
        }
        proof {
            assert forall|g: spec_fn(E) -> E|
                (forall|e: &mut E| #[trigger] call_ensures(f, (e,), ()) ==> *final(e) == g(*e)) implies events@
                == #[trigger] edited_upto(before, all, g, (k + 1) as nat) by {
                assert(now == edited_upto(before, all, g, k as nat));
            }
            states = states.push(events@);
            assert forall|j: int| 0 <= j < k + 1 implies exists|e: &mut E|
                *e == whole_of(#[trigger] states[j], all[j]) && #[trigger] call_ensures(f, (e,), ()) && states[j + 1]
                    == recut(states[j], all[j], *final(e)) by {
                if j < k {
                    assert(states[j] == had[j] && states[j + 1] == had[j + 1]);
                }
            }
        }
        k += 1;
    }
    assert(are_targets(before, targets@, places@));
    runs.len()
}

/// Whether places are those of the events that a window shows, in order.
pub open spec fn are_shown<E: TimedEvent>(events: Seq<E>, window: (Beat, Beat), places: Seq<usize>) -> bool {
    in_order(events, places) && forall|i: usize|
        #[trigger] places.contains(i) <==> i < events.len() && is_shown(events[i as int].spec_fade(), window)
}

/// Whether a run reaches an edge that some of the events touch: with its last
/// place the end of a window, or with its first the start.
pub open spec fn reaches(run: Seq<usize>, at_end: bool, touches: Seq<bool>) -> bool {
    let i = if at_end {
        run.last()
    } else {
        run[0]
    };
    i < touches.len() && touches[i as int]
}

/// The events that a window shows, gathered into runs.
fn shown_runs<E: TimedEvent>(events: &Vec<E>, window: (Beat, Beat)) -> (runs: Vec<Vec<usize>>)
    ensures
        exists|places: Seq<usize>|
            are_shown(events@, window, places) && run_seqs(runs@) == #[trigger] runs_of(events@, places),
        forall|r: int| 0 <= r < runs@.len() ==> is_run(events@, (#[trigger] runs@[r])@),
        forall|i: usize|
            (exists|r: int| 0 <= r < runs@.len() && (#[trigger] runs@[r])@.contains(i)) <==> i < events@.len()
                && #[trigger] is_shown(events@[i as int].spec_fade(), window),
{
    let shown = shown_indices(events, window);
    let runs = gather_runs(events, &shown);
    proof {
        let all = runs_of(events@, shown@);
        assert(are_shown(events@, window, shown@));
        law_runs_hold_every_place(events@, shown@);
        lemma_runs_in(events@, shown@);
        assert forall|r: int| 0 <= r < runs@.len() implies is_run(events@, (#[trigger] runs@[r])@) by {
            assert(all[r] == runs@[r]@);
            assert forall|k: int| 0 <= k < all[r].len() implies #[trigger] runs@[r]@[k] < events@.len() by {
                assert(all[r][k] < events@.len());
            }
        }
        assert forall|i: usize|
            (exists|r: int| 0 <= r < runs@.len() && (#[trigger] runs@[r])@.contains(i)) <==> i < events@.len()
                && #[trigger] is_shown(events@[i as int].spec_fade(), window) by {
            lemma_flattened_contains(all, i);
            assert(shown@.contains(i) <==> i < events@.len() && is_shown(events@[i as int].spec_fade(), window));
            if exists|r: int| 0 <= r < runs@.len() && (#[trigger] runs@[r])@.contains(i) {
                let r = choose|r: int| 0 <= r < runs@.len() && (#[trigger] runs@[r])@.contains(i);
                assert(all[r].contains(i));
            }
            if exists|r: int| 0 <= r < all.len() && (#[trigger] all[r]).contains(i) {
                let r = choose|r: int| 0 <= r < all.len() && (#[trigger] all[r]).contains(i);
                assert(runs@[r]@.contains(i));
            }
        }
    }
    runs
}

pub(crate) proof fn lemma_flattened_contains(runs: Seq<Seq<usize>>, i: usize)
    ensures
        flattened(runs).contains(i) <==> exists|r: int| 0 <= r < runs.len() && (#[trigger] runs[r]).contains(i),
    decreases runs.len(),
{
    if runs.len() > 0 {
        let front = runs.drop_last();
        lemma_flattened_contains(front, i);
        let a = flattened(front);
        let b = runs.last();
        assert(flattened(runs) == a + b);
        if flattened(runs).contains(i) {
            let k = choose|k: int| 0 <= k < (a + b).len() && (a + b)[k] == i;
            if k < a.len() {
                assert(a[k] == i);
                let r = choose|r: int| 0 <= r < front.len() && (#[trigger] front[r]).contains(i);
                assert(runs[r].contains(i));
            } else {
                assert(b[k - a.len()] == i);
                assert(runs[runs.len() - 1].contains(i));
            }
        }
        if exists|r: int| 0 <= r < runs.len() && (#[trigger] runs[r]).contains(i) {
            let r = choose|r: int| 0 <= r < runs.len() && (#[trigger] runs[r]).contains(i);
            if r < front.len() {
                assert(front[r].contains(i));
                let k = choose|k: int| 0 <= k < a.len() && a[k] == i;
                assert((a + b)[k] == i);
            } else {
                let k = choose|k: int| 0 <= k < b.len() && b[k] == i;
                assert((a + b)[a.len() + k] == i);
            }
        }
    }
}

/// Whether something is the first of the runs that a window shows to reach an
/// edge; nothing is if none of them does.
pub open spec fn is_edge_run<E: TimedEvent>(
    events: Seq<E>,
    window: (Beat, Beat),
    at_end: bool,
    touches: Seq<bool>,
    found: Option<Seq<usize>>,
) -> bool {
    exists|places: Seq<usize>|
        are_shown(events, window, places) && is_first_reaching(#[trigger] runs_of(events, places), at_end, touches, found)
}

/// Whether something is the first run to reach an edge; nothing is if none does.
pub open spec fn is_first_reaching(
    runs: Seq<Seq<usize>>,
    at_end: bool,
    touches: Seq<bool>,
    found: Option<Seq<usize>>,
) -> bool {
    match found {
        Some(run) => exists|k: int|
            0 <= k < runs.len() && run == #[trigger] runs[k] && reaches(run, at_end, touches) && forall|j: int|
                0 <= j < k ==> !reaches(#[trigger] runs[j], at_end, touches),
        None => forall|k: int| 0 <= k < runs.len() ==> !reaches(#[trigger] runs[k], at_end, touches),
    }
}

/// The run that reaches an edge of a window, if one does: the first one.
pub fn edge_run<E: TimedEvent>(events: &Vec<E>, window: (Beat, Beat), at_end: bool, touches: &Vec<bool>) -> (r: Option<
    Vec<usize>,
>)
    ensures
        is_edge_run(
            events@,
            window,
            at_end,
            touches@,
            match r {
                Some(run) => Some(run@),
                None => None,
            },
        ),
        r matches Some(run) ==> is_run(events@, run@),
{
    let runs = shown_runs(events, window);
    let ghost places = choose|places: Seq<usize>|
        are_shown(events@, window, places) && run_seqs(runs@) == #[trigger] runs_of(events@, places);
    let ghost all = runs_of(events@, places);
    let mut k: usize = 0;
    while k < runs.len()
        invariant
            are_shown(events@, window, places),
            all == runs_of(events@, places),
            run_seqs(runs@) == all,
            forall|r: int| 0 <= r < runs@.len() ==> is_run(events@, (#[trigger] runs@[r])@),
            k <= runs@.len(),
            forall|j: int| 0 <= j < k ==> !reaches(#[trigger] all[j], at_end, touches@),
        decreases runs@.len() - k,
    {
        let run = &runs[k];
        assert(all[k as int] == run@);
        let place: usize = if at_end {
            run[run.len() - 1]
        } else {
            run[0]
        };
        if place < touches.len() && touches[place] {
            let found = copy_run(run);
            assert(is_first_reaching(runs_of(events@, places), at_end, touches@, Some(found@)));
            return Some(found);
        }
        k += 1;
    }
    assert(is_first_reaching(runs_of(events@, places), at_end, touches@, None));
    None
}

fn copy_run(run: &Vec<usize>) -> (r: Vec<usize>)
    ensures
        r@ == run@,
{
    let r = run.clone();
    assert(r@ =~= run@);
    r
}

/// The fade of each run, with the place of its first event.
pub open spec fn run_fades<E: TimedEvent>(events: Seq<E>, runs: Seq<Seq<usize>>) -> Seq<(usize, EventFade)> {
    Seq::new(runs.len(), |k: int| (runs[k][0], run_fade_of(events, runs[k])))
}

/// Whether fades are those of the runs that a window shows.
pub open spec fn are_window_fades<E: TimedEvent>(
    events: Seq<E>,
    window: (Beat, Beat),
    fades: Seq<(usize, EventFade)>,
) -> bool {
    exists|places: Seq<usize>|
        are_shown(events, window, places) && fades == run_fades(events, #[trigger] runs_of(events, places))
}

fn collect_fades<E: TimedEvent>(events: &Vec<E>, window: (Beat, Beat)) -> (r: Vec<(usize, EventFade)>)
    ensures
        are_window_fades(events@, window, r@),
{
    let runs = shown_runs(events, window);
    let ghost places = choose|places: Seq<usize>|
        are_shown(events@, window, places) && run_seqs(runs@) == #[trigger] runs_of(events@, places);
    let ghost all = runs_of(events@, places);
    let mut r: Vec<(usize, EventFade)> = Vec::new();
    let mut k: usize = 0;
    while k < runs.len()
        invariant
            run_seqs(runs@) == all,
            forall|r: int| 0 <= r < runs@.len() ==> is_run(events@, (#[trigger] runs@[r])@),
            k <= runs@.len(),
            r@ == run_fades(events@, all).take(k as int),
        decreases runs@.len() - k,
    {
        let run = &runs[k];
        assert(all[k as int] == run@);
        if let Some(fade) = run_fade(events, run) {
            r.push((run[0], fade));
        }
        assert(run_fades(events@, all).take(k + 1) =~= run_fades(events@, all).take(k as int).push(
            run_fades(events@, all)[k as int],
        ));
        k += 1;
    }
    assert(run_fades(events@, all).take(k as int) =~= run_fades(events@, all));
    r
}

/// Whether events are what a fade of the run that holds a place was set in.
pub open spec fn fade_was_set<E: TimedEvent, F: FnOnce(EventFade) -> EventFade>(
    before: Seq<E>,
    after: Seq<E>,
    window: (Beat, Beat),
    index: usize,
    f: F,
) -> bool {
    exists|places: Seq<usize>, k: int, next: EventFade|
        are_shown(before, window, places) && 0 <= k < runs_of(before, places).len() && runs_of(
            before,
            places,
        )[k].contains(index) && #[trigger] call_ensures(
            f,
            (whole_of(before, #[trigger] runs_of(before, places)[k]).spec_fade(),),
            next,
        ) && after == recut(
            before,
            runs_of(before, places)[k],
            whole_of(before, runs_of(before, places)[k]).with_fade(next),
        )
}

fn set_run_fade<E: TimedEvent, F: FnOnce(EventFade) -> EventFade>(
    events: &mut Vec<E>,
    window: (Beat, Beat),
    index: usize,
    f: F,
) -> (r: bool)
    requires
        forall|x: EventFade| #[trigger] call_requires(f, (x,)),
    ensures
        r == (index < old(events)@.len() && is_shown(old(events)@[index as int].spec_fade(), window)),
        !r ==> final(events)@ == old(events)@,
        r ==> fade_was_set(old(events)@, final(events)@, window, index, f),
{
    let ghost before = events@;
    let runs = shown_runs(events, window);
    let ghost places = choose|places: Seq<usize>|
        are_shown(events@, window, places) && run_seqs(runs@) == #[trigger] runs_of(events@, places);
    let ghost all = runs_of(before, places);
    let mut k: usize = 0;
    while k < runs.len() && !has_place(&runs[k], index)
        invariant
            k <= runs@.len(),
            forall|j: int| 0 <= j < k ==> !(#[trigger] runs@[j])@.contains(index),
        decreases runs@.len() - k,
    {
        k += 1;
    }
    if k == runs.len() {
        proof {
            if index < before.len() && is_shown(before[index as int].spec_fade(), window) {
                let j = choose|j: int| 0 <= j < runs@.len() && (#[trigger] runs@[j])@.contains(index);
                assert(false);
            }
        }
        return false;
    }
    let run = &runs[k];
    assert(all[k as int] == run@);
    assert(runs@[k as int]@.contains(index));
    assert(is_shown(before[index as int].spec_fade(), window));
    if let Some(mut whole) = joined_run(events, run) {
        let next = f(whole.fade());
        whole.set_fade(&next);
        cut_again(events, run, whole);
        assert(runs_of(before, places)[k as int] == run@);
        assert(fade_was_set(before, events@, window, index, f));
    }
    true
}

fn has_place(run: &Vec<usize>, place: usize) -> (r: bool)
    ensures
        r == run@.contains(place),
{
    let mut k: usize = 0;
    while k < run.len()
        invariant
            k <= run@.len(),
            forall|j: int| 0 <= j < k ==> run@[j] != place,
        decreases run@.len() - k,
    {
        if run[k] == place {
            return true;
        }
        k += 1;
    }
    false
}

// ---------------------------------------------------------------------------
// The events of contents
// ---------------------------------------------------------------------------

/// No fade.
pub open spec fn no_fade() -> Fade {
    Fade { beats: Beat { bits: 0 }, curve: 0, over_beats: Beat { bits: 0 } }
}

impl ContentEvent {
    /// The event that this one is a piece of.
    pub open spec fn spec_take_key(self) -> u32 {
        if self.take_id == 0 {
            self.id
        } else {
            self.take_id
        }
    }

    /// The event that this one is a piece of.
    pub fn take_key(&self) -> (r: u32)
        ensures
            r == self.spec_take_key(),
    {
        if self.take_id == 0 {
            self.id
        } else {
            self.take_id
        }
    }
}

/// Pieces are of one take, of which each shows its stretch: what the take sounds or
/// shows is theirs alike. A fade stays with the piece at its end of the event.
impl TimedEvent for ContentEvent {
    open spec fn spec_fade(&self) -> EventFade {
        EventFade {
            start_beat: self.start_beat,
            end_beat: self.end_beat,
            fade_in: self.fade_in,
            fade_out: self.fade_out,
        }
    }

    open spec fn with_fade(&self, fade: EventFade) -> ContentEvent {
        ContentEvent { fade_in: fade.fade_in, fade_out: fade.fade_out, ..*self }
    }

    open spec fn spec_joins(&self, next: &ContentEvent) -> bool {
        self.spec_take_key() == next.spec_take_key() && self.end_beat == next.start_beat && self.muted == next.muted
            && self.take_start_beat == next.take_start_beat && self.take_end_beat == next.take_end_beat && self.material
            == next.material
    }

    open spec fn spec_joined(&self, next: &ContentEvent) -> ContentEvent {
        ContentEvent { end_beat: next.end_beat, fade_out: next.fade_out, ..*self }
    }

    open spec fn spec_piece(&self, like: &ContentEvent) -> ContentEvent {
        ContentEvent {
            id: like.id,
            take_id: self.spec_take_key(),
            start_beat: like.start_beat,
            end_beat: like.end_beat,
            take_start_beat: self.take_start_beat,
            take_end_beat: self.take_end_beat,
            fade_in: if like.start_beat == self.start_beat {
                self.fade_in
            } else {
                no_fade()
            },
            fade_out: if like.end_beat == self.end_beat {
                self.fade_out
            } else {
                no_fade()
            },
            muted: self.muted,
            material: self.material,
        }
    }

    fn fade(&self) -> (r: EventFade) {
        EventFade {
            start_beat: self.start_beat,
            end_beat: self.end_beat,
            fade_in: self.fade_in,
            fade_out: self.fade_out,
        }
    }

    fn set_fade(&mut self, fade: &EventFade) {
        self.fade_in = fade.fade_in;
        self.fade_out = fade.fade_out;
    }

    fn joinable(&self, next: &ContentEvent) -> (r: bool) {
        self.take_key() == next.take_key() && self.end_beat == next.start_beat && self.muted == next.muted
            && self.take_start_beat == next.take_start_beat && self.take_end_beat == next.take_end_beat && self.material
            == next.material
    }

    fn join_into(&mut self, next: &ContentEvent) {
        self.end_beat = next.end_beat;
        self.fade_out = next.fade_out;
    }

    fn event_piece(&self, like: &ContentEvent) -> (r: ContentEvent) {
        let cut = Fade { beats: Beat::zero(), curve: 0, over_beats: Beat::zero() };
        ContentEvent {
            id: like.id,
            take_id: self.take_key(),
            start_beat: like.start_beat,
            end_beat: like.end_beat,
            take_start_beat: self.take_start_beat,
            take_end_beat: self.take_end_beat,
            fade_in: if like.start_beat == self.start_beat {
                self.fade_in
            } else {
                cut
            },
            fade_out: if like.end_beat == self.end_beat {
                self.fade_out
            } else {
                cut
            },
            muted: self.muted,
            material: self.material,
        }
    }

    fn copied(&self) -> (r: ContentEvent) {
        *self
    }
}

/// The events of a content, if it is of a kind that has any.
pub open spec fn events_of(content: ContentModel) -> Option<Seq<ContentEvent>> {
    match content {
        ContentModel::Audio(v) => Some(v),
        ContentModel::Video(v) => Some(v),
        ContentModel::Image(v) => Some(v),
        ContentModel::Text(v) => Some(v),
        _ => None,
    }
}

/// A content with other events.
pub open spec fn with_events(content: ContentModel, events: Seq<ContentEvent>) -> ContentModel {
    match content {
        ContentModel::Audio(_) => ContentModel::Audio(events),
        ContentModel::Video(_) => ContentModel::Video(events),
        ContentModel::Image(_) => ContentModel::Image(events),
        ContentModel::Text(_) => ContentModel::Text(events),
        _ => content,
    }
}

impl ClipContent {
    /// How what a window shows fades, whatever kind of content it is: for every
    /// run the place of its first event and its fade. Notes and automation do not
    /// fade.
    pub fn window_fades(&self, window: (Beat, Beat)) -> (r: Vec<(usize, EventFade)>)
        ensures
            events_of(self@) is None ==> r@.len() == 0,
            events_of(self@) matches Some(events) ==> are_window_fades(events, window, r@),
    {
        let events = match self {
            ClipContent::Audio(v) => v,
            ClipContent::Video(v) => v,
            ClipContent::Image(v) => v,
            ClipContent::Text(v) => v,
            ClipContent::Midi(_) => return Vec::new(),
            ClipContent::Automation(_) => return Vec::new(),
        };
        assert(events_of(self@) == Some(events@));
        collect_fades(events, window)
    }

    /// Sets the fade of the run that holds an event. False if the window does not
    /// show the event, or the content does not fade.
    pub fn set_window_fade<F: FnOnce(EventFade) -> EventFade>(
        &mut self,
        window: (Beat, Beat),
        index: usize,
        f: F,
    ) -> (r: bool)
        requires
            forall|x: EventFade| #[trigger] call_requires(f, (x,)),
        ensures
            r == match events_of(old(self)@) {
                Some(events) => index < events.len() && is_shown(events[index as int].spec_fade(), window),
                None => false,
            },
            !r ==> final(self)@ == old(self)@,
            r ==> events_of(final(self)@) is Some && final(self)@ == with_events(
                old(self)@,
                events_of(final(self)@)->0,
            ) && fade_was_set(events_of(old(self)@)->0, events_of(final(self)@)->0, window, index, f),
    {
        match self {
            ClipContent::Audio(v) => set_run_fade(v, window, index, f),
            ClipContent::Video(v) => set_run_fade(v, window, index, f),
            ClipContent::Image(v) => set_run_fade(v, window, index, f),
            ClipContent::Text(v) => set_run_fade(v, window, index, f),
            ClipContent::Midi(_) => false,
            ClipContent::Automation(_) => false,
        }
    }
}

/// Whether events cover another, one going on where the one before stops.
pub open spec fn covers(likes: Seq<ContentEvent>, e: ContentEvent) -> bool {
    &&& likes.len() > 0
    &&& likes[0].start_beat == e.start_beat
    &&& likes.last().end_beat == e.end_beat
    &&& forall|k: int, l: int|
        0 <= k < likes.len() && 0 <= l < likes.len() && l == k + 1 ==> (#[trigger] likes[l]).start_beat == (
        #[trigger] likes[k]).end_beat
}

/// The pieces of an event where others are.
pub open spec fn pieces_of(e: ContentEvent, likes: Seq<ContentEvent>) -> Seq<ContentEvent> {
    Seq::new(likes.len(), |k: int| e.spec_piece(&likes[k]))
}

/// The places of the first `n` events.
pub open spec fn all_places(n: nat) -> Seq<usize> {
    Seq::new(n, |k: int| k as usize)
}

/// Whether an edit leaves an event where it is and who it is, and does not ask
/// who that is.
pub open spec fn keeps_the_event(g: spec_fn(ContentEvent) -> ContentEvent) -> bool {
    forall|x: ContentEvent, id: u32, take_id: u32|
        #![trigger g(ContentEvent { id, take_id, ..x })]
        g(ContentEvent { id, take_id, ..x }) == (ContentEvent {
            id,
            take_id,
            start_beat: x.start_beat,
            end_beat: x.end_beat,
            ..g(x)
        })
}

proof fn lemma_joined(e: ContentEvent, likes: Seq<ContentEvent>, n: nat)
    requires
        covers(likes, e),
        0 < n <= likes.len() <= usize::MAX,
    ensures
        joined_upto(pieces_of(e, likes), all_places(likes.len()), n) == (ContentEvent {
            id: likes[0].id,
            take_id: e.spec_take_key(),
            end_beat: likes[n - 1].end_beat,
            fade_out: e.spec_piece(&likes[n - 1]).fade_out,
            ..e
        }),
    decreases n,
{
    if n > 1 {
        lemma_joined(e, likes, (n - 1) as nat);
    }
}

proof fn lemma_recut(events: Seq<ContentEvent>, whole: ContentEvent, n: nat)
    requires
        n <= events.len() <= usize::MAX,
    ensures
        recut_upto(events, all_places(events.len()), whole, n) == Seq::new(
            events.len(),
            |k: int|
                if k < n {
                    whole.spec_piece(&events[k])
                } else {
                    events[k]
                },
        ),
    decreases n,
{
    if n > 0 {
        lemma_recut(events, whole, (n - 1) as nat);
    }
    assert(recut_upto(events, all_places(events.len()), whole, n) =~= Seq::new(
        events.len(),
        |k: int|
            if k < n {
                whole.spec_piece(&events[k])
            } else {
                events[k]
            },
    ));
}

/// Whether the pieces of an event can be told to be of one event: the event has an id, or
/// there is one piece only, or the pieces have no ids either.
pub open spec fn stay_of_one(e: ContentEvent, likes: Seq<ContentEvent>) -> bool {
    e.spec_take_key() != 0 || likes.len() == 1 || forall|i: int| 0 <= i < likes.len() ==> (#[trigger] likes[i]).id == 0
}

/// The pieces that an event was cut into are one run.
pub proof fn law_pieces_are_one_run(e: ContentEvent, likes: Seq<ContentEvent>, n: nat)
    requires
        covers(likes, e),
        stay_of_one(e, likes),
        0 < n <= likes.len() <= usize::MAX,
    ensures
        runs_of(pieces_of(e, likes), all_places(n)) == seq![all_places(n)],
    decreases n,
{
    let pieces = pieces_of(e, likes);
    let places = all_places(n);
    assert(places.drop_last() =~= all_places((n - 1) as nat));
    let front = runs_of(pieces, places.drop_last());
    if n > 1 {
        law_pieces_are_one_run(e, likes, (n - 1) as nat);
        assert(front.last().last() == n - 2);
        assert(likes[n - 1].start_beat == likes[n - 2].end_beat);
        assert(pieces[n - 2].spec_joins(&pieces[n - 1]));
        assert(front.last().push(places.last()) =~= places);
        assert(front.update(0, places) =~= seq![places]);
    } else {
        assert(front =~= Seq::empty());
        assert(seq![places.last()] =~= places);
        assert(front.push(places) =~= seq![places]);
    }
}

/// The pieces that an event was cut into are that event again, under the
/// identity of the first of them.
pub proof fn law_pieces_join_to_the_whole(e: ContentEvent, likes: Seq<ContentEvent>)
    requires
        covers(likes, e),
        likes.len() <= usize::MAX,
    ensures
        whole_of(pieces_of(e, likes), all_places(likes.len())) == (ContentEvent {
            id: likes[0].id,
            take_id: e.spec_take_key(),
            ..e
        }),
{
    lemma_joined(e, likes, likes.len());
}

/// It makes no difference whether an event is cut first and its pieces edited as
/// a run, or edited first and cut afterwards.
pub proof fn law_cutting_and_editing_commute(
    e: ContentEvent,
    likes: Seq<ContentEvent>,
    g: spec_fn(ContentEvent) -> ContentEvent,
)
    requires
        covers(likes, e),
        stay_of_one(e, likes),
        likes.len() <= usize::MAX,
        keeps_the_event(g),
    ensures
        recut(
            pieces_of(e, likes),
            all_places(likes.len()),
            g(whole_of(pieces_of(e, likes), all_places(likes.len()))),
        ) == pieces_of(g(e), likes),
{
    let pieces = pieces_of(e, likes);
    let run = all_places(likes.len());
    let whole = whole_of(pieces, run);
    law_pieces_join_to_the_whole(e, likes);
    assert(e == (ContentEvent { id: e.id, take_id: e.take_id, ..e }));
    let edited = g(whole);
    assert(edited == g(ContentEvent { id: likes[0].id, take_id: e.spec_take_key(), ..e }));
    assert(g(e) == g(ContentEvent { id: e.id, take_id: e.take_id, ..e }));
    lemma_recut(pieces, edited, likes.len());
    assert(likes[0].id == 0 || e.spec_take_key() != 0 || likes.len() == 1);
    assert forall|k: int| 0 <= k < likes.len() && likes.len() > 1 implies edited.spec_piece(&pieces[k]) == #[trigger] g(
        e,
    ).spec_piece(&likes[k]) by {}
    assert(recut(pieces, run, edited) =~= pieces_of(g(e), likes)) by {
        if run.len() == 1 {
            assert(edited == g(e).spec_piece(&likes[0]));
        }
    }
}

/// Whether events come in the order of their starts.
pub open spec fn starts_in_order(likes: Seq<ContentEvent>) -> bool {
    forall|i: int, j: int|
        0 <= i < j < likes.len() ==> (#[trigger] likes[i]).start_beat.total_rank() <= (
        #[trigger] likes[j]).start_beat.total_rank()
}

proof fn lemma_all_in_order(events: Seq<ContentEvent>, places: Seq<usize>, k: int)
    requires
        events.len() <= usize::MAX,
        starts_in_order(events),
        in_order(events, places),
        forall|i: usize| #[trigger] places.contains(i) <==> i < events.len(),
        0 <= k <= events.len(),
    ensures
        k <= places.len(),
        forall|j: int| 0 <= j < k ==> #[trigger] places[j] == j,
    decreases k,
{
    if k > 0 {
        lemma_all_in_order(events, places, k - 1);
        assert(places.contains((k - 1) as usize));
        let m = choose|m: int| 0 <= m < places.len() && places[m] == k - 1;
        assert(m >= k - 1);
        if m > k - 1 {
            assert(comes_before(events, places[k - 1] as int, places[m] as int));
            assert(places[k - 1] < k - 1);
            assert(places[places[k - 1] as int] == places[k - 1]);
            assert(comes_before(events, places[places[k - 1] as int] as int, places[k - 1] as int));
        }
    }
}

proof fn lemma_one_run_edited<E: TimedEvent>(events: Seq<E>, run: Seq<usize>, g: spec_fn(E) -> E)
    ensures
        edited_upto(events, seq![run], g, 1) == recut(events, run, g(whole_of(events, run))),
{
    assert(edited_upto(events, seq![run], g, 0) == events);
    assert(seq![run][0] == run);
}

proof fn lemma_places_of_pieces(e: ContentEvent, likes: Seq<ContentEvent>, targets: Seq<usize>, places: Seq<usize>)
    requires
        starts_in_order(likes),
        likes.len() <= usize::MAX,
        forall|i: usize| i < likes.len() ==> targets.contains(i),
        are_targets(pieces_of(e, likes), targets, places),
    ensures
        places == all_places(likes.len()),
{
    let pieces = pieces_of(e, likes);
    assert forall|i: int, j: int| 0 <= i < j < pieces.len() implies (#[trigger] pieces[i]).start_beat.total_rank() <= (
    #[trigger] pieces[j]).start_beat.total_rank() by {
        assert(pieces[i].start_beat == likes[i].start_beat && pieces[j].start_beat == likes[j].start_beat);
    }
    lemma_all_in_order(pieces, places, pieces.len() as int);
    if places.len() > pieces.len() {
        let over = pieces.len() as int;
        let p = places[over];
        assert(p < pieces.len());
        assert(places[p as int] == p);
        assert(comes_before(pieces, places[p as int] as int, places[over] as int));
    }
    assert(places =~= all_places(likes.len()));
}

proof fn lemma_edited_as_one(
    events: Seq<ContentEvent>,
    g: spec_fn(ContentEvent) -> ContentEvent,
    targets: Seq<usize>,
    after: Seq<ContentEvent>,
    n: nat,
)
    requires
        forall|places: Seq<usize>| #[trigger] are_targets(events, targets, places) ==> places == all_places(events.len()),
        runs_of(events, all_places(events.len())) == seq![all_places(events.len())],
        runs_are_edited(events, after, targets, g, n),
    ensures
        n == 1,
        after == recut(events, all_places(events.len()), g(whole_of(events, all_places(events.len())))),
{
    lemma_one_run_edited(events, all_places(events.len()), g);
}

proof fn lemma_places_forced(e: ContentEvent, likes: Seq<ContentEvent>, targets: Seq<usize>)
    requires
        starts_in_order(likes),
        likes.len() <= usize::MAX,
        forall|i: usize| i < likes.len() ==> targets.contains(i),
    ensures
        forall|places: Seq<usize>| #[trigger]
            are_targets(pieces_of(e, likes), targets, places) ==> places == all_places(likes.len()),
{
    assert forall|places: Seq<usize>| #[trigger] are_targets(pieces_of(e, likes), targets, places) implies places
        == all_places(likes.len()) by {
        lemma_places_of_pieces(e, likes, targets, places);
    }
}

/// Editing the pieces of an event is editing it before it was cut: [`edit_runs`],
/// of all the pieces and with an edit that keeps the event, finds one run, and
/// what comes of it are the pieces of the edited event.
pub proof fn law_editing_pieces_is_editing_before_the_cut(
    e: ContentEvent,
    likes: Seq<ContentEvent>,
    g: spec_fn(ContentEvent) -> ContentEvent,
    targets: Seq<usize>,
    after: Seq<ContentEvent>,
    n: nat,
)
    requires
        covers(likes, e),
        starts_in_order(likes),
        stay_of_one(e, likes),
        likes.len() <= usize::MAX,
        keeps_the_event(g),
        forall|i: usize| i < likes.len() ==> targets.contains(i),
        runs_are_edited(pieces_of(e, likes), after, targets, g, n),
    ensures
        n == 1,
        after == pieces_of(g(e), likes),
{
    let pieces = pieces_of(e, likes);
    assert(pieces.len() == likes.len());
    lemma_places_forced(e, likes, targets);
    law_pieces_are_one_run(e, likes, likes.len());
    lemma_edited_as_one(pieces, g, targets, after, n);
    law_cutting_and_editing_commute(e, likes, g);
}

} // verus!
