//! Stable ids: how they are looked up and how they are assigned.

use vstd::prelude::*;

verus! {

/// The first place of an id, from `from` on.
pub open spec fn place_from(ids: Seq<u32>, id: u32, from: int) -> Option<int>
    decreases ids.len() - from,
{
    if from < 0 || from >= ids.len() {
        None
    } else if ids[from] == id {
        Some(from)
    } else {
        place_from(ids, id, from + 1)
    }
}

/// The first place of an id.
pub open spec fn place(ids: Seq<u32>, id: u32) -> Option<int> {
    place_from(ids, id, 0)
}

/// The id to hand out next: the counter, but never zero.
pub open spec fn fresh(next: u32) -> u32 {
    if next == 0 {
        1
    } else {
        next
    }
}

/// The counter after `id` was handed out.
pub open spec fn after(id: u32) -> u32 {
    if id == u32::MAX {
        id
    } else {
        (id + 1) as u32
    }
}

/// An id made sure of, and the counter behind it. An id that is zero is handed
/// out afresh; any other stays, and lifts the counter above it.
pub open spec fn ensured(id: u32, next: int) -> (int, int) {
    if id == 0 {
        let given = if next > 1 {
            next
        } else {
            1
        };
        (given, given + 1)
    } else if id >= next {
        (id as int, id + 1)
    } else {
        (id as int, next)
    }
}

/// Ids made sure of, in order, and the counter behind them.
pub open spec fn all_ensured(ids: Seq<u32>, next: int) -> (Seq<int>, int)
    decreases ids.len(),
{
    if ids.len() == 0 {
        (Seq::empty(), next)
    } else {
        let front = all_ensured(ids.drop_last(), next);
        let one = ensured(ids.last(), front.1);
        (front.0.push(one.0), one.1)
    }
}

/// Ids after they were made sure of.
pub open spec fn ids_after(ids: Seq<u32>, next: u32) -> Seq<u32> {
    Seq::new(ids.len(), |i: int| all_ensured(ids, next as int).0[i] as u32)
}

/// The counter after ids were made sure of. Never zero.
pub open spec fn counter_after(ids: Seq<u32>, next: u32) -> u32 {
    let n = all_ensured(ids, next as int).1;
    if n == 0 {
        1
    } else {
        n as u32
    }
}

/// Whether the counter stays within 32 bits while ids are made sure of.
pub open spec fn ids_fit(ids: Seq<u32>, next: u32) -> bool {
    all_ensured(ids, next as int).1 <= u32::MAX
}

/// The counter never falls, and every id but zero is below it.
pub proof fn lemma_all_ensured(ids: Seq<u32>, next: int)
    requires
        0 <= next,
    ensures
        all_ensured(ids, next).0.len() == ids.len(),
        next <= all_ensured(ids, next).1,
        forall|i: int|
            0 <= i < ids.len() ==> 0 < #[trigger] all_ensured(ids, next).0[i] < all_ensured(ids, next).1,
        forall|i: int|
            0 <= i < ids.len() && ids[i] != 0 ==> #[trigger] all_ensured(ids, next).0[i] == ids[i],
    decreases ids.len(),
{
    if ids.len() > 0 {
        let front = all_ensured(ids.drop_last(), next);
        lemma_all_ensured(ids.drop_last(), next);
        let all = all_ensured(ids, next);
        assert forall|i: int| 0 <= i < ids.len() implies 0 < #[trigger] all.0[i] < all.1 && (ids[i] != 0 ==> all.0[i]
            == ids[i]) by {
            if i < ids.len() - 1 {
                assert(all.0[i] == front.0[i]);
                assert(ids.drop_last()[i] == ids[i]);
            }
        }
    }
}

/// The counter after a part is no larger than after the whole.
pub proof fn lemma_counter_grows(ids: Seq<u32>, next: int, i: int)
    requires
        0 <= next,
        0 <= i <= ids.len(),
    ensures
        all_ensured(ids.take(i), next).1 <= all_ensured(ids, next).1,
        forall|k: int| 0 <= k < i ==> all_ensured(ids.take(i), next).0[k] == #[trigger] all_ensured(ids, next).0[k],
    decreases ids.len(),
{
    lemma_all_ensured(ids, next);
    if i == ids.len() {
        assert(ids.take(i) =~= ids);
    } else {
        let front = ids.drop_last();
        lemma_counter_grows(front, next, i);
        assert(front.take(i) =~= ids.take(i));
        lemma_all_ensured(front, next);
    }
}

/// Ids that are all assigned below the counter stay, and so does the counter:
/// making sure of ids twice is doing it once.
pub proof fn law_ensuring_is_idempotent(ids: Seq<u32>, next: u32)
    requires
        ids_fit(ids, next),
    ensures
        ids_after(ids_after(ids, next), counter_after(ids, next)) == ids_after(ids, next),
        counter_after(ids_after(ids, next), counter_after(ids, next)) == counter_after(ids, next),
        forall|i: int|
            0 <= i < ids.len() ==> 0 < #[trigger] ids_after(ids, next)[i] < counter_after(ids, next),
        forall|i: int| 0 <= i < ids.len() && ids[i] != 0 ==> #[trigger] ids_after(ids, next)[i] == ids[i],
{
    lemma_all_ensured(ids, next as int);
    let now = ids_after(ids, next);
    let n = counter_after(ids, next);
    assert forall|i: int| 0 <= i < ids.len() implies 0 < #[trigger] now[i] < n && (ids[i] != 0 ==> now[i] == ids[i]) by {
        let x = all_ensured(ids, next as int).0[i];
        assert(0 < x < all_ensured(ids, next as int).1);
    }
    lemma_settled(now, n as int);
    assert(ids_after(now, n) =~= now);
}

proof fn lemma_settled(ids: Seq<u32>, next: int)
    requires
        forall|i: int| 0 <= i < ids.len() ==> 0 < #[trigger] ids[i] < next,
    ensures
        all_ensured(ids, next).1 == next,
        all_ensured(ids, next).0.len() == ids.len(),
        forall|i: int| 0 <= i < ids.len() ==> #[trigger] all_ensured(ids, next).0[i] == ids[i],
    decreases ids.len(),
{
    if ids.len() > 0 {
        let front = ids.drop_last();
        assert forall|i: int| 0 <= i < front.len() implies 0 < #[trigger] front[i] < next by {
            assert(front[i] == ids[i]);
        }
        lemma_settled(front, next);
        assert(0 < ids[ids.len() - 1] < next);
        let all = all_ensured(ids, next);
        assert forall|i: int| 0 <= i < ids.len() implies #[trigger] all.0[i] == ids[i] by {
            if i < front.len() {
                assert(all.0[i] == all_ensured(front, next).0[i]);
            }
        }
    }
}

/// Makes sure of one id.
pub fn ensure_one(id: u32, next: u32) -> (r: (u32, u32))
    requires
        ensured(id, next as int).1 <= u32::MAX,
    ensures
        (r.0 as int, r.1 as int) == ensured(id, next as int),
{
    if id == 0 {
        let given: u32 = if next > 1 {
            next
        } else {
            1
        };
        (given, given + 1)
    } else if id >= next {
        (id, id + 1)
    } else {
        (id, next)
    }
}

/// The id to hand out next, and the counter behind it.
pub fn hand_out(next: u32) -> (r: (u32, u32))
    ensures
        r.0 == fresh(next),
        r.1 == after(fresh(next)),
{
    let id: u32 = if next == 0 {
        1
    } else {
        next
    };
    (id, id.saturating_add(1))
}

} // verus!
