//! Places by key.
//!
//! Keys of every kind are numbers here: a pair is its first part above its
//! second. Each index is a sorted list that is searched by halves, and answers
//! what a search from the front would.

use vstd::prelude::*;

verus! {

/// The first place of a key, from `from` on.
pub open spec fn place_from(keys: Seq<u128>, key: u128, from: int) -> Option<int>
    decreases keys.len() - from,
{
    if from < 0 || from >= keys.len() {
        None
    } else if keys[from] == key {
        Some(from)
    } else {
        place_from(keys, key, from + 1)
    }
}

/// The first place of a key.
pub open spec fn place(keys: Seq<u128>, key: u128) -> Option<int> {
    place_from(keys, key, 0)
}

/// The first place of a key is where it is first met.
pub proof fn lemma_place_from(keys: Seq<u128>, key: u128, from: int)
    requires
        0 <= from,
    ensures
        match place_from(keys, key, from) {
            Some(i) => from <= i < keys.len() && keys[i] == key && forall|k: int| from <= k < i ==> #[trigger] keys[k]
                != key,
            None => forall|k: int| from <= k < keys.len() ==> #[trigger] keys[k] != key,
        },
    decreases keys.len() - from,
{
    if from < keys.len() && keys[from] != key {
        lemma_place_from(keys, key, from + 1);
    }
}

/// Where a key is first met is its first place.
pub proof fn lemma_place_is(keys: Seq<u128>, key: u128, i: int)
    requires
        0 <= i < keys.len(),
        keys[i] == key,
        forall|k: int| 0 <= k < i ==> #[trigger] keys[k] != key,
    ensures
        place(keys, key) == Some(i),
{
    lemma_place_from(keys, key, 0);
}

/// A key that is nowhere has no first place.
pub proof fn lemma_place_none(keys: Seq<u128>, key: u128)
    requires
        forall|k: int| 0 <= k < keys.len() ==> #[trigger] keys[k] != key,
    ensures
        place(keys, key) is None,
{
    lemma_place_from(keys, key, 0);
}

/// The places of a key, in order.
pub open spec fn places(keys: Seq<u128>, key: u128) -> Seq<int>
    decreases keys.len(),
{
    if keys.len() == 0 {
        Seq::empty()
    } else if keys.last() == key {
        places(keys.drop_last(), key).push(keys.len() - 1)
    } else {
        places(keys.drop_last(), key)
    }
}

/// Ids as keys.
pub open spec fn id_keys(ids: Seq<u32>) -> Seq<u128> {
    Seq::new(ids.len(), |i: int| ids[i] as u128)
}

/// Long ids as keys.
pub open spec fn long_keys(ids: Seq<u64>) -> Seq<u128> {
    Seq::new(ids.len(), |i: int| ids[i] as u128)
}

/// The first place of an id is that of its key.
pub proof fn lemma_id_place(ids: Seq<u32>, id: u32, from: int)
    ensures
        place_from(id_keys(ids), id as u128, from) == crate::model::ids::place_from(ids, id, from),
    decreases ids.len() - from,
{
    if 0 <= from < ids.len() {
        lemma_id_place(ids, id, from + 1);
    }
}

/// The key of a pair of 32-bit numbers.
pub open spec fn pair_key(a: u32, b: u32) -> u128 {
    (a * 0x1_0000_0000 + b) as u128
}

/// The key of a 32-bit and a 64-bit number.
pub open spec fn wide_key(a: u64, b: u64) -> u128 {
    (a * 0x1_0000_0000_0000_0000 + b) as u128
}

/// Every pair of 32-bit numbers has a key of its own.
pub proof fn law_pairs_have_their_own_keys(a: u32, b: u32, c: u32, d: u32)
    ensures
        pair_key(a, b) == pair_key(c, d) <==> a == c && b == d,
{
}

/// Pairs with the same key are the same.
pub proof fn lemma_wide_key(a: u64, b: u64, c: u64, d: u64)
    ensures
        wide_key(a, b) == wide_key(c, d) <==> a == c && b == d,
{
}

/// The key of a pair.
pub fn key_of_pair(a: u32, b: u32) -> (r: u128)
    ensures
        r == pair_key(a, b),
{
    a as u128 * 0x1_0000_0000 + b as u128
}

/// The key of a wide pair.
pub fn key_of_wide(a: u64, b: u64) -> (r: u128)
    ensures
        r == wide_key(a, b),
{
    a as u128 * 0x1_0000_0000_0000_0000 + b as u128
}

/// Whether keys are in order and each is there once.
pub open spec fn strictly_sorted(v: Seq<(u128, usize)>) -> bool {
    forall|i: int, j: int| 0 <= i < j < v.len() ==> (#[trigger] v[i]).0 < (#[trigger] v[j]).0
}

/// Whether a list holds the first place of each of the first `n` keys.
spec fn lists_first(v: Seq<(u128, usize)>, keys: Seq<u128>, n: int) -> bool {
    &&& strictly_sorted(v)
    &&& forall|i: int|
        0 <= i < v.len() ==> place(keys, (#[trigger] v[i]).0) == Some(v[i].1 as int) && v[i].1 < n
    &&& forall|k: int| 0 <= k < n ==> lists_key(v, #[trigger] keys[k])
}

/// Whether a key is listed.
spec fn lists_key(v: Seq<(u128, usize)>, key: u128) -> bool {
    exists|i: int| 0 <= i < v.len() && (#[trigger] v[i]).0 == key
}

/// How many of the listed keys are below `key`.
fn lower_bound(v: &Vec<(u128, usize)>, key: u128) -> (r: usize)
    requires
        strictly_sorted(v@),
    ensures
        r <= v@.len(),
        forall|i: int| 0 <= i < r ==> (#[trigger] v@[i]).0 < key,
        forall|i: int| r <= i < v@.len() ==> (#[trigger] v@[i]).0 >= key,
        forall|i: int| r < i < v@.len() ==> (#[trigger] v@[i]).0 > key,
{
    let mut lo: usize = 0;
    let mut hi: usize = v.len();
    while lo < hi
        invariant
            strictly_sorted(v@),
            lo <= hi <= v@.len(),
            forall|i: int| 0 <= i < lo ==> (#[trigger] v@[i]).0 < key,
            forall|i: int| hi <= i < v@.len() ==> (#[trigger] v@[i]).0 >= key,
        decreases hi - lo,
    {
        let mid: usize = lo + (hi - lo) / 2;
        if v[mid].0 < key {
            assert forall|i: int| 0 <= i < mid + 1 implies (#[trigger] v@[i]).0 < key by {
                if i < mid {
                    assert(v@[i].0 < v@[mid as int].0);
                }
            }
            lo = mid + 1;
        } else {
            assert forall|i: int| mid <= i < v@.len() implies (#[trigger] v@[i]).0 >= key by {
                if i > mid {
                    assert(v@[mid as int].0 < v@[i].0);
                }
            }
            hi = mid;
        }
    }
    assert forall|i: int| lo < i < v@.len() implies (#[trigger] v@[i]).0 > key by {
        assert(v@[lo as int].0 < v@[i].0);
    }
    lo
}

/// Listing one more key that is not listed yet.
proof fn lemma_list_one(v: Seq<(u128, usize)>, keys: Seq<u128>, n: int, at: int)
    requires
        0 <= n < keys.len(),
        n <= usize::MAX,
        lists_first(v, keys, n),
        0 <= at <= v.len(),
        forall|i: int| 0 <= i < at ==> (#[trigger] v[i]).0 < keys[n],
        forall|i: int| at <= i < v.len() ==> (#[trigger] v[i]).0 > keys[n],
    ensures
        lists_first(v.insert(at, (keys[n], n as usize)), keys, n + 1),
{
    let key = keys[n];
    let now = v.insert(at, (key, n as usize));
    assert forall|i: int| 0 <= i < now.len() implies #[trigger] now[i] == (if i < at {
        v[i]
    } else if i == at {
        (key, n as usize)
    } else {
        v[i - 1]
    }) by {}
    assert forall|i: int, j: int| 0 <= i < j < now.len() implies (#[trigger] now[i]).0 < (#[trigger] now[j]).0 by {
        if i < at && j == at {
            assert(v[i].0 < key);
        } else if i == at {
            assert(v[j - 1].0 > key);
        } else if i < at && j > at {
            assert(v[i].0 < v[j - 1].0);
        }
    }
    assert forall|k: int| 0 <= k < n implies #[trigger] keys[k] != key by {
        assert(lists_key(v, keys[k]));
        let i = choose|i: int| 0 <= i < v.len() && (#[trigger] v[i]).0 == keys[k];
        if i < at {
            assert(v[i].0 < key);
        } else {
            assert(v[i].0 > key);
        }
    }
    lemma_place_is(keys, key, n);
    assert forall|k: int| 0 <= k < n + 1 implies lists_key(now, #[trigger] keys[k]) by {
        if k < n {
            assert(lists_key(v, keys[k]));
            let i = choose|i: int| 0 <= i < v.len() && (#[trigger] v[i]).0 == keys[k];
            if i < at {
                assert(now[i].0 == keys[k]);
            } else {
                assert(now[i + 1].0 == keys[k]);
            }
        } else {
            assert(now[at].0 == keys[k]);
        }
    }
}

/// The first place of each key.
pub struct PositionIndex {
    /// Keys with their first places, in the order of the keys.
    v: Vec<(u128, usize)>,
    of: Ghost<Seq<u128>>,
}

impl PositionIndex {
    /// The keys that this is the index of.
    pub closed spec fn of(self) -> Seq<u128> {
        self.of@
    }

    #[verifier::type_invariant]
    spec fn inv(self) -> bool {
        lists_first(self.v@, self.of@, self.of@.len() as int)
    }

    /// The index of `keys`.
    pub fn build(keys: &Vec<u128>) -> (r: PositionIndex)
        ensures
            r.of() == keys@,
    {
        let mut v: Vec<(u128, usize)> = Vec::new();
        let mut n: usize = 0;
        while n < keys.len()
            invariant
                n <= keys@.len(),
                lists_first(v@, keys@, n as int),
            decreases keys@.len() - n,
        {
            let key: u128 = keys[n];
            let at: usize = lower_bound(&v, key);
            if at < v.len() && v[at].0 == key {
                assert(lists_key(v@, key));
            } else {
                proof {
                    lemma_list_one(v@, keys@, n as int, at as int);
                }
                v.insert(at, (key, n));
            }
            n += 1;
        }
        PositionIndex { v, of: Ghost(keys@) }
    }

    /// The first place of a key.
    pub fn find(&self, key: u128) -> (r: Option<usize>)
        ensures
            match r {
                Some(i) => i < self.of().len() && place(self.of(), key) == Some(i as int),
                None => place(self.of(), key) is None,
            },
    {
        proof {
            use_type_invariant(self);
        }
        let ghost keys = self.of@;
        let at: usize = lower_bound(&self.v, key);
        if at < self.v.len() && self.v[at].0 == key {
            Some(self.v[at].1)
        } else {
            proof {
                assert forall|k: int| 0 <= k < keys.len() implies #[trigger] keys[k] != key by {
                    assert(lists_key(self.v@, keys[k]));
                }
                lemma_place_none(keys, key);
            }
            None
        }
    }

    /// The keys that are there, in order.
    pub fn keys(&self) -> (r: Vec<u128>)
        ensures
            r@.no_duplicates(),
            forall|key: u128| r@.contains(key) <==> place(self.of(), key) is Some,
    {
        proof {
            use_type_invariant(self);
        }
        let ghost of = self.of@;
        let mut r: Vec<u128> = Vec::new();
        let mut i: usize = 0;
        while i < self.v.len()
            invariant
                i <= self.v@.len(),
                r@ == self.v@.take(i as int).map_values(|e: (u128, usize)| e.0),
            decreases self.v@.len() - i,
        {
            r.push(self.v[i].0);
            i += 1;
            assert(r@ =~= self.v@.take(i as int).map_values(|e: (u128, usize)| e.0));
        }
        proof {
            assert(r@.len() == self.v@.len());
            assert forall|k: int| 0 <= k < r@.len() implies #[trigger] r@[k] == self.v@[k].0 by {}
            assert forall|a: int, b: int| 0 <= a < b < r@.len() implies r@[a] != r@[b] by {
                assert(self.v@[a].0 < self.v@[b].0);
            }
            assert forall|key: u128| r@.contains(key) <==> place(of, key) is Some by {
                lemma_place_from(of, key, 0);
                if place(of, key) is Some {
                    let k = place(of, key)->0;
                    assert(lists_key(self.v@, of[k]));
                    let j = choose|j: int| 0 <= j < self.v@.len() && (#[trigger] self.v@[j]).0 == key;
                    assert(r@[j] == key);
                }
                if r@.contains(key) {
                    let j = choose|j: int| 0 <= j < r@.len() && r@[j] == key;
                    assert(place(of, self.v@[j].0) is Some);
                }
            }
        }
        r
    }
}

// ---------------------------------------------------------------------------
// All places of a key
// ---------------------------------------------------------------------------

/// Whether numbers grow from one to the next.
pub open spec fn ascending(s: Seq<int>) -> bool {
    forall|i: int, j: int| 0 <= i < j < s.len() ==> #[trigger] s[i] < #[trigger] s[j]
}

/// Growing sequences of the same numbers are the same.
pub proof fn lemma_ascending_unique(a: Seq<int>, b: Seq<int>)
    requires
        ascending(a),
        ascending(b),
        forall|x: int| #[trigger] a.contains(x) <==> b.contains(x),
    ensures
        a == b,
    decreases a.len(),
{
    if a.len() == 0 {
        if b.len() > 0 {
            assert(b.contains(b[0]));
            assert(a.contains(b[0]));
        }
        assert(a =~= b);
    } else {
        assert(a.contains(a[a.len() - 1]));
        assert(b.contains(a[a.len() - 1]));
        assert(b.len() > 0);
        let x = a.last();
        let y = b.last();
        assert(b.contains(b[b.len() - 1]));
        assert(a.contains(y));
        let i = choose|i: int| 0 <= i < b.len() && b[i] == x;
        let j = choose|j: int| 0 <= j < a.len() && a[j] == y;
        if i < b.len() - 1 {
            assert(b[i] < b[b.len() - 1]);
        }
        if j < a.len() - 1 {
            assert(a[j] < a[a.len() - 1]);
        }
        assert(x == y);
        let p = a.drop_last();
        let q = b.drop_last();
        assert forall|z: int| #[trigger] p.contains(z) <==> q.contains(z) by {
            if p.contains(z) {
                let k = choose|k: int| 0 <= k < p.len() && p[k] == z;
                assert(a[k] == z && a[k] < a[a.len() - 1]);
                assert(a.contains(z));
                let m = choose|m: int| 0 <= m < b.len() && b[m] == z;
                assert(q[m] == z);
            }
            if q.contains(z) {
                let k = choose|k: int| 0 <= k < q.len() && q[k] == z;
                assert(b[k] == z && b[k] < b[b.len() - 1]);
                assert(b.contains(z));
                assert(a.contains(z));
                let m = choose|m: int| 0 <= m < a.len() && a[m] == z;
                assert(p[m] == z);
            }
        }
        lemma_ascending_unique(p, q);
        assert(a =~= p.push(x));
        assert(b =~= q.push(y));
    }
}

/// The places of a key grow, and are all there are.
pub proof fn lemma_places(keys: Seq<u128>, key: u128)
    ensures
        ascending(places(keys, key)),
        forall|k: int| #[trigger] places(keys, key).contains(k) <==> 0 <= k < keys.len() && keys[k] == key,
    decreases keys.len(),
{
    if keys.len() > 0 {
        let front = keys.drop_last();
        let p = places(front, key);
        let all = places(keys, key);
        lemma_places(front, key);
        assert forall|i: int| 0 <= i < p.len() implies 0 <= #[trigger] p[i] < front.len() by {
            assert(p.contains(p[i]));
        }
        if keys.last() == key {
            assert forall|i: int, j: int| 0 <= i < j < all.len() implies #[trigger] all[i] < #[trigger] all[j] by {
                if j == all.len() - 1 {
                    assert(all[i] == p[i]);
                }
            }
            assert forall|k: int| #[trigger] all.contains(k) <==> 0 <= k < keys.len() && keys[k] == key by {
                if all.contains(k) {
                    let i = choose|i: int| 0 <= i < all.len() && all[i] == k;
                    if i < p.len() {
                        assert(p[i] == k);
                        assert(p.contains(k));
                        assert(front[k] == keys[k]);
                    }
                }
                if 0 <= k < keys.len() && keys[k] == key {
                    if k < front.len() {
                        assert(front[k] == keys[k]);
                        assert(p.contains(k));
                        let i = choose|i: int| 0 <= i < p.len() && p[i] == k;
                        assert(all[i] == k);
                    } else {
                        assert(all[all.len() - 1] == k);
                    }
                }
            }
        } else {
            assert forall|k: int| #[trigger] all.contains(k) <==> 0 <= k < keys.len() && keys[k] == key by {
                if all.contains(k) {
                    assert(p.contains(k));
                    assert(front[k] == keys[k]);
                }
                if 0 <= k < keys.len() && keys[k] == key {
                    assert(front[k] == keys[k]);
                    assert(p.contains(k));
                }
            }
        }
    }
}

/// Whether entries are in the order of their keys, and in that of their places
/// where keys are the same.
spec fn ordered(v: Seq<(u128, usize)>) -> bool {
    forall|i: int, j: int|
        0 <= i < j < v.len() ==> (#[trigger] v[i]).0 < (#[trigger] v[j]).0 || (v[i].0 == v[j].0 && v[i].1 < v[j].1)
}

/// Whether an entry is listed.
spec fn lists_entry(v: Seq<(u128, usize)>, key: u128, k: int) -> bool {
    exists|i: int| 0 <= i < v.len() && (#[trigger] v[i]).0 == key && v[i].1 == k
}

/// Whether a list holds the first `n` keys with their places.
spec fn lists_all(v: Seq<(u128, usize)>, keys: Seq<u128>, n: int) -> bool {
    &&& ordered(v)
    &&& forall|i: int| 0 <= i < v.len() ==> (#[trigger] v[i]).1 < n && keys[v[i].1 as int] == v[i].0
    &&& forall|k: int| 0 <= k < n ==> lists_entry(v, #[trigger] keys[k], k)
}

/// How many entries have a key below `key`, or up to it.
fn bound(v: &Vec<(u128, usize)>, key: u128, up_to: bool) -> (r: usize)
    requires
        ordered(v@),
    ensures
        r <= v@.len(),
        forall|i: int| 0 <= i < r ==> (#[trigger] v@[i]).0 < key || (up_to && v@[i].0 == key),
        forall|i: int| r <= i < v@.len() ==> (#[trigger] v@[i]).0 > key || (!up_to && v@[i].0 == key),
{
    let mut lo: usize = 0;
    let mut hi: usize = v.len();
    while lo < hi
        invariant
            ordered(v@),
            lo <= hi <= v@.len(),
            forall|i: int| 0 <= i < lo ==> (#[trigger] v@[i]).0 < key || (up_to && v@[i].0 == key),
            forall|i: int| hi <= i < v@.len() ==> (#[trigger] v@[i]).0 > key || (!up_to && v@[i].0 == key),
        decreases hi - lo,
    {
        let mid: usize = lo + (hi - lo) / 2;
        if v[mid].0 < key || (up_to && v[mid].0 == key) {
            assert forall|i: int| 0 <= i < mid + 1 implies (#[trigger] v@[i]).0 < key || (up_to && v@[i].0 == key) by {
                if i < mid {
                    assert(v@[i].0 <= v@[mid as int].0);
                }
            }
            lo = mid + 1;
        } else {
            assert forall|i: int| mid <= i < v@.len() implies (#[trigger] v@[i]).0 > key || (!up_to && v@[i].0 == key) by {
                if i > mid {
                    assert(v@[mid as int].0 <= v@[i].0);
                }
            }
            hi = mid;
        }
    }
    lo
}

/// Listing one more key, behind those that are the same.
proof fn lemma_list_another(v: Seq<(u128, usize)>, keys: Seq<u128>, n: int, at: int)
    requires
        0 <= n < keys.len(),
        n <= usize::MAX,
        lists_all(v, keys, n),
        0 <= at <= v.len(),
        forall|i: int| 0 <= i < at ==> (#[trigger] v[i]).0 <= keys[n],
        forall|i: int| at <= i < v.len() ==> (#[trigger] v[i]).0 > keys[n],
    ensures
        lists_all(v.insert(at, (keys[n], n as usize)), keys, n + 1),
{
    let key = keys[n];
    let now = v.insert(at, (key, n as usize));
    assert forall|i: int| 0 <= i < now.len() implies #[trigger] now[i] == (if i < at {
        v[i]
    } else if i == at {
        (key, n as usize)
    } else {
        v[i - 1]
    }) by {}
    assert forall|i: int, j: int| 0 <= i < j < now.len() implies (#[trigger] now[i]).0 < (#[trigger] now[j]).0 || (now[i].0
        == now[j].0 && now[i].1 < now[j].1) by {
        if i < at && j == at {
            assert(v[i].0 <= key && v[i].1 < n);
        } else if i == at {
            assert(v[j - 1].0 > key);
        } else if i < at && j > at {
            assert(v[i].0 < v[j - 1].0 || (v[i].0 == v[j - 1].0 && v[i].1 < v[j - 1].1));
        }
    }
    assert forall|k: int| 0 <= k < n + 1 implies lists_entry(now, #[trigger] keys[k], k) by {
        if k < n {
            assert(lists_entry(v, keys[k], k));
            let i = choose|i: int| 0 <= i < v.len() && (#[trigger] v[i]).0 == keys[k] && v[i].1 == k;
            if i < at {
                assert(now[i].0 == keys[k]);
            } else {
                assert(now[i + 1].0 == keys[k]);
            }
        } else {
            assert(now[at].0 == keys[k]);
        }
    }
}

/// All places of each key.
pub struct GroupIndex {
    /// Keys with their places, in the order of the keys and then of the places.
    v: Vec<(u128, usize)>,
    of: Ghost<Seq<u128>>,
}

impl GroupIndex {
    /// The keys that this is the index of.
    pub closed spec fn of(self) -> Seq<u128> {
        self.of@
    }

    #[verifier::type_invariant]
    spec fn inv(self) -> bool {
        lists_all(self.v@, self.of@, self.of@.len() as int)
    }

    /// The index of `keys`.
    pub fn build(keys: &Vec<u128>) -> (r: GroupIndex)
        ensures
            r.of() == keys@,
    {
        let mut v: Vec<(u128, usize)> = Vec::new();
        let mut n: usize = 0;
        while n < keys.len()
            invariant
                n <= keys@.len(),
                lists_all(v@, keys@, n as int),
            decreases keys@.len() - n,
        {
            let key: u128 = keys[n];
            let at: usize = bound(&v, key, true);
            proof {
                lemma_list_another(v@, keys@, n as int, at as int);
            }
            v.insert(at, (key, n));
            n += 1;
        }
        GroupIndex { v, of: Ghost(keys@) }
    }

    /// The places of a key, in order.
    pub fn find_all(&self, key: u128) -> (r: Vec<usize>)
        ensures
            r@.map_values(|i: usize| i as int) == places(self.of(), key),
            forall|i: int| 0 <= i < r@.len() ==> #[trigger] r@[i] < self.of().len(),
    {
        proof {
            use_type_invariant(self);
        }
        let ghost keys = self.of@;
        let lo: usize = bound(&self.v, key, false);
        let hi: usize = bound(&self.v, key, true);
        let mut r: Vec<usize> = Vec::new();
        let mut i: usize = lo;
        proof {
            if hi < lo {
                assert(self.v@[hi as int].0 > key);
                assert(self.v@[hi as int].0 < key);
            }
        }
        while i < hi
            invariant
                lo <= i <= hi <= self.v@.len(),
                r@.len() == i - lo,
                forall|k: int| 0 <= k < r@.len() ==> #[trigger] r@[k] == self.v@[lo + k].1,
            decreases hi - i,
        {
            r.push(self.v[i].1);
            i += 1;
        }
        proof {
            let got = r@.map_values(|i: usize| i as int);
            lemma_places(keys, key);
            assert forall|k: int| lo <= k < hi implies (#[trigger] self.v@[k]).0 == key by {}
            assert forall|a: int, b: int| 0 <= a < b < got.len() implies #[trigger] got[a] < #[trigger] got[b] by {
                assert(self.v@[lo + a].0 == key && self.v@[lo + b].0 == key);
                assert(got[a] == self.v@[lo + a].1 && got[b] == self.v@[lo + b].1);
            }
            assert forall|x: int| #[trigger] got.contains(x) <==> places(keys, key).contains(x) by {
                if got.contains(x) {
                    let k = choose|k: int| 0 <= k < got.len() && got[k] == x;
                    assert(self.v@[lo + k].0 == key);
                    assert(got[k] == self.v@[lo + k].1);
                }
                if places(keys, key).contains(x) {
                    assert(lists_entry(self.v@, keys[x], x));
                    let k = choose|k: int| 0 <= k < self.v@.len() && (#[trigger] self.v@[k]).0 == key && self.v@[k].1 == x;
                    assert(lo <= k < hi);
                    assert(r@[k - lo] == self.v@[lo + (k - lo)].1);
                    assert(got[k - lo] == x);
                }
            }
            lemma_ascending_unique(got, places(keys, key));
            assert forall|i: int| 0 <= i < r@.len() implies #[trigger] r@[i] < keys.len() by {
                assert(got[i] == r@[i] as int);
                assert(got.contains(got[i]));
            }
        }
        r
    }
}

} // verus!
