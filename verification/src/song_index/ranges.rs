//! Indexes over intervals.

use crate::beat::Beat;
use super::positions;
use vstd::prelude::*;

verus! {

// ---------------------------------------------------------------------------
// The first interval over a point
// ---------------------------------------------------------------------------

/// Whether an interval covers a point: from its start on, up to but not
/// including its end. One that does not end behind its start covers nothing.
pub open spec fn covers(iv: (Beat, Beat), x: Beat) -> bool {
    iv.0.lt(iv.1) && iv.0.le(x) && x.lt(iv.1)
}

/// The first interval that covers a point, from `from` on.
pub open spec fn covering_from(ivs: Seq<(Beat, Beat)>, x: Beat, from: int) -> Option<int>
    decreases ivs.len() - from,
{
    if from < 0 || from >= ivs.len() {
        None
    } else if covers(ivs[from], x) {
        Some(from)
    } else {
        covering_from(ivs, x, from + 1)
    }
}

/// The first interval that covers a point.
pub open spec fn covering(ivs: Seq<(Beat, Beat)>, x: Beat) -> Option<int> {
    covering_from(ivs, x, 0)
}

/// Whether an interval covers a place in the numeric order.
spec fn covers_rank(iv: (Beat, Beat), r: int) -> bool {
    iv.0.lt(iv.1) && iv.0.rank() <= r < iv.1.rank()
}

/// The first interval that covers a place, from `from` on.
spec fn covering_rank(ivs: Seq<(Beat, Beat)>, r: int, from: int) -> Option<int>
    decreases ivs.len() - from,
{
    if from < 0 || from >= ivs.len() {
        None
    } else if covers_rank(ivs[from], r) {
        Some(from)
    } else {
        covering_rank(ivs, r, from + 1)
    }
}

proof fn lemma_covering_rank(ivs: Seq<(Beat, Beat)>, x: Beat, r: int, from: int)
    requires
        !x.is_nan(),
        forall|i: int| 0 <= i < ivs.len() ==> covers_rank(#[trigger] ivs[i], r) == covers(ivs[i], x),
    ensures
        covering_rank(ivs, r, from) == covering_from(ivs, x, from),
    decreases ivs.len() - from,
{
    if 0 <= from < ivs.len() {
        assert(covers_rank(ivs[from], r) == covers(ivs[from], x));
        lemma_covering_rank(ivs, x, r, from + 1);
    }
}

proof fn lemma_covering_none(ivs: Seq<(Beat, Beat)>, x: Beat, from: int)
    requires
        forall|i: int| 0 <= i < ivs.len() ==> !covers(#[trigger] ivs[i], x),
    ensures
        covering_from(ivs, x, from) is None,
    decreases ivs.len() - from,
{
    if 0 <= from < ivs.len() {
        lemma_covering_none(ivs, x, from + 1);
    }
}

/// Whether numbers grow from one to the next.
spec fn growing(v: Seq<i64>) -> bool {
    forall|i: int, j: int| 0 <= i < j < v.len() ==> #[trigger] v[i] < #[trigger] v[j]
}

/// How many numbers are at most `x`.
fn count_up_to(v: &Vec<i64>, x: i64) -> (r: usize)
    requires
        forall|i: int, j: int| 0 <= i < j < v@.len() ==> #[trigger] v@[i] <= #[trigger] v@[j],
    ensures
        r <= v@.len(),
        forall|i: int| 0 <= i < r ==> #[trigger] v@[i] <= x,
        forall|i: int| r <= i < v@.len() ==> #[trigger] v@[i] > x,
{
    let mut lo: usize = 0;
    let mut hi: usize = v.len();
    while lo < hi
        invariant
            forall|i: int, j: int| 0 <= i < j < v@.len() ==> #[trigger] v@[i] <= #[trigger] v@[j],
            lo <= hi <= v@.len(),
            forall|i: int| 0 <= i < lo ==> #[trigger] v@[i] <= x,
            forall|i: int| hi <= i < v@.len() ==> #[trigger] v@[i] > x,
        decreases hi - lo,
    {
        let mid: usize = lo + (hi - lo) / 2;
        if v[mid] <= x {
            assert forall|i: int| 0 <= i < mid + 1 implies #[trigger] v@[i] <= x by {
                if i < mid {
                    assert(v@[i] <= v@[mid as int]);
                }
            }
            lo = mid + 1;
        } else {
            assert forall|i: int| mid <= i < v@.len() implies #[trigger] v@[i] > x by {
                if i > mid {
                    assert(v@[mid as int] <= v@[i]);
                }
            }
            hi = mid;
        }
    }
    lo
}

/// Adds a number to growing ones, unless it is there.
fn add_bound(v: &mut Vec<i64>, x: i64)
    requires
        growing(old(v)@),
    ensures
        growing(final(v)@),
        forall|y: i64| #[trigger] final(v)@.contains(y) <==> old(v)@.contains(y) || y == x,
{
    let ghost before = v@;
    let at: usize = count_up_to(v, x);
    if at > 0 && v[at - 1] == x {
        assert(before.contains(x)) by {
            assert(before[at - 1] == x);
        }
        return;
    }
    v.insert(at, x);
    proof {
        let now = v@;
        assert forall|i: int| 0 <= i < now.len() implies #[trigger] now[i] == (if i < at {
            before[i]
        } else if i == at {
            x
        } else {
            before[i - 1]
        }) by {}
        assert forall|i: int, j: int| 0 <= i < j < now.len() implies #[trigger] now[i] < #[trigger] now[j] by {
            if i < at && j == at {
                assert(before[i] <= x);
                if i < at - 1 {
                    assert(before[i] < before[at - 1]);
                }
            } else if i == at {
                assert(before[j - 1] > x);
            } else if i < at && j > at {
                assert(before[i] < before[j - 1]);
            }
        }
        assert forall|y: i64| #[trigger] now.contains(y) <==> before.contains(y) || y == x by {
            if now.contains(y) {
                let i = choose|i: int| 0 <= i < now.len() && now[i] == y;
                if i < at {
                    assert(before[i] == y);
                } else if i > at {
                    assert(before[i - 1] == y);
                }
            }
            if before.contains(y) {
                let i = choose|i: int| 0 <= i < before.len() && before[i] == y;
                if i < at {
                    assert(now[i] == y);
                } else {
                    assert(now[i + 1] == y);
                }
            }
            if y == x {
                assert(now[at as int] == x);
            }
        }
    }
}

/// Which of several intervals is the first over a point. Between two ends of
/// intervals nothing changes, so the answer is kept for each such stretch.
pub struct CoverIndex {
    /// The ends of the intervals, in order.
    bounds: Vec<i64>,
    /// The first interval over each stretch that starts at a bound.
    first: Vec<Option<usize>>,
    of: Ghost<Seq<(Beat, Beat)>>,
}

/// Whether the bounds hold both ends of an interval that covers anything.
spec fn bounds_iv(bounds: Seq<i64>, iv: (Beat, Beat)) -> bool {
    iv.0.lt(iv.1) ==> (exists|k: int| 0 <= k < bounds.len() && #[trigger] bounds[k] as int == iv.0.rank()) && (exists|k: int|
        0 <= k < bounds.len() && #[trigger] bounds[k] as int == iv.1.rank())
}

/// Whether a stretch knows the first interval over it.
spec fn first_is(first: Option<usize>, ivs: Seq<(Beat, Beat)>, r: int) -> bool {
    match first {
        Some(i) => i < ivs.len() && covering_rank(ivs, r, 0) == Some(i as int),
        None => covering_rank(ivs, r, 0) is None,
    }
}

impl CoverIndex {
    /// The intervals that this is the index of.
    pub closed spec fn of(self) -> Seq<(Beat, Beat)> {
        self.of@
    }

    #[verifier::type_invariant]
    spec fn inv(self) -> bool {
        &&& growing(self.bounds@)
        &&& self.first@.len() == self.bounds@.len()
        &&& forall|i: int| 0 <= i < self.of@.len() ==> bounds_iv(self.bounds@, #[trigger] self.of@[i])
        &&& forall|k: int|
            0 <= k < self.bounds@.len() ==> first_is(#[trigger] self.first@[k], self.of@, self.bounds@[k] as int)
    }

    /// The index of `intervals`, each given by its start and its end.
    pub fn build(intervals: &Vec<(Beat, Beat)>) -> (r: CoverIndex)
        ensures
            r.of() == intervals@,
    {
        let ghost ivs = intervals@;
        let mut bounds: Vec<i64> = Vec::new();
        let mut i: usize = 0;
        while i < intervals.len()
            invariant
                ivs == intervals@,
                i <= ivs.len(),
                growing(bounds@),
                forall|k: int| 0 <= k < i ==> bounds_iv(bounds@, #[trigger] ivs[k]),
            decreases ivs.len() - i,
        {
            let (start, end) = intervals[i];
            if start.lt(end) {
                let ghost before = bounds@;
                let s: i64 = start.order_rank();
                let e: i64 = end.order_rank();
                add_bound(&mut bounds, s);
                let ghost between = bounds@;
                add_bound(&mut bounds, e);
                proof {
                    assert(between.contains(s));
                    assert(bounds@.contains(s));
                    assert(bounds@.contains(e));
                    assert(bounds_iv(bounds@, ivs[i as int]));
                    assert forall|k: int| 0 <= k < i implies bounds_iv(bounds@, #[trigger] ivs[k]) by {
                        assert(bounds_iv(before, ivs[k]));
                        if ivs[k].0.lt(ivs[k].1) {
                            let a = choose|a: int| 0 <= a < before.len() && #[trigger] before[a] as int == ivs[k].0.rank();
                            let b = choose|b: int| 0 <= b < before.len() && #[trigger] before[b] as int == ivs[k].1.rank();
                            assert(before.contains(before[a]) && before.contains(before[b]));
                            assert(between.contains(before[a]) && between.contains(before[b]));
                            assert(bounds@.contains(before[a]) && bounds@.contains(before[b]));
                        }
                    }
                }
            }
            i += 1;
        }
        let mut first: Vec<Option<usize>> = Vec::new();
        let mut k: usize = 0;
        while k < bounds.len()
            invariant
                ivs == intervals@,
                k <= bounds@.len(),
                first@.len() == k,
                forall|j: int| 0 <= j < k ==> first_is(#[trigger] first@[j], ivs, bounds@[j] as int),
            decreases bounds@.len() - k,
        {
            let r: i64 = bounds[k];
            let found = find_covering(intervals, r);
            first.push(found);
            k += 1;
        }
        CoverIndex { bounds, first, of: Ghost(ivs) }
    }

    /// The first interval that covers `x`.
    pub fn first_covering(&self, x: Beat) -> (r: Option<usize>)
        ensures
            match r {
                Some(i) => i < self.of().len() && covering(self.of(), x) == Some(i as int),
                None => covering(self.of(), x) is None,
            },
    {
        proof {
            use_type_invariant(self);
        }
        let ghost ivs = self.of@;
        if x.is_nan() {
            proof {
                lemma_covering_none(ivs, x, 0);
            }
            return None;
        }
        let rank: i64 = x.order_rank();
        let k: usize = count_up_to(&self.bounds, rank);
        if k == 0 {
            proof {
                assert forall|i: int| 0 <= i < ivs.len() implies !covers(#[trigger] ivs[i], x) by {
                    assert(bounds_iv(self.bounds@, ivs[i]));
                }
                lemma_covering_none(ivs, x, 0);
            }
            return None;
        }
        proof {
            let b = self.bounds@[k - 1] as int;
            assert(b <= rank);
            assert forall|i: int| 0 <= i < ivs.len() implies covers_rank(#[trigger] ivs[i], b) == covers(ivs[i], x) by {
                assert(bounds_iv(self.bounds@, ivs[i]));
                if ivs[i].0.lt(ivs[i].1) {
                    let p = choose|p: int| 0 <= p < self.bounds@.len() && #[trigger] self.bounds@[p] as int == ivs[i].0.rank();
                    let q = choose|q: int| 0 <= q < self.bounds@.len() && #[trigger] self.bounds@[q] as int == ivs[i].1.rank();
                    if p < k - 1 {
                        assert(self.bounds@[p] < self.bounds@[k - 1]);
                    } else if p >= k {
                        assert(self.bounds@[p] > rank);
                    }
                    if q < k - 1 {
                        assert(self.bounds@[q] < self.bounds@[k - 1]);
                    } else if q >= k {
                        assert(self.bounds@[q] > rank);
                    }
                }
            }
            lemma_covering_rank(ivs, x, b, 0);
            assert(first_is(self.first@[k - 1], ivs, b));
        }
        self.first[k - 1]
    }
}

/// The first interval that covers a place in the numeric order.
fn find_covering(intervals: &Vec<(Beat, Beat)>, r: i64) -> (found: Option<usize>)
    ensures
        first_is(found, intervals@, r as int),
{
    let ghost ivs = intervals@;
    let mut i: usize = 0;
    while i < intervals.len()
        invariant
            ivs == intervals@,
            i <= ivs.len(),
            covering_rank(ivs, r as int, 0) == covering_rank(ivs, r as int, i as int),
        decreases ivs.len() - i,
    {
        let (start, end) = intervals[i];
        if start.lt(end) && start.order_rank() <= r && r < end.order_rank() {
            return Some(i);
        }
        i += 1;
    }
    None
}

// ---------------------------------------------------------------------------
// Ends
// ---------------------------------------------------------------------------

/// An end as it is compared: one that is no number reaches everything.
pub open spec fn reach_of(end: Beat) -> Beat {
    if end.is_nan() {
        Beat { bits: crate::beat::INFINITE }
    } else {
        end
    }
}

/// Ends as they are compared.
pub open spec fn reaches_of(ends: Seq<Beat>) -> Seq<Beat> {
    ends.map_values(|e: Beat| reach_of(e))
}

/// The elements below `before` that end at `lo` or later, in order. The first
/// end is that of element `offset`.
pub open spec fn passing(ends: Seq<Beat>, offset: int, before: int, lo: Beat) -> Seq<int>
    decreases ends.len(),
{
    if ends.len() == 0 {
        Seq::empty()
    } else {
        let k = offset + ends.len() - 1;
        let front = passing(ends.drop_last(), offset, before, lo);
        if k < before && lo.le(ends.last()) {
            front.push(k)
        } else {
            front
        }
    }
}

proof fn lemma_passing_add(a: Seq<Beat>, b: Seq<Beat>, offset: int, before: int, lo: Beat)
    ensures
        passing(a + b, offset, before, lo) == passing(a, offset, before, lo) + passing(
            b,
            offset + a.len(),
            before,
            lo,
        ),
    decreases b.len(),
{
    if b.len() == 0 {
        assert(a + b =~= a);
        assert(passing(a, offset, before, lo) + Seq::<int>::empty() =~= passing(a, offset, before, lo));
    } else {
        lemma_passing_add(a, b.drop_last(), offset, before, lo);
        assert((a + b).drop_last() =~= a + b.drop_last());
        assert((a + b).last() == b.last());
        assert(passing(a + b, offset, before, lo) =~= passing(a, offset, before, lo) + passing(
            b,
            offset + a.len(),
            before,
            lo,
        ));
    }
}

proof fn lemma_passing_none(ends: Seq<Beat>, offset: int, before: int, lo: Beat)
    requires
        offset >= before || forall|i: int| 0 <= i < ends.len() ==> !lo.le(#[trigger] ends[i]),
    ensures
        passing(ends, offset, before, lo) == Seq::<int>::empty(),
    decreases ends.len(),
{
    if ends.len() > 0 {
        let front = ends.drop_last();
        if offset < before {
            assert forall|i: int| 0 <= i < front.len() implies !lo.le(#[trigger] front[i]) by {
                assert(!lo.le(ends[i]));
            }
            assert(!lo.le(ends[ends.len() - 1]));
        }
        lemma_passing_none(front, offset, before, lo);
    }
}

/// A tree over ends.
enum EndNode {
    Leaf { end: Beat },
    /// `largest` is the largest end below, `left_len` the number of ends on the
    /// left.
    Inner { largest: Beat, left_len: usize, left: Box<EndNode>, right: Box<EndNode> },
}

impl EndNode {
    spec fn ends(self) -> Seq<Beat>
        decreases self,
    {
        match self {
            EndNode::Leaf { end } => seq![end],
            EndNode::Inner { largest, left_len, left, right } => left.ends() + right.ends(),
        }
    }

    spec fn top(self) -> Beat {
        match self {
            EndNode::Leaf { end } => end,
            EndNode::Inner { largest, left_len, left, right } => largest,
        }
    }

    spec fn wf(self) -> bool
        decreases self,
    {
        match self {
            EndNode::Leaf { end } => !end.is_nan(),
            EndNode::Inner { largest, left_len, left, right } => {
                &&& left.wf()
                &&& right.wf()
                &&& left_len == left.ends().len()
                &&& !largest.is_nan()
                &&& left.top().le(largest)
                &&& right.top().le(largest)
            },
        }
    }
}

proof fn lemma_top(n: EndNode)
    requires
        n.wf(),
    ensures
        n.ends().len() > 0,
        forall|i: int| 0 <= i < n.ends().len() ==> (#[trigger] n.ends()[i]).le(n.top()),
        !n.top().is_nan(),
    decreases n,
{
    match n {
        EndNode::Leaf { end } => {},
        EndNode::Inner { largest, left_len, left, right } => {
            lemma_top(*left);
            lemma_top(*right);
            assert forall|i: int| 0 <= i < n.ends().len() implies (#[trigger] n.ends()[i]).le(n.top()) by {
                if i < left.ends().len() {
                    assert(n.ends()[i] == left.ends()[i]);
                } else {
                    assert(n.ends()[i] == right.ends()[i - left.ends().len()]);
                }
            }
        },
    }
}

fn read_reach(end: Beat) -> (r: Beat)
    ensures
        r == reach_of(end),
        !r.is_nan(),
{
    if end.is_nan() {
        Beat { bits: crate::beat::INFINITE }
    } else {
        end
    }
}

/// The tree over the ends from `lo` to `hi`.
fn build_node(ends: &Vec<Beat>, lo: usize, hi: usize) -> (r: EndNode)
    requires
        lo < hi <= ends@.len(),
    ensures
        r.wf(),
        r.ends() == reaches_of(ends@).subrange(lo as int, hi as int),
    decreases hi - lo,
{
    let ghost all = reaches_of(ends@);
    if hi - lo == 1 {
        let r = EndNode::Leaf { end: read_reach(ends[lo]) };
        assert(r.ends() =~= all.subrange(lo as int, hi as int));
        r
    } else {
        let mid: usize = lo + (hi - lo) / 2;
        let left = build_node(ends, lo, mid);
        let right = build_node(ends, mid, hi);
        let a = left.largest();
        let b = right.largest();
        let largest = if a.le(b) {
            b
        } else {
            a
        };
        proof {
            lemma_top(left);
            lemma_top(right);
            crate::beat::law_beat_order(a, b, b);
        }
        let r = EndNode::Inner { largest, left_len: mid - lo, left: Box::new(left), right: Box::new(right) };
        assert(r.ends() =~= all.subrange(lo as int, hi as int));
        r
    }
}

impl EndNode {
    fn largest(&self) -> (r: Beat)
        ensures
            r == self.top(),
    {
        match self {
            EndNode::Leaf { end } => *end,
            EndNode::Inner { largest, .. } => *largest,
        }
    }

    /// Appends the elements below `before` that end at `lo` or later. A part of
    /// the tree is left out where its largest end is earlier.
    fn collect(&self, offset: usize, before: usize, lo: Beat, out: &mut Vec<usize>)
        requires
            self.wf(),
            offset + self.ends().len() <= usize::MAX,
        ensures
            final(out)@.map_values(|i: usize| i as int) == old(out)@.map_values(|i: usize| i as int) + passing(
                self.ends(),
                offset as int,
                before as int,
                lo,
            ),
        decreases self,
    {
        let ghost start = out@.map_values(|i: usize| i as int);
        let ghost nothing = Seq::<int>::empty();
        let top = self.largest();
        if offset >= before {
            proof {
                lemma_passing_none(self.ends(), offset as int, before as int, lo);
                assert(start + nothing =~= start);
            }
            return;
        }
        if !lo.le(top) {
            proof {
                lemma_top(*self);
                assert forall|i: int| 0 <= i < self.ends().len() implies !lo.le(#[trigger] self.ends()[i]) by {
                    assert(self.ends()[i].le(top));
                }
                lemma_passing_none(self.ends(), offset as int, before as int, lo);
                assert(start + nothing =~= start);
            }
            return;
        }
        match self {
            EndNode::Leaf { end } => {
                out.push(offset);
                proof {
                    let e = self.ends();
                    assert(e.drop_last() =~= Seq::<Beat>::empty());
                    assert(passing(e.drop_last(), offset as int, before as int, lo) == nothing);
                    assert(e.last() == top);
                    assert(passing(e, offset as int, before as int, lo) == nothing.push(offset as int));
                    assert(out@.map_values(|i: usize| i as int) =~= start + nothing.push(offset as int));
                }
            },
            EndNode::Inner { largest, left_len, left, right } => {
                proof {
                    lemma_top(**left);
                    lemma_top(**right);
                    lemma_passing_add(left.ends(), right.ends(), offset as int, before as int, lo);
                }
                left.collect(offset, before, lo, out);
                right.collect(offset + *left_len, before, lo, out);
                proof {
                    let a = passing(left.ends(), offset as int, before as int, lo);
                    let b = passing(right.ends(), offset + left.ends().len(), before as int, lo);
                    assert(start + a + b =~= start + (a + b));
                }
            },
        }
    }
}

/// Which of several elements end late enough. Found with effort for those that
/// do, not for those that do not.
pub struct EndTree {
    root: Option<Box<EndNode>>,
    n: usize,
    of: Ghost<Seq<Beat>>,
}

impl EndTree {
    /// The ends that this is the tree of.
    pub closed spec fn of(self) -> Seq<Beat> {
        self.of@
    }

    #[verifier::type_invariant]
    spec fn inv(self) -> bool {
        &&& self.n == self.of@.len()
        &&& match self.root {
            Some(node) => node.wf() && node.ends() == reaches_of(self.of@),
            None => self.of@.len() == 0,
        }
    }

    /// The tree of `ends`.
    pub fn build(ends: &Vec<Beat>) -> (r: EndTree)
        ensures
            r.of() == ends@,
    {
        let ghost all = reaches_of(ends@);
        if ends.len() == 0 {
            return EndTree { root: None, n: 0, of: Ghost(ends@) };
        }
        let root = build_node(ends, 0, ends.len());
        assert(all.subrange(0, ends@.len() as int) =~= all);
        EndTree { root: Some(Box::new(root)), n: ends.len(), of: Ghost(ends@) }
    }

    /// The elements below `before` that end at `lo` or later, in order.
    pub fn reaching(&self, before: usize, lo: Beat) -> (r: Vec<usize>)
        ensures
            r@.map_values(|i: usize| i as int) == passing(reaches_of(self.of()), 0, before as int, lo),
    {
        proof {
            use_type_invariant(self);
        }
        let mut r: Vec<usize> = Vec::new();
        assert(r@.map_values(|i: usize| i as int) =~= Seq::<int>::empty());
        if let Some(root) = &self.root {
            assert(self.n as int == root.ends().len());
            root.collect(0, before, lo, &mut r);
            assert(Seq::<int>::empty() + passing(root.ends(), 0, before as int, lo) =~= passing(
                root.ends(),
                0,
                before as int,
                lo,
            ));
        }
        r
    }
}

// ---------------------------------------------------------------------------
// Intervals that meet a window
// ---------------------------------------------------------------------------

/// Whether an interval may meet the window from `lo` to `hi`: it starts in time
/// and ends late enough. One whose end is no number may; one whose start is none
/// does not.
pub open spec fn meets(iv: (Beat, Beat), lo: Beat, hi: Beat) -> bool {
    iv.0.le(hi) && lo.le(reach_of(iv.1))
}

/// The intervals that may meet a window, in order.
pub open spec fn meeting(ivs: Seq<(Beat, Beat)>, lo: Beat, hi: Beat) -> Seq<int>
    decreases ivs.len(),
{
    if ivs.len() == 0 {
        Seq::empty()
    } else {
        let front = meeting(ivs.drop_last(), lo, hi);
        if meets(ivs.last(), lo, hi) {
            front.push(ivs.len() - 1)
        } else {
            front
        }
    }
}

/// The intervals that may meet a window grow, and are all there are.
pub proof fn lemma_meeting(ivs: Seq<(Beat, Beat)>, lo: Beat, hi: Beat)
    ensures
        positions::ascending(meeting(ivs, lo, hi)),
        meeting(ivs, lo, hi).len() <= ivs.len(),
        forall|i: int|
            #[trigger] meeting(ivs, lo, hi).contains(i) <==> 0 <= i < ivs.len() && meets(ivs[i], lo, hi),
    decreases ivs.len(),
{
    if ivs.len() > 0 {
        let front = ivs.drop_last();
        let p = meeting(front, lo, hi);
        let all = meeting(ivs, lo, hi);
        lemma_meeting(front, lo, hi);
        assert forall|i: int| 0 <= i < p.len() implies 0 <= #[trigger] p[i] < front.len() by {
            assert(p.contains(p[i]));
        }
        assert forall|i: int, j: int| 0 <= i < j < all.len() implies #[trigger] all[i] < #[trigger] all[j] by {
            if j < p.len() {
                assert(all[i] == p[i] && all[j] == p[j]);
            } else {
                assert(all[i] == p[i]);
            }
        }
        assert forall|k: int| #[trigger] all.contains(k) <==> 0 <= k < ivs.len() && meets(ivs[k], lo, hi) by {
            if all.contains(k) {
                let i = choose|i: int| 0 <= i < all.len() && all[i] == k;
                if i < p.len() {
                    assert(p[i] == k);
                    assert(p.contains(k));
                    assert(front[k] == ivs[k]);
                }
            }
            if 0 <= k < ivs.len() && meets(ivs[k], lo, hi) {
                if k < front.len() {
                    assert(front[k] == ivs[k]);
                    assert(p.contains(k));
                    let i = choose|i: int| 0 <= i < p.len() && p[i] == k;
                    assert(all[i] == k);
                } else {
                    assert(all[all.len() - 1] == k);
                }
            }
        }
    }
}

proof fn lemma_passing(ends: Seq<Beat>, before: int, lo: Beat)
    ensures
        positions::ascending(passing(ends, 0, before, lo)),
        forall|k: int|
            #[trigger] passing(ends, 0, before, lo).contains(k) <==> 0 <= k < ends.len() && k < before && lo.le(ends[k]),
    decreases ends.len(),
{
    if ends.len() > 0 {
        let front = ends.drop_last();
        let p = passing(front, 0, before, lo);
        let all = passing(ends, 0, before, lo);
        lemma_passing(front, before, lo);
        assert forall|i: int| 0 <= i < p.len() implies 0 <= #[trigger] p[i] < front.len() by {
            assert(p.contains(p[i]));
        }
        assert forall|i: int, j: int| 0 <= i < j < all.len() implies #[trigger] all[i] < #[trigger] all[j] by {
            if j < p.len() {
                assert(all[i] == p[i] && all[j] == p[j]);
            } else {
                assert(all[i] == p[i]);
            }
        }
        assert forall|k: int|
            #[trigger] all.contains(k) <==> 0 <= k < ends.len() && k < before && lo.le(ends[k]) by {
            if all.contains(k) {
                let i = choose|i: int| 0 <= i < all.len() && all[i] == k;
                if i < p.len() {
                    assert(p[i] == k);
                    assert(p.contains(k));
                    assert(front[k] == ends[k]);
                }
            }
            if 0 <= k < ends.len() && k < before && lo.le(ends[k]) {
                if k < front.len() {
                    assert(front[k] == ends[k]);
                    assert(p.contains(k));
                    let i = choose|i: int| 0 <= i < p.len() && p[i] == k;
                    assert(all[i] == k);
                } else {
                    assert(all[all.len() - 1] == k);
                }
            }
        }
    }
}

/// The intervals that may meet a window, found without looking at all of them.
pub struct RangeIndex {
    n_items: usize,
    /// Starts in order, as places in the numeric order.
    starts: Vec<i64>,
    /// The interval behind each start.
    order: Vec<usize>,
    /// The ends, in the order of the starts.
    ends: EndTree,
    of: Ghost<Seq<(Beat, Beat)>>,
}

/// Whether starts are in order and are those of the first `n` intervals.
spec fn sorts(starts: Seq<i64>, order: Seq<usize>, ivs: Seq<(Beat, Beat)>, n: int) -> bool {
    &&& starts.len() == order.len()
    &&& forall|i: int, j: int| 0 <= i < j < starts.len() ==> #[trigger] starts[i] <= #[trigger] starts[j]
    &&& forall|k: int|
        0 <= k < order.len() ==> (#[trigger] order[k]) < n && !ivs[order[k] as int].0.is_nan() && starts[k]
            == ivs[order[k] as int].0.rank()
    &&& forall|i: int, j: int| 0 <= i < j < order.len() ==> #[trigger] order[i] != #[trigger] order[j]
    &&& forall|i: int| 0 <= i < n && !(#[trigger] ivs[i]).0.is_nan() ==> order_has(order, i)
}

spec fn order_has(order: Seq<usize>, i: int) -> bool {
    exists|k: int| 0 <= k < order.len() && #[trigger] order[k] == i
}

proof fn lemma_sorts_insert(starts: Seq<i64>, order: Seq<usize>, ivs: Seq<(Beat, Beat)>, n: int, at: int, x: i64)
    requires
        0 <= n < ivs.len(),
        n <= usize::MAX,
        sorts(starts, order, ivs, n),
        !ivs[n].0.is_nan(),
        x == ivs[n].0.rank(),
        0 <= at <= starts.len(),
        forall|i: int| 0 <= i < at ==> #[trigger] starts[i] <= x,
        forall|i: int| at <= i < starts.len() ==> #[trigger] starts[i] > x,
    ensures
        sorts(starts.insert(at, x), order.insert(at, n as usize), ivs, n + 1),
{
    let s = starts.insert(at, x);
    let o = order.insert(at, n as usize);
    assert forall|i: int| 0 <= i < s.len() implies #[trigger] s[i] == (if i < at {
        starts[i]
    } else if i == at {
        x
    } else {
        starts[i - 1]
    }) by {}
    assert forall|i: int| 0 <= i < o.len() implies #[trigger] o[i] == (if i < at {
        order[i]
    } else if i == at {
        n as usize
    } else {
        order[i - 1]
    }) by {}
    assert forall|i: int, j: int| 0 <= i < j < s.len() implies #[trigger] s[i] <= #[trigger] s[j] by {
        if i < at && j == at {
            assert(starts[i] <= x);
        } else if i == at {
            assert(starts[j - 1] > x);
        } else if i < at && j > at {
            assert(starts[i] <= starts[j - 1]);
        }
    }
    assert forall|i: int, j: int| 0 <= i < j < o.len() implies #[trigger] o[i] != #[trigger] o[j] by {
        if i < at && j == at {
            assert(order[i] < n);
        } else if i == at {
            assert(order[j - 1] < n);
        } else if i < at && j > at {
            assert(order[i] != order[j - 1]);
        }
    }
    assert forall|i: int| 0 <= i < n + 1 && !(#[trigger] ivs[i]).0.is_nan() implies order_has(o, i) by {
        if i < n {
            assert(order_has(order, i));
            let k = choose|k: int| 0 <= k < order.len() && #[trigger] order[k] == i;
            if k < at {
                assert(o[k] == i);
            } else {
                assert(o[k + 1] == i);
            }
        } else {
            assert(o[at] == i);
        }
    }
}

/// Puts a number among growing ones at the front of a buffer.
fn put_in_order(out: &mut [u32], n: usize, x: u32)
    requires
        n < old(out)@.len(),
        forall|i: int, j: int| 0 <= i < j < n ==> #[trigger] old(out)@[i] < #[trigger] old(out)@[j],
        forall|i: int| 0 <= i < n ==> #[trigger] old(out)@[i] != x,
    ensures
        final(out)@.len() == old(out)@.len(),
        forall|i: int, j: int| 0 <= i < j < n + 1 ==> #[trigger] final(out)@[i] < #[trigger] final(out)@[j],
        forall|y: u32|
            #[trigger] final(out)@.take(n + 1).contains(y) <==> old(out)@.take(n as int).contains(y) || y == x,
        forall|i: int| n < i < final(out)@.len() ==> #[trigger] final(out)@[i] == old(out)@[i],
{
    let ghost start = out@;
    let mut k: usize = n;
    while k > 0 && out[k - 1] > x
        invariant
            k <= n < out@.len(),
            out@.len() == start.len(),
            forall|i: int, j: int| 0 <= i < j < n ==> #[trigger] start[i] < #[trigger] start[j],
            forall|i: int| 0 <= i < n ==> #[trigger] start[i] != x,
            forall|i: int| 0 <= i < k ==> #[trigger] out@[i] == start[i],
            forall|i: int| k < i <= n ==> #[trigger] out@[i] == start[i - 1] && out@[i] > x,
            forall|i: int| n < i < out@.len() ==> #[trigger] out@[i] == start[i],
        decreases k,
    {
        let moved: u32 = out[k - 1];
        out[k] = moved;
        k -= 1;
    }
    out[k] = x;
    proof {
        let now = out@;
        assert forall|i: int| 0 <= i <= n implies #[trigger] now[i] == (if i < k {
            start[i]
        } else if i == k {
            x
        } else {
            start[i - 1]
        }) by {}
        assert forall|i: int, j: int| 0 <= i < j < n + 1 implies #[trigger] now[i] < #[trigger] now[j] by {
            if i < k && j == k {
                assert(start[k - 1] < x);
                if i < k - 1 {
                    assert(start[i] < start[k - 1]);
                }
            } else if i < k && j > k {
                assert(start[i] <= start[k - 1] || i == k - 1);
                if i < j - 1 {
                    assert(start[i] < start[j - 1]);
                }
            } else if i > k {
                assert(start[i - 1] < start[j - 1]);
            }
        }
        assert forall|y: u32|
            #[trigger] now.take(n + 1).contains(y) <==> start.take(n as int).contains(y) || y == x by {
            let part = now.take(n + 1);
            if part.contains(y) {
                let i = choose|i: int| 0 <= i < part.len() && part[i] == y;
                if i < k {
                    assert(start.take(n as int)[i] == y);
                } else if i > k {
                    assert(start.take(n as int)[i - 1] == y);
                }
            }
            if start.take(n as int).contains(y) {
                let i = choose|i: int| 0 <= i < n && start.take(n as int)[i] == y;
                if i < k {
                    assert(now.take(n + 1)[i] == y);
                } else {
                    assert(now.take(n + 1)[i + 1] == y);
                }
            }
            if y == x {
                assert(now.take(n + 1)[k as int] == x);
            }
        }
    }
}

impl RangeIndex {
    /// The intervals that this is the index of.
    pub closed spec fn of(self) -> Seq<(Beat, Beat)> {
        self.of@
    }

    #[verifier::type_invariant]
    spec fn inv(self) -> bool {
        &&& self.n_items == self.of@.len()
        &&& sorts(self.starts@, self.order@, self.of@, self.of@.len() as int)
        &&& self.ends.of().len() == self.order@.len()
        &&& forall|k: int|
            0 <= k < self.order@.len() ==> #[trigger] self.ends.of()[k] == self.of@[self.order@[k] as int].1
    }

    /// The index of `intervals`, each given by its start and its end.
    pub fn build(intervals: &Vec<(Beat, Beat)>) -> (r: RangeIndex)
        ensures
            r.of() == intervals@,
    {
        let ghost ivs = intervals@;
        let mut starts: Vec<i64> = Vec::new();
        let mut order: Vec<usize> = Vec::new();
        let mut n: usize = 0;
        while n < intervals.len()
            invariant
                ivs == intervals@,
                n <= ivs.len(),
                sorts(starts@, order@, ivs, n as int),
            decreases ivs.len() - n,
        {
            let start = intervals[n].0;
            if !start.is_nan() {
                let x: i64 = start.order_rank();
                let at: usize = count_up_to(&starts, x);
                proof {
                    lemma_sorts_insert(starts@, order@, ivs, n as int, at as int, x);
                }
                starts.insert(at, x);
                order.insert(at, n);
            }
            n += 1;
        }
        let mut ends: Vec<Beat> = Vec::new();
        let mut k: usize = 0;
        while k < order.len()
            invariant
                ivs == intervals@,
                sorts(starts@, order@, ivs, ivs.len() as int),
                k <= order@.len(),
                ends@.len() == k,
                forall|j: int| 0 <= j < k ==> #[trigger] ends@[j] == ivs[order@[j] as int].1,
            decreases order@.len() - k,
        {
            assert(order@[k as int] < ivs.len());
            ends.push(intervals[order[k]].1);
            k += 1;
        }
        RangeIndex { n_items: intervals.len(), starts, order, ends: EndTree::build(&ends), of: Ghost(ivs) }
    }

    /// Whether this is the index of as many intervals as `len`.
    pub fn built_for(&self, len: usize) -> (r: bool)
        ensures
            r == (self.of().len() == len),
    {
        proof {
            use_type_invariant(self);
        }
        self.n_items == len
    }

    /// Writes the intervals that may meet the window from `lo` to `hi` to the
    /// front of `out`, in order, and returns how many there are. None if there
    /// are more than `out` has room for, or if the window is no numbers: the
    /// caller then looks at all.
    pub fn overlapping(&self, lo: Beat, hi: Beat, out: &mut [u32]) -> (r: Option<usize>)
        requires
            self.of().len() <= u32::MAX,
        ensures
            final(out)@.len() == old(out)@.len(),
            r is Some <==> !lo.is_nan() && !hi.is_nan() && meeting(self.of(), lo, hi).len() <= old(out)@.len(),
            r matches Some(n) ==> n == meeting(self.of(), lo, hi).len() && final(out)@.take(n as int).map_values(
                |i: u32| i as int,
            ) == meeting(self.of(), lo, hi) && forall|i: int|
                n <= i < old(out)@.len() ==> #[trigger] final(out)@[i] == old(out)@[i],
    {
        proof {
            use_type_invariant(self);
        }
        if lo.is_nan() || hi.is_nan() {
            return None;
        }
        let ghost ivs = self.of@;
        let ghost want = meeting(ivs, lo, hi);
        let last: usize = count_up_to(&self.starts, hi.order_rank());
        let hits = self.ends.reaching(last, lo);
        let ghost found = hits@.map_values(|i: usize| i as int);
        let ghost ends = reaches_of(self.ends.of());
        proof {
            lemma_meeting(ivs, lo, hi);
            lemma_passing(ends, last as int, lo);
            assert forall|j: int| 0 <= j < hits@.len() implies (#[trigger] hits@[j]) < self.order@.len() && meets(
                ivs[self.order@[hits@[j] as int] as int],
                lo,
                hi,
            ) by {
                let k = hits@[j] as int;
                assert(found[j] == k);
                assert(found.contains(k));
                assert(self.starts@[k] <= hi.rank());
                assert(self.ends.of()[k] == ivs[self.order@[k] as int].1);
                assert(ends[k] == reach_of(self.ends.of()[k]));
            }
            assert forall|i: int| 0 <= i < ivs.len() && meets(#[trigger] ivs[i], lo, hi) implies exists|j: int|
                0 <= j < hits@.len() && self.order@[(#[trigger] hits@[j]) as int] == i by {
                assert(order_has(self.order@, i));
                let k = choose|k: int| 0 <= k < self.order@.len() && #[trigger] self.order@[k] == i;
                assert(self.starts@[k] == ivs[i].0.rank());
                assert(k < last);
                assert(self.ends.of()[k] == ivs[i].1);
                assert(ends[k] == reach_of(ivs[i].1));
                assert(found.contains(k));
                let j = choose|j: int| 0 <= j < found.len() && found[j] == k;
                assert(hits@[j] == k);
            }
            assert forall|a: int, b: int| 0 <= a < b < hits@.len() implies #[trigger] hits@[a] != #[trigger] hits@[b] by {
                assert(found[a] < found[b]);
            }
        }
        let ghost first = out@;
        let mut n: usize = 0;
        while n < hits.len()
            invariant
                ivs.len() <= u32::MAX,
                sorts(self.starts@, self.order@, ivs, ivs.len() as int),
                n <= hits@.len(),
                out@.len() == first.len(),
                n <= out@.len(),
                forall|j: int|
                    0 <= j < hits@.len() ==> (#[trigger] hits@[j]) < self.order@.len() && meets(
                        ivs[self.order@[hits@[j] as int] as int],
                        lo,
                        hi,
                    ),
                forall|a: int, b: int| 0 <= a < b < hits@.len() ==> #[trigger] hits@[a] != #[trigger] hits@[b],
                forall|i: int, j: int| 0 <= i < j < n ==> #[trigger] out@[i] < #[trigger] out@[j],
                forall|y: u32|
                    #[trigger] out@.take(n as int).contains(y) <==> exists|j: int|
                        0 <= j < n && self.order@[(#[trigger] hits@[j]) as int] == y,
                forall|i: int| n <= i < out@.len() ==> #[trigger] out@[i] == first[i],
                positions::ascending(want),
                forall|i: int| #[trigger] want.contains(i) <==> 0 <= i < ivs.len() && meets(ivs[i], lo, hi),
                want == meeting(ivs, lo, hi),
                self.of() == ivs,
                old(out)@ == first,
            decreases hits@.len() - n,
        {
            let k: usize = hits[n];
            assert(self.order@[k as int] < ivs.len());
            let x: u32 = self.order[k] as u32;
            let ghost before = out@;
            proof {
                assert forall|i: int| 0 <= i < n implies #[trigger] out@[i] != x by {
                    if out@[i] == x {
                        assert(out@.take(n as int)[i] == x);
                        assert(out@.take(n as int).contains(x));
                        let j = choose|j: int| 0 <= j < n && self.order@[(#[trigger] hits@[j]) as int] == x;
                        assert(hits@[j] != hits@[n as int]);
                        assert(self.order@[hits@[j] as int] == self.order@[k as int]);
                    }
                }
            }
            if n == out.len() {
                proof {
                    assert forall|i: int| 0 <= i < n implies want.contains((#[trigger] out@[i]) as int) by {
                        let y = out@[i];
                        assert(out@.take(n as int)[i] == y);
                        assert(out@.take(n as int).contains(y));
                        let j = choose|j: int| 0 <= j < n && self.order@[(#[trigger] hits@[j]) as int] == y;
                        assert(meets(ivs[self.order@[hits@[j] as int] as int], lo, hi));
                    }
                    lemma_more(out@, n as int, want, x as int);
                }
                return None;
            }
            put_in_order(out, n, x);
            proof {
                assert forall|y: u32|
                    #[trigger] out@.take(n + 1).contains(y) <==> exists|j: int|
                        0 <= j < n + 1 && self.order@[(#[trigger] hits@[j]) as int] == y by {
                    if out@.take(n + 1).contains(y) {
                        if y == x {
                            assert(self.order@[hits@[n as int] as int] == y);
                        } else {
                            assert(before.take(n as int).contains(y));
                        }
                    }
                    if exists|j: int| 0 <= j < n + 1 && self.order@[(#[trigger] hits@[j]) as int] == y {
                        let j = choose|j: int| 0 <= j < n + 1 && self.order@[(#[trigger] hits@[j]) as int] == y;
                        if j < n {
                            assert(before.take(n as int).contains(y));
                        }
                    }
                }
            }
            n += 1;
        }
        proof {
            let got = out@.take(n as int).map_values(|i: u32| i as int);
            assert forall|i: int, j: int| 0 <= i < j < got.len() implies #[trigger] got[i] < #[trigger] got[j] by {
                assert(out@[i] < out@[j]);
            }
            assert forall|x: int| #[trigger] got.contains(x) <==> want.contains(x) by {
                if got.contains(x) {
                    let i = choose|i: int| 0 <= i < got.len() && got[i] == x;
                    let y = out@[i];
                    assert(out@.take(n as int)[i] == y);
                    assert(out@.take(n as int).contains(y));
                    let j = choose|j: int| 0 <= j < n && self.order@[(#[trigger] hits@[j]) as int] == y;
                    assert(meets(ivs[self.order@[hits@[j] as int] as int], lo, hi));
                }
                if want.contains(x) {
                    assert(meets(ivs[x], lo, hi));
                    let j = choose|j: int| 0 <= j < hits@.len() && self.order@[(#[trigger] hits@[j]) as int] == x;
                    let y = x as u32;
                    assert(out@.take(n as int).contains(y));
                    let i = choose|i: int| 0 <= i < n && out@.take(n as int)[i] == y;
                    assert(got[i] == x);
                }
            }
            positions::lemma_ascending_unique(got, want);
        }
        Some(n)
    }
}

/// A full buffer of wanted numbers, and one more: there are more than it has
/// room for.
proof fn lemma_more(out: Seq<u32>, n: int, want: Seq<int>, x: int)
    requires
        n == out.len(),
        forall|i: int, j: int| 0 <= i < j < n ==> #[trigger] out[i] < #[trigger] out[j],
        forall|i: int| 0 <= i < n ==> want.contains((#[trigger] out[i]) as int),
        forall|i: int| 0 <= i < n ==> #[trigger] out[i] != x,
        want.contains(x),
        positions::ascending(want),
    ensures
        want.len() > n,
{
    let s = out.map_values(|i: u32| i as int).push(x);
    assert(s.no_duplicates()) by {
        assert forall|i: int, j: int| 0 <= i < s.len() && 0 <= j < s.len() && i != j implies s[i] != s[j] by {
            if i < n && j < n {
                if i < j {
                    assert(out[i] < out[j]);
                } else {
                    assert(out[j] < out[i]);
                }
            } else if i < n {
                assert(out[i] != x);
            } else {
                assert(out[j] != x);
            }
        }
    }
    assert(want.no_duplicates()) by {
        assert forall|i: int, j: int| 0 <= i < want.len() && 0 <= j < want.len() && i != j implies want[i] != want[j] by {
            if i < j {
                assert(want[i] < want[j]);
            } else {
                assert(want[j] < want[i]);
            }
        }
    }
    s.unique_seq_to_set();
    want.unique_seq_to_set();
    assert(s.to_set().subset_of(want.to_set())) by {
        assert forall|y: int| s.to_set().contains(y) implies want.to_set().contains(y) by {
            let i = choose|i: int| 0 <= i < s.len() && s[i] == y;
            if i < n {
                assert(want.contains(out[i] as int));
            }
        }
    }
    vstd::set_lib::lemma_len_subset(s.to_set(), want.to_set());
}

} // verus!
