//! Where the slices of a sound begin.
//!
//! How much the energy of a sound rises from one stretch to the next is measured
//! elsewhere. Here it is said how long a stretch is, around which stretches the
//! measure is averaged, and which rises are onsets.

use crate::setting::Setting;
use vstd::prelude::*;

verus! {

/// How many samples a stretch has: about five milliseconds, 64 at least.
pub open spec fn stretch_len(sample_rate: u32) -> int {
    if sample_rate / 200 < 64 {
        64
    } else {
        (sample_rate / 200) as int
    }
}

/// How many samples a stretch has: about five milliseconds, 64 at least.
pub fn hop_len(sample_rate: u32) -> (r: usize)
    ensures
        r == stretch_len(sample_rate),
        r >= 64,
{
    let n: u32 = sample_rate / 200;
    if n < 64 {
        64
    } else {
        n as usize
    }
}

/// Whether a sound is long enough to have onsets: three stretches at least. Any
/// other is one slice.
pub fn can_have_onsets(n_samples: usize, sample_rate: u32) -> (r: bool)
    ensures
        r == (sample_rate != 0 && n_samples >= 3 * stretch_len(sample_rate)),
{
    sample_rate != 0 && n_samples as u128 >= 3 * (hop_len(sample_rate) as u128)
}

/// How many stretches lie between onsets at least: about thirty milliseconds,
/// and one at least.
pub open spec fn least_gap(sample_rate: u32) -> int {
    let n = (sample_rate * 30 / 1000) / stretch_len(sample_rate);
    if n < 1 {
        1
    } else {
        n
    }
}

/// How many stretches lie between onsets at least.
pub fn min_gap_frames(sample_rate: u32) -> (r: usize)
    ensures
        r == least_gap(sample_rate),
        r >= 1,
{
    let samples: u64 = (sample_rate as u64) * 30 / 1000;
    let hop: u64 = hop_len(sample_rate) as u64;
    let n: u64 = samples / hop;
    assert(n <= samples) by (nonlinear_arith)
        requires
            n == samples / hop,
            hop >= 1,
    ;
    if n < 1 {
        1
    } else {
        n as usize
    }
}

/// The stretches around one that the measure is averaged over, of `n`.
pub fn averaged_over(i: usize, n: usize) -> (r: (usize, usize))
    requires
        i < n,
    ensures
        ({
            let half = if n / 16 < 4 {
                4int
            } else if n / 16 > 64 {
                64int
            } else {
                (n / 16) as int
            };
            &&& r.0 == if i < half {
                0
            } else {
                i - half
            }
            &&& r.1 == if i + half > n {
                n as int
            } else {
                i + half
            }
        }),
        r.0 <= i < r.1 <= n,
{
    let sixteenth: usize = n / 16;
    let half: usize = if sixteenth < 4 {
        4
    } else if sixteenth > 64 {
        64
    } else {
        sixteenth
    };
    let lo: usize = if i < half {
        0
    } else {
        i - half
    };
    let hi: usize = if n - i < half {
        n
    } else {
        i + half
    };
    (lo, hi)
}

/// Whether a rise stands out: it is above its threshold and no less than its
/// neighbours.
pub open spec fn stands_out(rises: Seq<Setting>, thresholds: Seq<Setting>, i: int) -> bool {
    thresholds[i].lt(rises[i]) && rises[i - 1].le(rises[i]) && rises[i + 1].le(rises[i])
}

/// The onsets among the first `n` rises. The first and the last rise are none,
/// and none is too close to the one before.
pub open spec fn onsets_upto(rises: Seq<Setting>, thresholds: Seq<Setting>, gap: int, n: nat) -> Seq<int>
    decreases n,
{
    if n == 0 {
        Seq::empty()
    } else {
        let front = onsets_upto(rises, thresholds, gap, (n - 1) as nat);
        let i = n - 1;
        if 1 <= i < rises.len() - 1 && stands_out(rises, thresholds, i) && (front.len() == 0 || i - front.last()
            >= gap) {
            front.push(i)
        } else {
            front
        }
    }
}

/// The samples at which the slices begin: at the start, and at every onset.
pub open spec fn slice_starts(onsets: Seq<int>, hop: int) -> Seq<u64> {
    seq![0u64] + onsets.map_values(|i: int| (i * hop) as u64)
}

/// Picks the onsets among the rises of a sound and says at which samples the
/// slices begin.
pub fn pick_onsets(rises: &Vec<Setting>, thresholds: &Vec<Setting>, hop: usize, min_gap: usize) -> (r: Vec<u64>)
    requires
        rises@.len() == thresholds@.len(),
        rises@.len() * hop <= usize::MAX,
        min_gap >= 1,
    ensures
        r@ == slice_starts(onsets_upto(rises@, thresholds@, min_gap as int, rises@.len()), hop as int),
{
    let mut starts: Vec<u64> = Vec::new();
    starts.push(0);
    let n: usize = rises.len();
    let mut last: Option<usize> = None;
    let ghost mut found: Seq<int> = Seq::empty();
    assert(starts@ =~= slice_starts(found, hop as int));
    let mut i: usize = 0;
    while i < n
        invariant
            n == rises@.len(),
            rises@.len() == thresholds@.len(),
            rises@.len() * hop <= usize::MAX,
            i <= n,
            found == onsets_upto(rises@, thresholds@, min_gap as int, i as nat),
            starts@ == slice_starts(found, hop as int),
            match last {
                Some(at) => found.len() > 0 && found.last() == at,
                None => found.len() == 0,
            },
            last matches Some(at) ==> at < i,
        decreases n - i,
    {
        if i >= 1 && i < n - 1 && thresholds[i].lt(rises[i]) && rises[i - 1].le(rises[i]) && rises[i + 1].le(rises[i]) {
            let far: bool = match last {
                Some(at) => i - at >= min_gap,
                None => true,
            };
            if far {
                assert(i * hop <= rises@.len() * hop) by (nonlinear_arith)
                    requires
                        i <= rises@.len(),
                ;
                starts.push((i * hop) as u64);
                last = Some(i);
                proof {
                    let before = found;
                    found = found.push(i as int);
                    assert(slice_starts(found, hop as int) =~= slice_starts(before, hop as int).push((i * hop) as u64));
                }
            }
        }
        i += 1;
    }
    starts
}

/// Onsets come in order, none of them at the start, and none closer to the one
/// before than the gap.
pub proof fn law_onsets_are_apart(rises: Seq<Setting>, thresholds: Seq<Setting>, gap: int, k: int)
    requires
        gap >= 1,
        0 <= k < onsets_upto(rises, thresholds, gap, rises.len()).len(),
    ensures
        onsets_upto(rises, thresholds, gap, rises.len())[k] >= 1,
        stands_out(rises, thresholds, onsets_upto(rises, thresholds, gap, rises.len())[k]),
        k > 0 ==> onsets_upto(rises, thresholds, gap, rises.len())[k] - onsets_upto(
            rises,
            thresholds,
            gap,
            rises.len(),
        )[k - 1] >= gap,
{
    lemma_apart(rises, thresholds, gap, rises.len(), k);
}

/// The slices of a sound begin at its start and then ever later, each of them before
/// the last stretch.
pub proof fn law_slices_begin_in_order(rises: Seq<Setting>, thresholds: Seq<Setting>, hop: int, gap: int)
    requires
        hop >= 1,
        gap >= 1,
        rises.len() * hop <= usize::MAX,
    ensures
        ({
            let starts = slice_starts(onsets_upto(rises, thresholds, gap, rises.len()), hop);
            &&& starts.len() >= 1
            &&& starts[0] == 0
            &&& forall|i: int, j: int| 0 <= i < j < starts.len() ==> #[trigger] starts[i] < #[trigger] starts[j]
            &&& forall|i: int|
                0 <= i < starts.len() && (i > 0 || rises.len() >= 2) ==> #[trigger] starts[i] < (rises.len() - 1) * hop
        }),
{
    let found = onsets_upto(rises, thresholds, gap, rises.len());
    let starts = slice_starts(found, hop);
    lemma_in_order(rises, thresholds, gap, rises.len());
    assert forall|k: int| 0 <= k < found.len() implies #[trigger] starts[k + 1] == found[k] * hop && 0 < found[k] * hop
        < (rises.len() - 1) * hop by {
        let at = found[k];
        let n = rises.len() as int;
        assert(0 < at * hop < (n - 1) * hop <= n * hop) by (nonlinear_arith)
            requires
                1 <= at < n - 1,
                hop >= 1,
        ;
    }
    assert forall|i: int| 0 <= i < starts.len() && (i > 0 || rises.len() >= 2) implies #[trigger] starts[i] < (rises.len()
        - 1) * hop by {
        if i > 0 {
            assert(starts[(i - 1) + 1] == found[i - 1] * hop);
        } else {
            let n = rises.len() as int;
            assert(0 < (n - 1) * hop) by (nonlinear_arith)
                requires
                    n >= 2,
                    hop >= 1,
            ;
        }
    }
    assert forall|i: int, j: int| 0 <= i < j < starts.len() implies #[trigger] starts[i] < #[trigger] starts[j] by {
        assert(starts[(j - 1) + 1] == found[j - 1] * hop);
        if i > 0 {
            assert(starts[(i - 1) + 1] == found[i - 1] * hop);
            let a = found[i - 1];
            let b = found[j - 1];
            assert(a * hop < b * hop) by (nonlinear_arith)
                requires
                    a < b,
                    hop >= 1,
            ;
        }
    }
}

proof fn lemma_in_order(rises: Seq<Setting>, thresholds: Seq<Setting>, gap: int, n: nat)
    requires
        gap >= 1,
    ensures
        ({
            let found = onsets_upto(rises, thresholds, gap, n);
            &&& forall|k: int| 0 <= k < found.len() ==> 1 <= #[trigger] found[k] < rises.len() - 1 && found[k] < n
            &&& forall|i: int, j: int| 0 <= i < j < found.len() ==> #[trigger] found[i] < #[trigger] found[j]
        }),
    decreases n,
{
    if n > 0 {
        lemma_in_order(rises, thresholds, gap, (n - 1) as nat);
        let front = onsets_upto(rises, thresholds, gap, (n - 1) as nat);
        let found = onsets_upto(rises, thresholds, gap, n);
        if found.len() > front.len() {
            assert(found == front.push(n - 1));
            assert forall|i: int, j: int| 0 <= i < j < found.len() implies #[trigger] found[i] < #[trigger] found[j] by {
                assert(found[i] == front[i]);
                if j < front.len() {
                    assert(found[j] == front[j]);
                }
            }
            assert forall|k: int| 0 <= k < found.len() implies 1 <= #[trigger] found[k] < rises.len() - 1 && found[k]
                < n by {
                if k < front.len() {
                    assert(found[k] == front[k]);
                }
            }
        } else {
            assert(found == front);
        }
    }
}

proof fn lemma_apart(rises: Seq<Setting>, thresholds: Seq<Setting>, gap: int, n: nat, k: int)
    requires
        gap >= 1,
        0 <= k < onsets_upto(rises, thresholds, gap, n).len(),
    ensures
        onsets_upto(rises, thresholds, gap, n)[k] >= 1,
        stands_out(rises, thresholds, onsets_upto(rises, thresholds, gap, n)[k]),
        k > 0 ==> onsets_upto(rises, thresholds, gap, n)[k] - onsets_upto(rises, thresholds, gap, n)[k - 1] >= gap,
    decreases n,
{
    if n > 0 {
        let front = onsets_upto(rises, thresholds, gap, (n - 1) as nat);
        if k < front.len() {
            lemma_apart(rises, thresholds, gap, (n - 1) as nat, k);
        }
    }
}

/// Whether a rise is a peak above its threshold.
pub open spec fn is_peak(rises: Seq<Setting>, thresholds: Seq<Setting>, i: int) -> bool {
    &&& 0 < i < rises.len() - 1
    &&& thresholds[i].lt(rises[i])
    &&& rises[i - 1].le(rises[i])
    &&& rises[i + 1].le(rises[i])
}

proof fn lemma_found_are_peaks(rises: Seq<Setting>, thresholds: Seq<Setting>, gap: int, n: nat)
    requires
        gap >= 1,
        n <= rises.len(),
    ensures
        ({
            let found = onsets_upto(rises, thresholds, gap, n);
            &&& forall|k: int| 0 <= k < found.len() ==> is_peak(rises, thresholds, #[trigger] found[k]) && found[k] < n
            &&& forall|k: int, l: int| 0 <= k < l < found.len() ==> #[trigger] found[k] < #[trigger] found[l]
        }),
    decreases n,
{
    if n > 0 {
        let i = n - 1;
        lemma_found_are_peaks(rises, thresholds, gap, i as nat);
        let front = onsets_upto(rises, thresholds, gap, i as nat);
        let found = onsets_upto(rises, thresholds, gap, n);
        assert forall|k: int| 0 <= k < found.len() implies is_peak(rises, thresholds, #[trigger] found[k]) && found[k]
            < n by {
            if k < front.len() {
                assert(found[k] == front[k]);
            }
        }
        assert forall|k: int, l: int| 0 <= k < l < found.len() implies #[trigger] found[k] < #[trigger] found[l] by {
            assert(found[k] == front[k]);
            if l < front.len() {
                assert(found[l] == front[l]);
            }
        }
    }
}

/// Whether an onset is at a place or less than a gap before it.
pub open spec fn is_near(found: Seq<int>, gap: int, i: int) -> bool {
    exists|k: int| 0 <= k < found.len() && i - gap < #[trigger] found[k] <= i
}

proof fn lemma_peak_is_near(rises: Seq<Setting>, thresholds: Seq<Setting>, gap: int, n: nat, j: int)
    requires
        gap >= 1,
        n <= rises.len(),
        0 <= j < n,
        is_peak(rises, thresholds, j),
    ensures
        is_near(onsets_upto(rises, thresholds, gap, n), gap, j),
    decreases n,
{
    let i = n - 1;
    let front = onsets_upto(rises, thresholds, gap, i as nat);
    let found = onsets_upto(rises, thresholds, gap, n);
    if j < i {
        lemma_peak_is_near(rises, thresholds, gap, i as nat, j);
        let k = choose|k: int| 0 <= k < front.len() && j - gap < #[trigger] front[k] <= j;
        assert(found[k] == front[k]);
    } else if front.len() > 0 && i - front.last() < gap {
        lemma_found_are_peaks(rises, thresholds, gap, i as nat);
        let k = front.len() - 1;
        assert(front[k] < i);
        assert(found[k] == front[k]);
    } else {
        assert(found[front.len() as int] == i);
    }
}

/// Every peak is an onset, unless one comes too short before it; and every onset is a
/// peak.
pub proof fn law_peaks_are_onsets(rises: Seq<Setting>, thresholds: Seq<Setting>, gap: int)
    requires
        gap >= 1,
    ensures
        ({
            let found = onsets_upto(rises, thresholds, gap, rises.len());
            &&& forall|k: int| 0 <= k < found.len() ==> is_peak(rises, thresholds, #[trigger] found[k])
            &&& forall|k: int, l: int| 0 <= k < l < found.len() ==> #[trigger] found[k] < #[trigger] found[l]
            &&& forall|i: int| #[trigger] is_peak(rises, thresholds, i) ==> is_near(found, gap, i)
        }),
{
    let found = onsets_upto(rises, thresholds, gap, rises.len());
    lemma_found_are_peaks(rises, thresholds, gap, rises.len());
    assert forall|i: int| #[trigger] is_peak(rises, thresholds, i) implies is_near(found, gap, i) by {
        lemma_peak_is_near(rises, thresholds, gap, rises.len(), i);
    }
}

} // verus!
