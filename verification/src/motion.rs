//! Background learning and motion classification.
//!
//! During calibration every in-range reading is recorded in the angular bin of
//! its direction (one bin per degree). When a sweep ends after the calibration
//! time is over, each bin with enough samples gets its median distance as the
//! background; the others get none. From then on the background is fixed, and
//! each reading is classified against the background of its bin.

use vstd::prelude::*;
use vstd::relations::{sorted_by, total_ordering};
use crate::Point;
use crate::DIR_ROUND;

verus! {

/// Number of angular bins of the background model, one per degree.
pub const ANGLE_BINS: usize = 360;

/// Smallest number of samples from which a bin gets a background distance.
pub const MIN_BG_SAMPLES: usize = 5;

/// Readings farther than this, in millimetres, are ignored.
pub const MAX_RANGE_MM: u16 = 4000;

/// Sentinel direction meaning that no reading has been seen yet.
pub const NO_DIR: u16 = 0xFFFF;

/// Ascending order on distances.
pub open spec fn ascending(a: u16, b: u16) -> bool {
    a <= b
}

/// The samples sorted in ascending order.
pub open spec fn sorted_samples(s: Seq<u16>) -> Seq<u16> {
    s.sort_by(|a: u16, b: u16| ascending(a, b))
}

/// The background distance of a bin with samples `s`: the median (the middle
/// element, or the upper of the two middle elements, of the sorted samples)
/// when there are at least `MIN_BG_SAMPLES` of them, none otherwise.
pub open spec fn spec_background(s: Seq<u16>) -> Option<u16> {
    if s.len() < MIN_BG_SAMPLES {
        None
    } else {
        Some(sorted_samples(s)[(s.len() / 2) as int])
    }
}

proof fn lemma_ascending_total()
    ensures
        total_ordering(|a: u16, b: u16| ascending(a, b)),
{
}

/// The samples in ascending order.
fn sort_samples(s: &Vec<u16>) -> (r: Vec<u16>)
    ensures
        r@ == sorted_samples(s@),
        r@.len() == s@.len(),
{
    broadcast use vstd::seq_lib::group_to_multiset_ensures;
    broadcast use vstd::multiset::group_multiset_axioms;

    let ghost leq = |a: u16, b: u16| ascending(a, b);
    let mut r: Vec<u16> = Vec::new();
    let mut i: usize = 0;
    while i < s.len()
        invariant
            i <= s@.len(),
            leq == (|a: u16, b: u16| ascending(a, b)),
            sorted_by(r@, leq),
            r@.to_multiset() == s@.take(i as int).to_multiset(),
        decreases s@.len() - i,
    {
        let x: u16 = s[i];
        let mut j: usize = 0;
        while j < r.len() && r[j] <= x
            invariant
                j <= r@.len(),
                forall|t: int| 0 <= t < j ==> r@[t] <= x,
            decreases r@.len() - j,
        {
            j = j + 1;
        }
        let ghost r0 = r@;
        r.insert(j, x);
        proof {
            assert forall|a: int, b: int| 0 <= a < b < r@.len() implies #[trigger] leq(r@[a], r@[b]) by {
                if b < j {
                    assert(leq(r0[a], r0[b]));
                } else if a < j && b == j {
                } else if a < j {
                    assert(r0[a] <= x);
                    assert(x < r0[j as int] || j == r0.len());
                    assert(leq(r0[j as int], r0[b - 1]) || j as int == b - 1);
                } else if a == j {
                    assert(x < r0[j as int]);
                    assert(leq(r0[j as int], r0[b - 1]) || j as int == b - 1);
                } else {
                    assert(leq(r0[a - 1], r0[b - 1]));
                }
            }
            assert(r@.remove(j as int) =~= r0);
            assert(r@[j as int] == x);
            assert(s@.take(i as int + 1) =~= s@.take(i as int).push(x));
            vstd::seq_lib::to_multiset_remove(r@, j as int);
            assert(r@.contains(x)) by {
                assert(r@[j as int] == x);
            }
            r@.to_multiset_ensures();
            assert(r@.to_multiset().count(x) > 0);
            assert(r@.to_multiset() =~= r0.to_multiset().insert(x));
            vstd::seq_lib::to_multiset_build(s@.take(i as int), x);
            assert(r@.to_multiset() =~= s@.take(i as int + 1).to_multiset());
        }
        i = i + 1;
    }
    proof {
        assert(s@.take(s@.len() as int) =~= s@);
        lemma_ascending_total();
        s@.lemma_sort_by_ensures(leq);
        vstd::seq_lib::lemma_sorted_unique(r@, s@.sort_by(leq), leq);
        assert(r@.len() == r@.to_multiset().len());
        assert(s@.len() == s@.to_multiset().len());
    }
    r
}

/// The background distance of a bin with the samples `samples`.
pub fn background_of(samples: &Vec<u16>) -> (b: Option<u16>)
    ensures
        b == spec_background(samples@),
        b is Some <==> samples@.len() >= MIN_BG_SAMPLES,
{
    proof {
        lemma_background_median(samples@);
    }
    if samples.len() < MIN_BG_SAMPLES {
        return None;
    }
    let sorted = sort_samples(samples);
    Some(sorted[samples.len() / 2])
}

} // verus!

verus! {

/// Whether a reading at direction `dir` after one at `last` closes a sweep:
/// the direction fell back past zero from the second half of the turn.
pub open spec fn closes_sweep(last: u16, dir: u16) -> bool {
    last != NO_DIR && dir < last && last > DIR_ROUND / 2
}

/// Whether a reading of `len` millimetres is used: it is non-zero and within range.
pub open spec fn usable(len: u16) -> bool {
    len != 0 && len <= MAX_RANGE_MM
}

/// Angular bin of the direction `dir`: its whole degrees, modulo a turn.
pub open spec fn bin_of(dir: u16) -> int {
    (dir / 100) as int % (ANGLE_BINS as int)
}

/// The background model learned from the samples of each bin.
pub open spec fn backgrounds(samples: Seq<Seq<u16>>) -> Seq<Option<u16>> {
    Seq::new(samples.len(), |b: int| spec_background(samples[b]))
}

/// Number of bins with a background distance.
pub open spec fn count_locked(bg: Seq<Option<u16>>) -> nat
    decreases bg.len(),
{
    if bg.len() == 0 {
        0
    } else {
        count_locked(bg.drop_last()) + if bg.last() is Some { 1nat } else { 0nat }
    }
}

/// What a usable reading is compared with.
#[derive(Debug, Clone, Copy, PartialEq, Eq, Structural)]
pub enum Baseline {
    /// Calibration is running: the reading was recorded as a sample.
    Learning,
    /// The background distance of the reading's bin, in millimetres.
    Known(u16),
    /// The reading's bin has no background distance.
    Unknown,
}

/// A usable reading, with its bin and what it is compared with.
#[derive(Debug, Clone, Copy, PartialEq, Eq, Structural)]
pub struct Reading {
    pub bin: usize,
    pub len_mm: u16,
    pub baseline: Baseline,
}

/// The outcome of one reading.
#[derive(Debug, Clone, Copy, PartialEq, Eq, Structural)]
pub struct Observation {
    /// A sweep ended just before this reading.
    pub wrapped: bool,
    /// Calibration ended just before this reading, with this many bins given a background.
    pub locked_bins: Option<usize>,
    /// The reading, when it is usable.
    pub reading: Option<Reading>,
}

/// Largest difference from the background, in millimetres, of a reading that is not motion.
pub const MATCH_TOLERANCE_MM: u16 = 150;

/// Whether a reading of `len_mm` millimetres is motion: it differs from its
/// bin's background by more than the tolerance, or its bin has no background.
/// Readings taken during calibration are never motion.
pub open spec fn spec_is_motion(len_mm: u16, baseline: Baseline) -> bool {
    match baseline {
        Baseline::Learning => false,
        Baseline::Known(d) => len_mm - d > MATCH_TOLERANCE_MM || d - len_mm > MATCH_TOLERANCE_MM,
        Baseline::Unknown => true,
    }
}

/// Classifies a reading of `len_mm` millimetres against what it is compared with.
pub fn is_motion(len_mm: u16, baseline: Baseline) -> (m: bool)
    ensures
        m == spec_is_motion(len_mm, baseline),
        baseline is Learning ==> !m,
        baseline is Unknown ==> m,
        baseline matches Baseline::Known(d) ==> (m <==> (len_mm as int > d as int + 150 || (len_mm as int) < d as int - 150)),
{
    proof {
        if let Baseline::Known(d) = baseline {
            lemma_motion_rule(len_mm, d);
        } else {
            lemma_motion_rule(len_mm, 0);
        }
    }
    match baseline {
        Baseline::Learning => false,
        Baseline::Known(d) => {
            if len_mm >= d {
                len_mm - d > MATCH_TOLERANCE_MM
            } else {
                d - len_mm > MATCH_TOLERANCE_MM
            }
        },
        Baseline::Unknown => true,
    }
}

/// Sweep tracking and background model of the motion detector.
pub struct Monitor {
    last_dir: u16,
    samples: Vec<Vec<u16>>,
    background: Option<Vec<Option<u16>>>,
}

impl Monitor {
    /// Direction of the previous reading, or `NO_DIR` before the first one.
    pub closed spec fn last_dir(&self) -> u16 {
        self.last_dir
    }

    /// Whether calibration is still running.
    pub closed spec fn calibrating(&self) -> bool {
        self.background is None
    }

    /// The distances recorded so far in each bin during calibration.
    pub closed spec fn samples(&self) -> Seq<Seq<u16>> {
        self.samples@.map_values(|v: Vec<u16>| v@)
    }

    /// The background model, once calibration is over.
    pub closed spec fn background(&self) -> Seq<Option<u16>> {
        match self.background {
            Some(b) => b@,
            None => Seq::empty(),
        }
    }

    /// One sample list per bin, and one background entry per bin once calibrated.
    pub open spec fn wf(&self) -> bool {
        &&& self.samples().len() == ANGLE_BINS
        &&& !self.calibrating() ==> self.background().len() == ANGLE_BINS
    }

    /// A detector that has seen no reading and starts calibrating with empty bins.
    pub fn new() -> (m: Monitor)
        ensures
            m.wf(),
            m.calibrating(),
            m.last_dir() == NO_DIR,
            m.samples() == Seq::new(ANGLE_BINS as nat, |b: int| Seq::<u16>::empty()),
    {
        let mut samples: Vec<Vec<u16>> = Vec::new();
        let mut b: usize = 0;
        while b < ANGLE_BINS
            invariant
                b <= ANGLE_BINS,
                samples@.len() == b,
                samples@.map_values(|v: Vec<u16>| v@) == Seq::new(b as nat, |k: int| Seq::<u16>::empty()),
            decreases ANGLE_BINS - b,
        {
            let ghost s0 = samples@;
            let e: Vec<u16> = Vec::new();
            assert(e@ == Seq::<u16>::empty());
            samples.push(e);
            assert forall|k: int| 0 <= k < b + 1 implies #[trigger] samples@[k]@ == Seq::<u16>::empty() by {
                if k < b {
                    assert(samples@[k] == s0[k]);
                    assert(s0.map_values(|v: Vec<u16>| v@)[k] == Seq::<u16>::empty());
                }
            }
            assert(samples@.map_values(|v: Vec<u16>| v@) =~= Seq::new(b as nat + 1, |k: int| Seq::<u16>::empty()));
            b = b + 1;
        }
        Monitor { last_dir: NO_DIR, samples, background: None }
    }

    /// Handles one reading from the sensor. `calibration_due` tells whether the
    /// calibration time is over; calibration ends at the first sweep end after that.
    /// The sweep end is handled before the reading itself.
    pub fn observe(&mut self, raw: Point, calibration_due: bool) -> (obs: Observation)
        requires
            old(self).wf(),
        ensures
            final(self).wf(),
            obs.wrapped == closes_sweep(old(self).last_dir(), raw.dir),
            final(self).last_dir() == raw.dir,
            ({
                let ends = obs.wrapped && old(self).calibrating() && calibration_due;
                &&& final(self).calibrating() == (old(self).calibrating() && !ends)
                &&& obs.locked_bins == (if ends {
                    Some(count_locked(backgrounds(old(self).samples())) as usize)
                } else {
                    None
                })
                &&& ends ==> final(self).background() == backgrounds(old(self).samples())
                &&& !old(self).calibrating() ==> final(self).background() == old(self).background()
            }),
            obs.reading is Some <==> usable(raw.len),
            obs.reading matches Some(r) ==> {
                &&& r.bin == bin_of(raw.dir)
                &&& r.len_mm == raw.len
                &&& r.baseline == if final(self).calibrating() {
                    Baseline::Learning
                } else {
                    match final(self).background()[r.bin as int] {
                        Some(d) => Baseline::Known(d),
                        None => Baseline::Unknown,
                    }
                }
            },
            final(self).samples() == if final(self).calibrating() && usable(raw.len) {
                old(self).samples().update(
                    bin_of(raw.dir),
                    old(self).samples()[bin_of(raw.dir)].push(raw.len),
                )
            } else {
                old(self).samples()
            },
    {
        let wrapped = self.last_dir != NO_DIR && raw.dir < self.last_dir && self.last_dir > DIR_ROUND / 2;
        self.last_dir = raw.dir;
        let mut locked: Option<usize> = None;
        if wrapped && self.background.is_none() && calibration_due {
            let bg = learn_background(&self.samples);
            locked = Some(locked_bins(&bg));
            self.background = Some(bg);
        }
        if raw.len == 0 || raw.len > MAX_RANGE_MM {
            return Observation { wrapped, locked_bins: locked, reading: None };
        }
        let bin: usize = (raw.dir / 100) as usize % ANGLE_BINS;
        let baseline = match &self.background {
            None => {
                let ghost s0 = self.samples@;
                self.samples[bin].push(raw.len);
                proof {
                    assert forall|k: int| 0 <= k < ANGLE_BINS && k != bin implies #[trigger] self.samples@[k] == s0[k] by {}
                    assert(self.samples() =~= s0.map_values(|v: Vec<u16>| v@).update(bin as int,
                        s0.map_values(|v: Vec<u16>| v@)[bin as int].push(raw.len)));
                }
                Baseline::Learning
            },
            Some(bg) => match bg[bin] {
                Some(d) => Baseline::Known(d),
                None => Baseline::Unknown,
            },
        };
        Observation { wrapped, locked_bins: locked, reading: Some(Reading { bin, len_mm: raw.len, baseline }) }
    }

    /// Whether calibration is still running.
    pub fn is_calibrating(&self) -> (r: bool)
        ensures
            r == self.calibrating(),
    {
        self.background.is_none()
    }

    /// The background distance of each bin, once calibration is over.
    pub fn background_bins(&self) -> (r: Option<&Vec<Option<u16>>>)
        ensures
            r is None <==> self.calibrating(),
            r matches Some(b) ==> b@ == self.background(),
    {
        match &self.background {
            Some(b) => Some(b),
            None => None,
        }
    }
}

/// Number of bins with a background distance.
fn locked_bins(bg: &Vec<Option<u16>>) -> (n: usize)
    ensures
        n == count_locked(bg@),
{
    let mut n: usize = 0;
    let mut i: usize = 0;
    while i < bg.len()
        invariant
            i <= bg@.len(),
            n == count_locked(bg@.take(i as int)),
            n <= i,
        decreases bg@.len() - i,
    {
        assert(bg@.take(i as int + 1).drop_last() =~= bg@.take(i as int));
        if bg[i].is_some() {
            n = n + 1;
        }
        i = i + 1;
    }
    assert(bg@.take(bg@.len() as int) =~= bg@);
    n
}

/// The background model learned from the samples of each bin.
fn learn_background(samples: &Vec<Vec<u16>>) -> (bg: Vec<Option<u16>>)
    ensures
        bg@ == backgrounds(samples@.map_values(|v: Vec<u16>| v@)),
{
    let ghost s = samples@.map_values(|v: Vec<u16>| v@);
    let mut bg: Vec<Option<u16>> = Vec::new();
    let mut b: usize = 0;
    while b < samples.len()
        invariant
            b <= samples@.len(),
            s == samples@.map_values(|v: Vec<u16>| v@),
            bg@ == backgrounds(s).take(b as int),
        decreases samples@.len() - b,
    {
        let v = background_of(&samples[b]);
        bg.push(v);
        assert(bg@ =~= backgrounds(s).take(b as int + 1));
        b = b + 1;
    }
    assert(backgrounds(s).take(samples@.len() as int) =~= backgrounds(s));
    bg
}

} // verus!

verus! {

/// Number of samples within `lo..=hi`.
pub open spec fn count_within(s: Seq<u16>, lo: u16, hi: u16) -> nat
    decreases s.len(),
{
    if s.len() == 0 {
        0
    } else {
        count_within(s.drop_last(), lo, hi) + if lo <= s.last() <= hi { 1nat } else { 0nat }
    }
}

proof fn lemma_count_bound(s: Seq<u16>, lo: u16, hi: u16)
    ensures
        count_within(s, lo, hi) <= s.len(),
    decreases s.len(),
{
    if s.len() > 0 {
        lemma_count_bound(s.drop_last(), lo, hi);
    }
}

proof fn lemma_count_append(a: Seq<u16>, b: Seq<u16>, lo: u16, hi: u16)
    ensures
        count_within(a + b, lo, hi) == count_within(a, lo, hi) + count_within(b, lo, hi),
    decreases b.len(),
{
    if b.len() == 0 {
        assert(a + b =~= a);
    } else {
        lemma_count_append(a, b.drop_last(), lo, hi);
        assert((a + b).drop_last() =~= a + b.drop_last());
    }
}

proof fn lemma_count_none(s: Seq<u16>, lo: u16, hi: u16)
    requires
        forall|i: int| 0 <= i < s.len() ==> !(lo <= #[trigger] s[i] <= hi),
    ensures
        count_within(s, lo, hi) == 0,
    decreases s.len(),
{
    if s.len() > 0 {
        lemma_count_none(s.drop_last(), lo, hi);
    }
}

proof fn lemma_count_remove(s: Seq<u16>, j: int, lo: u16, hi: u16)
    requires
        0 <= j < s.len(),
    ensures
        count_within(s, lo, hi) == count_within(s.remove(j), lo, hi) + if lo <= s[j] <= hi { 1nat } else { 0nat },
{
    assert(s =~= s.take(j) + seq![s[j]] + s.skip(j + 1));
    assert(s.remove(j) =~= s.take(j) + s.skip(j + 1));
    lemma_count_append(s.take(j) + seq![s[j]], s.skip(j + 1), lo, hi);
    lemma_count_append(s.take(j), seq![s[j]], lo, hi);
    lemma_count_append(s.take(j), s.skip(j + 1), lo, hi);
    assert(seq![s[j]].drop_last() =~= Seq::<u16>::empty());
    assert(count_within(Seq::<u16>::empty(), lo, hi) == 0);
    assert(count_within(seq![s[j]], lo, hi) == if lo <= s[j] <= hi { 1nat } else { 0nat });
}

/// The count of samples within a range does not depend on their order.
proof fn lemma_count_permutation(s: Seq<u16>, t: Seq<u16>, lo: u16, hi: u16)
    requires
        s.to_multiset() == t.to_multiset(),
    ensures
        count_within(s, lo, hi) == count_within(t, lo, hi),
    decreases s.len(),
{
    broadcast use vstd::seq_lib::group_to_multiset_ensures;
    broadcast use vstd::multiset::group_multiset_axioms;

    if s.len() == 0 {
        assert(t.len() == t.to_multiset().len());
        assert(t =~= Seq::<u16>::empty());
    } else {
        let x: u16 = s.last();
        s.to_multiset_ensures();
        t.to_multiset_ensures();
        assert(s.contains(x)) by {
            assert(s[s.len() - 1] == x);
        }
        assert(t.to_multiset().count(x) > 0);
        assert(t.contains(x));
        let j: int = choose|j: int| 0 <= j < t.len() && t[j] == x;
        vstd::seq_lib::to_multiset_remove(t, j);
        assert(s.drop_last().push(x) =~= s);
        vstd::seq_lib::to_multiset_build(s.drop_last(), x);
        assert(s.drop_last().to_multiset() =~= t.remove(j).to_multiset());
        lemma_count_permutation(s.drop_last(), t.remove(j), lo, hi);
        lemma_count_remove(t, j, lo, hi);
    }
}

/// Robustness of the background distance: when more than half of a bin's
/// samples lie within `lo..=hi`, so does its background distance, whatever
/// the other samples are.
pub proof fn lemma_background_robust(s: Seq<u16>, lo: u16, hi: u16)
    requires
        spec_background(s) is Some,
        2 * count_within(s, lo, hi) > s.len(),
    ensures
        lo <= spec_background(s)->0 <= hi,
{
    let leq = |a: u16, b: u16| ascending(a, b);
    lemma_ascending_total();
    s.lemma_sort_by_ensures(leq);
    let t = sorted_samples(s);
    assert(t == s.sort_by(leq));
    lemma_count_permutation(s, t, lo, hi);
    assert(t.len() == s.len()) by {
        broadcast use vstd::seq_lib::group_to_multiset_ensures;
        s.to_multiset_ensures();
        t.to_multiset_ensures();
    }
    let h = (s.len() / 2) as int;
    let m = t[h];
    assert(t =~= t.take(h + 1) + t.skip(h + 1));
    assert(t =~= t.take(h) + t.skip(h));
    if m < lo {
        assert forall|i: int| 0 <= i < t.take(h + 1).len() implies !(lo <= #[trigger] t.take(h + 1)[i] <= hi) by {
            if i < h {
                assert(leq(t[i], t[h]));
            }
        }
        lemma_count_none(t.take(h + 1), lo, hi);
        lemma_count_append(t.take(h + 1), t.skip(h + 1), lo, hi);
        lemma_count_bound(t.skip(h + 1), lo, hi);
    }
    if m > hi {
        assert forall|i: int| 0 <= i < t.skip(h).len() implies !(lo <= #[trigger] t.skip(h)[i] <= hi) by {
            if i > 0 {
                assert(leq(t[h], t[h + i]));
            }
        }
        lemma_count_none(t.skip(h), lo, hi);
        lemma_count_append(t.take(h), t.skip(h), lo, hi);
        lemma_count_bound(t.take(h), lo, hi);
    }
}


proof fn lemma_count_all(s: Seq<u16>, lo: u16, hi: u16)
    requires
        forall|i: int| 0 <= i < s.len() ==> lo <= #[trigger] s[i] <= hi,
    ensures
        count_within(s, lo, hi) == s.len(),
    decreases s.len(),
{
    if s.len() > 0 {
        lemma_count_all(s.drop_last(), lo, hi);
    }
}

/// A bin gets a background distance exactly when it has at least
/// `MIN_BG_SAMPLES` samples, however many more. The distance is the median as
/// an order statistic: more than half of the samples (at least `len / 2 + 1`)
/// are at most it, and at least `len - len / 2` are at least it; it is one of
/// the samples.
pub proof fn lemma_background_median(s: Seq<u16>)
    ensures
        spec_background(s) is Some <==> s.len() >= 5,
        spec_background(s) is Some ==> {
            let m = spec_background(s)->0;
            &&& s.contains(m)
            &&& count_within(s, 0, m) >= s.len() / 2 + 1
            &&& count_within(s, m, 0xFFFF) >= s.len() - s.len() / 2
        },
{
    if s.len() >= 5 {
        let leq = |a: u16, b: u16| ascending(a, b);
        lemma_ascending_total();
        s.lemma_sort_by_ensures(leq);
        let t = sorted_samples(s);
        assert(t == s.sort_by(leq));
        lemma_count_permutation(s, t, 0, 0xFFFF);
        assert(t.len() == s.len()) by {
            broadcast use vstd::seq_lib::group_to_multiset_ensures;
            s.to_multiset_ensures();
            t.to_multiset_ensures();
        }
        let h = (s.len() / 2) as int;
        let m = t[h];
        assert(spec_background(s) == Some(m));
        lemma_count_permutation(s, t, 0, m);
        lemma_count_permutation(s, t, m, 0xFFFF);
        assert(t =~= t.take(h + 1) + t.skip(h + 1));
        assert(t =~= t.take(h) + t.skip(h));
        assert forall|i: int| 0 <= i < t.take(h + 1).len() implies 0 <= #[trigger] t.take(h + 1)[i] <= m by {
            if i < h {
                assert(leq(t[i], t[h]));
            }
        }
        lemma_count_all(t.take(h + 1), 0, m);
        lemma_count_append(t.take(h + 1), t.skip(h + 1), 0, m);
        assert forall|i: int| 0 <= i < t.skip(h).len() implies m <= #[trigger] t.skip(h)[i] <= 0xFFFF by {
            if i > 0 {
                assert(leq(t[h], t[h + i]));
            }
        }
        lemma_count_all(t.skip(h), m, 0xFFFF);
        lemma_count_append(t.take(h), t.skip(h), m, 0xFFFF);
        assert(s.contains(m)) by {
            broadcast use vstd::seq_lib::group_to_multiset_ensures;
            s.to_multiset_ensures();
            t.to_multiset_ensures();
            assert(t.contains(m)) by {
                assert(t[h] == m);
            }
            assert(t.to_multiset().count(m) > 0);
        }
    }
}

/// The motion rule: during calibration nothing is motion; in a bin without a
/// background every reading is motion; otherwise a reading is motion exactly
/// when it lies more than 150 mm from the background distance on either side.
pub proof fn lemma_motion_rule(len_mm: u16, d: u16)
    ensures
        !spec_is_motion(len_mm, Baseline::Learning),
        spec_is_motion(len_mm, Baseline::Unknown),
        spec_is_motion(len_mm, Baseline::Known(d)) <==> (len_mm as int > d as int + 150 || (len_mm as int) < d as int - 150),
        !spec_is_motion(d, Baseline::Known(d)),
        spec_is_motion(len_mm, Baseline::Known(d)) == spec_is_motion(d, Baseline::Known(len_mm)),
{
}


/// The number of bins with a background is the number of `Some` entries.
pub proof fn lemma_count_locked(bg: Seq<Option<u16>>)
    ensures
        count_locked(bg) == bg.filter(|o: Option<u16>| o is Some).len(),
        count_locked(bg) <= bg.len(),
    decreases bg.len(),
{
    reveal(Seq::filter);
    if bg.len() > 0 {
        lemma_count_locked(bg.drop_last());
    }
}

/// The rules that each reading goes through, from the raw values: a reading
/// is used when its distance is 1 to 4000 mm; its bin is its whole degrees
/// (`dir / 100`, which for a direction within one turn is below 360); a sweep
/// ends when, after a first reading, the direction drops below the previous
/// one coming from beyond 180 degrees; and each bin's background is learned
/// from its own samples alone.
pub proof fn lemma_reading_rules(len: u16, dir: u16, last: u16, samples: Seq<Seq<u16>>, b: int)
    ensures
        usable(len) <==> 1 <= len <= 4000,
        dir < 36000 ==> bin_of(dir) == dir / 100 && 0 <= bin_of(dir) < 360,
        0 <= bin_of(dir) < 360,
        closes_sweep(last, dir) <==> (last != 0xFFFF && dir < last && last > 18000),
        backgrounds(samples).len() == samples.len(),
        0 <= b < samples.len() ==> backgrounds(samples)[b] == spec_background(samples[b]),
{
}

} // verus!
