//! Keygroup boundaries computed from a sorted list of root pitches.
use vstd::prelude::*;

verus! {

/// Highest playable pitch.
pub const MAX_PITCH: u8 = 127;

/// A pitch preference is given in thousandths: `0` favours pitching the
/// samples up, `PREFERENCE_SCALE` favours pitching them down.
pub const PREFERENCE_SCALE: u16 = 1000;

/// An inclusive range of bytes (pitches or velocities).
#[derive(Debug, Clone, Copy, PartialEq, Eq, Structural)]
pub struct InclusiveRange {
    pub start: u8,
    pub end: u8,
}

impl InclusiveRange {
    pub fn new(start: u8, end: u8) -> (r: InclusiveRange)
        ensures
            r.start == start,
            r.end == end,
    {
        InclusiveRange { start, end }
    }

    /// Whether `value` lies in the range.
    pub open spec fn spec_contains(self, value: int) -> bool {
        self.start <= value <= self.end
    }

    pub fn contains(&self, value: u8) -> (r: bool)
        ensures
            r == self.spec_contains(value as int),
    {
        self.start <= value && value <= self.end
    }
}

/// The preference, clamped to `[0, PREFERENCE_SCALE]`.
pub open spec fn clamped_preference(preference: u16) -> int {
    if preference > PREFERENCE_SCALE {
        PREFERENCE_SCALE as int
    } else {
        preference as int
    }
}

/// The boundary between the keygroups of two adjacent roots: the last pitch
/// that still belongs to the lower root. It lies `floor(preference * distance)`
/// above `low`, capped one below `high`; equal (or misordered) roots cut at
/// `low`.
pub open spec fn spec_cut(low: int, high: int, preference: u16) -> int {
    if high <= low {
        low
    } else {
        let offset = clamped_preference(preference) * (high - low) / (PREFERENCE_SCALE as int);
        if offset > high - low - 1 {
            high - 1
        } else {
            low + offset
        }
    }
}

/// The cut points for the roots: `0`, one cut per adjacent pair, then `127`.
pub open spec fn spec_cuts_at(roots: Seq<u8>, preference: u16, k: int) -> int {
    if k == 0 {
        0
    } else if k >= roots.len() {
        MAX_PITCH as int
    } else {
        spec_cut(roots[k - 1] as int, roots[k] as int, preference)
    }
}

/// The range of the `i`-th root: from just above the previous cut (from `0`
/// when that cut is `0`) to the next cut.
pub open spec fn spec_range_at(roots: Seq<u8>, preference: u16, i: int) -> InclusiveRange {
    let low = spec_cuts_at(roots, preference, i);
    InclusiveRange {
        start: (if low == 0 { 0 } else { low + 1 }) as u8,
        end: spec_cuts_at(roots, preference, i + 1) as u8,
    }
}

/// The ranges that `build_ranges` computes, one per root.
pub open spec fn spec_ranges(roots: Seq<u8>, preference: u16) -> Seq<InclusiveRange> {
    Seq::new(roots.len(), |i: int| spec_range_at(roots, preference, i))
}

/// Every root is a pitch.
pub open spec fn all_pitches(roots: Seq<u8>) -> bool {
    forall|i: int| 0 <= i < roots.len() ==> roots[i] <= MAX_PITCH
}

/// Strictly ascending.
pub open spec fn strictly_ascending(roots: Seq<u8>) -> bool {
    forall|i: int, j: int| 0 <= i < j < roots.len() ==> roots[i] < roots[j]
}

proof fn lemma_cut_bounds(low: int, high: int, preference: u16)
    requires
        0 <= low,
        high <= MAX_PITCH,
    ensures
        low < high ==> low <= spec_cut(low, high, preference) < high,
        high <= low ==> spec_cut(low, high, preference) == low,
{
    if low < high {
        let p = clamped_preference(preference);
        assert(0 <= p * (high - low)) by (nonlinear_arith)
            requires
                0 <= p,
                low < high,
        ;
        assert(0 <= p * (high - low) / (PREFERENCE_SCALE as int)) by (nonlinear_arith)
            requires
                0 <= p * (high - low),
        ;
    }
}

/// The cut between two adjacent roots.
pub fn cut_point(low: u8, high: u8, preference: u16) -> (r: u8)
    requires
        high <= MAX_PITCH,
    ensures
        r == spec_cut(low as int, high as int, preference),
{
    proof {
        lemma_cut_bounds(low as int, high as int, preference);
    }
    if high <= low {
        return low;
    }
    let p: u32 = if preference > PREFERENCE_SCALE {
        PREFERENCE_SCALE as u32
    } else {
        preference as u32
    };
    let distance: u32 = (high - low) as u32;
    assert(p * distance <= 1000 * 127) by (nonlinear_arith)
        requires
            p <= 1000,
            distance <= 127,
    ;
    let offset: u32 = p * distance / (PREFERENCE_SCALE as u32);
    if offset > distance - 1 {
        high - 1
    } else {
        low + offset as u8
    }
}

/// Splits the pitch domain into one range per root.
///
/// `roots` is expected in ascending order; each cut between two adjacent
/// roots is placed by `preference` (see `spec_cut`). The first range starts
/// at `0` and the last one ends at `127`. No roots give no ranges.
pub fn build_ranges(roots: &Vec<u8>, preference: u16) -> (r: Vec<InclusiveRange>)
    requires
        all_pitches(roots@),
    ensures
        r@ == spec_ranges(roots@, preference),
{
    let n = roots.len();
    let mut ranges: Vec<InclusiveRange> = Vec::new();
    if n == 0 {
        assert(ranges@ =~= spec_ranges(roots@, preference));
        return ranges;
    }
    let mut low: u8 = 0;
    let mut i: usize = 0;
    while i < n
        invariant
            n == roots@.len(),
            all_pitches(roots@),
            i <= n,
            low as int == spec_cuts_at(roots@, preference, i as int),
            ranges@.len() == i,
            forall|j: int| 0 <= j < i ==> ranges@[j] == spec_range_at(roots@, preference, j),
        decreases n - i,
    {
        let high: u8 = if i + 1 < n {
            proof {
                lemma_cut_bounds(roots@[i as int] as int, roots@[i + 1] as int, preference);
            }
            cut_point(roots[i], roots[i + 1], preference)
        } else {
            MAX_PITCH
        };
        proof {
            if i > 0 {
                lemma_cut_bounds(roots@[i - 1] as int, roots@[i as int] as int, preference);
            }
        }
        let start: u8 = if low == 0 { 0 } else { low + 1 };
        ranges.push(InclusiveRange { start, end: high });
        low = high;
        i = i + 1;
    }
    assert(ranges@ =~= spec_ranges(roots@, preference));
    ranges
}


proof fn lemma_cut_facts(roots: Seq<u8>, preference: u16, k: int)
    requires
        all_pitches(roots),
        strictly_ascending(roots),
        1 <= k < roots.len(),
    ensures
        roots[k - 1] <= spec_cuts_at(roots, preference, k) < roots[k],
{
    lemma_cut_bounds(roots[k - 1] as int, roots[k] as int, preference);
}

/// Some range of `ranges` holds `p`.
pub open spec fn covered(ranges: Seq<InclusiveRange>, p: int) -> bool {
    exists|i: int| 0 <= i < ranges.len() && #[trigger] ranges[i].spec_contains(p)
}

/// No cut other than the first one is `0`: only the first pair of roots
/// can give one, when the lowest root is `0`.
pub open spec fn no_inner_zero_cut(roots: Seq<u8>, preference: u16) -> bool {
    roots.len() >= 2 ==> spec_cut(roots[0] as int, roots[1] as int, preference) != 0
}

proof fn lemma_range_facts(roots: Seq<u8>, preference: u16, i: int)
    requires
        all_pitches(roots),
        strictly_ascending(roots),
        no_inner_zero_cut(roots, preference),
        0 <= i < roots.len(),
    ensures
        spec_range_at(roots, preference, i).start <= roots[i] <= spec_range_at(roots, preference, i).end,
        i == 0 ==> spec_range_at(roots, preference, i).start == 0,
        i > 0 ==> spec_range_at(roots, preference, i).start == spec_cuts_at(roots, preference, i) + 1,
        spec_range_at(roots, preference, i).end == spec_cuts_at(roots, preference, i + 1),
        i + 1 < roots.len() ==> spec_cuts_at(roots, preference, i + 1) != 0,
{
    let n = roots.len();
    if i > 0 {
        lemma_cut_facts(roots, preference, i);
        if i >= 2 {
            assert(roots[0] < roots[i - 1]);
        }
    }
    if i + 1 < n {
        lemma_cut_facts(roots, preference, i + 1);
        if i >= 1 {
            assert(roots[0] < roots[i]);
        }
    }
}

proof fn lemma_ranges_ordered(roots: Seq<u8>, preference: u16, i: int, j: int)
    requires
        all_pitches(roots),
        strictly_ascending(roots),
        no_inner_zero_cut(roots, preference),
        0 <= i < j < roots.len(),
    ensures
        spec_range_at(roots, preference, i).end < spec_range_at(roots, preference, j).start,
    decreases j - i,
{
    lemma_range_facts(roots, preference, i);
    lemma_range_facts(roots, preference, j);
    if j > i + 1 {
        lemma_ranges_ordered(roots, preference, i + 1, j);
        lemma_range_facts(roots, preference, i + 1);
    }
}

proof fn lemma_ranges_cover_to(roots: Seq<u8>, preference: u16, k: int, p: int)
    requires
        all_pitches(roots),
        strictly_ascending(roots),
        no_inner_zero_cut(roots, preference),
        0 <= k < roots.len(),
        0 <= p <= spec_range_at(roots, preference, k).end,
    ensures
        exists|i: int| 0 <= i <= k && #[trigger] spec_range_at(roots, preference, i).spec_contains(p),
    decreases k,
{
    lemma_range_facts(roots, preference, k);
    if p >= spec_range_at(roots, preference, k).start {
        assert(spec_range_at(roots, preference, k).spec_contains(p));
    } else {
        lemma_range_facts(roots, preference, k - 1);
        lemma_ranges_cover_to(roots, preference, k - 1, p);
        let i = choose|i: int| 0 <= i <= k - 1 && #[trigger] spec_range_at(roots, preference, i).spec_contains(p);
        assert(spec_range_at(roots, preference, i).spec_contains(p));
    }
}

/// For distinct roots in ascending order, the ranges partition the pitch
/// domain: one range per root, the first starting at `0`, each ending one
/// below the start of the next, the last ending at `127`, none overlapping,
/// every pitch in one of them, and each root inside its own range. A lowest
/// root of `0` whose cut falls on `0` is left out (its range would overlap
/// the first one).
pub proof fn lemma_ranges_partition(roots: Seq<u8>, preference: u16)
    requires
        roots.len() > 0,
        all_pitches(roots),
        strictly_ascending(roots),
        no_inner_zero_cut(roots, preference),
    ensures
        spec_ranges(roots, preference).len() == roots.len(),
        spec_ranges(roots, preference)[0].start == 0,
        spec_ranges(roots, preference)[roots.len() - 1].end == MAX_PITCH,
        forall|i: int|
            0 <= i < roots.len() ==> #[trigger] spec_ranges(roots, preference)[i].start
                <= spec_ranges(roots, preference)[i].end,
        forall|i: int|
            0 <= i < roots.len() - 1 ==> #[trigger] spec_ranges(roots, preference)[i].end + 1
                == spec_ranges(roots, preference)[i + 1].start,
        forall|i: int, j: int|
            0 <= i < j < roots.len() ==> #[trigger] spec_ranges(roots, preference)[i].end
                < #[trigger] spec_ranges(roots, preference)[j].start,
        forall|p: int| 0 <= p <= MAX_PITCH ==> #[trigger] covered(spec_ranges(roots, preference), p),
        forall|i: int|
            0 <= i < roots.len() ==> #[trigger] spec_ranges(roots, preference)[i].spec_contains(
                roots[i] as int,
            ),
{
    let n = roots.len();
    let r = spec_ranges(roots, preference);
    lemma_range_facts(roots, preference, 0);
    lemma_range_facts(roots, preference, n - 1);
    assert forall|i: int| 0 <= i < n implies #[trigger] r[i].start <= r[i].end
        && r[i].spec_contains(roots[i] as int) by {
        lemma_range_facts(roots, preference, i);
    }
    assert forall|i: int| 0 <= i < n - 1 implies #[trigger] r[i].end + 1 == r[i + 1].start by {
        lemma_range_facts(roots, preference, i);
        lemma_range_facts(roots, preference, i + 1);
    }
    assert forall|i: int, j: int| 0 <= i < j < n implies #[trigger] r[i].end
        < #[trigger] r[j].start by {
        lemma_ranges_ordered(roots, preference, i, j);
    }
    assert forall|p: int| 0 <= p <= MAX_PITCH implies #[trigger] covered(r, p) by {
        lemma_ranges_cover_to(roots, preference, n - 1, p);
        let i = choose|i: int| 0 <= i <= n - 1 && #[trigger] spec_range_at(roots, preference, i).spec_contains(p);
        assert(r[i].spec_contains(p));
    }
}

} // verus!
