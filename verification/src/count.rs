use vstd::prelude::*;

use crate::card::{WILD, SCATTER_BASE};

verus! {

/// Icons from this id on pay nothing when they lead a line.
pub const LINE_ICON_LIMIT: i32 = 11;

/// The icon that the second feature count plays in place of the wild too.
pub const PIC01: i32 = 1;

/// How many leading positions of a line are scanned for the icon that leads it.
pub const SCAN_WIDTH: usize = 5;

/// The winning icon of a line and how many leading positions it covers.
#[derive(Debug, Clone, Copy, PartialEq, Eq, Structural)]
pub struct CountResult {
    pub icon: usize,
    pub count: usize,
}

/// The first index `j` from `from` on, below both `SCAN_WIDTH` and the length
/// of `v`, with `v[j] > floor`; `None` when the scan meets no such index.
pub open spec fn first_above_from(v: Seq<i32>, floor: i32, from: int) -> Option<int>
    decreases SCAN_WIDTH - from,
{
    if from < 0 || from >= SCAN_WIDTH || from >= v.len() {
        None
    } else if v[from] > floor {
        Some(from)
    } else {
        first_above_from(v, floor, from + 1)
    }
}

pub open spec fn first_above(v: Seq<i32>, floor: i32) -> Option<int> {
    first_above_from(v, floor, 0)
}

/// The scan for the first icon above `floor` stays inside `v`: either `v`
/// covers the whole scan width or the scan stops early on a hit.
pub open spec fn scan_in_bounds(v: Seq<i32>, floor: i32) -> bool {
    v.len() >= SCAN_WIDTH || first_above(v, floor) is Some
}

/// The number of leading elements of `v` that satisfy `pred`.
pub open spec fn leading_run(v: Seq<i32>, pred: spec_fn(i32) -> bool) -> nat
    decreases v.len(),
{
    if v.len() > 0 && pred(v[0]) {
        1 + leading_run(v.drop_first(), pred)
    } else {
        0
    }
}

/// `count` is the length of the longest prefix of `v` whose elements satisfy `pred`.
pub open spec fn is_leading_run(v: Seq<i32>, count: int, pred: spec_fn(i32) -> bool) -> bool {
    &&& 0 <= count <= v.len()
    &&& forall|k: int| 0 <= k < count ==> #[trigger] pred(v[k])
    &&& count < v.len() ==> !pred(v[count])
}

/// On a base line the wild stands in for the leading icon.
pub open spec fn base_match(icon: i32) -> spec_fn(i32) -> bool {
    |x: i32| x == icon || (icon < SCATTER_BASE && x == WILD)
}

/// When PIC01 plays wild, both the wild and PIC01 stand in for the leading icon.
pub open spec fn pic01_wild_match(icon: i32) -> spec_fn(i32) -> bool {
    |x: i32| x == icon || (icon < SCATTER_BASE && (x == WILD || x == PIC01))
}

/// A run of PIC01 counts the wild and PIC01 alike.
pub open spec fn pic01_match() -> spec_fn(i32) -> bool {
    |x: i32| x == PIC01 || x == WILD
}

/// The icon that leads a base line: the first positive icon among the
/// scanned positions, or the first icon when there is none.
pub open spec fn base_icon(v: Seq<i32>) -> i32 {
    match first_above(v, 0) {
        Some(j) => v[j],
        None => v[0],
    }
}

/// The icon that leads a line when PIC01 plays wild: the first icon above
/// PIC01 among the scanned positions, or the wild when there is none.
pub open spec fn pic01_wild_icon(v: Seq<i32>) -> i32 {
    match first_above(v, PIC01) {
        Some(j) => v[j],
        None => WILD,
    }
}

/// A leading icon that pays on a line: neither the wild nor one from
/// `LINE_ICON_LIMIT` on.
pub open spec fn pays_on_line(icon: i32) -> bool {
    icon < LINE_ICON_LIMIT && icon != WILD
}

pub open spec fn base_spec(v: Seq<i32>) -> CountResult {
    let icon = base_icon(v);
    if pays_on_line(icon) {
        CountResult { icon: icon as usize, count: leading_run(v, base_match(icon)) as usize }
    } else {
        CountResult { icon: 0, count: 0 }
    }
}

pub open spec fn pic01_wild_spec(v: Seq<i32>) -> CountResult {
    let icon = pic01_wild_icon(v);
    if pays_on_line(icon) {
        CountResult { icon: icon as usize, count: leading_run(v, pic01_wild_match(icon)) as usize }
    } else {
        CountResult { icon: 0, count: 0 }
    }
}

/// The run of PIC01 (the wild counting as PIC01) that leads the line; it
/// counts only when PIC01 itself shows in it.
pub open spec fn pic01_spec(v: Seq<i32>) -> CountResult {
    let n = leading_run(v, pic01_match());
    if exists|k: int| 0 <= k < n && v[k] == PIC01 {
        CountResult { icon: PIC01 as usize, count: n as usize }
    } else {
        CountResult { icon: PIC01 as usize, count: 0 }
    }
}

proof fn lemma_first_above_from_bounds(v: Seq<i32>, floor: i32, from: int)
    ensures
        first_above_from(v, floor, from) matches Some(j) ==> {
            &&& 0 <= from <= j
            &&& j < SCAN_WIDTH
            &&& j < v.len()
            &&& v[j] > floor
            &&& forall|k: int| from <= k < j ==> v[k] <= floor
        },
        first_above_from(v, floor, from) is None && 0 <= from ==>
            forall|k: int| from <= k < SCAN_WIDTH && k < v.len() ==> v[k] <= floor,
    decreases SCAN_WIDTH - from,
{
    if from < 0 || from >= SCAN_WIDTH || from >= v.len() {
    } else if v[from] > floor {
    } else {
        lemma_first_above_from_bounds(v, floor, from + 1);
    }
}

/// The leading run is the longest prefix of elements that satisfy `pred`.
pub proof fn lemma_leading_run_characterized(v: Seq<i32>, count: int, pred: spec_fn(i32) -> bool)
    requires
        is_leading_run(v, count, pred),
    ensures
        leading_run(v, pred) == count,
    decreases v.len(),
{
    if count > 0 {
        assert(pred(v[0]));
        let w = v.drop_first();
        assert forall|k: int| 0 <= k < count - 1 implies #[trigger] pred(w[k]) by {
            assert(pred(v[k + 1]));
        }
        if count - 1 < w.len() {
            assert(w[count - 1] == v[count]);
        }
        lemma_leading_run_characterized(w, count - 1, pred);
    }
}

/// Finds the first index below `SCAN_WIDTH` whose icon is above `floor`.
fn first_above_index(v: &[i32], floor: i32) -> (r: Option<usize>)
    requires
        scan_in_bounds(v@, floor),
    ensures
        match r {
            Some(j) => first_above(v@, floor) == Some(j as int),
            None => first_above(v@, floor) is None,
        },
        r matches Some(j) ==> j < v@.len() && v@[j as int] > floor,
{
    let mut i: usize = 0;
    while i < SCAN_WIDTH
        invariant
            i <= SCAN_WIDTH,
            first_above_from(v@, floor, i as int) == first_above(v@, floor),
            v@.len() >= SCAN_WIDTH || first_above(v@, floor) is Some,
        decreases SCAN_WIDTH - i,
    {
        proof {
            lemma_first_above_from_bounds(v@, floor, i as int);
        }
        if i >= v.len() {
            return None;
        }
        if v[i] > floor {
            proof {
                lemma_first_above_from_bounds(v@, floor, 0);
            }
            return Some(i);
        }
        i += 1;
    }
    None
}

/// Whether the scan for the first icon above `floor` stays inside `v`.
pub fn scan_in_bounds_check(v: &[i32], floor: i32) -> (ok: bool)
    ensures
        ok == scan_in_bounds(v@, floor),
{
    let mut i: usize = 0;
    while i < SCAN_WIDTH
        invariant
            i <= SCAN_WIDTH,
            first_above_from(v@, floor, i as int) == first_above(v@, floor),
            i <= v@.len(),
        decreases SCAN_WIDTH - i,
    {
        proof {
            lemma_first_above_from_bounds(v@, floor, i as int);
        }
        if i >= v.len() {
            return false;
        }
        if v[i] > floor {
            return true;
        }
        i += 1;
    }
    true
}

impl CountResult {
    /// Counts a base line: the leading icon and how many leading positions
    /// show it or the wild. A wild, scatter or high icon pays nothing.
    pub fn base(v: &[i32]) -> (r: CountResult)
        requires
            scan_in_bounds(v@, 0),
        ensures
            r == base_spec(v@),
            r.count <= v@.len(),
    {
        let icon = match first_above_index(v, 0) {
            Some(j) => v[j],
            None => v[0],
        };
        if icon >= LINE_ICON_LIMIT || icon == WILD {
            CountResult { icon: 0, count: 0 }
        } else {
            let ghost pred = base_match(icon);
            let mut count: usize = 0;
            while count < v.len() && (v[count] == icon || (icon < SCATTER_BASE && v[count] == WILD))
                invariant
                    count <= v@.len(),
                    pred == base_match(icon),
                    forall|k: int| 0 <= k < count ==> #[trigger] pred(v@[k]),
                decreases v@.len() - count,
            {
                count += 1;
            }
            proof {
                lemma_leading_run_characterized(v@, count as int, pred);
            }
            CountResult { icon: #[verifier::truncate] (icon as usize), count }
        }
    }

    /// Counts a line on which PIC01 plays wild: the leading icon above PIC01
    /// and how many leading positions show it, the wild or PIC01.
    pub fn feature_mode_test_pic01_as_wild(v: &[i32]) -> (r: CountResult)
        requires
            scan_in_bounds(v@, PIC01),
        ensures
            r == pic01_wild_spec(v@),
            r.count <= v@.len(),
    {
        let icon = match first_above_index(v, PIC01) {
            Some(j) => v[j],
            None => WILD,
        };
        if icon >= LINE_ICON_LIMIT || icon == WILD {
            CountResult { icon: 0, count: 0 }
        } else {
            let ghost pred = pic01_wild_match(icon);
            let mut count: usize = 0;
            while count < v.len() && (v[count] == icon || (icon < SCATTER_BASE && (v[count] == WILD
                || v[count] == PIC01)))
                invariant
                    count <= v@.len(),
                    pred == pic01_wild_match(icon),
                    forall|k: int| 0 <= k < count ==> #[trigger] pred(v@[k]),
                decreases v@.len() - count,
            {
                count += 1;
            }
            proof {
                lemma_leading_run_characterized(v@, count as int, pred);
            }
            CountResult { icon: icon as usize, count }
        }
    }

    /// Counts the run of PIC01 (the wild counting as PIC01) that leads the
    /// line; the run counts only when PIC01 itself shows in it.
    pub fn feature_mod_test_pic01(v: &[i32]) -> (r: CountResult)
        ensures
            r == pic01_spec(v@),
            r.count <= v@.len(),
    {
        let ghost pred = pic01_match();
        let mut count: usize = 0;
        let mut has_one = false;
        while count < v.len() && (v[count] == PIC01 || v[count] == WILD)
            invariant
                count <= v@.len(),
                pred == pic01_match(),
                forall|k: int| 0 <= k < count ==> #[trigger] pred(v@[k]),
                has_one == exists|k: int| 0 <= k < count && v@[k] == PIC01,
            decreases v@.len() - count,
        {
            if v[count] == PIC01 {
                has_one = true;
            }
            count += 1;
        }
        proof {
            lemma_leading_run_characterized(v@, count as int, pred);
        }
        if has_one {
            CountResult { icon: PIC01 as usize, count }
        } else {
            CountResult { icon: PIC01 as usize, count: 0 }
        }
    }

    /// Both counts of a feature-game line: PIC01 on its own, and PIC01 as wild.
    pub fn feature(v: &[i32]) -> (r: (CountResult, CountResult))
        requires
            scan_in_bounds(v@, PIC01),
        ensures
            r.0 == pic01_spec(v@),
            r.1 == pic01_wild_spec(v@),
    {
        let pic01_as_wild = CountResult::feature_mode_test_pic01_as_wild(v);
        let pic01 = CountResult::feature_mod_test_pic01(v);
        (pic01, pic01_as_wild)
    }
}

/// The leading run is a run: every element before it satisfies `pred`, and
/// the element right after it, if any, does not.
proof fn lemma_leading_run_is_run(v: Seq<i32>, pred: spec_fn(i32) -> bool)
    ensures
        is_leading_run(v, leading_run(v, pred) as int, pred),
    decreases v.len(),
{
    if v.len() > 0 && pred(v[0]) {
        let w = v.drop_first();
        lemma_leading_run_is_run(w, pred);
        let c = leading_run(w, pred) as int;
        assert forall|k: int| 0 <= k < c + 1 implies #[trigger] pred(v[k]) by {
            if k > 0 {
                assert(v[k] == w[k - 1]);
            }
        }
        if c + 1 < v.len() {
            assert(v[c + 1] == w[c]);
        }
    }
}

/// A base line is led by its first positive icon among the first five
/// positions: when that icon pays on lines the count is the longest prefix
/// of that icon and wilds, at least one when the icon is the first of the
/// line; an icon from `LINE_ICON_LIMIT` on pays nothing.
pub proof fn lemma_base_leading_icon(v: Seq<i32>, j: int)
    requires
        0 <= j < SCAN_WIDTH,
        j < v.len() <= usize::MAX,
        v[j] > 0,
        forall|k: int| 0 <= k < j ==> v[k] <= 0,
    ensures
        v[j] < LINE_ICON_LIMIT ==> ({
            let r = base_spec(v);
            &&& r.icon == v[j]
            &&& r.count <= v.len()
            &&& forall|k: int| 0 <= k < r.count ==> v[k] == v[j] || v[k] == WILD
            &&& r.count < v.len() ==> v[r.count as int] != v[j] && v[r.count as int] != WILD
            &&& j == 0 ==> r.count >= 1
        }),
        v[j] >= LINE_ICON_LIMIT ==> base_spec(v) == (CountResult { icon: 0, count: 0 }),
{
    lemma_first_above_scan(v, 0, j);
    let icon = v[j];
    let pred = base_match(icon);
    lemma_leading_run_is_run(v, pred);
    if icon < LINE_ICON_LIMIT {
        let c = leading_run(v, pred) as int;
        assert forall|k: int| 0 <= k < c implies v[k] == icon || v[k] == WILD by {
            assert(pred(v[k]));
        }
        if c < v.len() {
            assert(!pred(v[c]));
        }
        assert(c <= v.len());
        assert((c as usize) as int == c);
        if j == 0 {
            assert(pred(v[0]));
        }
    }
}

/// A base line with no positive icon among its first five positions and a
/// wild first pays nothing.
pub proof fn lemma_base_all_wild_or_less(v: Seq<i32>)
    requires
        v.len() >= SCAN_WIDTH,
        forall|k: int| 0 <= k < SCAN_WIDTH ==> v[k] <= 0,
        v[0] == WILD,
    ensures
        base_spec(v) == (CountResult { icon: 0, count: 0 }),
{
    lemma_first_above_none(v, 0, 0);
}

/// When PIC01 plays wild, a line is led by its first icon above PIC01
/// among the first five positions: when that icon pays on lines the count
/// is the longest prefix of that icon, PIC01 and wilds; an icon from
/// `LINE_ICON_LIMIT` on pays nothing.
pub proof fn lemma_pic01_wild_leading_icon(v: Seq<i32>, j: int)
    requires
        0 <= j < SCAN_WIDTH,
        j < v.len() <= usize::MAX,
        v[j] > PIC01,
        forall|k: int| 0 <= k < j ==> v[k] <= PIC01,
    ensures
        v[j] < LINE_ICON_LIMIT ==> ({
            let r = pic01_wild_spec(v);
            &&& r.icon == v[j]
            &&& r.count <= v.len()
            &&& forall|k: int| 0 <= k < r.count ==> v[k] == v[j] || v[k] == WILD || v[k] == PIC01
            &&& r.count < v.len() ==> v[r.count as int] != v[j] && v[r.count as int] != WILD && v[r.count as int]
                != PIC01
        }),
        v[j] >= LINE_ICON_LIMIT ==> pic01_wild_spec(v) == (CountResult { icon: 0, count: 0 }),
{
    lemma_first_above_scan(v, PIC01, j);
    let icon = v[j];
    let pred = pic01_wild_match(icon);
    lemma_leading_run_is_run(v, pred);
    if icon < LINE_ICON_LIMIT {
        let c = leading_run(v, pred) as int;
        assert forall|k: int| 0 <= k < c implies v[k] == icon || v[k] == WILD || v[k] == PIC01 by {
            assert(pred(v[k]));
        }
        if c < v.len() {
            assert(!pred(v[c]));
        }
        assert(c <= v.len());
        assert((c as usize) as int == c);
    }
}

/// A line with no icon above PIC01 among its first five positions pays
/// nothing when PIC01 plays wild.
pub proof fn lemma_pic01_wild_none(v: Seq<i32>)
    requires
        forall|k: int| 0 <= k < SCAN_WIDTH && k < v.len() ==> v[k] <= PIC01,
    ensures
        pic01_wild_spec(v) == (CountResult { icon: 0, count: 0 }),
{
    lemma_first_above_none(v, PIC01, 0);
}

/// The PIC01 count of a line: the longest prefix of PIC01 and wilds, or
/// nothing when PIC01 itself does not show in it.
pub proof fn lemma_pic01_count(v: Seq<i32>, n: int)
    requires
        0 <= n <= v.len() <= usize::MAX,
        forall|k: int| 0 <= k < n ==> v[k] == PIC01 || v[k] == WILD,
        n < v.len() ==> v[n] != PIC01 && v[n] != WILD,
    ensures
        pic01_spec(v).icon == PIC01,
        (exists|k: int| 0 <= k < n && v[k] == PIC01) ==> pic01_spec(v).count == n,
        !(exists|k: int| 0 <= k < n && v[k] == PIC01) ==> pic01_spec(v).count == 0,
{
    let pred = pic01_match();
    assert forall|k: int| 0 <= k < n implies #[trigger] pred(v[k]) by {}
    lemma_leading_run_characterized(v, n, pred);
    assert((n as usize) as int == n);
}

proof fn lemma_first_above_scan(v: Seq<i32>, floor: i32, j: int)
    requires
        0 <= j < SCAN_WIDTH,
        j < v.len(),
        v[j] > floor,
        forall|k: int| 0 <= k < j ==> v[k] <= floor,
    ensures
        first_above(v, floor) == Some(j),
{
    lemma_first_above_from_reaches(v, floor, 0, j);
}

proof fn lemma_first_above_from_reaches(v: Seq<i32>, floor: i32, from: int, j: int)
    requires
        0 <= from <= j < SCAN_WIDTH,
        j < v.len(),
        v[j] > floor,
        forall|k: int| from <= k < j ==> v[k] <= floor,
    ensures
        first_above_from(v, floor, from) == Some(j),
    decreases j - from,
{
    if from < j {
        lemma_first_above_from_reaches(v, floor, from + 1, j);
    }
}

proof fn lemma_first_above_none(v: Seq<i32>, floor: i32, from: int)
    requires
        0 <= from,
        forall|k: int| from <= k < SCAN_WIDTH && k < v.len() ==> v[k] <= floor,
    ensures
        first_above_from(v, floor, from) is None,
    decreases SCAN_WIDTH - from,
{
    if from < SCAN_WIDTH && from < v.len() {
        lemma_first_above_none(v, floor, from + 1);
    }
}

} // verus!
