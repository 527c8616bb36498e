use vstd::prelude::*;

use std::collections::HashMap;

use crate::count::{pic01_spec, pic01_wild_spec, scan_in_bounds, CountResult, PIC01};
use crate::pay::PayTable;
use crate::reel::Reel;

verus! {

/// The number of reels, and of bits in an active mask that name reels.
pub const REEL_COUNT: usize = 5;

/// The number of distinct active masks of five reels.
pub const ACTIVE_STATES: usize = 32;

/// The mask bit of reel `i`.
pub open spec fn reel_bit(i: int) -> u8 {
    if i == 0 {
        1u8
    } else if i == 1 {
        2u8
    } else if i == 2 {
        4u8
    } else if i == 3 {
        8u8
    } else {
        16u8
    }
}

/// Reel `i` is held in the active mask: its bit is set.
pub open spec fn is_held(active: u8, i: int) -> bool {
    active & reel_bit(i) != 0
}

/// The bit that `current[i] == 1` contributes to the mask.
pub open spec fn pic01_flag(current: Seq<i32>, i: int) -> u8 {
    if current[i] == 1 {
        reel_bit(i)
    } else {
        0u8
    }
}

/// The mask of the first `n` reels that show PIC01.
pub open spec fn active_value_upto(current: Seq<i32>, n: int) -> u8
    decreases n,
{
    if n <= 0 {
        0u8
    } else {
        active_value_upto(current, n - 1) | pic01_flag(current, n - 1)
    }
}

/// The mask of the reels that show PIC01: the reels that a spin holds.
pub open spec fn active_value(current: Seq<i32>) -> u8 {
    active_value_upto(current, REEL_COUNT as int)
}

proof fn lemma_shift_is_reel_bit(i: u8)
    requires
        i < 5,
    ensures
        (1u8 << i) == reel_bit(i as int),
{
    assert((1u8 << i) == (if i == 0u8 {
        1u8
    } else if i == 1u8 {
        2u8
    } else if i == 2u8 {
        4u8
    } else if i == 3u8 {
        8u8
    } else {
        16u8
    })) by (bit_vector)
        requires
            i < 5u8,
    ;
}

/// The mask bit of reel `i`, computed as the game does: `1 << i`.
fn reel_mask(i: usize) -> (b: u8)
    requires
        i < REEL_COUNT,
    ensures
        b == reel_bit(i as int),
{
    let s: u8 = i as u8;
    proof {
        lemma_shift_is_reel_bit(s);
    }
    1u8 << s
}

/// Whether reel `i` is held in `active`.
pub fn reel_is_held(active: u8, i: usize) -> (held: bool)
    requires
        i < REEL_COUNT,
    ensures
        held == is_held(active, i as int),
{
    let b = reel_mask(i);
    proof {
        assert((active & b) > 0u8 <==> (active & b) != 0u8) by (bit_vector);
    }
    (active & b) > 0
}

/// The held flags of the five reels of an active mask.
pub fn to_active_arr(active: u8) -> (held: Vec<bool>)
    ensures
        held@.len() == REEL_COUNT,
        forall|i: int| 0 <= i < REEL_COUNT ==> #[trigger] held@[i] == is_held(active, i),
{
    let mut res: Vec<bool> = Vec::new();
    let mut i: usize = 0;
    while i < REEL_COUNT
        invariant
            i <= REEL_COUNT,
            res@.len() == i,
            forall|k: int| 0 <= k < i ==> #[trigger] res@[k] == is_held(active, k),
        decreases REEL_COUNT - i,
    {
        res.push(reel_is_held(active, i));
        i += 1;
    }
    res
}

/// The active mask of a line of five icons: the reels that show PIC01.
pub fn to_active_value(current: &Vec<i32>) -> (mask: u8)
    requires
        current@.len() >= REEL_COUNT,
    ensures
        mask == active_value(current@),
{
    let mut res: u8 = 0;
    let mut i: usize = 0;
    while i < REEL_COUNT
        invariant
            i <= REEL_COUNT,
            current@.len() >= REEL_COUNT,
            res == active_value_upto(current@, i as int),
        decreases REEL_COUNT - i,
    {
        if current[i] == 1 {
            res |= reel_mask(i);
        } else {
            proof {
                let r = res;
                assert(r | 0u8 == r) by (bit_vector);
            }
        }
        i += 1;
    }
    res
}

/// The mask written out with its five flags.
proof fn lemma_active_value_flags(current: Seq<i32>)
    ensures
        active_value(current) == pic01_flag(current, 0) | pic01_flag(current, 1) | pic01_flag(current, 2)
            | pic01_flag(current, 3) | pic01_flag(current, 4),
{
    let f0 = pic01_flag(current, 0);
    assert(0u8 | f0 == f0) by (bit_vector);
    reveal_with_fuel(active_value_upto, 6);
}

/// A line's mask names exactly the reels that show PIC01, and is below 32.
pub proof fn lemma_active_value_roundtrip(current: Seq<i32>)
    ensures
        forall|i: int| 0 <= i < REEL_COUNT ==> (#[trigger] is_held(active_value(current), i) <==> current[i] == 1),
        active_value(current) < ACTIVE_STATES,
{
    lemma_active_value_flags(current);
    let b0 = current[0] == 1;
    let b1 = current[1] == 1;
    let b2 = current[2] == 1;
    let b3 = current[3] == 1;
    let b4 = current[4] == 1;
    let v = active_value(current);
    assert(v == (if b0 { 1u8 } else { 0u8 }) | (if b1 { 2u8 } else { 0u8 }) | (if b2 { 4u8 } else { 0u8 }) | (
    if b3 { 8u8 } else { 0u8 }) | (if b4 { 16u8 } else { 0u8 }));
    assert(
        (v & 1u8 != 0 <==> b0) && (v & 2u8 != 0 <==> b1) && (v & 4u8 != 0 <==> b2) && (v & 8u8 != 0 <==> b3)
            && (v & 16u8 != 0 <==> b4) && v < 32u8) by (bit_vector)
        requires
            v == (if b0 { 1u8 } else { 0u8 }) | (if b1 { 2u8 } else { 0u8 }) | (if b2 { 4u8 } else { 0u8 }) | (
            if b3 { 8u8 } else { 0u8 }) | (if b4 { 16u8 } else { 0u8 }),
    ;
}


/// The icon that a held reel shows in every spin.
pub const HELD_ICON: i32 = PIC01;

/// No pay of an `i32` pay table is larger than this in size.
pub open spec fn pay_bound() -> int {
    0x8000_0000
}

/// The statistics of a feature-game spin over all its outcomes: the total
/// pay, the number of outcomes, and for each active mask `m` below 32 the
/// number of outcomes after which the reels of `m` are held.
#[verifier::ext_equal]
pub struct RoundStats {
    pub total: int,
    pub count: int,
    pub next: Seq<int>,
}

pub open spec fn stats_zero() -> RoundStats {
    RoundStats { total: 0, count: 0, next: Seq::new(ACTIVE_STATES as nat, |m: int| 0) }
}

pub open spec fn stats_add(a: RoundStats, b: RoundStats) -> RoundStats {
    RoundStats {
        total: a.total + b.total,
        count: a.count + b.count,
        next: Seq::new(ACTIVE_STATES as nat, |m: int| a.next[m] + b.next[m]),
    }
}

/// Statistics that a tally can hold: a mask count per mask, each between 0
/// and the number of outcomes, and a total within the pay bound per outcome.
pub open spec fn stats_wf(s: RoundStats) -> bool {
    &&& s.next.len() == ACTIVE_STATES
    &&& s.count >= 0
    &&& forall|m: int| 0 <= m < ACTIVE_STATES ==> 0 <= #[trigger] s.next[m] <= s.count
    &&& -(s.count * pay_bound()) <= s.total <= s.count * pay_bound()
}

/// What one outcome pays: the better of its two counts, PIC01 on its own
/// and PIC01 as wild.
pub open spec fn outcome_pay(pay_table: PayTable, current: Seq<i32>) -> int {
    let own = pic01_spec(current);
    let wild = pic01_wild_spec(current);
    let a = pay_table.pay_spec(own.icon as int, own.count as int) as int;
    let b = pay_table.pay_spec(wild.icon as int, wild.count as int) as int;
    if a >= b {
        a
    } else {
        b
    }
}

/// The table holds both pays of the outcome `current`.
pub open spec fn outcome_payable(pay_table: PayTable, current: Seq<i32>) -> bool {
    &&& scan_in_bounds(current, PIC01)
    &&& pay_table.pay_defined(pic01_spec(current).icon as int, pic01_spec(current).count as int)
    &&& pay_table.pay_defined(pic01_wild_spec(current).icon as int, pic01_wild_spec(current).count as int)
}

/// The statistics of the single outcome `current`.
pub open spec fn outcome_stats(pay_table: PayTable, current: Seq<i32>) -> RoundStats {
    RoundStats {
        total: outcome_pay(pay_table, current),
        count: 1,
        next: Seq::new(ACTIVE_STATES as nat, |m: int| if m == active_value(current) as int { 1 } else { 0 }),
    }
}

/// The statistics of all outcomes that extend `prefix`, the icons of the
/// reels before `index`: a held reel shows `HELD_ICON`, any other reel shows
/// each icon of its strip in turn.
pub open spec fn round_from(reels: Seq<Reel>, active: u8, pay_table: PayTable, index: int, prefix: Seq<i32>, tail: Seq<i32>) -> RoundStats
    decreases REEL_COUNT - index, 1int, 0int,
{
    if index >= REEL_COUNT {
        outcome_stats(pay_table, prefix + tail)
    } else if is_held(active, index) {
        round_from(reels, active, pay_table, index + 1, prefix.push(HELD_ICON), tail)
    } else {
        icons_stats(reels, active, pay_table, index, prefix, tail, reels[index].icons@.len() as int)
    }
}

/// The statistics of the outcomes in which reel `index` shows one of the
/// first `n` icons of its strip.
pub open spec fn icons_stats(
    reels: Seq<Reel>,
    active: u8,
    pay_table: PayTable,
    index: int,
    prefix: Seq<i32>,
    tail: Seq<i32>,
    n: int,
) -> RoundStats
    decreases REEL_COUNT - index, 0int, n,
{
    if n <= 0 || index >= REEL_COUNT {
        stats_zero()
    } else {
        stats_add(
            icons_stats(reels, active, pay_table, index, prefix, tail, n - 1),
            round_from(reels, active, pay_table, index + 1, prefix.push(reels[index].icons@[n - 1]), tail),
        )
    }
}

/// The table holds the pays of every outcome that extends `prefix`.
pub open spec fn round_payable(reels: Seq<Reel>, active: u8, pay_table: PayTable, index: int, prefix: Seq<i32>, tail: Seq<i32>) -> bool
    decreases REEL_COUNT - index, 1int, 0int,
{
    if index >= REEL_COUNT {
        outcome_payable(pay_table, prefix + tail)
    } else if is_held(active, index) {
        round_payable(reels, active, pay_table, index + 1, prefix.push(HELD_ICON), tail)
    } else {
        icons_payable(reels, active, pay_table, index, prefix, tail, reels[index].icons@.len() as int)
    }
}

pub open spec fn icons_payable(
    reels: Seq<Reel>,
    active: u8,
    pay_table: PayTable,
    index: int,
    prefix: Seq<i32>,
    tail: Seq<i32>,
    n: int,
) -> bool
    decreases REEL_COUNT - index, 0int, n,
{
    if n <= 0 || index >= REEL_COUNT {
        true
    } else {
        &&& icons_payable(reels, active, pay_table, index, prefix, tail, n - 1)
        &&& round_payable(reels, active, pay_table, index + 1, prefix.push(reels[index].icons@[n - 1]), tail)
    }
}

/// Every reel that is not held has a strip.
pub open spec fn reels_cover(reels: Seq<Reel>, active: u8) -> bool {
    forall|i: int| 0 <= i < REEL_COUNT && !is_held(active, i) ==> i < reels.len()
}

/// How many outcomes reel `i` contributes: one when held, else its strip length.
pub open spec fn reel_choices(reels: Seq<Reel>, active: u8, i: int) -> int {
    if is_held(active, i) {
        1
    } else {
        reels[i].icons@.len() as int
    }
}

/// The product of the strip lengths of the reels from `from` to `to` (not
/// included) that are not held.
pub open spec fn free_product(reels: Seq<Reel>, active: u8, from: int, to: int) -> int
    decreases to - from,
{
    if to <= from {
        1
    } else {
        free_product(reels, active, from, to - 1) * reel_choices(reels, active, to - 1)
    }
}

proof fn lemma_free_product_nonneg(reels: Seq<Reel>, active: u8, from: int, to: int)
    ensures
        free_product(reels, active, from, to) >= 0,
    decreases to - from,
{
    if to > from {
        lemma_free_product_nonneg(reels, active, from, to - 1);
        vstd::arithmetic::mul::lemma_mul_nonnegative(
            free_product(reels, active, from, to - 1),
            reel_choices(reels, active, to - 1),
        );
    }
}

/// The product splits off its first factor.
proof fn lemma_free_product_first(reels: Seq<Reel>, active: u8, from: int, to: int)
    requires
        from < to,
    ensures
        free_product(reels, active, from, to) == reel_choices(reels, active, from) * free_product(
            reels,
            active,
            from + 1,
            to,
        ),
    decreases to - from,
{
    let c = reel_choices(reels, active, from);
    if to - 1 > from {
        lemma_free_product_first(reels, active, from, to - 1);
        let p = free_product(reels, active, from + 1, to - 1);
        let d = reel_choices(reels, active, to - 1);
        vstd::arithmetic::mul::lemma_mul_is_associative(c, p, d);
        assert(free_product(reels, active, from + 1, to) == p * d);
        assert(free_product(reels, active, from, to) == free_product(reels, active, from, to - 1) * d);
    } else {
        assert(free_product(reels, active, from, from) == 1);
        assert(free_product(reels, active, from + 1, to) == 1);
        assert(free_product(reels, active, from, to) == 1 * c);
    }
}

/// A held reel adds no factor to the product.
proof fn lemma_held_product(reels: Seq<Reel>, active: u8, index: int)
    requires
        0 <= index < REEL_COUNT,
        is_held(active, index),
    ensures
        free_product(reels, active, index, REEL_COUNT as int) == free_product(
            reels,
            active,
            index + 1,
            REEL_COUNT as int,
        ),
{
    lemma_free_product_first(reels, active, index, REEL_COUNT as int);
    let c = reel_choices(reels, active, index);
    let p = free_product(reels, active, index + 1, REEL_COUNT as int);
    assert(c == 1);
    assert(c * p == p) by (nonlinear_arith)
        requires
            c == 1,
    ;
}

/// Every partial product from reel `from` on is within `bound`.
pub open spec fn products_within(reels: Seq<Reel>, active: u8, from: int, bound: int) -> bool {
    forall|t: int| from <= t <= REEL_COUNT ==> #[trigger] free_product(reels, active, from, t) <= bound
}

/// The shape of a spin's statistics: well formed, with one outcome for
/// each combination of the free reels' icons.
pub proof fn lemma_round_shape(reels: Seq<Reel>, active: u8, pay_table: PayTable, index: int, prefix: Seq<i32>, tail: Seq<i32>)
    requires
        0 <= index <= REEL_COUNT,
    ensures
        stats_wf(round_from(reels, active, pay_table, index, prefix, tail)),
        round_from(reels, active, pay_table, index, prefix, tail).count == free_product(
            reels,
            active,
            index,
            REEL_COUNT as int,
        ),
    decreases REEL_COUNT - index, 1int, 0int,
{
    if index >= REEL_COUNT {
        assert(free_product(reels, active, index, REEL_COUNT as int) == 1);
    } else {
        lemma_free_product_first(reels, active, index, REEL_COUNT as int);
        if is_held(active, index) {
            lemma_round_shape(reels, active, pay_table, index + 1, prefix.push(HELD_ICON), tail);
            lemma_held_product(reels, active, index);
            assert(round_from(reels, active, pay_table, index, prefix, tail) == round_from(reels, active, pay_table, index + 1, prefix.push(HELD_ICON), tail));
        } else {
            let n = reels[index].icons@.len() as int;
            lemma_icons_shape(reels, active, pay_table, index, prefix, tail, n);
            assert(round_from(reels, active, pay_table, index, prefix, tail) == icons_stats(reels, active, pay_table, index, prefix, tail, n));
            assert(reel_choices(reels, active, index) == n);
        }
    }
}

pub proof fn lemma_icons_shape(
    reels: Seq<Reel>,
    active: u8,
    pay_table: PayTable,
    index: int,
    prefix: Seq<i32>,
    tail: Seq<i32>,
    n: int,
)
    requires
        0 <= index < REEL_COUNT,
        n >= 0,
    ensures
        stats_wf(icons_stats(reels, active, pay_table, index, prefix, tail, n)),
        icons_stats(reels, active, pay_table, index, prefix, tail, n).count == n * free_product(
            reels,
            active,
            index + 1,
            REEL_COUNT as int,
        ),
    decreases REEL_COUNT - index, 0int, n,
{
    if n > 0 {
        lemma_icons_shape(reels, active, pay_table, index, prefix, tail, n - 1);
        lemma_round_shape(reels, active, pay_table, index + 1, prefix.push(reels[index].icons@[n - 1]), tail);
        let p = free_product(reels, active, index + 1, REEL_COUNT as int);
        vstd::arithmetic::mul::lemma_mul_is_distributive_add_other_way(p, n - 1, 1);
        let a = icons_stats(reels, active, pay_table, index, prefix, tail, n - 1);
        let b = round_from(reels, active, pay_table, index + 1, prefix.push(reels[index].icons@[n - 1]), tail);
        let s = stats_add(a, b);
        assert(s.total <= a.count * pay_bound() + b.count * pay_bound());
        assert(s.count * pay_bound() == a.count * pay_bound() + b.count * pay_bound()) by (nonlinear_arith)
            requires
                s.count == a.count + b.count,
        ;
    } else {
        assert(stats_wf(stats_zero()));
    }
}

proof fn lemma_icons_payable_at(
    reels: Seq<Reel>,
    active: u8,
    pay_table: PayTable,
    index: int,
    prefix: Seq<i32>,
    tail: Seq<i32>,
    n: int,
    j: int,
)
    requires
        icons_payable(reels, active, pay_table, index, prefix, tail, n),
        0 <= index < REEL_COUNT,
        0 <= j < n,
    ensures
        round_payable(reels, active, pay_table, index + 1, prefix.push(reels[index].icons@[j]), tail),
    decreases n,
{
    if j < n - 1 {
        lemma_icons_payable_at(reels, active, pay_table, index, prefix, tail, n - 1, j);
    }
}

proof fn lemma_stats_add_assoc(a: RoundStats, b: RoundStats, c: RoundStats)
    ensures
        stats_add(stats_add(a, b), c) == stats_add(a, stats_add(b, c)),
{
    assert(stats_add(stats_add(a, b), c) =~= stats_add(a, stats_add(b, c)));
}

proof fn lemma_stats_add_zero(a: RoundStats)
    requires
        a.next.len() == ACTIVE_STATES,
    ensures
        stats_add(a, stats_zero()) == a,
{
    assert(stats_add(a, stats_zero()) =~= a);
}

/// The counts of a mask map as a sequence over the masks below 32; a mask
/// that the map lacks counts 0.
pub open spec fn mask_counts(next: Map<u8, usize>) -> Seq<int> {
    Seq::new(
        ACTIVE_STATES as nat,
        |m: int| if next.contains_key(m as u8) { next[m as u8] as int } else { 0 },
    )
}

/// The running statistics of a feature-game spin: the total pay, the
/// number of outcomes, and per active mask the number of outcomes that
/// lead to it.
#[derive(Debug, Clone)]
pub struct FeatureTally {
    pub total: i128,
    pub count: usize,
    pub next: HashMap<u8, usize>,
}

impl View for FeatureTally {
    type V = RoundStats;

    open spec fn view(&self) -> RoundStats {
        RoundStats { total: self.total as int, count: self.count as int, next: mask_counts(self.next@) }
    }
}

/// The count that `next` holds for mask `m`, 0 when it holds none.
fn mask_count(next: &HashMap<u8, usize>, m: u8) -> (c: usize)
    ensures
        c == if next@.contains_key(m) { next@[m] } else { 0 },
{
    broadcast use vstd::std_specs::hash::group_hash_axioms;

    match next.get(&m) {
        Some(v) => *v,
        None => 0,
    }
}

impl FeatureTally {
    /// A tally that is well formed: counts only for masks below 32, each
    /// within the bounds that its outcomes allow.
    pub open spec fn wf(&self) -> bool {
        &&& forall|k: u8| #[trigger] self.next@.contains_key(k) ==> k < ACTIVE_STATES
        &&& stats_wf(self@)
    }

    /// Adds one outcome that leads to mask `m`.
    fn count_mask(&mut self, m: u8)
        requires
            m < ACTIVE_STATES,
            forall|k: u8| #[trigger] old(self).next@.contains_key(k) ==> k < ACTIVE_STATES,
            mask_counts(old(self).next@)[m as int] < usize::MAX,
        ensures
            final(self).total == old(self).total,
            final(self).count == old(self).count,
            forall|k: u8| #[trigger] final(self).next@.contains_key(k) ==> k < ACTIVE_STATES,
            mask_counts(final(self).next@) == mask_counts(old(self).next@).update(
                m as int,
                mask_counts(old(self).next@)[m as int] + 1,
            ),
    {
        broadcast use vstd::std_specs::hash::group_hash_axioms;

        let c = mask_count(&self.next, m);
        self.next.insert(m, c + 1);
        assert(mask_counts(self.next@) =~= mask_counts(old(self).next@).update(
            m as int,
            mask_counts(old(self).next@)[m as int] + 1,
        ));
    }

    /// The tally of no outcomes.
    pub fn new() -> (t: FeatureTally)
        ensures
            t.wf(),
            t@ == stats_zero(),
    {
        let t = FeatureTally { total: 0, count: 0, next: HashMap::new() };
        assert(t@ =~= stats_zero());
        t
    }

    /// Adds the statistics of another set of outcomes to this tally.
    pub fn merge(&mut self, other: &FeatureTally)
        requires
            old(self).wf(),
            other.wf(),
            old(self).count + other.count <= usize::MAX,
        ensures
            final(self).wf(),
            final(self)@ == stats_add(old(self)@, other@),
    {
        broadcast use vstd::std_specs::hash::group_hash_axioms;

        let ghost before = self@;
        assert(self.count * pay_bound() + other.count * pay_bound() <= usize::MAX * pay_bound());
        self.total = self.total + other.total;
        self.count = self.count + other.count;
        let mut m: u8 = 0;
        while (m as usize) < ACTIVE_STATES
            invariant
                m <= ACTIVE_STATES,
                forall|k: u8| #[trigger] self.next@.contains_key(k) ==> k < ACTIVE_STATES,
                other.wf(),
                self.total == before.total + other.total,
                self.count == before.count + other.count,
                before.next.len() == ACTIVE_STATES,
                forall|k: int| 0 <= k < ACTIVE_STATES ==> 0 <= #[trigger] before.next[k] <= before.count,
                forall|k: int| 0 <= k < m ==> #[trigger] mask_counts(self.next@)[k] == before.next[k] + other@.next[k],
                forall|k: int| m <= k < ACTIVE_STATES ==> #[trigger] mask_counts(self.next@)[k] == before.next[k],
            decreases ACTIVE_STATES - m as usize,
        {
            assert(0 <= other@.next[m as int] <= other@.count);
            let c = mask_count(&self.next, m);
            let d = mask_count(&other.next, m);
            assert(mask_counts(self.next@)[m as int] == c);
            assert(other@.next[m as int] == d);
            assert(before.next[m as int] == c);
            if d > 0 {
                let ghost old_counts = mask_counts(self.next@);
                self.next.insert(m, c + d);
                assert(mask_counts(self.next@) =~= old_counts.update(m as int, before.next[m as int] + other@.next[m as int]));
            }
            m += 1;
        }
        assert(self@ =~= stats_add(before, other@));
    }
}

/// Walks every outcome that extends the icons of `current` before `index`,
/// adding each to the tally.
fn dfs(
    index: usize,
    reels: &Vec<Reel>,
    active: u8,
    current: &mut Vec<i32>,
    pay_table: &PayTable,
    tally: &mut FeatureTally,
) -> (payable: bool)
    requires
        index <= REEL_COUNT,
        old(current)@.len() >= REEL_COUNT,
        reels_cover(reels@, active),
        old(tally).wf(),
        old(tally).count + free_product(reels@, active, index as int, REEL_COUNT as int) <= usize::MAX,
    ensures
        final(current)@.len() == old(current)@.len(),
        final(current)@.take(index as int) == old(current)@.take(index as int),
        final(current)@.skip(REEL_COUNT as int) == old(current)@.skip(REEL_COUNT as int),
        final(tally).wf(),
        payable == round_payable(
            reels@,
            active,
            *pay_table,
            index as int,
            old(current)@.take(index as int),
            old(current)@.skip(REEL_COUNT as int),
        ),
        payable ==> final(tally)@ == stats_add(
            old(tally)@,
            round_from(
                reels@,
                active,
                *pay_table,
                index as int,
                old(current)@.take(index as int),
                old(current)@.skip(REEL_COUNT as int),
            ),
        ),
    decreases REEL_COUNT - index,
{
    let ghost prefix = current@.take(index as int);
    let ghost tail = current@.skip(REEL_COUNT as int);
    let ghost t0 = tally@;
    proof {
        lemma_round_shape(reels@, active, *pay_table, index as int, prefix, tail);
    }
    if index == REEL_COUNT {
        proof {
            assert(prefix + tail =~= current@);
            lemma_active_value_roundtrip(current@);
        }
        let (p0, p1) = CountResult::feature(current.as_slice());
        if !pay_table.pay_defined_check(p0.icon, p0.count) || !pay_table.pay_defined_check(p1.icon, p1.count) {
            return false;
        }
        let a = pay_table.pay(p0.icon, p0.count);
        let b = pay_table.pay(p1.icon, p1.count);
        let value: i32 = if a >= b { a } else { b };
        let m = to_active_value(current);
        assert(tally.count * pay_bound() <= usize::MAX * pay_bound());
        assert(0 <= t0.next[m as int] <= t0.count);
        tally.count_mask(m);
        tally.total = tally.total + value as i128;
        tally.count = tally.count + 1;
        proof {
            assert(tally@ =~= stats_add(t0, outcome_stats(*pay_table, prefix + tail)));
        }
        return true;
    }
    proof {
        lemma_free_product_first(reels@, active, index as int, REEL_COUNT as int);
    }
    if reel_is_held(active, index) {
        current.set(index, HELD_ICON);
        proof {
            assert(current@.take(index + 1) =~= prefix.push(HELD_ICON));
            assert(current@.skip(REEL_COUNT as int) =~= tail);
            lemma_held_product(reels@, active, index as int);
        }
        let ghost mid = current@;
        let payable = dfs(index + 1, reels, active, current, pay_table, tally);
        proof {
            assert(current@.take(index as int) =~= current@.take(index + 1).take(index as int));
            assert(mid.take(index as int) =~= mid.take(index + 1).take(index as int));
        }
        payable
    } else {
        let ghost p1 = free_product(reels@, active, index + 1, REEL_COUNT as int);
        let n = reels[index].icons.len();
        proof {
            lemma_free_product_nonneg(reels@, active, index + 1, REEL_COUNT as int);
            assert(reel_choices(reels@, active, index as int) == n);
            lemma_stats_add_zero(t0);
        }
        let mut j: usize = 0;
        while j < n
            invariant
                index < REEL_COUNT,
                !is_held(active, index as int),
                reels_cover(reels@, active),
                n == reels@[index as int].icons@.len(),
                j <= n,
                current@.len() == old(current)@.len(),
                current@.len() >= REEL_COUNT,
                current@.take(index as int) == prefix,
                prefix == old(current)@.take(index as int),
                current@.skip(REEL_COUNT as int) == tail,
                tail == old(current)@.skip(REEL_COUNT as int),
                icons_payable(reels@, active, *pay_table, index as int, prefix, tail, j as int),
                p1 == free_product(reels@, active, index + 1, REEL_COUNT as int),
                p1 >= 0,
                t0.count + n * p1 <= usize::MAX,
                stats_wf(t0),
                t0.next.len() == ACTIVE_STATES,
                tally.wf(),
                tally.count == t0.count + j * p1,
                tally@ == stats_add(t0, icons_stats(reels@, active, *pay_table, index as int, prefix, tail, j as int)),
            decreases n - j,
        {
            let icon = reels[index].icons[j];
            current.set(index, icon);
            proof {
                assert(current@.take(index + 1) =~= prefix.push(icon));
                assert(current@.skip(REEL_COUNT as int) =~= tail);
                vstd::arithmetic::mul::lemma_mul_inequality(j + 1, n as int, p1);
                vstd::arithmetic::mul::lemma_mul_is_distributive_add_other_way(p1, j as int, 1);
            }
            let ghost mid = current@;
            let ghost before = tally@;
            let payable = dfs(index + 1, reels, active, current, pay_table, tally);
            proof {
                assert(current@.take(index as int) =~= current@.take(index + 1).take(index as int));
                assert(mid.take(index as int) =~= mid.take(index + 1).take(index as int));
            }
            if !payable {
                proof {
                    assert(prefix.push(icon).take(index as int) =~= prefix);
                    assert(current@.take(index as int) =~= prefix);
                    assert(mid.take(index + 1) =~= prefix.push(icon));
                    assert(icon == reels@[index as int].icons@[j as int]);
                    assert(round_payable(reels@, active, *pay_table, index as int, prefix, tail) == icons_payable(
                        reels@,
                        active,
                        *pay_table,
                        index as int,
                        prefix,
                        tail,
                        n as int,
                    ));
                    if icons_payable(reels@, active, *pay_table, index as int, prefix, tail, n as int) {
                        lemma_icons_payable_at(reels@, active, *pay_table, index as int, prefix, tail, n as int, j as int);
                    }
                }
                return false;
            }
            proof {
                let r = round_from(reels@, active, *pay_table, index + 1, prefix.push(icon), tail);
                lemma_round_shape(reels@, active, *pay_table, index + 1, prefix.push(icon), tail);
                lemma_stats_add_assoc(
                    t0,
                    icons_stats(reels@, active, *pay_table, index as int, prefix, tail, j as int),
                    r,
                );
                assert(icons_stats(reels@, active, *pay_table, index as int, prefix, tail, j + 1) == stats_add(
                    icons_stats(reels@, active, *pay_table, index as int, prefix, tail, j as int),
                    r,
                ));
            }
            j += 1;
        }
        proof {
            assert(round_from(reels@, active, *pay_table, index as int, prefix, tail) == icons_stats(
                reels@,
                active,
                *pay_table,
                index as int,
                prefix,
                tail,
                n as int,
            ));
        }
        true
    }
}

/// The statistics of one feature-game spin with the reels of `active` held:
/// over every outcome (each free reel showing each icon of its strip in
/// turn), the total pay, the number of outcomes, and how many outcomes lead
/// to each active mask. `None` when the pay table lacks the pay of some
/// outcome.
pub fn feature_round(reels: &Vec<Reel>, active: u8, pay_table: &PayTable) -> (tally: Option<FeatureTally>)
    requires
        reels_cover(reels@, active),
        free_product(reels@, active, 0, REEL_COUNT as int) <= usize::MAX,
    ensures
        tally is Some <==> round_payable(reels@, active, *pay_table, 0, Seq::empty(), Seq::empty()),
        tally matches Some(t) ==> {
            &&& t.wf()
            &&& t@ == round_from(reels@, active, *pay_table, 0, Seq::empty(), Seq::empty())
            &&& t.count == free_product(reels@, active, 0, REEL_COUNT as int)
        },
{
    let mut current: Vec<i32> = vec![0, 0, 0, 0, 0];
    let mut tally = FeatureTally::new();
    proof {
        assert(current@.take(0) =~= Seq::<i32>::empty());
        assert(current@.skip(REEL_COUNT as int) =~= Seq::<i32>::empty());
        lemma_round_shape(reels@, active, *pay_table, 0, Seq::empty(), Seq::empty());
    }
    if !dfs(0, reels, active, &mut current, pay_table, &mut tally) {
        return None;
    }
    proof {
        let r = round_from(reels@, active, *pay_table, 0, Seq::empty(), Seq::empty());
        assert(stats_add(stats_zero(), r) =~= r);
    }
    Some(tally)
}

/// Whether every reel that `active` does not hold has a strip.
pub fn reels_cover_check(reels: &Vec<Reel>, active: u8) -> (ok: bool)
    ensures
        ok == reels_cover(reels@, active),
{
    let mut i: usize = 0;
    while i < REEL_COUNT
        invariant
            i <= REEL_COUNT,
            forall|k: int| 0 <= k < i && !is_held(active, k) ==> k < reels@.len(),
        decreases REEL_COUNT - i,
    {
        if !reel_is_held(active, i) && i >= reels.len() {
            return false;
        }
        i += 1;
    }
    true
}

/// The number of outcomes of a spin from reel `from` on: the product of
/// the strip lengths of the free reels, multiplied out in reel order;
/// `None` when a partial product overflows `u64`.
pub fn expect_count(reels: &Vec<Reel>, active: u8, from: usize) -> (count: Option<u64>)
    requires
        from <= REEL_COUNT,
        reels_cover(reels@, active),
    ensures
        count is Some <==> products_within(reels@, active, from as int, u64::MAX as int),
        count matches Some(c) ==> c == free_product(reels@, active, from as int, REEL_COUNT as int),
{
    let mut count: u64 = 1;
    let mut i: usize = from;
    while i < REEL_COUNT
        invariant
            from <= i <= REEL_COUNT,
            reels_cover(reels@, active),
            forall|t: int| from <= t <= i ==> #[trigger] free_product(reels@, active, from as int, t) <= u64::MAX,
            count == free_product(reels@, active, from as int, i as int),
        decreases REEL_COUNT - i,
    {
        if !reel_is_held(active, i) {
            let len = reels[i].icons.len() as u64;
            match count.checked_mul(len) {
                Some(c) => {
                    count = c;
                },
                None => {
                    assert(free_product(reels@, active, from as int, i + 1) > u64::MAX);
                    return None;
                },
            }
        } else {
            assert(free_product(reels@, active, from as int, i + 1) == count * 1);
        }
        i += 1;
    }
    Some(count)
}

/// Walks above this many outcomes are split over threads.
pub const THREAD_THRESHOLD: u64 = 10_000_000;

/// A feature-game situation: the held reels and the number of spins left.
#[derive(Hash, Clone, Debug, PartialEq, Eq, PartialOrd, Ord, Structural)]
pub struct SituationKey {
    pub active: u8,
    pub rest_cnt: u32,
}

impl SituationKey {
    pub fn new(active: u8, rest_cnt: u32) -> (key: SituationKey)
        ensures
            key.active == active,
            key.rest_cnt == rest_cnt,
    {
        SituationKey { active, rest_cnt }
    }
}

/// The first reel from `from` on that `active` does not hold.
pub open spec fn first_free_from(active: u8, from: int) -> Option<int>
    decreases REEL_COUNT - from,
{
    if from >= REEL_COUNT || from < 0 {
        None
    } else if !is_held(active, from) {
        Some(from)
    } else {
        first_free_from(active, from + 1)
    }
}

/// The first reel that `active` does not hold, if any.
pub open spec fn first_free(active: u8) -> Option<int> {
    first_free_from(active, 0)
}

/// The icons of `len` held reels.
pub open spec fn held_prefix(len: int) -> Seq<i32> {
    Seq::new(len as nat, |i: int| HELD_ICON)
}

proof fn lemma_first_free_from(active: u8, from: int)
    requires
        0 <= from,
    ensures
        first_free_from(active, from) matches Some(f) ==> {
            &&& from <= f < REEL_COUNT
            &&& !is_held(active, f)
            &&& forall|i: int| from <= i < f ==> is_held(active, i)
        },
        first_free_from(active, from) is None ==> forall|i: int| from <= i < REEL_COUNT ==> is_held(active, i),
    decreases REEL_COUNT - from,
{
    if from < REEL_COUNT && is_held(active, from) {
        lemma_first_free_from(active, from + 1);
    }
}

/// Until the first free reel, a spin only walks held reels: its statistics
/// are those of the walk from the first free reel, every reel before it
/// showing PIC01.
proof fn lemma_skip_held(reels: Seq<Reel>, active: u8, pay_table: PayTable, index: int, free: int, tail: Seq<i32>)
    requires
        0 <= index <= free < REEL_COUNT,
        forall|i: int| index <= i < free ==> is_held(active, i),
    ensures
        round_from(reels, active, pay_table, index, held_prefix(index), tail) == round_from(
            reels,
            active,
            pay_table,
            free,
            held_prefix(free),
            tail,
        ),
        round_payable(reels, active, pay_table, index, held_prefix(index), tail) == round_payable(
            reels,
            active,
            pay_table,
            free,
            held_prefix(free),
            tail,
        ),
        free_product(reels, active, index, REEL_COUNT as int) == free_product(
            reels,
            active,
            free,
            REEL_COUNT as int,
        ),
    decreases free - index,
{
    if index < free {
        assert(held_prefix(index).push(HELD_ICON) =~= held_prefix(index + 1));
        lemma_held_product(reels, active, index);
        lemma_skip_held(reels, active, pay_table, index + 1, free, tail);
    }
}

proof fn lemma_product_bounds_part(reels: Seq<Reel>, active: u8, free: int)
    requires
        0 <= free < REEL_COUNT,
        !is_held(active, free),
        reels[free].icons@.len() > 0,
    ensures
        free_product(reels, active, free + 1, REEL_COUNT as int) <= free_product(
            reels,
            active,
            free,
            REEL_COUNT as int,
        ),
{
    lemma_free_product_first(reels, active, free, REEL_COUNT as int);
    lemma_free_product_nonneg(reels, active, free + 1, REEL_COUNT as int);
    let c = reel_choices(reels, active, free);
    let p = free_product(reels, active, free + 1, REEL_COUNT as int);
    assert(p <= c * p) by (nonlinear_arith)
        requires
            c >= 1,
            p >= 0,
    ;
}

/// The first reel that `active` does not hold.
pub fn first_free_reel(active: u8) -> (free: Option<usize>)
    ensures
        match free {
            Some(f) => first_free(active) == Some(f as int),
            None => first_free(active) is None,
        },
{
    let mut i: usize = 0;
    while i < REEL_COUNT
        invariant
            i <= REEL_COUNT,
            first_free_from(active, i as int) == first_free(active),
        decreases REEL_COUNT - i,
    {
        if !reel_is_held(active, i) {
            return Some(i);
        }
        i += 1;
    }
    None
}

/// How many threads a feature-game spin is split over: none while the
/// outcomes from the first free reel on are at most `THREAD_THRESHOLD`,
/// else 20 when that reel's strip length is a multiple of 20 and 15 when not.
pub fn feature_thread_count(reels: &Vec<Reel>, active: u8) -> (threads: usize)
    requires
        reels_cover(reels@, active),
        products_within(reels@, active, 0, u64::MAX as int),
    ensures
        match first_free(active) {
            None => threads == 0,
            Some(f) => {
                let expect = free_product(reels@, active, f, REEL_COUNT as int);
                let len = reels@[f].icons@.len();
                threads == if expect <= THREAD_THRESHOLD {
                    0usize
                } else if len % 20 == 0 {
                    20usize
                } else {
                    15usize
                }
            },
        },
{
    match first_free_reel(active) {
        None => 0,
        Some(f) => {
            proof {
                lemma_first_free_from(active, 0);
                lemma_products_within_from(reels@, active, f as int);
            }
            let expect = match expect_count(reels, active, f) {
                Some(c) => c,
                None => {
                    return 0;
                },
            };
            if expect <= THREAD_THRESHOLD {
                0
            } else if reels[f].icons.len() % 20 == 0 {
                20
            } else {
                15
            }
        },
    }
}

/// Products that start at a later reel, all of whose earlier factors are
/// held, are products of the whole walk.
proof fn lemma_products_within_from(reels: Seq<Reel>, active: u8, free: int)
    requires
        0 <= free < REEL_COUNT,
        forall|i: int| 0 <= i < free ==> is_held(active, i),
        products_within(reels, active, 0, u64::MAX as int),
    ensures
        products_within(reels, active, free, u64::MAX as int),
{
    assert forall|t: int| free <= t <= REEL_COUNT implies #[trigger] free_product(reels, active, free, t)
        <= u64::MAX by {
        lemma_prefix_product_held(reels, active, free, t);
        assert(free_product(reels, active, 0, t) <= u64::MAX);
    }
}

proof fn lemma_prefix_product_held(reels: Seq<Reel>, active: u8, free: int, t: int)
    requires
        0 <= free <= t,
        forall|i: int| 0 <= i < free ==> is_held(active, i),
    ensures
        free_product(reels, active, free, t) == free_product(reels, active, 0, t),
    decreases free,
{
    if free > 0 {
        lemma_prefix_product_held(reels, active, free - 1, t);
        lemma_free_product_first(reels, active, free - 1, t);
        let p = free_product(reels, active, free, t);
        assert(reel_choices(reels, active, free - 1) * p == p) by (nonlinear_arith)
            requires
                reel_choices(reels, active, free - 1) == 1,
        ;
    }
}

/// The statistics of the outcomes of a spin in which the first free reel
/// shows the icon at `position` of its strip: one share of the walk, which
/// can run on a thread of its own.
pub fn feature_round_at(reels: &Vec<Reel>, active: u8, pay_table: &PayTable, position: usize) -> (tally: Option<FeatureTally>)
    requires
        reels_cover(reels@, active),
        free_product(reels@, active, 0, REEL_COUNT as int) <= usize::MAX,
        first_free(active) matches Some(f) && position < reels@[f].icons@.len(),
    ensures
        first_free(active) matches Some(f) && {
            let prefix = held_prefix(f).push(reels@[f].icons@[position as int]);
            &&& (tally is Some <==> round_payable(reels@, active, *pay_table, f + 1, prefix, Seq::empty()))
            &&& (tally matches Some(t) ==> t.wf() && t@ == round_from(reels@, active, *pay_table, f + 1, prefix, Seq::empty()))
        },
{
    proof {
        lemma_first_free_from(active, 0);
    }
    let f = match first_free_reel(active) {
        Some(f) => f,
        None => {
            return None;
        },
    };
    let ghost prefix = held_prefix(f as int);
    let mut current: Vec<i32> = vec![0, 0, 0, 0, 0];
    let mut i: usize = 0;
    while i < f
        invariant
            i <= f < REEL_COUNT,
            current@.len() == REEL_COUNT,
            forall|k: int| 0 <= k < i ==> #[trigger] current@[k] == HELD_ICON,
        decreases f - i,
    {
        current.set(i, HELD_ICON);
        i += 1;
    }
    let icon = reels[f].icons[position];
    current.set(f, icon);
    let mut tally = FeatureTally::new();
    proof {
        assert(current@.take(f + 1) =~= prefix.push(icon));
        assert(Seq::<i32>::empty() =~= held_prefix(0));
        lemma_skip_held(reels@, active, *pay_table, 0, f as int, Seq::empty());
        assert(current@.skip(REEL_COUNT as int) =~= Seq::<i32>::empty());
        lemma_product_bounds_part(reels@, active, f as int);
    }
    if !dfs(f + 1, reels, active, &mut current, pay_table, &mut tally) {
        return None;
    }
    proof {
        let r = round_from(reels@, active, *pay_table, f + 1, prefix.push(icon), Seq::empty());
        lemma_round_shape(reels@, active, *pay_table, f + 1, prefix.push(icon), Seq::empty());
        assert(stats_add(stats_zero(), r) =~= r);
    }
    Some(tally)
}

/// A spin's walk splits at the first free reel: its statistics are the sum,
/// over the icons of that reel's strip, of the shares that
/// `feature_round_at` computes.
pub proof fn lemma_round_splits_at_first_free(reels: Seq<Reel>, active: u8, pay_table: PayTable, tail: Seq<i32>)
    requires
        first_free(active) is Some,
    ensures
        first_free(active) matches Some(f) && round_from(reels, active, pay_table, 0, Seq::empty(), tail)
            == icons_stats(reels, active, pay_table, f, held_prefix(f), tail, reels[f].icons@.len() as int),
{
    lemma_first_free_from(active, 0);
    let f = first_free(active)->0;
    assert(Seq::<i32>::empty() =~= held_prefix(0));
    lemma_skip_held(reels, active, pay_table, 0, f, tail);
}

/// The order in which shares are merged does not change the statistics.
pub proof fn lemma_merge_commutes(a: RoundStats, b: RoundStats)
    ensures
        stats_add(a, b) == stats_add(b, a),
        stats_add(stats_add(a, b), stats_zero()) == stats_add(a, b),
{
    assert(stats_add(a, b) =~= stats_add(b, a));
    assert(stats_add(stats_add(a, b), stats_zero()) =~= stats_add(a, b));
}

/// The sum of the first `n` entries of `s`.
pub open spec fn sum_upto(s: Seq<int>, n: int) -> int
    decreases n,
{
    if n <= 0 {
        0
    } else {
        sum_upto(s, n - 1) + s[n - 1]
    }
}

/// Every outcome counted in `s` leads to a mask that holds each reel that
/// `active` holds.
pub open spec fn keeps_held(s: RoundStats, active: u8) -> bool {
    forall|m: int, i: int|
        0 <= m < ACTIVE_STATES && 0 <= i < REEL_COUNT && #[trigger] s.next[m] > 0 && #[trigger] is_held(
            active,
            i,
        ) ==> is_held(m as u8, i)
}

/// The icons of `prefix` show PIC01 on every held reel before `index`.
pub open spec fn prefix_shows_held(active: u8, index: int, prefix: Seq<i32>) -> bool {
    &&& prefix.len() == index
    &&& forall|i: int| 0 <= i < index && #[trigger] is_held(active, i) ==> prefix[i] == HELD_ICON
}

proof fn lemma_sum_add(a: Seq<int>, b: Seq<int>, n: int)
    requires
        0 <= n <= ACTIVE_STATES,
    ensures
        sum_upto(Seq::new(ACTIVE_STATES as nat, |m: int| a[m] + b[m]), n) == sum_upto(a, n) + sum_upto(b, n),
    decreases n,
{
    if n > 0 {
        lemma_sum_add(a, b, n - 1);
    }
}

proof fn lemma_sum_indicator(k: int, n: int)
    requires
        0 <= k < ACTIVE_STATES,
        0 <= n <= ACTIVE_STATES,
    ensures
        sum_upto(Seq::new(ACTIVE_STATES as nat, |m: int| if m == k { 1int } else { 0int }), n) == if n > k {
            1int
        } else {
            0int
        },
    decreases n,
{
    if n > 0 {
        lemma_sum_indicator(k, n - 1);
    }
}

proof fn lemma_sum_zero(n: int)
    requires
        0 <= n <= ACTIVE_STATES,
    ensures
        sum_upto(stats_zero().next, n) == 0,
    decreases n,
{
    if n > 0 {
        lemma_sum_zero(n - 1);
    }
}

/// Each outcome of a spin leads to exactly one active mask: the mask counts
/// of a spin add up to its number of outcomes.
pub proof fn lemma_round_next_total(
    reels: Seq<Reel>,
    active: u8,
    pay_table: PayTable,
    index: int,
    prefix: Seq<i32>,
    tail: Seq<i32>,
)
    requires
        0 <= index <= REEL_COUNT,
        prefix.len() == index,
    ensures
        sum_upto(round_from(reels, active, pay_table, index, prefix, tail).next, ACTIVE_STATES as int)
            == round_from(reels, active, pay_table, index, prefix, tail).count,
    decreases REEL_COUNT - index, 1int, 0int,
{
    if index >= REEL_COUNT {
        let line = prefix + tail;
        lemma_active_value_roundtrip(line);
        lemma_sum_indicator(active_value(line) as int, ACTIVE_STATES as int);
        assert(outcome_stats(pay_table, line).next =~= Seq::new(
            ACTIVE_STATES as nat,
            |m: int| if m == active_value(line) as int { 1int } else { 0int },
        ));
    } else if is_held(active, index) {
        lemma_round_next_total(reels, active, pay_table, index + 1, prefix.push(HELD_ICON), tail);
        assert(round_from(reels, active, pay_table, index, prefix, tail) == round_from(
            reels,
            active,
            pay_table,
            index + 1,
            prefix.push(HELD_ICON),
            tail,
        ));
    } else {
        let n = reels[index].icons@.len() as int;
        lemma_icons_next_total(reels, active, pay_table, index, prefix, tail, n);
        assert(round_from(reels, active, pay_table, index, prefix, tail) == icons_stats(
            reels,
            active,
            pay_table,
            index,
            prefix,
            tail,
            n,
        ));
    }
}

proof fn lemma_icons_next_total(
    reels: Seq<Reel>,
    active: u8,
    pay_table: PayTable,
    index: int,
    prefix: Seq<i32>,
    tail: Seq<i32>,
    n: int,
)
    requires
        0 <= index < REEL_COUNT,
        prefix.len() == index,
        n >= 0,
    ensures
        sum_upto(icons_stats(reels, active, pay_table, index, prefix, tail, n).next, ACTIVE_STATES as int)
            == icons_stats(reels, active, pay_table, index, prefix, tail, n).count,
    decreases REEL_COUNT - index, 0int, n,
{
    if n > 0 {
        let p = prefix.push(reels[index].icons@[n - 1]);
        let a = icons_stats(reels, active, pay_table, index, prefix, tail, n - 1);
        let b = round_from(reels, active, pay_table, index + 1, p, tail);
        lemma_icons_next_total(reels, active, pay_table, index, prefix, tail, n - 1);
        lemma_round_next_total(reels, active, pay_table, index + 1, p, tail);
        lemma_icons_shape(reels, active, pay_table, index, prefix, tail, n - 1);
        lemma_round_shape(reels, active, pay_table, index + 1, p, tail);
        lemma_sum_add(a.next, b.next, ACTIVE_STATES as int);
    } else {
        lemma_sum_zero(ACTIVE_STATES as int);
    }
}

/// A held reel stays held: every outcome of a walk whose line shows PIC01
/// on the held reels before `index` leads to a mask that holds every reel
/// that was held before it.
pub proof fn lemma_round_keeps_held(
    reels: Seq<Reel>,
    active: u8,
    pay_table: PayTable,
    index: int,
    prefix: Seq<i32>,
    tail: Seq<i32>,
)
    requires
        0 <= index <= REEL_COUNT,
        prefix_shows_held(active, index, prefix),
    ensures
        keeps_held(round_from(reels, active, pay_table, index, prefix, tail), active),
    decreases REEL_COUNT - index, 1int, 0int,
{
    if index >= REEL_COUNT {
        let line = prefix + tail;
        lemma_active_value_roundtrip(line);
        let s = outcome_stats(pay_table, line);
        assert forall|m: int, i: int|
            0 <= m < ACTIVE_STATES && 0 <= i < REEL_COUNT && #[trigger] s.next[m] > 0 && #[trigger] is_held(
                active,
                i,
            ) implies is_held(m as u8, i) by {
            assert(m == active_value(line) as int);
            assert(line[i] == prefix[i]);
            assert(prefix[i] == HELD_ICON);
        }
    } else if is_held(active, index) {
        let p = prefix.push(HELD_ICON);
        assert(prefix_shows_held(active, index + 1, p));
        lemma_round_keeps_held(reels, active, pay_table, index + 1, p, tail);
        assert(round_from(reels, active, pay_table, index, prefix, tail) == round_from(
            reels,
            active,
            pay_table,
            index + 1,
            p,
            tail,
        ));
    } else {
        let n = reels[index].icons@.len() as int;
        lemma_icons_keep_held(reels, active, pay_table, index, prefix, tail, n);
        assert(round_from(reels, active, pay_table, index, prefix, tail) == icons_stats(
            reels,
            active,
            pay_table,
            index,
            prefix,
            tail,
            n,
        ));
    }
}

proof fn lemma_icons_keep_held(
    reels: Seq<Reel>,
    active: u8,
    pay_table: PayTable,
    index: int,
    prefix: Seq<i32>,
    tail: Seq<i32>,
    n: int,
)
    requires
        0 <= index < REEL_COUNT,
        !is_held(active, index),
        n >= 0,
        prefix_shows_held(active, index, prefix),
    ensures
        keeps_held(icons_stats(reels, active, pay_table, index, prefix, tail, n), active),
    decreases REEL_COUNT - index, 0int, n,
{
    if n > 0 {
        let p = prefix.push(reels[index].icons@[n - 1]);
        assert(prefix_shows_held(active, index + 1, p));
        let a = icons_stats(reels, active, pay_table, index, prefix, tail, n - 1);
        let b = round_from(reels, active, pay_table, index + 1, p, tail);
        lemma_icons_keep_held(reels, active, pay_table, index, prefix, tail, n - 1);
        lemma_round_keeps_held(reels, active, pay_table, index + 1, p, tail);
        lemma_icons_shape(reels, active, pay_table, index, prefix, tail, n - 1);
        lemma_round_shape(reels, active, pay_table, index + 1, p, tail);
        let s = stats_add(a, b);
        assert forall|m: int, i: int|
            0 <= m < ACTIVE_STATES && 0 <= i < REEL_COUNT && #[trigger] s.next[m] > 0 && #[trigger] is_held(
                active,
                i,
            ) implies is_held(m as u8, i) by {
            assert(0 <= a.next[m] && 0 <= b.next[m]);
            if a.next[m] > 0 {
            } else {
                assert(b.next[m] > 0);
            }
        }
    }
}

/// The successor masks of a feature spin: every mask that some outcome leads
/// to is below 32 and holds each reel that the spin held, bit for bit.
pub proof fn lemma_successors_keep_held(reels: Seq<Reel>, active: u8, pay_table: PayTable, tail: Seq<i32>)
    ensures
        round_from(reels, active, pay_table, 0, Seq::empty(), tail).next.len() == ACTIVE_STATES,
        forall|m: int|
            0 <= m < ACTIVE_STATES && #[trigger] round_from(reels, active, pay_table, 0, Seq::empty(), tail).next[m]
                > 0 ==> m < ACTIVE_STATES && ((m as u8) & active & 31u8) == (active & 31u8),
{
    let s = round_from(reels, active, pay_table, 0, Seq::empty(), tail);
    lemma_round_shape(reels, active, pay_table, 0, Seq::empty(), tail);
    assert(prefix_shows_held(active, 0, Seq::empty()));
    lemma_round_keeps_held(reels, active, pay_table, 0, Seq::empty(), tail);
    assert forall|m: int| 0 <= m < ACTIVE_STATES && #[trigger] s.next[m] > 0 implies m < ACTIVE_STATES && ((
    m as u8) & active & 31u8) == (active & 31u8) by {
        let v = m as u8;
        let h0 = is_held(active, 0);
        let h1 = is_held(active, 1);
        let h2 = is_held(active, 2);
        let h3 = is_held(active, 3);
        let h4 = is_held(active, 4);
        if h0 { assert(is_held(v, 0)); }
        if h1 { assert(is_held(v, 1)); }
        if h2 { assert(is_held(v, 2)); }
        if h3 { assert(is_held(v, 3)); }
        if h4 { assert(is_held(v, 4)); }
        assert((v & active & 31u8) == (active & 31u8)) by (bit_vector)
            requires
                (active & 1u8 != 0) ==> (v & 1u8 != 0),
                (active & 2u8 != 0) ==> (v & 2u8 != 0),
                (active & 4u8 != 0) ==> (v & 4u8 != 0),
                (active & 8u8 != 0) ==> (v & 8u8 != 0),
                (active & 16u8 != 0) ==> (v & 16u8 != 0),
        ;
    }
}

/// The merged shares of the positions below `n` of reel `index` that
/// `class` puts in class `t`: what one thread computes when positions are
/// dealt to threads by class.
pub open spec fn class_stats(
    reels: Seq<Reel>,
    active: u8,
    pay_table: PayTable,
    index: int,
    prefix: Seq<i32>,
    tail: Seq<i32>,
    class: spec_fn(int) -> int,
    t: int,
    n: int,
) -> RoundStats
    decreases n,
{
    if n <= 0 {
        stats_zero()
    } else {
        stats_add(
            class_stats(reels, active, pay_table, index, prefix, tail, class, t, n - 1),
            if class(n - 1) == t {
                round_from(reels, active, pay_table, index + 1, prefix.push(reels[index].icons@[n - 1]), tail)
            } else {
                stats_zero()
            },
        )
    }
}

/// The merge of what the threads of classes `0` to `k - 1` compute.
pub open spec fn classes_merged(
    reels: Seq<Reel>,
    active: u8,
    pay_table: PayTable,
    index: int,
    prefix: Seq<i32>,
    tail: Seq<i32>,
    class: spec_fn(int) -> int,
    k: int,
    n: int,
) -> RoundStats
    decreases k,
{
    if k <= 0 {
        stats_zero()
    } else {
        stats_add(
            classes_merged(reels, active, pay_table, index, prefix, tail, class, k - 1, n),
            class_stats(reels, active, pay_table, index, prefix, tail, class, k - 1, n),
        )
    }
}

proof fn lemma_classes_merged_empty(
    reels: Seq<Reel>,
    active: u8,
    pay_table: PayTable,
    index: int,
    prefix: Seq<i32>,
    tail: Seq<i32>,
    class: spec_fn(int) -> int,
    k: int,
)
    ensures
        classes_merged(reels, active, pay_table, index, prefix, tail, class, k, 0) == stats_zero(),
    decreases k,
{
    if k > 0 {
        lemma_classes_merged_empty(reels, active, pay_table, index, prefix, tail, class, k - 1);
        assert(stats_add(stats_zero(), stats_zero()) =~= stats_zero());
    }
}

/// Adding position `n - 1` to the deal adds its share to exactly the class
/// it is dealt to.
proof fn lemma_classes_merged_step(
    reels: Seq<Reel>,
    active: u8,
    pay_table: PayTable,
    index: int,
    prefix: Seq<i32>,
    tail: Seq<i32>,
    class: spec_fn(int) -> int,
    k: int,
    n: int,
)
    requires
        n > 0,
    ensures
        classes_merged(reels, active, pay_table, index, prefix, tail, class, k, n) == stats_add(
            classes_merged(reels, active, pay_table, index, prefix, tail, class, k, n - 1),
            if 0 <= class(n - 1) < k {
                round_from(reels, active, pay_table, index + 1, prefix.push(reels[index].icons@[n - 1]), tail)
            } else {
                stats_zero()
            },
        ),
    decreases k,
{
    let r = round_from(reels, active, pay_table, index + 1, prefix.push(reels[index].icons@[n - 1]), tail);
    if k <= 0 {
        assert(stats_add(stats_zero(), stats_zero()) =~= stats_zero());
    } else {
        lemma_classes_merged_step(reels, active, pay_table, index, prefix, tail, class, k - 1, n);
        let m0 = classes_merged(reels, active, pay_table, index, prefix, tail, class, k - 1, n - 1);
        let c0 = class_stats(reels, active, pay_table, index, prefix, tail, class, k - 1, n - 1);
        let x_before = if 0 <= class(n - 1) < k - 1 { r } else { stats_zero() };
        let x_after = if 0 <= class(n - 1) < k { r } else { stats_zero() };
        let here = if class(n - 1) == k - 1 { r } else { stats_zero() };
        assert(classes_merged(reels, active, pay_table, index, prefix, tail, class, k, n) == stats_add(
            stats_add(m0, x_before),
            stats_add(c0, here),
        ));
        assert(classes_merged(reels, active, pay_table, index, prefix, tail, class, k, n - 1) == stats_add(
            m0,
            c0,
        ));
        assert(stats_add(stats_add(m0, x_before), stats_add(c0, here)) =~= stats_add(stats_add(m0, c0), x_after));
    }
}

/// Dealing the positions of reel `index` to threads by any class below `k`
/// and merging what the threads compute neither loses nor repeats an
/// outcome: the merge is the walk over all positions.
pub proof fn lemma_deal_by_class(
    reels: Seq<Reel>,
    active: u8,
    pay_table: PayTable,
    index: int,
    prefix: Seq<i32>,
    tail: Seq<i32>,
    class: spec_fn(int) -> int,
    k: int,
    n: int,
)
    requires
        0 <= index < REEL_COUNT,
        0 <= n,
        forall|j: int| 0 <= j < n ==> 0 <= #[trigger] class(j) < k,
    ensures
        classes_merged(reels, active, pay_table, index, prefix, tail, class, k, n) == icons_stats(
            reels,
            active,
            pay_table,
            index,
            prefix,
            tail,
            n,
        ),
    decreases n,
{
    if n == 0 {
        lemma_classes_merged_empty(reels, active, pay_table, index, prefix, tail, class, k);
    } else {
        lemma_deal_by_class(reels, active, pay_table, index, prefix, tail, class, k, n - 1);
        lemma_classes_merged_step(reels, active, pay_table, index, prefix, tail, class, k, n);
        assert(0 <= class(n - 1) < k);
    }
}

/// Dealing the first free reel's positions to `threads` threads by their
/// remainder, as the walk of a long spin does, and merging the threads'
/// tallies gives the statistics of the whole spin.
pub proof fn lemma_round_dealt_over_threads(
    reels: Seq<Reel>,
    active: u8,
    pay_table: PayTable,
    tail: Seq<i32>,
    threads: int,
)
    requires
        first_free(active) is Some,
        threads > 0,
    ensures
        first_free(active) matches Some(f) && round_from(reels, active, pay_table, 0, Seq::empty(), tail)
            == classes_merged(
            reels,
            active,
            pay_table,
            f,
            held_prefix(f),
            tail,
            |j: int| j % threads,
            threads,
            reels[f].icons@.len() as int,
        ),
{
    lemma_round_splits_at_first_free(reels, active, pay_table, tail);
    lemma_first_free_from(active, 0);
    let f = first_free(active)->0;
    let class = |j: int| j % threads;
    let n = reels[f].icons@.len() as int;
    assert forall|j: int| 0 <= j < n implies 0 <= #[trigger] class(j) < threads by {
        vstd::arithmetic::div_mod::lemma_mod_bound(j, threads);
    }
    lemma_deal_by_class(reels, active, pay_table, f, held_prefix(f), tail, class, threads, n);
}

/// Each outcome of a feature spin pays the better of its two counts: its
/// contribution to the round total is at least the pay of the PIC01 run and
/// at least the pay of the PIC01-as-wild count, and equals one of them.
pub proof fn lemma_outcome_pays_the_better_count(pay_table: PayTable, line: Seq<i32>)
    ensures
        ({
            let own = pay_table.pay_spec(pic01_spec(line).icon as int, pic01_spec(line).count as int) as int;
            let wild = pay_table.pay_spec(pic01_wild_spec(line).icon as int, pic01_wild_spec(line).count as int) as int;
            let paid = outcome_stats(pay_table, line).total;
            &&& paid >= own
            &&& paid >= wild
            &&& (paid == own || paid == wild)
        }),
        outcome_stats(pay_table, line).count == 1,
{
}

/// When every reel has been placed, a walk is the single outcome of its
/// line: it counts once and pays the better of the line's two counts.
pub proof fn lemma_complete_line_pays_the_better_count(
    reels: Seq<Reel>,
    active: u8,
    pay_table: PayTable,
    prefix: Seq<i32>,
    tail: Seq<i32>,
)
    ensures
        ({
            let line = prefix + tail;
            let own = pay_table.pay_spec(pic01_spec(line).icon as int, pic01_spec(line).count as int) as int;
            let wild = pay_table.pay_spec(pic01_wild_spec(line).icon as int, pic01_wild_spec(line).count as int) as int;
            let r = round_from(reels, active, pay_table, REEL_COUNT as int, prefix, tail);
            &&& r.count == 1
            &&& r.total >= own
            &&& r.total >= wild
            &&& (r.total == own || r.total == wild)
        }),
{
    lemma_outcome_pays_the_better_count(pay_table, prefix + tail);
}

} // verus!
