use vstd::prelude::*;

use itertools::Itertools;

use crate::card::SCAT2;
use crate::reel::{windows_of, ReelSnapshot};

verus! {

/// Scatters beyond this many pay as this many.
pub const MAX_SCATTERS: usize = 5;

/// The bonus game starts from this many scatters on.
pub const BONUS_GAME_SCATTERS: usize = 3;

/// A can worth this much or more pays this much.
pub const CAN_PAY_CAP: usize = 4;

/// The gold can: two of them in one pick start the feature game.
pub const GOLD_CAN: usize = 5;

/// A pick with this many gold cans or more starts the feature game.
pub const GOLD_FOR_FEATURE: usize = 2;

/// The multiplier of the bonus pay for each capped scatter count.
pub open spec fn bonus_table() -> Seq<i32> {
    seq![0i32, 0, 0, 1, 2, 4]
}

/// The cans of the bonus game, by value.
pub open spec fn cans_spec() -> Seq<usize> {
    seq![1usize, 1, 2, 2, 2, 3, 3, 3, 4, 5, 5, 5]
}

/// The `k`-element picks of `s`, each in the order of `s`, listed in
/// lexicographic order of the picked positions.
pub open spec fn combinations(s: Seq<usize>, k: nat) -> Seq<Seq<usize>>
    decreases s.len(),
{
    if k == 0 {
        seq![Seq::empty()]
    } else if s.len() == 0 {
        Seq::empty()
    } else {
        combinations(s.drop_first(), (k - 1) as nat).map_values(|c: Seq<usize>| seq![s[0]].add(c))
            + combinations(s.drop_first(), k)
    }
}

/// The number of ways to pick `k` of `n`.
pub open spec fn binomial(n: nat, k: nat) -> nat
    decreases n,
{
    if k == 0 {
        1
    } else if n == 0 {
        0
    } else {
        binomial((n - 1) as nat, (k - 1) as nat) + binomial((n - 1) as nat, k)
    }
}

/// What one can pays: its value, capped at `CAN_PAY_CAP`.
pub open spec fn can_pay(can: usize) -> int {
    if can < CAN_PAY_CAP {
        can as int
    } else {
        CAN_PAY_CAP as int
    }
}

/// What a pick pays: the sum of its cans' pays.
pub open spec fn pick_pay(pick: Seq<usize>) -> int
    decreases pick.len(),
{
    if pick.len() == 0 {
        0
    } else {
        pick_pay(pick.drop_last()) + can_pay(pick.last())
    }
}

/// The number of gold cans in a pick.
pub open spec fn gold_count(pick: Seq<usize>) -> int
    decreases pick.len(),
{
    if pick.len() == 0 {
        0
    } else {
        gold_count(pick.drop_last()) + if pick.last() == GOLD_CAN {
            1int
        } else {
            0int
        }
    }
}

/// A pick starts the feature game.
pub open spec fn starts_feature(pick: Seq<usize>) -> bool {
    gold_count(pick) >= GOLD_FOR_FEATURE
}

/// The total pay of a list of picks.
pub open spec fn picks_pay(picks: Seq<Seq<usize>>) -> int
    decreases picks.len(),
{
    if picks.len() == 0 {
        0
    } else {
        picks_pay(picks.drop_last()) + pick_pay(picks.last())
    }
}

/// The number of picks of a list that start the feature game.
pub open spec fn picks_starting_feature(picks: Seq<Seq<usize>>) -> int
    decreases picks.len(),
{
    if picks.len() == 0 {
        0
    } else {
        picks_starting_feature(picks.drop_last()) + if starts_feature(picks.last()) {
            1int
        } else {
            0int
        }
    }
}

/// The statistics of the bonus game over all picks of a number of cans:
/// the total pay, how many picks start the feature game, and how many
/// picks there are.
#[derive(Debug, Clone, Copy, PartialEq, Eq, Structural)]
pub struct BonusTally {
    pub sum: usize,
    pub emit_feature_game: usize,
    pub total_cnt: usize,
}

/// The integer part of what one spin gives the bonus game: the multiplier
/// of the bonus pay, and whether the spin starts the bonus game.
#[derive(Debug, Clone, Copy, PartialEq, Eq, Structural)]
pub struct BonusOutcome {
    pub bonus: i32,
    pub enters_bonus_game: bool,
}

/// The number of times `x` shows in `s`.
pub open spec fn count_of(s: Seq<i32>, x: i32) -> nat
    decreases s.len(),
{
    if s.len() == 0 {
        0
    } else {
        count_of(s.drop_last(), x) + if s.last() == x {
            1nat
        } else {
            0nat
        }
    }
}

/// The number of second scatters that the windows show.
pub open spec fn scatter_count(windows: Seq<Seq<i32>>) -> nat
    decreases windows.len(),
{
    if windows.len() == 0 {
        0
    } else {
        scatter_count(windows.drop_last()) + count_of(windows.last(), SCAT2)
    }
}

/// The scatter count, capped at `MAX_SCATTERS`.
pub open spec fn capped_scatters(windows: Seq<Seq<i32>>) -> nat {
    if scatter_count(windows) > MAX_SCATTERS {
        MAX_SCATTERS as nat
    } else {
        scatter_count(windows)
    }
}

/// Every pick of `combinations(s, k)` takes `k` elements of `s`.
pub proof fn lemma_combinations_shape(s: Seq<usize>, k: nat)
    ensures
        forall|i: int| 0 <= i < combinations(s, k).len() ==> {
            &&& (#[trigger] combinations(s, k)[i]).len() == k
            &&& k <= s.len()
            &&& forall|j: int| 0 <= j < k ==> s.contains(#[trigger] combinations(s, k)[i][j])
        },
    decreases s.len(),
{
    if k == 0 {
    } else if s.len() == 0 {
    } else {
        let t = s.drop_first();
        lemma_combinations_shape(t, (k - 1) as nat);
        lemma_combinations_shape(t, k);
        let left = combinations(t, (k - 1) as nat).map_values(|c: Seq<usize>| seq![s[0]].add(c));
        let right = combinations(t, k);
        assert forall|i: int| 0 <= i < combinations(s, k).len() implies {
            &&& (#[trigger] combinations(s, k)[i]).len() == k
            &&& k <= s.len()
            &&& forall|j: int| 0 <= j < k ==> s.contains(#[trigger] combinations(s, k)[i][j])
        } by {
            if i < left.len() {
                let c = combinations(t, (k - 1) as nat)[i];
                assert(combinations(s, k)[i] == seq![s[0]].add(c));
                assert forall|j: int| 0 <= j < k implies s.contains(#[trigger] combinations(s, k)[i][j]) by {
                    if j == 0 {
                        assert(s[0] == combinations(s, k)[i][j]);
                    } else {
                        assert(combinations(s, k)[i][j] == c[j - 1]);
                        assert(t.contains(c[j - 1]));
                        let w = choose|w: int| 0 <= w < t.len() && t[w] == c[j - 1];
                        assert(s[w + 1] == t[w]);
                    }
                }
            } else {
                let c = right[i - left.len()];
                assert(combinations(s, k)[i] == c);
                assert forall|j: int| 0 <= j < k implies s.contains(#[trigger] combinations(s, k)[i][j]) by {
                    assert(t.contains(c[j]));
                    let w = choose|w: int| 0 <= w < t.len() && t[w] == c[j];
                    assert(s[w + 1] == t[w]);
                }
            }
        }
    }
}

/// There are `binomial(n, k)` picks of `k` of `n` elements.
pub proof fn lemma_combinations_len(s: Seq<usize>, k: nat)
    ensures
        combinations(s, k).len() == binomial(s.len(), k),
    decreases s.len(),
{
    if k == 0 {
    } else if s.len() == 0 {
    } else {
        lemma_combinations_len(s.drop_first(), (k - 1) as nat);
        lemma_combinations_len(s.drop_first(), k);
    }
}

/// There are at most `2^n` picks of `n` elements.
proof fn lemma_binomial_bound(n: nat, k: nat)
    ensures
        binomial(n, k) <= vstd::arithmetic::power2::pow2(n),
    decreases n,
{
    if n > 0 {
        vstd::arithmetic::power2::lemma_pow2_unfold(n);
    }
    if k == 0 {
        vstd::arithmetic::power2::lemma_pow2_pos(n);
    } else if n == 0 {
    } else {
        lemma_binomial_bound((n - 1) as nat, (k - 1) as nat);
        lemma_binomial_bound((n - 1) as nat, k);
    }
}

proof fn lemma_pick_pay_bound(pick: Seq<usize>)
    ensures
        0 <= pick_pay(pick) <= CAN_PAY_CAP * pick.len(),
        0 <= gold_count(pick) <= pick.len(),
    decreases pick.len(),
{
    if pick.len() > 0 {
        lemma_pick_pay_bound(pick.drop_last());
    }
}

proof fn lemma_picks_monotone(picks: Seq<Seq<usize>>, i: int)
    requires
        0 <= i <= picks.len(),
    ensures
        picks_pay(picks.take(i)) <= picks_pay(picks),
        0 <= picks_pay(picks.take(i)),
        0 <= picks_starting_feature(picks.take(i)) <= i,
    decreases picks.len() - i,
{
    lemma_picks_nonneg(picks.take(i));
    if i < picks.len() {
        lemma_picks_monotone(picks, i + 1);
        let t = picks.take(i + 1);
        assert(t.drop_last() =~= picks.take(i));
        lemma_pick_pay_bound(t.last());
    } else {
        assert(picks.take(i) =~= picks);
        lemma_picks_nonneg(picks);
    }
}

proof fn lemma_picks_nonneg(picks: Seq<Seq<usize>>)
    ensures
        0 <= picks_pay(picks),
        0 <= picks_starting_feature(picks) <= picks.len(),
    decreases picks.len(),
{
    if picks.len() > 0 {
        lemma_picks_nonneg(picks.drop_last());
        lemma_pick_pay_bound(picks.last());
    }
}

/// Adds up the bonus-game statistics of a list of picks: the total pay,
/// the picks that start the feature game, and the number of picks.
pub fn tally_picks(picks: &Vec<Vec<usize>>) -> (t: BonusTally)
    requires
        picks_pay(picks.deep_view()) <= usize::MAX,
    ensures
        t.sum == picks_pay(picks.deep_view()),
        t.emit_feature_game == picks_starting_feature(picks.deep_view()),
        t.total_cnt == picks@.len(),
{
    let ghost all = picks.deep_view();
    let mut sum: usize = 0;
    let mut emit_feature_game: usize = 0;
    let mut total_cnt: usize = 0;
    let mut i: usize = 0;
    while i < picks.len()
        invariant
            all == picks.deep_view(),
            picks_pay(all) <= usize::MAX,
            i <= picks@.len(),
            total_cnt == i,
            sum == picks_pay(all.take(i as int)),
            emit_feature_game == picks_starting_feature(all.take(i as int)),
        decreases picks@.len() - i,
    {
        let pick = &picks[i];
        let ghost p = all[i as int];
        assert(pick@ == p);
        proof {
            lemma_picks_monotone(all, i + 1);
            let t = all.take(i + 1);
            assert(t.drop_last() =~= all.take(i as int));
            assert(t.last() == p);
        }
        let mut gold: usize = 0;
        let mut j: usize = 0;
        while j < pick.len()
            invariant
                all == picks.deep_view(),
                p == pick@,
                j <= pick@.len(),
                sum == picks_pay(all.take(i as int)) + pick_pay(p.take(j as int)),
                picks_pay(all.take(i as int)) + pick_pay(p) <= usize::MAX,
                gold == gold_count(p.take(j as int)),
            decreases pick@.len() - j,
        {
            let can = pick[j];
            proof {
                let q = p.take(j + 1);
                assert(q.drop_last() =~= p.take(j as int));
                assert(q.last() == can);
                lemma_pick_pay_bound(q);
                lemma_prefix_pick_bound(p, j + 1);
            }
            sum += if can < CAN_PAY_CAP {
                can
            } else {
                CAN_PAY_CAP
            };
            if can == GOLD_CAN {
                gold += 1;
            }
            j += 1;
        }
        proof {
            assert(p.take(pick@.len() as int) =~= p);
            lemma_picks_nonneg(all.take(i as int));
        }
        if gold >= GOLD_FOR_FEATURE {
            emit_feature_game += 1;
        }
        total_cnt += 1;
        i += 1;
    }
    proof {
        assert(all.take(picks@.len() as int) =~= all);
    }
    BonusTally { sum, emit_feature_game, total_cnt }
}

proof fn lemma_prefix_pick_bound(p: Seq<usize>, j: int)
    requires
        0 <= j <= p.len(),
    ensures
        pick_pay(p.take(j)) <= pick_pay(p),
        gold_count(p.take(j)) <= j,
    decreases p.len() - j,
{
    lemma_pick_pay_bound(p.take(j));
    if j < p.len() {
        lemma_prefix_pick_bound(p, j + 1);
        let q = p.take(j + 1);
        assert(q.drop_last() =~= p.take(j));
    } else {
        assert(p.take(j) =~= p);
    }
}

/// The `k`-can picks of the cans, in the order that `Itertools::combinations`
/// yields them. Trusted: `combinations` yields each `k`-element pick of its
/// input once, in lexicographic order of the picked positions; one empty
/// pick for `k == 0`, none for `k` above the input's length.
#[verifier::external_body]
fn combinations_of(items: &Vec<usize>, k: usize) -> (picks: Vec<Vec<usize>>)
    ensures
        picks.deep_view() == combinations(items@, k as nat),
{
    items.iter().copied().combinations(k).collect()
}

/// The cans of the bonus game.
pub fn bonus_cans() -> (cans: Vec<usize>)
    ensures
        cans@ == cans_spec(),
{
    let cans: Vec<usize> = vec![1, 1, 2, 2, 2, 3, 3, 3, 4, 5, 5, 5];
    assert(cans@ =~= cans_spec());
    cans
}

/// The statistics of the bonus game in which `cnt` of the cans are picked:
/// over every pick, the total pay, the number of picks that start the
/// feature game, and the number of picks.
pub fn game_pay_once(cnt: usize) -> (t: BonusTally)
    ensures
        t.sum == picks_pay(combinations(cans_spec(), cnt as nat)),
        t.emit_feature_game == picks_starting_feature(combinations(cans_spec(), cnt as nat)),
        t.total_cnt == combinations(cans_spec(), cnt as nat).len(),
        t.total_cnt == binomial(cans_spec().len(), cnt as nat),
{
    let cans = bonus_cans();
    let picks = combinations_of(&cans, cnt);
    proof {
        let all = picks.deep_view();
        lemma_combinations_shape(cans@, cnt as nat);
        lemma_combinations_len(cans@, cnt as nat);
        lemma_binomial_bound(cans@.len(), cnt as nat);
        vstd::arithmetic::power2::lemma2_to64();
        assert(all == combinations(cans@, cnt as nat));
        assert forall|i: int| 0 <= i < all.len() implies (#[trigger] all[i]).len() == cnt by {
            assert(combinations(cans@, cnt as nat)[i].len() == cnt);
        }
        lemma_picks_pay_bound(all, cnt as int);
        let n = all.len() as int;
        if n > 0 {
            assert(combinations(cans@, cnt as nat)[0].len() == cnt);
            assert(cnt <= 12);
        }
        assert(n <= 4096);
        assert(n * CAN_PAY_CAP * cnt <= 4096 * 4 * 12) by (nonlinear_arith)
            requires
                0 <= n <= 4096,
                n > 0 ==> cnt <= 12,
        ;
        assert(picks@.len() == all.len());
    }
    tally_picks(&picks)
}

/// Picks of `k` cans pay at most `CAN_PAY_CAP * k` each.
proof fn lemma_picks_pay_bound(picks: Seq<Seq<usize>>, k: int)
    requires
        forall|i: int| 0 <= i < picks.len() ==> (#[trigger] picks[i]).len() == k,
    ensures
        picks_pay(picks) <= picks.len() * CAN_PAY_CAP * k,
    decreases picks.len(),
{
    if picks.len() > 0 {
        let rest = picks.drop_last();
        assert forall|i: int| 0 <= i < rest.len() implies (#[trigger] rest[i]).len() == k by {
            assert(rest[i] == picks[i]);
        }
        lemma_picks_pay_bound(rest, k);
        lemma_pick_pay_bound(picks.last());
        assert(picks[picks.len() - 1].len() == k);
        assert(pick_pay(picks.last()) <= CAN_PAY_CAP * k);
        let n = picks.len() as int;
        assert(rest.len() == n - 1);
        assert((n - 1) * CAN_PAY_CAP * k + CAN_PAY_CAP * k == n * CAN_PAY_CAP * k) by (nonlinear_arith);
        assert(picks_pay(picks) == picks_pay(rest) + pick_pay(picks.last()));
        assert(picks_pay(rest) <= rest.len() * CAN_PAY_CAP * k);
        assert(picks_pay(picks) <= n * CAN_PAY_CAP * k);
    } else {
        assert(picks.len() * CAN_PAY_CAP * k == 0) by (nonlinear_arith)
            requires
                picks.len() == 0,
        ;
    }
}

/// The multiplier of the bonus pay for a capped scatter count.
pub fn bonus_multiplier(cnt: usize) -> (bonus: i32)
    requires
        cnt <= MAX_SCATTERS,
    ensures
        bonus == bonus_table()[cnt as int],
{
    let table: Vec<i32> = vec![0, 0, 0, 1, 2, 4];
    assert(table@ =~= bonus_table());
    table[cnt]
}

/// The number of second scatters that the windows show, capped at
/// `MAX_SCATTERS`.
pub fn capped_scatter_count(snapshot: &Vec<ReelSnapshot>) -> (cnt: usize)
    ensures
        cnt == capped_scatters(windows_of(snapshot@)),
{
    let ghost windows = windows_of(snapshot@);
    let mut cnt: usize = 0;
    let mut j: usize = 0;
    while j < snapshot.len()
        invariant
            j <= snapshot@.len(),
            windows == windows_of(snapshot@),
            cnt == if scatter_count(windows.take(j as int)) > MAX_SCATTERS {
                MAX_SCATTERS as nat
            } else {
                scatter_count(windows.take(j as int))
            },
        decreases snapshot@.len() - j,
    {
        let icons = &snapshot[j].icons;
        let ghost before = scatter_count(windows.take(j as int));
        proof {
            let t = windows.take(j + 1);
            assert(t.drop_last() =~= windows.take(j as int));
            assert(t.last() == windows[j as int]);
        }
        let mut i: usize = 0;
        while i < icons.len()
            invariant
                i <= icons@.len(),
                icons@ == windows[j as int],
                cnt == if before + count_of(icons@.take(i as int), SCAT2) > MAX_SCATTERS {
                    MAX_SCATTERS as nat
                } else {
                    before + count_of(icons@.take(i as int), SCAT2)
                },
            decreases icons@.len() - i,
        {
            proof {
                let t = icons@.take(i + 1);
                assert(t.drop_last() =~= icons@.take(i as int));
                assert(t.last() == icons@[i as int]);
            }
            if icons[i] == SCAT2 && cnt < MAX_SCATTERS {
                cnt += 1;
            }
            i += 1;
        }
        proof {
            assert(icons@.take(icons@.len() as int) =~= icons@);
        }
        j += 1;
    }
    proof {
        assert(windows.take(snapshot@.len() as int) =~= windows);
    }
    cnt
}

/// What a spin gives the bonus game: the multiplier of the bonus pay for
/// its capped scatter count, and whether it shows enough scatters to start
/// the bonus game.
pub fn bonus_game_outcome(snapshot: &Vec<ReelSnapshot>) -> (outcome: BonusOutcome)
    ensures
        outcome.bonus == bonus_table()[capped_scatters(windows_of(snapshot@)) as int],
        outcome.enters_bonus_game == (capped_scatters(windows_of(snapshot@)) >= BONUS_GAME_SCATTERS),
{
    let cnt = capped_scatter_count(snapshot);
    BonusOutcome { bonus: bonus_multiplier(cnt), enters_bonus_game: cnt >= BONUS_GAME_SCATTERS }
}

/// More scatters never pay a smaller bonus, and a spin that starts the
/// bonus game pays a bonus.
pub proof fn lemma_bonus_monotone(a: int, b: int)
    requires
        0 <= a <= b <= MAX_SCATTERS,
    ensures
        bonus_table()[a] <= bonus_table()[b],
        b >= BONUS_GAME_SCATTERS ==> bonus_table()[b] > 0,
{
}

/// `count_of` counts exactly the elements equal to `x`.
proof fn lemma_count_of_filter(s: Seq<i32>, x: i32)
    ensures
        count_of(s, x) == s.filter(|y: i32| y == x).len(),
    decreases s.len(),
{
    reveal_with_fuel(Seq::<_>::filter, 1);
    if s.len() > 0 {
        lemma_count_of_filter(s.drop_last(), x);
    }
}

proof fn lemma_no_scatter_counts_none(windows: Seq<Seq<i32>>)
    requires
        forall|j: int, i: int| 0 <= j < windows.len() && 0 <= i < windows[j].len() ==> #[trigger] windows[j][i] != SCAT2,
    ensures
        scatter_count(windows) == 0,
    decreases windows.len(),
{
    if windows.len() > 0 {
        let rest = windows.drop_last();
        assert forall|j: int, i: int| 0 <= j < rest.len() && 0 <= i < rest[j].len() implies #[trigger] rest[j][i]
            != SCAT2 by {
            assert(rest[j] == windows[j]);
        }
        lemma_no_scatter_counts_none(rest);
        let w = windows.last();
        assert forall|i: int| 0 <= i < w.len() implies w[i] != SCAT2 by {
            assert(windows[windows.len() - 1][i] != SCAT2);
        }
        lemma_count_of_absent(w, SCAT2);
    }
}

proof fn lemma_count_of_absent(s: Seq<i32>, x: i32)
    requires
        forall|i: int| 0 <= i < s.len() ==> s[i] != x,
    ensures
        count_of(s, x) == 0,
    decreases s.len(),
{
    if s.len() > 0 {
        lemma_count_of_absent(s.drop_last(), x);
    }
}

/// Only the second scatter counts toward the bonus: each window adds the
/// number of its icons equal to `SCAT2`, and windows that show no `SCAT2`
/// (whatever else they show, first scatters included) count none, pay no
/// bonus and start no bonus game.
pub proof fn lemma_only_scat2_counts(windows: Seq<Seq<i32>>, w: Seq<i32>)
    ensures
        scatter_count(windows.push(w)) == scatter_count(windows) + w.filter(|y: i32| y == SCAT2).len(),
        (forall|j: int, i: int| 0 <= j < windows.len() && 0 <= i < windows[j].len() ==> #[trigger] windows[j][i]
            != SCAT2) ==> {
            &&& scatter_count(windows) == 0
            &&& capped_scatters(windows) == 0
            &&& bonus_table()[capped_scatters(windows) as int] == 0
            &&& capped_scatters(windows) < BONUS_GAME_SCATTERS
        },
{
    lemma_count_of_filter(w, SCAT2);
    assert(windows.push(w).drop_last() =~= windows);
    if forall|j: int, i: int| 0 <= j < windows.len() && 0 <= i < windows[j].len() ==> #[trigger] windows[j][i]
        != SCAT2 {
        lemma_no_scatter_counts_none(windows);
    }
}

} // verus!
