use vstd::prelude::*;

use crate::games::base::{base_game_pay, base_game_pay_spec, base_game_payable, base_game_payable_check};
use crate::games::bonus::{bonus_game_outcome, bonus_table, capped_scatters, BONUS_GAME_SCATTERS};
use crate::pay::PayTable;
use crate::reel::{roll_in_range, roll_spec, windows_of, Reel, ReelSnapshot};

verus! {

/// What one spin of the base machine gives: the base-game pay, the
/// multiplier of the bonus pay, and whether the bonus game starts.
#[derive(Debug, Clone, Copy, PartialEq, Eq, Structural)]
pub struct SpinOutcome {
    pub base_pay: usize,
    pub bonus: i32,
    pub enters_bonus_game: bool,
}

/// The stop of a reel, as the machine passes it to the reel: cast to `i32`.
pub open spec fn stop_index(stop: usize) -> i32 {
    stop as i32
}

/// Each reel `j` below the number of stops can be rolled at stop `j`.
pub open spec fn spin_rollable(reels: Seq<Reel>, stops: Seq<usize>) -> bool {
    &&& stops.len() <= reels.len()
    &&& forall|j: int| 0 <= j < stops.len() ==> roll_in_range(reels[j].icons@.len(), #[trigger] stop_index(stops[j]))
}

/// The windows of a spin: reel `j` stopped at `stops[j]`.
pub open spec fn spin_windows(reels: Seq<Reel>, stops: Seq<usize>) -> Seq<Seq<i32>> {
    Seq::new(stops.len(), |j: int| roll_spec(reels[j].icons@, stop_index(stops[j])))
}

/// Rolls each reel to its stop.
pub fn spin(reels: &Vec<Reel>, stops: &Vec<usize>) -> (snapshot: Vec<ReelSnapshot>)
    requires
        spin_rollable(reels@, stops@),
    ensures
        windows_of(snapshot@) == spin_windows(reels@, stops@),
{
    let mut snapshot: Vec<ReelSnapshot> = Vec::new();
    let mut j: usize = 0;
    while j < stops.len()
        invariant
            j <= stops@.len(),
            spin_rollable(reels@, stops@),
            snapshot@.len() == j,
            forall|i: int| 0 <= i < j ==> (#[trigger] snapshot@[i]).icons@ == roll_spec(reels@[i].icons@, stop_index(stops@[i])),
        decreases stops@.len() - j,
    {
        let index = #[verifier::truncate] (stops[j] as i32);
        assert(roll_in_range(reels@[j as int].icons@.len(), stop_index(stops@[j as int])));
        snapshot.push(reels[j].roll(index));
        j += 1;
    }
    assert(windows_of(snapshot@) =~= spin_windows(reels@, stops@));
    snapshot
}

/// The outcome of the spin that stops reel `j` at `stops[j]`: its base pay,
/// bonus multiplier and whether it starts the bonus game; `None` when a
/// reel cannot roll to its stop or the pay table lacks the pay of the line.
pub fn spin_outcome(reels: &Vec<Reel>, stops: &Vec<usize>, pay_table: &PayTable) -> (outcome: Option<SpinOutcome>)
    ensures
        outcome is Some <==> spin_rollable(reels@, stops@) && base_game_payable(
            spin_windows(reels@, stops@),
            *pay_table,
        ),
        outcome matches Some(o) ==> {
            let windows = spin_windows(reels@, stops@);
            &&& o.base_pay == base_game_pay_spec(windows, *pay_table)
            &&& o.bonus == bonus_table()[capped_scatters(windows) as int]
            &&& o.enters_bonus_game == (capped_scatters(windows) >= BONUS_GAME_SCATTERS)
        },
{
    if stops.len() > reels.len() {
        return None;
    }
    let mut j: usize = 0;
    while j < stops.len()
        invariant
            j <= stops@.len() <= reels@.len(),
            forall|i: int| 0 <= i < j ==> roll_in_range(reels@[i].icons@.len(), #[trigger] stop_index(stops@[i])),
        decreases stops@.len() - j,
    {
        let index = #[verifier::truncate] (stops[j] as i32);
        assert(stop_index(stops@[j as int]) == index);
        if !reels[j].roll_in_range_check(index) {
            return None;
        }
        j += 1;
    }
    let snapshot = spin(reels, stops);
    if !base_game_payable_check(&snapshot, pay_table) {
        return None;
    }
    let base_pay = base_game_pay(&snapshot, pay_table);
    let bonus = bonus_game_outcome(&snapshot);
    Some(SpinOutcome { base_pay, bonus: bonus.bonus, enters_bonus_game: bonus.enters_bonus_game })
}

} // verus!
