use vstd::prelude::*;

use crate::count::{base_spec, scan_in_bounds, scan_in_bounds_check, CountResult};
use crate::pay::PayTable;
use crate::reel::{windows_of, ReelSnapshot};

verus! {

/// The top row of the windows, reel by reel: the line that the base game pays.
pub open spec fn first_row(windows: Seq<Seq<i32>>) -> Seq<i32> {
    Seq::new(windows.len(), |j: int| windows[j][0])
}

/// The base game can pay the windows: each shows an icon, the top row can
/// be scanned, and the table holds the pay of the line it counts.
pub open spec fn base_game_payable(windows: Seq<Seq<i32>>, pay_table: PayTable) -> bool {
    &&& forall|j: int| 0 <= j < windows.len() ==> (#[trigger] windows[j]).len() > 0
    &&& scan_in_bounds(first_row(windows), 0)
    &&& pay_table.pay_defined(
        base_spec(first_row(windows)).icon as int,
        base_spec(first_row(windows)).count as int,
    )
}

/// What the base game pays for the windows: the pay of the top row's count,
/// cast to `usize` as the game does.
pub open spec fn base_game_pay_spec(windows: Seq<Seq<i32>>, pay_table: PayTable) -> usize {
    let r = base_spec(first_row(windows));
    pay_table.pay_spec(r.icon as int, r.count as int) as usize
}

/// Whether the base game can pay the windows.
pub fn base_game_payable_check(snapshot: &Vec<ReelSnapshot>, pay_table: &PayTable) -> (ok: bool)
    ensures
        ok == base_game_payable(windows_of(snapshot@), *pay_table),
{
    let ghost windows = windows_of(snapshot@);
    let mut first_line: Vec<i32> = Vec::new();
    let mut j: usize = 0;
    while j < snapshot.len()
        invariant
            j <= snapshot@.len(),
            first_line@.len() == j,
            windows == windows_of(snapshot@),
            forall|i: int| 0 <= i < j ==> (#[trigger] windows[i]).len() > 0,
            forall|i: int| 0 <= i < j ==> #[trigger] first_line@[i] == windows[i][0],
        decreases snapshot@.len() - j,
    {
        if snapshot[j].icons.len() == 0 {
            assert(windows[j as int].len() == 0);
            return false;
        }
        first_line.push(snapshot[j].icons[0]);
        j += 1;
    }
    assert(first_line@ =~= first_row(windows));
    if !scan_in_bounds_check(first_line.as_slice(), 0) {
        return false;
    }
    let res = CountResult::base(first_line.as_slice());
    pay_table.pay_defined_check(res.icon, res.count)
}

/// The base-game pay of one spin: the pay of the line that the top row counts.
pub fn base_game_pay(snapshot: &Vec<ReelSnapshot>, pay_table: &PayTable) -> (p: usize)
    requires
        base_game_payable(windows_of(snapshot@), *pay_table),
    ensures
        p == base_game_pay_spec(windows_of(snapshot@), *pay_table),
{
    let ghost windows = windows_of(snapshot@);
    let mut first_line: Vec<i32> = Vec::new();
    let mut j: usize = 0;
    while j < snapshot.len()
        invariant
            j <= snapshot@.len(),
            first_line@.len() == j,
            windows == windows_of(snapshot@),
            forall|i: int| 0 <= i < snapshot@.len() ==> (#[trigger] windows[i]).len() > 0,
            forall|i: int| 0 <= i < j ==> #[trigger] first_line@[i] == windows[i][0],
        decreases snapshot@.len() - j,
    {
        assert(windows[j as int].len() > 0);
        first_line.push(snapshot[j].icons[0]);
        j += 1;
    }
    assert(first_line@ =~= first_row(windows));
    let res = CountResult::base(first_line.as_slice());
    #[verifier::truncate] (pay_table.pay(res.icon, res.count) as usize)
}

/// The base game pays the table's entry for the top row's count: for a
/// count of one or more it is entry `count - 1` of the leading icon's row,
/// whatever the count, and a count of none pays nothing.
pub proof fn lemma_base_game_pay_reads_table(windows: Seq<Seq<i32>>, pay_table: PayTable)
    requires
        base_game_payable(windows, pay_table),
    ensures
        ({
            let top = Seq::new(windows.len(), |j: int| windows[j][0]);
            let r = base_spec(top);
            &&& r.count >= 1 ==> base_game_pay_spec(windows, pay_table) == (pay_table.data@[r.icon as int]@[r.count
                - 1] as usize)
            &&& r.count == 0 ==> base_game_pay_spec(windows, pay_table) == 0
        }),
{
    let top = Seq::new(windows.len(), |j: int| windows[j][0]);
    assert(top =~= first_row(windows));
}

} // verus!
