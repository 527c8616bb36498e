use vstd::prelude::*;

use crate::card::{icon_id, icon_id_spec};

verus! {

/// The three icons of one reel that show in the window after a spin.
#[derive(Debug)]
pub struct ReelSnapshot {
    pub icons: Vec<i32>,
}

/// The icons that each window of a spin shows.
pub open spec fn windows_of(snapshot: Seq<ReelSnapshot>) -> Seq<Seq<i32>> {
    snapshot.map_values(|s: ReelSnapshot| s.icons@)
}

/// One reel strip: its icons in order, the last followed by the first.
#[derive(Debug, Clone)]
pub struct Reel {
    pub icons: Vec<i32>,
}

/// The pay lines: for each line, the row (0 top, 1 middle, 2 bottom) that it
/// takes in each reel's window.
#[derive(Debug, Clone)]
pub struct HitTable(pub Vec<Vec<usize>>);

/// The strip position that shows in the window's row `offset` (-1 top,
/// 0 middle, 1 bottom) when the reel stops at `index`, computed as the reel
/// does it: in `i32` with the strip length cast to `i32`, then cast to `usize`.
pub open spec fn window_position(len: nat, index: i32, offset: int) -> int {
    (((index + offset + (len as i32)) as i32) as usize % (len as usize)) as int
}

/// The middle row takes the stop position itself, with no added length.
pub open spec fn middle_position(len: nat, index: i32) -> int {
    ((index as usize) % (len as usize)) as int
}

/// The arithmetic of a stop at `index` on a strip of `len` icons stays
/// inside `i32`, and the strip is not empty.
pub open spec fn roll_in_range(len: nat, index: i32) -> bool {
    &&& len > 0
    &&& len <= usize::MAX
    &&& i32::MIN < index < i32::MAX
    &&& i32::MIN <= index - 1 + (len as i32)
    &&& index + 1 + (len as i32) <= i32::MAX
}

/// The window of a strip stopped at `index`: the icon before it, the icon at
/// it and the icon after it.
pub open spec fn roll_spec(icons: Seq<i32>, index: i32) -> Seq<i32> {
    seq![
        icons[window_position(icons.len(), index, -1)],
        icons[middle_position(icons.len(), index)],
        icons[window_position(icons.len(), index, 1)],
    ]
}

/// The window of a strip stopped at a position `index` of the strip, in
/// plain arithmetic: the icons at `index - 1`, `index` and `index + 1`,
/// counted round the strip.
pub open spec fn cyclic_window(icons: Seq<i32>, index: int) -> Seq<i32> {
    let n = icons.len() as int;
    seq![icons[(index + n - 1) % n], icons[index % n], icons[(index + 1) % n]]
}

/// Every name of the list names an icon.
pub open spec fn names_known(names: Seq<Vec<u8>>) -> bool {
    forall|k: int| 0 <= k < names.len() ==> (#[trigger] icon_id_spec(names[k]@)) is Some
}

/// The icons that a list of pay-line rows reads from the windows: the `j`-th
/// icon of a line is the row `line[j]` of the `j`-th window, for as many
/// reels as both the line and the windows have.
pub open spec fn line_icons(line: Seq<usize>, snapshots: Seq<ReelSnapshot>) -> Seq<i32> {
    let n = if line.len() < snapshots.len() { line.len() } else { snapshots.len() };
    Seq::new(n, |j: int| snapshots[j].icons@[line[j] as int])
}

/// Each row that a line names shows in the window it reads.
pub open spec fn line_reads_windows(line: Seq<usize>, snapshots: Seq<ReelSnapshot>) -> bool {
    forall|j: int|
        0 <= j < line.len() && j < snapshots.len() ==> #[trigger] line[j] < snapshots[j].icons@.len()
}

impl Reel {
    /// The strip whose icons the names give, in order.
    pub fn from_names(names: &Vec<Vec<u8>>) -> (reel: Reel)
        requires
            names_known(names@),
        ensures
            reel.icons@.len() == names@.len(),
            forall|k: int|
                0 <= k < names@.len() ==> Some(#[trigger] reel.icons@[k]) == icon_id_spec(names@[k]@),
    {
        let mut icons: Vec<i32> = Vec::new();
        let mut k: usize = 0;
        while k < names.len()
            invariant
                k <= names@.len(),
                names_known(names@),
                icons@.len() == k,
                forall|i: int| 0 <= i < k ==> Some(#[trigger] icons@[i]) == icon_id_spec(names@[i]@),
            decreases names@.len() - k,
        {
            assert(icon_id_spec(names@[k as int]@) is Some);
            match icon_id(names[k].as_slice()) {
                Some(id) => icons.push(id),
                None => {
                    return Reel { icons };
                },
            }
            k += 1;
        }
        Reel { icons }
    }

    /// The window of the strip stopped at `index`: the icons before, at and
    /// after the stop, round the strip.
    pub fn roll(&self, index: i32) -> (snap: ReelSnapshot)
        requires
            roll_in_range(self.icons@.len(), index),
        ensures
            snap.icons@ == roll_spec(self.icons@, index),
            0 <= index && self.icons@.len() <= i32::MAX ==> snap.icons@ == cyclic_window(
                self.icons@,
                index as int,
            ),
    {
        let n = self.icons.len();
        let len = #[verifier::truncate] (n as i32);
        let top = #[verifier::truncate] ((index - 1 + len) as usize) % n;
        let middle = #[verifier::truncate] (index as usize) % n;
        let bottom = #[verifier::truncate] ((index + 1 + len) as usize) % n;
        let snap = ReelSnapshot { icons: vec![self.icons[top], self.icons[middle], self.icons[bottom]] };
        proof {
            if 0 <= index && n <= i32::MAX {
                let m = n as int;
                vstd::arithmetic::div_mod::lemma_mod_add_multiples_vanish(index - 1, m);
                vstd::arithmetic::div_mod::lemma_mod_add_multiples_vanish(index + 1, m);
                assert((index + m - 1) % m == top);
                assert((index + 1 + m) % m == (index + 1) % m);
            }
        }
        snap
    }

    /// Whether a stop at `index` can be rolled: the strip is not empty and
    /// the window arithmetic stays inside `i32`.
    pub fn roll_in_range_check(&self, index: i32) -> (ok: bool)
        ensures
            ok == roll_in_range(self.icons@.len(), index),
    {
        let n = self.icons.len();
        if n == 0 || index == i32::MIN || index == i32::MAX {
            return false;
        }
        let len = #[verifier::truncate] (n as i32);
        let low = index as i64 - 1 + len as i64;
        let high = index as i64 + 1 + len as i64;
        low >= i32::MIN as i64 && high <= i32::MAX as i64
    }

    pub fn len(&self) -> (n: usize)
        ensures
            n == self.icons@.len(),
    {
        self.icons.len()
    }
}

impl HitTable {
    /// The icons that each pay line reads from the windows.
    pub fn hit(&self, snapshots: &Vec<ReelSnapshot>) -> (lines: Vec<Vec<i32>>)
        requires
            forall|k: int| 0 <= k < self.0@.len() ==> line_reads_windows(#[trigger] self.0@[k]@, snapshots@),
        ensures
            lines@.len() == self.0@.len(),
            forall|k: int|
                0 <= k < self.0@.len() ==> (#[trigger] lines@[k])@ == line_icons(self.0@[k]@, snapshots@),
    {
        let mut res: Vec<Vec<i32>> = Vec::new();
        let mut k: usize = 0;
        while k < self.0.len()
            invariant
                k <= self.0@.len(),
                res@.len() == k,
                forall|i: int| 0 <= i < self.0@.len() ==> line_reads_windows(#[trigger] self.0@[i]@, snapshots@),
                forall|i: int| 0 <= i < k ==> (#[trigger] res@[i])@ == line_icons(self.0@[i]@, snapshots@),
            decreases self.0@.len() - k,
        {
            let line = &self.0[k];
            assert(line_reads_windows(line@, snapshots@));
            let mut icons: Vec<i32> = Vec::new();
            let mut j: usize = 0;
            while j < line.len() && j < snapshots.len()
                invariant
                    j <= line@.len(),
                    j <= snapshots@.len(),
                    icons@.len() == j,
                    line_reads_windows(line@, snapshots@),
                    forall|i: int| 0 <= i < j ==> #[trigger] icons@[i] == snapshots@[i].icons@[line@[i] as int],
                decreases line@.len() - j,
            {
                assert(line@[j as int] < snapshots@[j as int].icons@.len());
                icons.push(snapshots[j].icons[line[j]]);
                j += 1;
            }
            assert(icons@ =~= line_icons(line@, snapshots@));
            res.push(icons);
            k += 1;
        }
        res
    }
}

/// A strip stopped one full turn later shows the same window.
pub proof fn lemma_roll_periodic(icons: Seq<i32>, index: int)
    requires
        icons.len() > 0,
        0 <= index,
    ensures
        cyclic_window(icons, index + icons.len()) == cyclic_window(icons, index),
{
    let n = icons.len() as int;
    vstd::arithmetic::div_mod::lemma_mod_add_multiples_vanish(index + n - 1, n);
    vstd::arithmetic::div_mod::lemma_mod_add_multiples_vanish(index, n);
    vstd::arithmetic::div_mod::lemma_mod_add_multiples_vanish(index + 1, n);
    assert(index + n + n - 1 == n + (index + n - 1));
    assert(cyclic_window(icons, index + n) =~= cyclic_window(icons, index));
}

} // verus!
