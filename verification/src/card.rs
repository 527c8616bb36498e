use vstd::prelude::*;

use crate::reel::ReelSnapshot;

verus! {

/// The wild icon: it stands in for every icon but a scatter.
pub const WILD: i32 = 0;

/// The first scatter icon.
pub const SCAT1: i32 = 100;

/// The second scatter icon; it triggers the bonus game.
pub const SCAT2: i32 = 101;

/// Icons from this id on are scatters, which the wild does not replace.
pub const SCATTER_BASE: i32 = 100;

pub open spec fn is_ascii_digit(b: u8) -> bool {
    48 <= b <= 57
}

/// The number that two ASCII digits spell.
pub open spec fn two_digit_value(hi: u8, lo: u8) -> int {
    (hi - 48) * 10 + (lo - 48)
}

/// The id of the icon that `name` names: `WILD` is 0, `PIC01` to `PIC15` are
/// 1 to 15, `SCAT1` is 100 and `SCAT2` is 101; any other name is no icon.
pub open spec fn icon_id_spec(name: Seq<u8>) -> Option<i32> {
    // 'W' 'I' 'L' 'D'
    if name.len() == 4 && name[0] == 87 && name[1] == 73 && name[2] == 76 && name[3] == 68 {
        Some(WILD)
    // 'P' 'I' 'C' digit digit
    } else if name.len() == 5 && name[0] == 80 && name[1] == 73 && name[2] == 67
        && is_ascii_digit(name[3]) && is_ascii_digit(name[4])
        && 1 <= two_digit_value(name[3], name[4]) <= 15 {
        Some(two_digit_value(name[3], name[4]) as i32)
    // 'S' 'C' 'A' 'T' '1' or '2'
    } else if name.len() == 5 && name[0] == 83 && name[1] == 67 && name[2] == 65 && name[3] == 84
        && (name[4] == 49 || name[4] == 50) {
        if name[4] == 49 { Some(SCAT1) } else { Some(SCAT2) }
    } else {
        None
    }
}

/// Looks up the id of an icon by its name (ASCII bytes).
pub fn icon_id(name: &[u8]) -> (id: Option<i32>)
    ensures
        id == icon_id_spec(name@),
{
    let n = name.len();
    if n == 4 && name[0] == 87 && name[1] == 73 && name[2] == 76 && name[3] == 68 {
        Some(WILD)
    } else if n == 5 && name[0] == 80 && name[1] == 73 && name[2] == 67
        && 48 <= name[3] && name[3] <= 57 && 48 <= name[4] && name[4] <= 57 {
        let value: i32 = (name[3] - 48) as i32 * 10 + (name[4] - 48) as i32;
        if 1 <= value && value <= 15 {
            Some(value)
        } else {
            None
        }
    } else if n == 5 && name[0] == 83 && name[1] == 67 && name[2] == 65 && name[3] == 84 {
        if name[4] == 49 {
            Some(SCAT1)
        } else if name[4] == 50 {
            Some(SCAT2)
        } else {
            None
        }
    } else {
        None
    }
}

/// Two icons are the same on a line when they are equal, or when one is the
/// wild and the other is no scatter.
pub open spec fn same_card_spec(left: i32, right: i32) -> bool {
    if left == right {
        true
    } else if left == WILD {
        right < SCATTER_BASE
    } else if right == WILD {
        left < SCATTER_BASE
    } else {
        false
    }
}

pub fn same_card(left: i32, right: i32) -> (same: bool)
    ensures
        same == same_card_spec(left, right),
{
    if left == right {
        true
    } else if left == WILD {
        right < SCATTER_BASE
    } else if right == WILD {
        left < SCATTER_BASE
    } else {
        false
    }
}

/// Some icon shown in `left` is the same card as some icon shown in `right`.
pub open spec fn possible_same_spec(left: Seq<i32>, right: Seq<i32>) -> bool {
    exists|i: int, j: int|
        0 <= i < left.len() && 0 <= j < right.len() && #[trigger] same_card_spec(left[i], right[j])
}

/// Whether two adjacent reel windows can take part in one winning line.
pub fn possible_same(left: &ReelSnapshot, right: &ReelSnapshot) -> (same: bool)
    ensures
        same == possible_same_spec(left.icons@, right.icons@),
{
    let n = left.icons.len();
    let m = right.icons.len();
    let mut i: usize = 0;
    while i < n
        invariant
            n == left.icons@.len(),
            m == right.icons@.len(),
            i <= n,
            forall|a: int, b: int|
                0 <= a < i && 0 <= b < m ==> !#[trigger] same_card_spec(left.icons@[a], right.icons@[b]),
        decreases n - i,
    {
        let mut j: usize = 0;
        while j < m
            invariant
                n == left.icons@.len(),
                m == right.icons@.len(),
                i < n,
                j <= m,
                forall|a: int, b: int|
                    0 <= a < i && 0 <= b < m ==> !#[trigger] same_card_spec(left.icons@[a], right.icons@[b]),
                forall|b: int| 0 <= b < j ==> !#[trigger] same_card_spec(left.icons@[i as int], right.icons@[b]),
            decreases m - j,
        {
            if same_card(left.icons[i], right.icons[j]) {
                return true;
            }
            j += 1;
        }
        i += 1;
    }
    false
}

/// Sameness of cards does not depend on the order of the two cards.
pub proof fn lemma_same_card_symmetric(left: i32, right: i32)
    ensures
        same_card_spec(left, right) == same_card_spec(right, left),
{
}

/// The wild is the same card as every icon that is no scatter.
pub proof fn lemma_wild_matches_non_scatter(icon: i32)
    requires
        icon < SCATTER_BASE,
    ensures
        same_card_spec(WILD, icon),
        same_card_spec(icon, WILD),
{
}

/// Whether two windows can share a line does not depend on their order.
pub proof fn lemma_possible_same_symmetric(left: Seq<i32>, right: Seq<i32>)
    ensures
        possible_same_spec(left, right) == possible_same_spec(right, left),
{
    if possible_same_spec(left, right) {
        let (i, j) = choose|i: int, j: int|
            0 <= i < left.len() && 0 <= j < right.len() && #[trigger] same_card_spec(left[i], right[j]);
        assert(same_card_spec(right[j], left[i]));
    }
    if possible_same_spec(right, left) {
        let (i, j) = choose|i: int, j: int|
            0 <= i < right.len() && 0 <= j < left.len() && #[trigger] same_card_spec(right[i], left[j]);
        assert(same_card_spec(left[j], right[i]));
    }
}

/// Every icon is the same card as itself; two different icons neither of
/// which is the wild are never the same card; the wild is never the same
/// card as a scatter.
pub proof fn lemma_same_card_cases(left: i32, right: i32)
    ensures
        left == right ==> same_card_spec(left, right),
        left != right && left != WILD && right != WILD ==> !same_card_spec(left, right),
        left == WILD && right >= SCATTER_BASE ==> !same_card_spec(left, right),
        right == WILD && left >= SCATTER_BASE ==> !same_card_spec(left, right),
{
}

/// Names map to icons one to one, and every icon id is the wild, a
/// picture from 1 to 15 or one of the two scatters.
pub proof fn lemma_icon_ids_distinct(a: Seq<u8>, b: Seq<u8>)
    ensures
        icon_id_spec(a) matches Some(id) ==> (0 <= id <= 15 || id == SCAT1 || id == SCAT2),
        icon_id_spec(a) is Some && icon_id_spec(a) == icon_id_spec(b) ==> a == b,
{
    if icon_id_spec(a) is Some && icon_id_spec(a) == icon_id_spec(b) {
        assert(a.len() == b.len());
        if a.len() == 5 && a[0] == 80 {
            assert(b[0] == 80);
            assert(a[3] == b[3] && a[4] == b[4]);
        }
        assert(a =~= b);
    }
}

} // verus!
