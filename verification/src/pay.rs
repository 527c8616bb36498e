use vstd::prelude::*;

use crate::card::{icon_id, icon_id_spec};

verus! {

/// The number of rows of a pay table: one per possible icon id.
pub const PAY_TABLE_ROWS: usize = 200;

/// For each icon id, the pay of a line of 1, 2, 3, ... of that icon.
#[derive(Debug, Clone)]
pub struct PayTable {
    pub data: Vec<Vec<i32>>,
}

/// Every name of the entries names an icon.
pub open spec fn entries_named(entries: Seq<(Vec<u8>, Vec<i32>)>) -> bool {
    forall|k: int| 0 <= k < entries.len() ==> (#[trigger] icon_id_spec(entries[k].0@)) is Some
}

/// The row that the entries give icon `id`: the pays of the last entry that
/// names it, or no pays when none does.
pub open spec fn table_row(entries: Seq<(Vec<u8>, Vec<i32>)>, id: int) -> Seq<i32>
    decreases entries.len(),
{
    if entries.len() == 0 {
        Seq::empty()
    } else if icon_id_spec(entries.last().0@) == Some(id as i32) {
        entries.last().1@
    } else {
        table_row(entries.drop_last(), id)
    }
}

impl PayTable {
    /// The pay for `count` positions of icon `index` can be read from the table.
    pub open spec fn pay_defined(&self, index: int, count: int) -> bool {
        count > 0 ==> 0 <= index < self.data@.len() && count <= self.data@[index]@.len()
    }

    /// The pay for `count` positions of icon `index`; no positions pay nothing.
    pub open spec fn pay_spec(&self, index: int, count: int) -> i32 {
        if count > 0 {
            self.data@[index]@[count - 1]
        } else {
            0
        }
    }

    /// Builds the table from (icon name, pays) entries, as a pay-table file
    /// lists them: the row of each named icon holds its pays, all other rows
    /// are empty.
    pub fn from_entries(entries: &Vec<(Vec<u8>, Vec<i32>)>) -> (table: PayTable)
        requires
            entries_named(entries@),
        ensures
            table.data@.len() == PAY_TABLE_ROWS,
            forall|id: int|
                0 <= id < PAY_TABLE_ROWS ==> (#[trigger] table.data@[id])@ == table_row(entries@, id),
    {
        let mut data: Vec<Vec<i32>> = Vec::new();
        while data.len() < PAY_TABLE_ROWS
            invariant
                data@.len() <= PAY_TABLE_ROWS,
                forall|id: int| 0 <= id < data@.len() ==> (#[trigger] data@[id])@ == Seq::<i32>::empty(),
            decreases PAY_TABLE_ROWS - data@.len(),
        {
            data.push(Vec::new());
        }
        let mut k: usize = 0;
        while k < entries.len()
            invariant
                k <= entries@.len(),
                entries_named(entries@),
                data@.len() == PAY_TABLE_ROWS,
                forall|id: int|
                    0 <= id < PAY_TABLE_ROWS ==> (#[trigger] data@[id])@ == table_row(
                        entries@.take(k as int),
                        id,
                    ),
            decreases entries@.len() - k,
        {
            let ghost before = entries@.take(k as int);
            let ghost after = entries@.take(k + 1);
            assert(after.drop_last() =~= before);
            assert(after.last() == entries@[k as int]);
            assert(icon_id_spec(entries@[k as int].0@) is Some);
            let id = match icon_id(entries[k].0.as_slice()) {
                Some(id) => id,
                None => {
                    return PayTable { data };
                },
            };
            let row = entries[k].1.clone();
            assert(row@ =~= entries@[k as int].1@);
            assert(0 <= id && (id as usize) < PAY_TABLE_ROWS);
            data.set(id as usize, row);
            k += 1;
        }
        assert(entries@.take(entries@.len() as int) =~= entries@);
        PayTable { data }
    }

    /// Whether the table holds the pay for `count` positions of icon `index`.
    pub fn pay_defined_check(&self, index: usize, count: usize) -> (ok: bool)
        ensures
            ok == self.pay_defined(index as int, count as int),
    {
        count == 0 || (index < self.data.len() && count <= self.data[index].len())
    }

    /// The pay for `count` positions of icon `index`: the `count`-th entry
    /// of the icon's row, and nothing when no position counts.
    pub fn pay(&self, index: usize, count: usize) -> (p: i32)
        requires
            self.pay_defined(index as int, count as int),
        ensures
            p == self.pay_spec(index as int, count as int),
    {
        if count > 0 {
            self.data[index][count - 1]
        } else {
            0
        }
    }
}

/// A row that no entry names stays empty, and the row of an icon is the
/// pays of the last entry that names it: entries after it that name other
/// icons do not change it.
pub proof fn lemma_table_row_of_entries(entries: Seq<(Vec<u8>, Vec<i32>)>, id: int, e: (Vec<u8>, Vec<i32>))
    ensures
        (forall|k: int| 0 <= k < entries.len() ==> icon_id_spec(#[trigger] entries[k].0@) != Some(id as i32))
            ==> table_row(entries, id) == Seq::<i32>::empty(),
        icon_id_spec(e.0@) == Some(id as i32) ==> table_row(entries.push(e), id) == e.1@,
        icon_id_spec(e.0@) != Some(id as i32) ==> table_row(entries.push(e), id) == table_row(entries, id),
    decreases entries.len(),
{
    assert(entries.push(e).drop_last() =~= entries);
    if entries.len() > 0 {
        let rest = entries.drop_last();
        lemma_table_row_of_entries(rest, id, entries.last());
        if forall|k: int| 0 <= k < entries.len() ==> icon_id_spec(#[trigger] entries[k].0@) != Some(id as i32) {
            assert forall|k: int| 0 <= k < rest.len() implies icon_id_spec(#[trigger] rest[k].0@) != Some(
                id as i32,
            ) by {
                assert(rest[k] == entries[k]);
            }
            assert(icon_id_spec(entries[entries.len() - 1].0@) != Some(id as i32));
        }
    }
}

} // verus!
