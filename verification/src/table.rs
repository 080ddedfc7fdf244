//! The table shown to the user: rows and columns with stable keys, and one
//! check box per cell.
//!
//! A row or column is a pair (key, position). The position is its current
//! index, `0 .. len`, without gaps; it is what the context is addressed by
//! and it changes when something before it is removed. The key is handed
//! out once and never changes, so that whatever renders the table can tell
//! which row is which after a removal.

use std::collections::HashMap;
use vstd::prelude::*;

verus! {

broadcast use vstd::std_specs::hash::group_hash_axioms;

/// The key under which the box map holds the cell (`row`, `column`): the
/// row in the upper 64 bits, the column in the lower.
pub open spec fn key_of(row: usize, column: usize) -> u128 {
    (row as u128 * 0x1_0000_0000_0000_0000u128 + column as u128) as u128
}

/// The row that a box key stands for.
pub open spec fn key_row(key: u128) -> int {
    key as int / 0x1_0000_0000_0000_0000
}

/// The column that a box key stands for.
pub open spec fn key_column(key: u128) -> int {
    key as int % 0x1_0000_0000_0000_0000
}

/// The box keys of a table with the given numbers of rows and columns.
pub open spec fn box_keys(rows: nat, columns: nat) -> Set<u128> {
    Set::new(|key: u128| key_row(key) < rows && key_column(key) < columns)
}

/// Entry `i` has position `i`.
pub open spec fn contiguous(entries: Seq<(usize, usize)>) -> bool {
    forall|i: int| 0 <= i < entries.len() ==> (#[trigger] entries[i]).1 == i
}

/// No two entries have the same key.
pub open spec fn distinct_keys(entries: Seq<(usize, usize)>) -> bool {
    forall|i: int, j: int|
        0 <= i < j < entries.len() ==> (#[trigger] entries[i]).0 != (#[trigger] entries[j]).0
}

/// Every key is smaller than `bound`.
pub open spec fn keys_below(entries: Seq<(usize, usize)>, bound: usize) -> bool {
    forall|i: int| 0 <= i < entries.len() ==> (#[trigger] entries[i]).0 < bound
}

/// `key` is not the key of any entry.
pub open spec fn unused_key(entries: Seq<(usize, usize)>, key: usize) -> bool {
    forall|i: int| 0 <= i < entries.len() ==> (#[trigger] entries[i]).0 != key
}

/// The entries that are left when the one at `index` is taken out: those
/// before it are untouched, those after it keep their key and move down by
/// one position.
pub open spec fn closed_up(entries: Seq<(usize, usize)>, index: int) -> Seq<(usize, usize)> {
    Seq::new(
        (entries.len() - 1) as nat,
        |i: int|
            if i < index {
                entries[i]
            } else {
                (entries[i + 1].0, (entries[i + 1].1 - 1) as usize)
            },
    )
}

/// Taking out the entry at `index` leaves every entry before it as it was,
/// key and position, and gives every entry after it the same key and a
/// position smaller by one; the positions are `0 .. len` again.
pub proof fn closing_up_keeps_keys(entries: Seq<(usize, usize)>, index: int)
    requires
        contiguous(entries),
        distinct_keys(entries),
        0 <= index < entries.len(),
    ensures
        closed_up(entries, index).len() == entries.len() - 1,
        forall|i: int| 0 <= i < index ==> closed_up(entries, index)[i] == entries[i],
        forall|i: int|
            index < i < entries.len() ==> {
                &&& closed_up(entries, index)[i - 1].0 == entries[i].0
                &&& closed_up(entries, index)[i - 1].1 == entries[i].1 - 1
            },
        contiguous(closed_up(entries, index)),
        distinct_keys(closed_up(entries, index)),
{
    let left = closed_up(entries, index);
    assert forall|i: int, j: int| 0 <= i < j < left.len() implies
        (#[trigger] left[i]).0 != (#[trigger] left[j]).0
    by {
        let from_i = if i < index {
            i
        } else {
            i + 1
        };
        let from_j = if j < index {
            j
        } else {
            j + 1
        };
        assert(left[i].0 == entries[from_i].0);
        assert(left[j].0 == entries[from_j].0);
    }
}

/// The box key of a cell.
pub fn cell_key(row: usize, column: usize) -> (key: u128)
    ensures
        key == key_of(row, column),
        key_row(key) == row,
        key_column(key) == column,
{
    (row as u128) * 0x1_0000_0000_0000_0000u128 + (column as u128)
}

/// A box key determines its cell.
pub proof fn key_parts(row: usize, column: usize)
    ensures
        key_row(key_of(row, column)) == row,
        key_column(key_of(row, column)) == column,
{
}

/// The boxes while row `index` is being taken out, once the columns before
/// `column` are done: in those, the rows from `index` on hold what the row
/// below them held, and the last row is gone.
pub open spec fn rows_closing(
    start: Map<u128, bool>,
    rows: nat,
    columns: nat,
    index: int,
    column: int,
) -> Map<u128, bool> {
    Map::new(
        |key: u128|
            key_row(key) < rows && key_column(key) < columns && !(key_column(key) < column
                && key_row(key) == rows - 1),
        |key: u128|
            if key_row(key) >= index && key_column(key) < column {
                start[key_of((key_row(key) + 1) as usize, key_column(key) as usize)]
            } else {
                start[key]
            },
    )
}

/// The boxes while row `index` is being taken out, in the middle of column
/// `column`: its rows from `index` to `row - 2` hold what the row below them
/// held, and its box at `row - 1` is gone.
pub open spec fn row_closing(
    start: Map<u128, bool>,
    rows: nat,
    columns: nat,
    index: int,
    column: int,
    row: int,
) -> Map<u128, bool> {
    Map::new(
        |key: u128|
            key_row(key) < rows && key_column(key) < columns && !(key_column(key) < column
                && key_row(key) == rows - 1) && !(key_column(key) == column && key_row(key) == row
                - 1),
        |key: u128|
            if key_row(key) >= index && (key_column(key) < column || (key_column(key) == column
                && key_row(key) < row - 1)) {
                start[key_of((key_row(key) + 1) as usize, key_column(key) as usize)]
            } else {
                start[key]
            },
    )
}

/// The boxes while column `index` is being taken out, once the rows before
/// `row` are done.
pub open spec fn columns_closing(
    start: Map<u128, bool>,
    rows: nat,
    columns: nat,
    index: int,
    row: int,
) -> Map<u128, bool> {
    Map::new(
        |key: u128|
            key_row(key) < rows && key_column(key) < columns && !(key_row(key) < row && key_column(
                key,
            ) == columns - 1),
        |key: u128|
            if key_column(key) >= index && key_row(key) < row {
                start[key_of(key_row(key) as usize, (key_column(key) + 1) as usize)]
            } else {
                start[key]
            },
    )
}

/// The boxes while column `index` is being taken out, in the middle of row
/// `row`.
pub open spec fn column_closing(
    start: Map<u128, bool>,
    rows: nat,
    columns: nat,
    index: int,
    row: int,
    column: int,
) -> Map<u128, bool> {
    Map::new(
        |key: u128|
            key_row(key) < rows && key_column(key) < columns && !(key_row(key) < row && key_column(
                key,
            ) == columns - 1) && !(key_row(key) == row && key_column(key) == column - 1),
        |key: u128|
            if key_column(key) >= index && (key_row(key) < row || (key_row(key) == row
                && key_column(key) < column - 1)) {
                start[key_of(key_row(key) as usize, (key_column(key) + 1) as usize)]
            } else {
                start[key]
            },
    )
}

/// The index of the first entry with the given key, if there is one.
fn position_of(entries: &Vec<(usize, usize)>, key: usize) -> (found: Option<usize>)
    ensures
        match found {
            Some(index) => index < entries@.len() && entries@[index as int].0 == key && forall|
                i: int,
            | 0 <= i < index ==> entries@[i].0 != key,
            None => unused_key(entries@, key),
        },
{
    let mut index: usize = 0;
    while index < entries.len()
        invariant
            index <= entries@.len(),
            forall|i: int| 0 <= i < index ==> entries@[i].0 != key,
        decreases entries@.len() - index,
    {
        if entries[index].0 == key {
            return Some(index);
        }
        index += 1;
    }
    None
}

/// The rows, the columns and the check boxes of the table.
#[derive(Debug, Clone)]
pub struct Table {
    /// One entry (key, position) per row, in the order of their positions.
    pub row_data: Vec<(usize, usize)>,
    /// One entry (key, position) per column, in the order of their positions.
    pub column_data: Vec<(usize, usize)>,
    /// The state of the check box of each cell, under the key of the cell.
    pub boxes: HashMap<u128, bool>,
}

impl Table {
    /// The number of rows.
    pub open spec fn rows(&self) -> nat {
        self.row_data@.len()
    }

    /// The number of columns.
    pub open spec fn columns(&self) -> nat {
        self.column_data@.len()
    }

    /// The state of the check box at (`row`, `column`).
    pub open spec fn cell(&self, row: usize, column: usize) -> bool {
        self.boxes@[key_of(row, column)]
    }

    /// The check boxes as a map from (row position, column position).
    pub open spec fn cells(&self) -> Map<(usize, usize), bool> {
        Map::new(
            |p: (usize, usize)| p.0 < self.rows() && p.1 < self.columns(),
            |p: (usize, usize)| self.cell(p.0, p.1),
        )
    }

    /// Well-formedness: positions are `0 .. len` in order, keys are not
    /// shared, and there is exactly one box per cell.
    pub open spec fn wf(&self) -> bool {
        &&& contiguous(self.row_data@)
        &&& contiguous(self.column_data@)
        &&& distinct_keys(self.row_data@)
        &&& distinct_keys(self.column_data@)
        &&& self.boxes@.dom() == box_keys(self.rows(), self.columns())
    }

    /// A table without rows and columns.
    pub fn new() -> (table: Table)
        ensures
            table.wf(),
            table.rows() == 0,
            table.columns() == 0,
    {
        let table = Table { row_data: Vec::new(), column_data: Vec::new(), boxes: HashMap::new() };
        proof {
            assert(table.boxes@.dom() =~= box_keys(0, 0));
        }
        table
    }

    /// The position of the row with the given key, if there is one.
    pub fn row_position(&self, key: usize) -> (found: Option<usize>)
        ensures
            match found {
                Some(position) => position < self.rows() && self.row_data@[position as int].0
                    == key && forall|i: int| 0 <= i < position ==> self.row_data@[i].0 != key,
                None => unused_key(self.row_data@, key),
            },
    {
        position_of(&self.row_data, key)
    }

    /// The position of the column with the given key, if there is one.
    pub fn column_position(&self, key: usize) -> (found: Option<usize>)
        ensures
            match found {
                Some(position) => position < self.columns() && self.column_data@[position as int].0
                    == key && forall|i: int| 0 <= i < position ==> self.column_data@[i].0 != key,
                None => unused_key(self.column_data@, key),
            },
    {
        position_of(&self.column_data, key)
    }

    /// The state of the check box at (`row`, `column`).
    pub fn checked(&self, row: usize, column: usize) -> (state: bool)
        requires
            self.wf(),
            row < self.rows(),
            column < self.columns(),
        ensures
            state == self.cell(row, column),
    {
        let key = cell_key(row, column);
        proof {
            assert(box_keys(self.rows(), self.columns()).contains(key));
        }
        *self.boxes.get(&key).unwrap()
    }

    /// Sets the check box at (`row`, `column`) to `state`.
    pub fn set(&mut self, row: usize, column: usize, state: bool)
        requires
            old(self).wf(),
            row < old(self).rows(),
            column < old(self).columns(),
        ensures
            final(self).wf(),
            final(self).row_data == old(self).row_data,
            final(self).column_data == old(self).column_data,
            final(self).cells() == old(self).cells().insert((row, column), state),
    {
        let key = cell_key(row, column);
        proof {
            assert(box_keys(self.rows(), self.columns()).contains(key));
        }
        self.boxes.insert(key, state);
        proof {
            assert(self.boxes@.dom() =~= box_keys(self.rows(), self.columns()));
            assert forall|p: (usize, usize)| p.0 < self.rows() && p.1 < self.columns() implies
                (#[trigger] self.cells()[p]) == old(self).cells().insert((row, column), state)[p]
            by {
                key_parts(p.0, p.1);
            }
            assert(self.cells() =~= old(self).cells().insert((row, column), state));
        }
    }

    /// Appends a row with the given key at the end, all its boxes clear.
    pub fn push_row(&mut self, key: usize)
        requires
            old(self).wf(),
            old(self).rows() < usize::MAX,
            unused_key(old(self).row_data@, key),
        ensures
            final(self).wf(),
            final(self).row_data@ == old(self).row_data@.push((key, old(self).rows() as usize)),
            final(self).column_data == old(self).column_data,
            forall|r: usize, c: usize|
                r < old(self).rows() && c < old(self).columns() ==>
                    final(self).cell(r, c) == old(self).cell(r, c),
            forall|r: usize, c: usize|
                r == old(self).rows() && c < old(self).columns() ==> !final(self).cell(r, c),
    {
        let row = self.row_data.len();
        let columns = self.column_data.len();
        self.row_data.push((key, row));
        let mut column: usize = 0;
        while column < columns
            invariant
                column <= columns,
                row == old(self).rows(),
                row < usize::MAX,
                columns == old(self).columns(),
                self.row_data@ == old(self).row_data@.push((key, row)),
                self.column_data == old(self).column_data,
                self.boxes@.dom() =~= box_keys(row as nat, columns as nat).union(
                    Set::new(|k: u128| key_row(k) == row && key_column(k) < column),
                ),
                old(self).boxes@.dom() == box_keys(row as nat, columns as nat),
                forall|k: u128|
                    old(self).boxes@.contains_key(k) ==> self.boxes@[k] == old(self).boxes@[k],
                forall|c: usize| c < column ==> !self.boxes@[key_of(row, c)],
            decreases columns - column,
        {
            let k = cell_key(row, column);
            self.boxes.insert(k, false);
            proof {
                assert forall|c: usize| c < column + 1 implies !self.boxes@[key_of(row, c)] by {
                    key_parts(row, c);
                }
            }
            column += 1;
        }
        proof {
            assert(self.boxes@.dom() =~= box_keys(self.rows(), self.columns()));
            assert forall|r: usize, c: usize|
                r < old(self).rows() && c < old(self).columns() implies
                    self.cell(r, c) == old(self).cell(r, c) by {
                key_parts(r, c);
            }
        }
    }

    /// Appends a column with the given key at the end, all its boxes clear.
    pub fn push_column(&mut self, key: usize)
        requires
            old(self).wf(),
            old(self).columns() < usize::MAX,
            unused_key(old(self).column_data@, key),
        ensures
            final(self).wf(),
            final(self).row_data == old(self).row_data,
            final(self).column_data@ == old(self).column_data@.push(
                (key, old(self).columns() as usize),
            ),
            forall|r: usize, c: usize|
                r < old(self).rows() && c < old(self).columns() ==>
                    final(self).cell(r, c) == old(self).cell(r, c),
            forall|r: usize, c: usize|
                r < old(self).rows() && c == old(self).columns() ==> !final(self).cell(r, c),
    {
        let column = self.column_data.len();
        let rows = self.row_data.len();
        self.column_data.push((key, column));
        let mut row: usize = 0;
        while row < rows
            invariant
                row <= rows,
                column == old(self).columns(),
                column < usize::MAX,
                rows == old(self).rows(),
                self.column_data@ == old(self).column_data@.push((key, column)),
                self.row_data == old(self).row_data,
                self.boxes@.dom() =~= box_keys(rows as nat, column as nat).union(
                    Set::new(|k: u128| key_column(k) == column && key_row(k) < row),
                ),
                old(self).boxes@.dom() == box_keys(rows as nat, column as nat),
                forall|k: u128|
                    old(self).boxes@.contains_key(k) ==> self.boxes@[k] == old(self).boxes@[k],
                forall|r: usize| r < row ==> !self.boxes@[key_of(r, column)],
            decreases rows - row,
        {
            let k = cell_key(row, column);
            self.boxes.insert(k, false);
            proof {
                assert forall|r: usize| r < row + 1 implies !self.boxes@[key_of(r, column)] by {
                    key_parts(r, column);
                }
            }
            row += 1;
        }
        proof {
            assert(self.boxes@.dom() =~= box_keys(self.rows(), self.columns()));
            assert forall|r: usize, c: usize|
                r < old(self).rows() && c < old(self).columns() implies
                    self.cell(r, c) == old(self).cell(r, c) by {
                key_parts(r, c);
            }
        }
    }

    /// Takes out the row at `index`. Its boxes are dropped; the boxes of
    /// every later row move up by one row; the later rows keep their keys
    /// and get a position smaller by one; the rows before it are untouched.
    pub fn remove_row(&mut self, index: usize)
        requires
            old(self).wf(),
            index < old(self).rows(),
        ensures
            final(self).wf(),
            final(self).row_data@ == closed_up(old(self).row_data@, index as int),
            final(self).column_data == old(self).column_data,
            forall|r: usize, c: usize|
                r < final(self).rows() && c < final(self).columns() ==> final(self).cell(r, c)
                    == if r < index {
                    old(self).cell(r, c)
                } else {
                    old(self).cell((r + 1) as usize, c)
                },
    {
        let rows = self.row_data.len();
        let columns = self.column_data.len();
        let ghost start = self.boxes@;
        let mut column: usize = 0;
        while column < columns
            invariant
                column <= columns,
                index < rows,
                rows == old(self).rows(),
                columns == old(self).columns(),
                start == old(self).boxes@,
                start.dom() == box_keys(rows as nat, columns as nat),
                self.row_data == old(self).row_data,
                self.column_data == old(self).column_data,
                self.boxes@ =~= rows_closing(
                    start,
                    rows as nat,
                    columns as nat,
                    index as int,
                    column as int,
                ),
            decreases columns - column,
        {
            let gone = cell_key(index, column);
            self.boxes.remove(&gone);
            let mut row: usize = index + 1;
            while row < rows
                invariant
                    index < row <= rows,
                    column < columns,
                    rows == old(self).rows(),
                    columns == old(self).columns(),
                    start == old(self).boxes@,
                    start.dom() == box_keys(rows as nat, columns as nat),
                    self.row_data == old(self).row_data,
                    self.column_data == old(self).column_data,
                    self.boxes@ =~= row_closing(
                        start,
                        rows as nat,
                        columns as nat,
                        index as int,
                        column as int,
                        row as int,
                    ),
                decreases rows - row,
            {
                let from = cell_key(row, column);
                let state = self.boxes.remove(&from).unwrap();
                let to = cell_key(row - 1, column);
                self.boxes.insert(to, state);
                row += 1;
            }
            column += 1;
        }
        self.row_data.remove(index);
        let mut i: usize = 0;
        while i < rows - 1
            invariant
                i <= rows - 1,
                index < rows,
                rows == old(self).rows(),
                contiguous(old(self).row_data@),
                self.column_data == old(self).column_data,
                self.boxes@ == rows_closing(
                    start,
                    rows as nat,
                    columns as nat,
                    index as int,
                    columns as int,
                ),
                self.row_data@.len() == rows - 1,
                forall|j: int|
                    0 <= j < i ==> self.row_data@[j] == closed_up(
                        old(self).row_data@,
                        index as int,
                    )[j],
                forall|j: int|
                    i <= j < rows - 1 ==> self.row_data@[j] == old(self).row_data@.remove(
                        index as int,
                    )[j],
            decreases rows - 1 - i,
        {
            let entry = self.row_data[i];
            if entry.1 > index {
                self.row_data.set(i, (entry.0, entry.1 - 1));
            }
            i += 1;
        }
        proof {
            assert(self.row_data@ =~= closed_up(old(self).row_data@, index as int));
            assert(self.boxes@.dom() =~= box_keys(self.rows(), self.columns()));
            assert forall|r: usize, c: usize|
                r < self.rows() && c < self.columns() implies self.cell(r, c) == if r < index {
                old(self).cell(r, c)
            } else {
                old(self).cell((r + 1) as usize, c)
            } by {
                key_parts(r, c);
            }
        }
    }

    /// Takes out the column at `index`. Its boxes are dropped; the boxes of
    /// every later column move left by one column; the later columns keep
    /// their keys and get a position smaller by one; the columns before it
    /// are untouched.
    pub fn remove_column(&mut self, index: usize)
        requires
            old(self).wf(),
            index < old(self).columns(),
        ensures
            final(self).wf(),
            final(self).row_data == old(self).row_data,
            final(self).column_data@ == closed_up(old(self).column_data@, index as int),
            forall|r: usize, c: usize|
                r < final(self).rows() && c < final(self).columns() ==> final(self).cell(r, c)
                    == if c < index {
                    old(self).cell(r, c)
                } else {
                    old(self).cell(r, (c + 1) as usize)
                },
    {
        let rows = self.row_data.len();
        let columns = self.column_data.len();
        let ghost start = self.boxes@;
        let mut row: usize = 0;
        while row < rows
            invariant
                row <= rows,
                index < columns,
                rows == old(self).rows(),
                columns == old(self).columns(),
                start == old(self).boxes@,
                start.dom() == box_keys(rows as nat, columns as nat),
                self.row_data == old(self).row_data,
                self.column_data == old(self).column_data,
                self.boxes@ =~= columns_closing(
                    start,
                    rows as nat,
                    columns as nat,
                    index as int,
                    row as int,
                ),
            decreases rows - row,
        {
            let gone = cell_key(row, index);
            self.boxes.remove(&gone);
            let mut column: usize = index + 1;
            while column < columns
                invariant
                    index < column <= columns,
                    row < rows,
                    rows == old(self).rows(),
                    columns == old(self).columns(),
                    start == old(self).boxes@,
                    start.dom() == box_keys(rows as nat, columns as nat),
                    self.row_data == old(self).row_data,
                    self.column_data == old(self).column_data,
                    self.boxes@ =~= column_closing(
                        start,
                        rows as nat,
                        columns as nat,
                        index as int,
                        row as int,
                        column as int,
                    ),
                decreases columns - column,
            {
                let from = cell_key(row, column);
                let state = self.boxes.remove(&from).unwrap();
                let to = cell_key(row, column - 1);
                self.boxes.insert(to, state);
                column += 1;
            }
            row += 1;
        }
        self.column_data.remove(index);
        let mut i: usize = 0;
        while i < columns - 1
            invariant
                i <= columns - 1,
                index < columns,
                columns == old(self).columns(),
                contiguous(old(self).column_data@),
                self.row_data == old(self).row_data,
                self.boxes@ == columns_closing(
                    start,
                    rows as nat,
                    columns as nat,
                    index as int,
                    rows as int,
                ),
                self.column_data@.len() == columns - 1,
                forall|j: int|
                    0 <= j < i ==> self.column_data@[j] == closed_up(
                        old(self).column_data@,
                        index as int,
                    )[j],
                forall|j: int|
                    i <= j < columns - 1 ==> self.column_data@[j] == old(self).column_data@.remove(
                        index as int,
                    )[j],
            decreases columns - 1 - i,
        {
            let entry = self.column_data[i];
            if entry.1 > index {
                self.column_data.set(i, (entry.0, entry.1 - 1));
            }
            i += 1;
        }
        proof {
            assert(self.column_data@ =~= closed_up(old(self).column_data@, index as int));
            assert(self.boxes@.dom() =~= box_keys(self.rows(), self.columns()));
            assert forall|r: usize, c: usize|
                r < self.rows() && c < self.columns() implies self.cell(r, c) == if c < index {
                old(self).cell(r, c)
            } else {
                old(self).cell(r, (c + 1) as usize)
            } by {
                key_parts(r, c);
            }
        }
    }
}

} // verus!
