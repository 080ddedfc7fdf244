//! The table model: the table that the user edits, kept in step with the
//! formal context that the algorithms read.
//!
//! Every operation changes both before it returns. The invariant
//! [`TableModel::inv`] says what "in step" means: as many rows as objects,
//! as many columns as attributes, and a box is checked exactly where the
//! context has a cross.

use crate::attribute_set::empty_set;
use crate::context::{texts, Context};
use crate::engine::{without_column, without_row};
use crate::table::{closed_up, contiguous, keys_below, Table};
use vstd::prelude::*;

verus! {

/// The names that a fresh table starts with.
pub open spec fn default_objects() -> Seq<Seq<char>> {
    seq!["Object 0"@, "Object 1"@, "Object 2"@, "Object 3"@, "Object 4"@]
}

/// The names that a fresh table starts with.
pub open spec fn default_attributes() -> Seq<Seq<char>> {
    seq!["Attribute 0"@, "Attribute 1"@, "Attribute 2"@, "Attribute 3"@, "Attribute 4"@]
}

/// A table and the context it mirrors, with the counters that hand out
/// row and column keys and the cell that has the focus.
pub struct TableModel {
    context: Context,
    table: Table,
    row_key: usize,
    column_key: usize,
    focus: (usize, usize),
}

impl TableModel {
    /// The context.
    pub closed spec fn context(&self) -> Context {
        self.context
    }

    /// The table.
    pub closed spec fn table(&self) -> Table {
        self.table
    }

    /// The key that the next new row gets.
    pub closed spec fn next_row_key(&self) -> usize {
        self.row_key
    }

    /// The key that the next new column gets.
    pub closed spec fn next_column_key(&self) -> usize {
        self.column_key
    }

    /// The focused cell, as (row position, column position).
    pub closed spec fn focus(&self) -> (usize, usize) {
        self.focus
    }

    /// Table and context agree: every box is checked exactly where the
    /// context has a cross.
    pub open spec fn synchronized(&self) -> bool {
        forall|r: usize, c: usize|
            r < self.table().rows() && c < self.table().columns() ==> #[trigger] self.table().cell(
                r,
                c,
            ) == self.context().incidence().contains((r, c))
    }

    /// The invariant of the model. Every constructor establishes it and
    /// every operation keeps it.
    pub open spec fn inv(&self) -> bool {
        &&& self.context().wf()
        &&& self.table().wf()
        &&& self.table().rows() == self.context().objects().len()
        &&& self.table().columns() == self.context().attributes().len()
        &&& self.table().rows() >= 1
        &&& self.table().columns() >= 1
        &&& self.synchronized()
        &&& keys_below(self.table().row_data@, self.next_row_key())
        &&& keys_below(self.table().column_data@, self.next_column_key())
        &&& self.focus().0 < self.table().rows()
        &&& self.focus().1 < self.table().columns()
    }

    /// A fresh table: five objects and five attributes with their default
    /// names and no crosses.
    pub fn new() -> (model: TableModel)
        ensures
            model.inv(),
            model.context().objects() == default_objects(),
            model.context().attributes() == default_attributes(),
            model.context().incidence() == Set::<(usize, usize)>::empty(),
            model.table().row_data@ == Seq::new(5, |i: int| (i as usize, i as usize)),
            model.table().column_data@ == Seq::new(5, |i: int| (i as usize, i as usize)),
            model.next_row_key() == 5,
            model.next_column_key() == 5,
            model.focus() == (0usize, 0usize),
    {
        let objects: Vec<String> = vec![
            String::from_str("Object 0"),
            String::from_str("Object 1"),
            String::from_str("Object 2"),
            String::from_str("Object 3"),
            String::from_str("Object 4"),
        ];
        let attributes: Vec<String> = vec![
            String::from_str("Attribute 0"),
            String::from_str("Attribute 1"),
            String::from_str("Attribute 2"),
            String::from_str("Attribute 3"),
            String::from_str("Attribute 4"),
        ];
        let marks: Vec<(usize, usize)> = Vec::new();
        proof {
            assert(marks@.to_set() =~= Set::<(usize, usize)>::empty());
            assert(texts(objects@) =~= default_objects());
            assert(texts(attributes@) =~= default_attributes());
        }
        let context = Context::from_parts(&objects, &attributes, &marks).unwrap();
        TableModel::from_context(context).unwrap()
    }

    /// In a model that meets its invariant, the check boxes are exactly the
    /// cells of the table, and each shows whether the context has the cross.
    pub proof fn boxes_mirror_crosses(&self)
        requires
            self.inv(),
        ensures
            self.table().cells().dom() == Set::new(
                |p: (usize, usize)| p.0 < self.table().rows() && p.1 < self.table().columns(),
            ),
            forall|p: (usize, usize)|
                self.table().cells().contains_key(p) ==> self.table().cells()[p]
                    == self.context().incidence().contains(p),
            forall|p: (usize, usize)|
                self.context().incidence().contains(p) ==> self.table().cells().contains_key(p),
    {
        assert(self.table().cells().dom() =~= Set::new(
            |p: (usize, usize)| p.0 < self.table().rows() && p.1 < self.table().columns(),
        ));
        assert forall|p: (usize, usize)| self.table().cells().contains_key(p) implies
            self.table().cells()[p]
            == self.context().incidence().contains(p) by {
            assert(self.table().cell(p.0, p.1) == self.context().incidence().contains((p.0, p.1)));
        }
    }

    /// The model of a given context, with keys `0, 1, ..` and the focus on
    /// the first cell. There is none for a context without objects or
    /// without attributes.
    pub fn from_context(context: Context) -> (built: Option<TableModel>)
        requires
            context.wf(),
        ensures
            built is Some <==> context.objects().len() >= 1 && context.attributes().len() >= 1,
            built matches Some(model) ==> {
                &&& model.inv()
                &&& model.context() == context
                &&& model.table().row_data@ == Seq::new(
                    context.objects().len(),
                    |i: int| (i as usize, i as usize),
                )
                &&& model.table().column_data@ == Seq::new(
                    context.attributes().len(),
                    |i: int| (i as usize, i as usize),
                )
                &&& model.next_row_key() == context.objects().len()
                &&& model.next_column_key() == context.attributes().len()
                &&& model.focus() == (0usize, 0usize)
            },
    {
        let rows = context.object_count();
        let columns = context.attribute_count();
        if rows == 0 || columns == 0 {
            return None;
        }
        let mut table = Table::new();
        let mut row: usize = 0;
        while row < rows
            invariant
                row <= rows,
                table.wf(),
                table.columns() == 0,
                table.row_data@ =~= Seq::new(row as nat, |i: int| (i as usize, i as usize)),
            decreases rows - row,
        {
            table.push_row(row);
            row += 1;
        }
        let mut column: usize = 0;
        while column < columns
            invariant
                column <= columns,
                table.wf(),
                table.row_data@ == Seq::new(rows as nat, |i: int| (i as usize, i as usize)),
                table.column_data@ =~= Seq::new(column as nat, |i: int| (i as usize, i as usize)),
                forall|r: usize, c: usize| r < rows && c < column ==> !table.cell(r, c),
            decreases columns - column,
        {
            table.push_column(column);
            column += 1;
        }
        let mut row: usize = 0;
        while row < rows
            invariant
                row <= rows,
                rows == context.objects().len(),
                columns == context.attributes().len(),
                table.wf(),
                table.row_data@ == Seq::new(rows as nat, |i: int| (i as usize, i as usize)),
                table.column_data@ == Seq::new(columns as nat, |i: int| (i as usize, i as usize)),
                forall|r: usize, c: usize|
                    r < row && c < columns ==> table.cell(r, c) == context.incidence().contains(
                        (r, c),
                    ),
                forall|r: usize, c: usize| row <= r < rows && c < columns ==> !table.cell(r, c),
            decreases rows - row,
        {
            let mut column: usize = 0;
            while column < columns
                invariant
                    column <= columns,
                    row < rows,
                    rows == context.objects().len(),
                    columns == context.attributes().len(),
                    table.wf(),
                    table.row_data@ == Seq::new(rows as nat, |i: int| (i as usize, i as usize)),
                    table.column_data@ == Seq::new(
                        columns as nat,
                        |i: int| (i as usize, i as usize),
                    ),
                    forall|r: usize, c: usize|
                        r < row && c < columns ==> table.cell(r, c) == context.incidence().contains(
                            (r, c),
                        ),
                    forall|c: usize|
                        c < column ==> table.cell(row, c) == context.incidence().contains((row, c)),
                    forall|c: usize| column <= c < columns ==> !table.cell(row, c),
                    forall|r: usize, c: usize| row < r < rows && c < columns ==> !table.cell(r, c),
                decreases columns - column,
            {
                if context.has_cross(row, column) {
                    let ghost before = table;
                    table.set(row, column, true);
                    proof {
                        assert forall|r: usize, c: usize| r < rows && c < columns implies
                            table.cell(
                            r,
                            c,
                        ) == if r == row && c == column {
                            true
                        } else {
                            before.cell(r, c)
                        } by {
                            assert(table.cells()[(r, c)] == table.cell(r, c));
                            assert(before.cells()[(r, c)] == before.cell(r, c));
                        }
                    }
                }
                column += 1;
            }
            row += 1;
        }
        Some(TableModel { context, table, row_key: rows, column_key: columns, focus: (0, 0) })
    }

    /// The context that the table mirrors.
    pub fn context_ref(&self) -> (context: &Context)
        ensures
            *context == self.context(),
    {
        &self.context
    }

    /// The table.
    pub fn table_ref(&self) -> (table: &Table)
        ensures
            *table == self.table(),
    {
        &self.table
    }

    /// The number of rows, which is the number of objects.
    pub fn row_count(&self) -> (count: usize)
        ensures
            count == self.table().rows(),
    {
        self.table.row_data.len()
    }

    /// The number of columns, which is the number of attributes.
    pub fn column_count(&self) -> (count: usize)
        ensures
            count == self.table().columns(),
    {
        self.table.column_data.len()
    }

    /// Whether the box at (`row`, `column`) is checked.
    pub fn is_checked(&self, row: usize, column: usize) -> (state: bool)
        requires
            self.inv(),
            row < self.table().rows(),
            column < self.table().columns(),
        ensures
            state == self.table().cell(row, column),
            state == self.context().incidence().contains((row, column)),
    {
        self.table.checked(row, column)
    }

    /// The focused cell.
    pub fn focused(&self) -> (cell: (usize, usize))
        ensures
            cell == self.focus(),
    {
        self.focus
    }

    /// Moves the focus to (`row`, `column`).
    pub fn set_focus(&mut self, row: usize, column: usize)
        requires
            old(self).inv(),
            row < old(self).table().rows(),
            column < old(self).table().columns(),
        ensures
            final(self).inv(),
            final(self).synchronized(),
            final(self).focus() == (row, column),
            final(self).context() == old(self).context(),
            final(self).table() == old(self).table(),
            final(self).next_row_key() == old(self).next_row_key(),
            final(self).next_column_key() == old(self).next_column_key(),
    {
        self.focus = (row, column);
    }

    /// Whether there is room for one more object: neither the positions
    /// nor the keys have run out.
    pub fn can_add_object(&self) -> (room: bool)
        ensures
            room == (self.table().rows() < usize::MAX && self.next_row_key() < usize::MAX),
    {
        self.table.row_data.len() < usize::MAX && self.row_key < usize::MAX
    }

    /// Whether there is room for one more attribute: neither the positions
    /// nor the keys have run out.
    pub fn can_add_attribute(&self) -> (room: bool)
        ensures
            room == (self.table().columns() < usize::MAX && self.next_column_key() < usize::MAX),
    {
        self.table.column_data.len() < usize::MAX && self.column_key < usize::MAX
    }

    /// Appends an object without crosses: a new last row with a fresh key
    /// and clear boxes, and a new last object in the context.
    pub fn add_object(&mut self, name: String)
        requires
            old(self).inv(),
            old(self).table().rows() < usize::MAX,
            old(self).next_row_key() < usize::MAX,
        ensures
            final(self).inv(),
            final(self).synchronized(),
            final(self).table().row_data@ == old(self).table().row_data@.push(
                (old(self).next_row_key(), old(self).table().rows() as usize),
            ),
            final(self).table().column_data == old(self).table().column_data,
            forall|r: usize, c: usize|
                r < old(self).table().rows() && c < old(self).table().columns() ==>
                    final(self).table().cell(r, c) == old(self).table().cell(r, c),
            forall|r: usize, c: usize|
                r == old(self).table().rows() && c < old(self).table().columns() ==>
                    !final(self).table().cell(r, c),
            final(self).context().objects() == old(self).context().objects().push(name@),
            final(self).context().attributes() == old(self).context().attributes(),
            final(self).context().incidence() == old(self).context().incidence(),
            final(self).next_row_key() == old(self).next_row_key() + 1,
            final(self).next_column_key() == old(self).next_column_key(),
            final(self).focus() == old(self).focus(),
    {
        let key = self.row_key;
        self.table.push_row(key);
        self.row_key = key + 1;
        let none = empty_set();
        self.context.add_object(name, &none);
        proof {
            assert(self.context.incidence() =~= old(self).context().incidence());
        }
    }

    /// Appends an attribute without crosses: a new last column with a fresh
    /// key and clear boxes, and a new last attribute in the context.
    pub fn add_attribute(&mut self, name: String)
        requires
            old(self).inv(),
            old(self).table().columns() < usize::MAX,
            old(self).next_column_key() < usize::MAX,
        ensures
            final(self).inv(),
            final(self).synchronized(),
            final(self).table().row_data == old(self).table().row_data,
            final(self).table().column_data@ == old(self).table().column_data@.push(
                (old(self).next_column_key(), old(self).table().columns() as usize),
            ),
            forall|r: usize, c: usize|
                r < old(self).table().rows() && c < old(self).table().columns() ==>
                    final(self).table().cell(r, c) == old(self).table().cell(r, c),
            forall|r: usize, c: usize|
                r < old(self).table().rows() && c == old(self).table().columns() ==>
                    !final(self).table().cell(r, c),
            final(self).context().objects() == old(self).context().objects(),
            final(self).context().attributes() == old(self).context().attributes().push(name@),
            final(self).context().incidence() == old(self).context().incidence(),
            final(self).next_row_key() == old(self).next_row_key(),
            final(self).next_column_key() == old(self).next_column_key() + 1,
            final(self).focus() == old(self).focus(),
    {
        let key = self.column_key;
        self.table.push_column(key);
        self.column_key = key + 1;
        let none = empty_set();
        self.context.add_attribute(name, &none);
        proof {
            assert(self.context.incidence() =~= old(self).context().incidence());
        }
    }

    /// Removes the object at `position`, unless it is the only one: then
    /// nothing changes. Otherwise the row and the object go, with their boxes
    /// and crosses; every later row moves up by one position and keeps its
    /// key; and a focus that was on or below the removed row goes to the
    /// last row.
    pub fn remove_object(&mut self, position: usize)
        requires
            old(self).inv(),
            position < old(self).table().rows(),
        ensures
            final(self).inv(),
            final(self).synchronized(),
            contiguous(final(self).table().row_data@),
            old(self).table().rows() == 1 ==> *final(self) == *old(self),
            old(self).table().rows() > 1 ==> {
                &&& final(self).table().row_data@ == closed_up(
                    old(self).table().row_data@,
                    position as int,
                )
                &&& final(self).table().column_data == old(self).table().column_data
                &&& forall|r: usize, c: usize|
                    r < final(self).table().rows() && c < final(self).table().columns() ==>
                        final(self).table().cell(r, c) == if r < position {
                        old(self).table().cell(r, c)
                    } else {
                        old(self).table().cell((r + 1) as usize, c)
                    }
                &&& final(self).context().objects() == old(self).context().objects().remove(
                    position as int,
                )
                &&& final(self).context().attributes() == old(self).context().attributes()
                &&& final(self).context().incidence() == without_row(
                    old(self).context().incidence(),
                    position,
                )
                &&& final(self).next_row_key() == old(self).next_row_key()
                &&& final(self).next_column_key() == old(self).next_column_key()
                &&& final(self).focus() == if old(self).focus().0 >= position {
                    ((old(self).table().rows() - 2) as usize, old(self).focus().1)
                } else {
                    old(self).focus()
                }
            },
    {
        if self.table.row_data.len() <= 1 {
            return ;
        }
        self.table.remove_row(position);
        self.context.remove_object(position);
        if self.focus.0 >= position {
            self.focus = (self.table.row_data.len() - 1, self.focus.1);
        }
    }

    /// Removes the attribute at `position`, unless it is the only one: then
    /// nothing changes. Otherwise the column and the attribute go, with
    /// their boxes and crosses; every later column moves down by one
    /// position and keeps its key; and a focus that was on or right of the
    /// removed column goes to the last column.
    pub fn remove_attribute(&mut self, position: usize)
        requires
            old(self).inv(),
            position < old(self).table().columns(),
        ensures
            final(self).inv(),
            final(self).synchronized(),
            contiguous(final(self).table().column_data@),
            old(self).table().columns() == 1 ==> *final(self) == *old(self),
            old(self).table().columns() > 1 ==> {
                &&& final(self).table().row_data == old(self).table().row_data
                &&& final(self).table().column_data@ == closed_up(
                    old(self).table().column_data@,
                    position as int,
                )
                &&& forall|r: usize, c: usize|
                    r < final(self).table().rows() && c < final(self).table().columns() ==>
                        final(self).table().cell(r, c) == if c < position {
                        old(self).table().cell(r, c)
                    } else {
                        old(self).table().cell(r, (c + 1) as usize)
                    }
                &&& final(self).context().objects() == old(self).context().objects()
                &&& final(self).context().attributes() == old(self).context().attributes().remove(
                    position as int,
                )
                &&& final(self).context().incidence() == without_column(
                    old(self).context().incidence(),
                    position,
                )
                &&& final(self).next_row_key() == old(self).next_row_key()
                &&& final(self).next_column_key() == old(self).next_column_key()
                &&& final(self).focus() == if old(self).focus().1 >= position {
                    (old(self).focus().0, (old(self).table().columns() - 2) as usize)
                } else {
                    old(self).focus()
                }
            },
    {
        if self.table.column_data.len() <= 1 {
            return ;
        }
        self.table.remove_column(position);
        self.context.remove_attribute(position);
        if self.focus.1 >= position {
            self.focus = (self.focus.0, self.table.column_data.len() - 1);
        }
    }

    /// Flips the box at (`row`, `column`) and the cross of that object and
    /// attribute with it. Returns the new state.
    pub fn toggle_cell(&mut self, row: usize, column: usize) -> (state: bool)
        requires
            old(self).inv(),
            row < old(self).table().rows(),
            column < old(self).table().columns(),
        ensures
            final(self).inv(),
            final(self).synchronized(),
            state == !old(self).table().cell(row, column),
            final(self).table().row_data == old(self).table().row_data,
            final(self).table().column_data == old(self).table().column_data,
            final(self).table().cells() == old(self).table().cells().insert((row, column), state),
            final(self).context().objects() == old(self).context().objects(),
            final(self).context().attributes() == old(self).context().attributes(),
            final(self).context().incidence() == if state {
                old(self).context().incidence().insert((row, column))
            } else {
                old(self).context().incidence().remove((row, column))
            },
            final(self).next_row_key() == old(self).next_row_key(),
            final(self).next_column_key() == old(self).next_column_key(),
            final(self).focus() == old(self).focus(),
    {
        let state = !self.table.checked(row, column);
        self.table.set(row, column, state);
        self.context.set_cross(row, column, state);
        proof {
            assert forall|r: usize, c: usize|
                r < self.table.rows() && c < self.table.columns() implies
                    #[trigger] self.table.cell(
                r,
                c,
            ) == self.context.incidence().contains((r, c)) by {
                assert(self.table.cells()[(r, c)] == self.table.cell(r, c));
                assert(old(self).table.cells()[(r, c)] == old(self).table.cell(r, c));
            }
        }
        state
    }

    /// Gives the object at `position` a new name. Positions, keys, boxes and
    /// crosses stay as they are.
    pub fn rename_object(&mut self, position: usize, name: String)
        requires
            old(self).inv(),
            position < old(self).table().rows(),
        ensures
            final(self).inv(),
            final(self).synchronized(),
            final(self).table() == old(self).table(),
            final(self).context().objects() == old(self).context().objects().update(
                position as int,
                name@,
            ),
            final(self).context().attributes() == old(self).context().attributes(),
            final(self).context().incidence() == old(self).context().incidence(),
            final(self).next_row_key() == old(self).next_row_key(),
            final(self).next_column_key() == old(self).next_column_key(),
            final(self).focus() == old(self).focus(),
    {
        self.context.rename_object(position, name);
    }

    /// Gives the attribute at `position` a new name. Positions, keys, boxes
    /// and crosses stay as they are.
    pub fn rename_attribute(&mut self, position: usize, name: String)
        requires
            old(self).inv(),
            position < old(self).table().columns(),
        ensures
            final(self).inv(),
            final(self).synchronized(),
            final(self).table() == old(self).table(),
            final(self).context().objects() == old(self).context().objects(),
            final(self).context().attributes() == old(self).context().attributes().update(
                position as int,
                name@,
            ),
            final(self).context().incidence() == old(self).context().incidence(),
            final(self).next_row_key() == old(self).next_row_key(),
            final(self).next_column_key() == old(self).next_column_key(),
            final(self).focus() == old(self).focus(),
    {
        self.context.rename_attribute(position, name);
    }
}

} // verus!
