//! Reading a context from the bytes of a `.cxt` file.
//!
//! The engine does the reading. It trusts the file in two places: it
//! reserves room for as many names as the file announces, and it enters
//! every cross of a row into a table with one entry per announced
//! attribute. A file that announces more than it holds, or that has a cross
//! beyond the last attribute, would bring it down. So the bytes are looked
//! over first, and only a file that passes is handed to the engine.
//!
//! What the engine then returns is not taken on trust either: it is held
//! against the bytes ([`crate::spelling`]), so that a context that comes out
//! of [`import_context`] is known to be the one that the file spells out.

use crate::closure::bounded;
use crate::context::Context;
use crate::engine::{attribute_names, coherent, crosses, object_names};
use crate::spelling::{agrees, reads_as};
use odis::FormalContext;
use vstd::prelude::*;

verus! {

/// What `FormalContext::<String>::from` reads from the bytes of a file: the
/// object names, the attribute names and the crosses; or nothing, where it
/// reports an error.
pub uninterp spec fn parsed_of(bytes: Seq<u8>) -> Option<
    (Seq<Seq<char>>, Seq<Seq<char>>, Set<(usize, usize)>),
>;

/// The position of the first line feed at or after `from`, or the length of
/// the text if there is none.
pub open spec fn feed_after(bytes: Seq<u8>, from: int) -> int
    decreases bytes.len() - from,
{
    if from >= bytes.len() {
        bytes.len() as int
    } else if bytes[from] == 10 {
        from
    } else {
        feed_after(bytes, from + 1)
    }
}

/// Where the line after the one at `start` begins; the length of the text
/// if the line at `start` is the last.
pub open spec fn next_line(bytes: Seq<u8>, start: int) -> int {
    if feed_after(bytes, start) < bytes.len() {
        feed_after(bytes, start) + 1
    } else {
        bytes.len() as int
    }
}

/// Where the text goes on after `count` lines from `start`, if it has that
/// many.
pub open spec fn skip_lines(bytes: Seq<u8>, start: int, count: nat) -> Option<int>
    decreases count,
{
    if count == 0 {
        Some(start)
    } else if start >= bytes.len() {
        None
    } else {
        skip_lines(bytes, next_line(bytes, start), (count - 1) as nat)
    }
}

/// The number that the decimal digits in `bytes[from..to]` stand for.
pub open spec fn number(bytes: Seq<u8>, from: int, to: int) -> nat
    decreases to - from,
{
    if to <= from {
        0
    } else {
        (number(bytes, from, to - 1) * 10 + (bytes[to - 1] - 48)) as nat
    }
}

/// Every byte in `bytes[from..to]` is a decimal digit.
pub open spec fn all_digits(bytes: Seq<u8>, from: int, to: int) -> bool {
    forall|i: int| from <= i < to ==> 48 <= #[trigger] bytes[i] <= 57
}

/// Where the content of the line `bytes[from..to]` ends: before a carriage
/// return that stands right before the line feed.
pub open spec fn content_end(bytes: Seq<u8>, from: int, to: int) -> int {
    if from < to < bytes.len() && bytes[to - 1] == 13 {
        to - 1
    } else {
        to
    }
}

/// The count that the line `bytes[from..to]` announces: decimal digits,
/// with or without a plus sign before them, that stand for a number a
/// `usize` can hold.
pub open spec fn count_of(bytes: Seq<u8>, from: int, to: int) -> Option<nat> {
    let stop = content_end(bytes, from, to);
    let first = if from < stop && bytes[from] == 43 {
        from + 1
    } else {
        from
    };
    if first < stop && all_digits(bytes, first, stop) && number(bytes, first, stop)
        <= usize::MAX {
        Some(number(bytes, first, stop))
    } else {
        None
    }
}

/// The byte does not begin a character: it continues one.
pub open spec fn continues(byte: u8) -> bool {
    128 <= byte < 192
}

/// The number of characters that begin in `bytes[from..to]`.
pub open spec fn chars_in(bytes: Seq<u8>, from: int, to: int) -> nat
    decreases to - from,
{
    if to <= from {
        0
    } else {
        chars_in(bytes, from, to - 1) + if continues(bytes[to - 1]) {
            0nat
        } else {
            1nat
        }
    }
}

/// The byte marks a cross: `X` or `x`.
pub open spec fn is_cross(byte: u8) -> bool {
    byte == 88 || byte == 120
}

/// The row `bytes[from..to]` has no cross at or beyond character
/// `columns`.
pub open spec fn row_fits(bytes: Seq<u8>, from: int, to: int, columns: nat) -> bool {
    forall|i: int| from <= i < to && is_cross(#[trigger] bytes[i]) ==> chars_in(bytes, from, i)
        < columns
}

/// From `start` on the text has `rows` lines, and none has a cross at or
/// beyond character `columns`.
pub open spec fn rows_fit(bytes: Seq<u8>, start: int, rows: nat, columns: nat) -> bool
    decreases rows,
{
    rows == 0 || (start < bytes.len() && row_fits(
        bytes,
        start,
        feed_after(bytes, start),
        columns,
    ) && rows_fit(bytes, next_line(bytes, start), (rows - 1) as nat, columns))
}

/// The largest number of objects, and of attributes, that a file may
/// announce: the lists that the engine keeps per object and per attribute
/// have entries of up to four machine words, and a list cannot be longer
/// in bytes than half the address space.
pub open spec fn most() -> nat {
    (usize::MAX / 64) as nat
}

/// The file can be handed to the engine. It has five lines of head, of
/// which the third and the fourth announce the numbers of objects and
/// attributes, neither above [`most`]; after the head it has a line for
/// each object name, a line for each attribute name and a row for each
/// object; and no row has a cross at or beyond the announced number of
/// attributes.
pub open spec fn loadable(bytes: Seq<u8>) -> bool {
    let title = next_line(bytes, 0);
    let objects = next_line(bytes, title);
    let attributes = next_line(bytes, objects);
    let blank = next_line(bytes, attributes);
    let body = next_line(bytes, blank);
    let rows = count_of(bytes, objects, feed_after(bytes, objects));
    let columns = count_of(bytes, attributes, feed_after(bytes, attributes));
    &&& blank < bytes.len()
    &&& rows is Some
    &&& columns is Some
    &&& rows.unwrap() <= most()
    &&& columns.unwrap() <= most()
    &&& skip_lines(bytes, body, rows.unwrap()) is Some
    &&& skip_lines(bytes, skip_lines(bytes, body, rows.unwrap()).unwrap(), columns.unwrap())
        is Some
    &&& rows_fit(
        bytes,
        skip_lines(
            bytes,
            skip_lines(bytes, body, rows.unwrap()).unwrap(),
            columns.unwrap(),
        ).unwrap(),
        rows.unwrap(),
        columns.unwrap(),
    )
}

/// Trusted: `FormalContext::<String>::from` with its error dropped. It
/// reads lines, parses the two counts with `str::parse`, reserves room for
/// that many names, reads the names and the rows and builds the lookup
/// tables from the crosses found. What it returns depends on the bytes
/// alone. Of a loadable file the counts are small enough for the lists it
/// reserves, the file has a line for each name and row it goes on to read,
/// and every cross falls on an entry of the tables; so the context it
/// builds is coherent and its crosses lie inside the table.
#[verifier::external_body]
pub(crate) fn parse_cxt(bytes: &[u8]) -> (parsed: Option<FormalContext<String>>)
    requires
        loadable(bytes@),
    ensures
        match parsed {
            Some(context) => {
                &&& parsed_of(bytes@) == Some(
                    (object_names(context), attribute_names(context), crosses(context)),
                )
                &&& coherent(context)
                &&& bounded(
                    crosses(context),
                    object_names(context).len(),
                    attribute_names(context).len(),
                )
            },
            None => parsed_of(bytes@) is None,
        },
{
    FormalContext::<String>::from(bytes).ok()
}

/// The first line feed is where the bytes before it are none and the byte
/// at it is one.
pub proof fn feed_found(bytes: Seq<u8>, from: int, end: int)
    requires
        0 <= from <= end <= bytes.len(),
        forall|i: int| from <= i < end ==> bytes[i] != 10,
        end < bytes.len() ==> bytes[end] == 10,
    ensures
        feed_after(bytes, from) == end,
    decreases end - from,
{
    if from < end {
        feed_found(bytes, from + 1, end);
    }
}

/// More digits do not make a smaller number.
proof fn number_grows(bytes: Seq<u8>, from: int, mid: int, to: int)
    requires
        from <= mid <= to,
        all_digits(bytes, from, to),
    ensures
        number(bytes, from, mid) <= number(bytes, from, to),
    decreases to - mid,
{
    if mid < to {
        number_grows(bytes, from, mid, to - 1);
        assert(48 <= bytes[to - 1] <= 57);
    }
}

/// Skipping lines moves forward and stays inside the text.
pub proof fn skip_moves_on(bytes: Seq<u8>, start: int, count: nat)
    requires
        0 <= start <= bytes.len(),
        skip_lines(bytes, start, count) is Some,
    ensures
        start <= skip_lines(bytes, start, count).unwrap() <= bytes.len(),
    decreases count,
{
    if count > 0 {
        feed_is_ahead(bytes, start);
        skip_moves_on(bytes, next_line(bytes, start), (count - 1) as nat);
    }
}

/// The first line feed at or after a position stands at or after it, and
/// inside the text or right at its end.
pub proof fn feed_is_ahead(bytes: Seq<u8>, from: int)
    requires
        0 <= from <= bytes.len(),
    ensures
        from <= feed_after(bytes, from) <= bytes.len(),
        feed_after(bytes, from) < bytes.len() ==> bytes[feed_after(bytes, from)] == 10,
        forall|i: int| from <= i < feed_after(bytes, from) ==> bytes[i] != 10,
    decreases bytes.len() - from,
{
    if from < bytes.len() && bytes[from] != 10 {
        feed_is_ahead(bytes, from + 1);
    }
}

/// The position of the first line feed at or after `from`.
pub fn find_feed(bytes: &[u8], from: usize) -> (end: usize)
    requires
        from <= bytes@.len(),
    ensures
        end == feed_after(bytes@, from as int),
        from <= end <= bytes@.len(),
{
    let mut end: usize = from;
    while end < bytes.len() && bytes[end] != 10
        invariant
            from <= end <= bytes@.len(),
            forall|i: int| from <= i < end ==> bytes@[i] != 10,
        decreases bytes@.len() - end,
    {
        end += 1;
    }
    proof {
        feed_found(bytes@, from as int, end as int);
    }
    end
}

/// Where the line after the one at `start` begins.
pub fn line_after(bytes: &[u8], start: usize) -> (next: usize)
    requires
        start <= bytes@.len(),
    ensures
        next == next_line(bytes@, start as int),
        start <= next <= bytes@.len(),
        start < bytes@.len() ==> start < next,
{
    let end = find_feed(bytes, start);
    if end < bytes.len() {
        end + 1
    } else {
        end
    }
}

/// Where the text goes on after `count` lines from `start`, if it has that
/// many.
fn skip(bytes: &[u8], start: usize, count: usize) -> (rest: Option<usize>)
    requires
        start <= bytes@.len(),
    ensures
        match rest {
            Some(position) => skip_lines(bytes@, start as int, count as nat) == Some(
                position as int,
            ) && position <= bytes@.len(),
            None => skip_lines(bytes@, start as int, count as nat) is None,
        },
{
    let mut position: usize = start;
    let mut left: usize = count;
    while left > 0
        invariant
            position <= bytes@.len(),
            skip_lines(bytes@, position as int, left as nat) == skip_lines(
                bytes@,
                start as int,
                count as nat,
            ),
        decreases left,
    {
        if position >= bytes.len() {
            return None;
        }
        position = line_after(bytes, position);
        left -= 1;
    }
    Some(position)
}

/// The count that the line `bytes[from..to]` announces.
fn read_count(bytes: &[u8], from: usize, to: usize) -> (count: Option<usize>)
    requires
        from <= to <= bytes@.len(),
    ensures
        match count {
            Some(value) => count_of(bytes@, from as int, to as int) == Some(value as nat),
            None => count_of(bytes@, from as int, to as int) is None,
        },
{
    let stop = if from < to && to < bytes.len() && bytes[to - 1] == 13 {
        to - 1
    } else {
        to
    };
    let first = if from < stop && bytes[from] == 43 {
        from + 1
    } else {
        from
    };
    if first >= stop {
        return None;
    }
    let mut value: usize = 0;
    let mut i: usize = first;
    while i < stop
        invariant
            first <= i <= stop <= bytes@.len(),
            first < stop,
            stop == content_end(bytes@, from as int, to as int),
            first == if from < stop && bytes@[from as int] == 43 {
                from + 1
            } else {
                from as int
            },
            all_digits(bytes@, first as int, i as int),
            value == number(bytes@, first as int, i as int),
        decreases stop - i,
    {
        let byte = bytes[i];
        if byte < 48 || byte > 57 {
            proof {
                assert(!(48 <= bytes@[i as int] <= 57));
            }
            return None;
        }
        let digit: usize = (byte - 48) as usize;
        if value > (usize::MAX - digit) / 10 {
            proof {
                assert(number(bytes@, first as int, i + 1) == value * 10 + digit);
                assert(value * 10 + digit > usize::MAX);
                if all_digits(bytes@, first as int, stop as int) {
                    number_grows(bytes@, first as int, i + 1, stop as int);
                }
            }
            return None;
        }
        value = value * 10 + digit;
        i += 1;
    }
    Some(value)
}

/// Whether the row `bytes[from..to]` has no cross at or beyond character
/// `columns`.
fn row_is_fit(bytes: &[u8], from: usize, to: usize, columns: usize) -> (fit: bool)
    requires
        from <= to <= bytes@.len(),
    ensures
        fit == row_fits(bytes@, from as int, to as int, columns as nat),
{
    let mut seen: usize = 0;
    let mut i: usize = from;
    while i < to
        invariant
            from <= i <= to <= bytes@.len(),
            seen == chars_in(bytes@, from as int, i as int),
            seen <= i - from,
            row_fits(bytes@, from as int, i as int, columns as nat),
        decreases to - i,
    {
        let byte = bytes[i];
        if (byte == 88 || byte == 120) && seen >= columns {
            return false;
        }
        if !(128 <= byte && byte < 192) {
            seen += 1;
        }
        i += 1;
    }
    true
}

/// Whether the text has `rows` fit rows from `start` on.
fn rows_are_fit(bytes: &[u8], start: usize, rows: usize, columns: usize) -> (fit: bool)
    requires
        start <= bytes@.len(),
    ensures
        fit == rows_fit(bytes@, start as int, rows as nat, columns as nat),
{
    let mut position: usize = start;
    let mut left: usize = rows;
    while left > 0
        invariant
            position <= bytes@.len(),
            rows_fit(bytes@, position as int, left as nat, columns as nat) == rows_fit(
                bytes@,
                start as int,
                rows as nat,
                columns as nat,
            ),
        decreases left,
    {
        if position >= bytes.len() {
            return false;
        }
        let end = find_feed(bytes, position);
        if !row_is_fit(bytes, position, end, columns) {
            return false;
        }
        position = line_after(bytes, position);
        left -= 1;
    }
    true
}

/// Where the parts of a loadable file stand.
pub struct Layout {
    /// The announced number of objects.
    pub rows: usize,
    /// The announced number of attributes.
    pub columns: usize,
    /// Where the object names begin.
    pub names: usize,
    /// Where the attribute names begin.
    pub attributes: usize,
    /// Where the rows begin.
    pub table: usize,
}

/// The number of objects that a file announces.
pub open spec fn rows_of(bytes: Seq<u8>) -> nat {
    let objects = next_line(bytes, next_line(bytes, 0));
    count_of(bytes, objects, feed_after(bytes, objects)).unwrap()
}

/// The number of attributes that a file announces.
pub open spec fn columns_of(bytes: Seq<u8>) -> nat {
    let attributes = next_line(bytes, next_line(bytes, next_line(bytes, 0)));
    count_of(bytes, attributes, feed_after(bytes, attributes)).unwrap()
}

/// Where the object names of a file begin: after its five lines of head.
pub open spec fn names_at(bytes: Seq<u8>) -> int {
    next_line(
        bytes,
        next_line(bytes, next_line(bytes, next_line(bytes, next_line(bytes, 0)))),
    )
}

/// Where the attribute names of a file begin.
pub open spec fn attributes_at(bytes: Seq<u8>) -> int {
    skip_lines(bytes, names_at(bytes), rows_of(bytes)).unwrap()
}

/// Where the rows of a file begin.
pub open spec fn table_at(bytes: Seq<u8>) -> int {
    skip_lines(bytes, attributes_at(bytes), columns_of(bytes)).unwrap()
}

/// Looks a file over: where its parts stand, if it is loadable.
pub fn survey(bytes: &[u8]) -> (found: Option<Layout>)
    ensures
        found is Some <==> loadable(bytes@),
        found matches Some(layout) ==> {
            &&& layout.rows == rows_of(bytes@)
            &&& layout.columns == columns_of(bytes@)
            &&& layout.names == names_at(bytes@)
            &&& layout.attributes == attributes_at(bytes@)
            &&& layout.table == table_at(bytes@)
            &&& layout.names <= layout.attributes <= layout.table <= bytes@.len()
        },
{
    let title = line_after(bytes, 0);
    let objects = line_after(bytes, title);
    let attributes = line_after(bytes, objects);
    let blank = line_after(bytes, attributes);
    if blank >= bytes.len() {
        return None;
    }
    let body = line_after(bytes, blank);
    let rows = match read_count(bytes, objects, find_feed(bytes, objects)) {
        Some(rows) => rows,
        None => {
            return None;
        },
    };
    let columns = match read_count(bytes, attributes, find_feed(bytes, attributes)) {
        Some(columns) => columns,
        None => {
            return None;
        },
    };
    if rows > usize::MAX / 64 || columns > usize::MAX / 64 {
        return None;
    }
    let names = match skip(bytes, body, rows) {
        Some(names) => names,
        None => {
            return None;
        },
    };
    let table = match skip(bytes, names, columns) {
        Some(table) => table,
        None => {
            return None;
        },
    };
    proof {
        skip_moves_on(bytes@, body as int, rows as nat);
        skip_moves_on(bytes@, names as int, columns as nat);
    }
    if rows_are_fit(bytes, table, rows, columns) {
        Some(Layout { rows, columns, names: body, attributes: names, table })
    } else {
        None
    }
}

/// Whether the file can be handed to the engine.
pub fn is_loadable(bytes: &[u8]) -> (fit: bool)
    ensures
        fit == loadable(bytes@),
{
    survey(bytes).is_some()
}

/// Reads a context from the bytes of a `.cxt` file. The engine reads it,
/// and its reading is then held against the bytes: the names must be the
/// lines of the file, and the crosses must stand where the rows have an
/// `X`. There is no context where the file is not loadable, where the
/// engine reports an error, or where its reading is not what the bytes
/// spell out.
pub fn import_context(bytes: &[u8]) -> (read: Option<Context>)
    ensures
        read is Some <==> loadable(bytes@) && parsed_of(bytes@) is Some && reads_as(
            parsed_of(bytes@).unwrap().0,
            parsed_of(bytes@).unwrap().1,
            parsed_of(bytes@).unwrap().2,
            bytes@,
        ),
        read matches Some(context) ==> context.wf() && reads_as(
            context.objects(),
            context.attributes(),
            context.incidence(),
            bytes@,
        ),
{
    let layout = match survey(bytes) {
        Some(layout) => layout,
        None => {
            return None;
        },
    };
    let context = match parse_cxt(bytes) {
        Some(inner) => Context::from_engine(inner),
        None => {
            return None;
        },
    };
    if agrees(&context, bytes, &layout) {
        Some(context)
    } else {
        None
    }
}

} // verus!
