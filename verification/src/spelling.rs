//! What the bytes of a `.cxt` file spell out: the names on its lines and
//! the crosses in its rows.

use crate::context::{texts, Context};
use crate::import::{
    attributes_at, chars_in, columns_of, content_end, feed_after, find_feed, is_cross,
    line_after, loadable, names_at, next_line, row_fits, rows_fit, rows_of, skip_lines,
    table_at, Layout,
};
use vstd::prelude::*;
use vstd::string::*;
use vstd::utf8::encode_utf8;

verus! {

/// The content of the line that begins at `start`: its bytes up to the
/// line feed, without a carriage return right before it.
pub open spec fn line_at(bytes: Seq<u8>, start: int) -> Seq<u8> {
    bytes.subrange(start, content_end(bytes, start, feed_after(bytes, start)))
}

/// The contents of the `count` lines from `start` on.
pub open spec fn lines_spelled(bytes: Seq<u8>, start: int, count: nat) -> Seq<Seq<u8>> {
    Seq::new(count, |j: int| line_at(bytes, skip_lines(bytes, start, j as nat).unwrap()))
}

/// Among the bytes from `start` up to `limit`, a cross stands as character
/// number `m`.
pub open spec fn cross_before(bytes: Seq<u8>, start: int, limit: int, m: nat) -> bool {
    exists|i: int|
        start <= i < limit && is_cross(#[trigger] bytes[i]) && chars_in(bytes, start, i) == m
}

/// The row that begins at `start` has a cross as its character number `m`.
pub open spec fn cross_at(bytes: Seq<u8>, start: int, m: nat) -> bool {
    cross_before(bytes, start, feed_after(bytes, start), m)
}

/// The crosses in the `rows` rows from `start` on, as far as they fall on
/// the first `columns` characters.
pub open spec fn crosses_spelled(bytes: Seq<u8>, start: int, rows: nat, columns: nat) -> Set<
    (usize, usize),
> {
    Set::new(
        |p: (usize, usize)|
            p.0 < rows && p.1 < columns && cross_at(
                bytes,
                skip_lines(bytes, start, p.0 as nat).unwrap(),
                p.1 as nat,
            ),
    )
}

/// The names as they are written, each in its bytes.
pub open spec fn written(names: Seq<Seq<char>>) -> Seq<Seq<u8>> {
    Seq::new(names.len(), |i: int| encode_utf8(names[i]))
}

/// The names and crosses are what the file spells out: the object names
/// are the lines after the head, the attribute names the lines after
/// those, and the crosses stand where the rows after those have an `X`.
pub open spec fn reads_as(
    objects: Seq<Seq<char>>,
    attributes: Seq<Seq<char>>,
    marks: Set<(usize, usize)>,
    bytes: Seq<u8>,
) -> bool {
    &&& written(objects) == lines_spelled(bytes, names_at(bytes), rows_of(bytes))
    &&& written(attributes) == lines_spelled(bytes, attributes_at(bytes), columns_of(bytes))
    &&& marks == crosses_spelled(bytes, table_at(bytes), rows_of(bytes), columns_of(bytes))
}

/// After one line more, the text goes on at the next line.
pub proof fn skip_one_more(bytes: Seq<u8>, start: int, count: nat)
    requires
        skip_lines(bytes, start, count) is Some,
        skip_lines(bytes, start, count).unwrap() < bytes.len(),
    ensures
        skip_lines(bytes, start, count + 1) == Some(
            next_line(bytes, skip_lines(bytes, start, count).unwrap()),
        ),
    decreases count,
{
    let after = next_line(bytes, start);
    if count > 0 {
        assert(skip_lines(bytes, start, count) == skip_lines(bytes, after, (count - 1) as nat));
        skip_one_more(bytes, after, (count - 1) as nat);
        assert(skip_lines(bytes, start, count + 1) == skip_lines(bytes, after, count));
    } else {
        assert(skip_lines(bytes, start, 1) == skip_lines(bytes, after, 0));
    }
}

/// Where so many lines can be skipped, fewer can be skipped too, and a
/// line follows.
pub proof fn skip_fewer(bytes: Seq<u8>, start: int, count: nat, fewer: nat)
    requires
        skip_lines(bytes, start, count) is Some,
        fewer < count,
    ensures
        skip_lines(bytes, start, fewer) is Some,
        skip_lines(bytes, start, fewer).unwrap() < bytes.len(),
    decreases fewer,
{
    if fewer > 0 {
        skip_fewer(bytes, next_line(bytes, start), (count - 1) as nat, (fewer - 1) as nat);
    }
}

/// Of fit rows, each is fit.
pub proof fn each_row_is_fit(bytes: Seq<u8>, start: int, rows: nat, columns: nat, row: nat)
    requires
        rows_fit(bytes, start, rows, columns),
        row < rows,
    ensures
        skip_lines(bytes, start, row) is Some,
        skip_lines(bytes, start, row).unwrap() < bytes.len(),
        row_fits(
            bytes,
            skip_lines(bytes, start, row).unwrap(),
            feed_after(bytes, skip_lines(bytes, start, row).unwrap()),
            columns,
        ),
    decreases row,
{
    if row > 0 {
        each_row_is_fit(
            bytes,
            next_line(bytes, start),
            (rows - 1) as nat,
            columns,
            (row - 1) as nat,
        );
    }
}

/// Whether `part` is `bytes[from..to]`.
fn same_stretch(part: &[u8], bytes: &[u8], from: usize, to: usize) -> (same: bool)
    requires
        from <= to <= bytes@.len(),
    ensures
        same == (part@ == bytes@.subrange(from as int, to as int)),
{
    if part.len() != to - from {
        return false;
    }
    let mut i: usize = 0;
    while i < part.len()
        invariant
            i <= part@.len(),
            part@.len() == to - from,
            from <= to <= bytes@.len(),
            forall|j: int| 0 <= j < i ==> part@[j] == bytes@[from + j],
        decreases part@.len() - i,
    {
        if part[i] != bytes[from + i] {
            proof {
                assert(bytes@.subrange(from as int, to as int)[i as int] == bytes@[from + i]);
            }
            return false;
        }
        i += 1;
    }
    proof {
        assert(part@ =~= bytes@.subrange(from as int, to as int));
    }
    true
}

/// Whether the names are the lines from `start` on, one name per line.
fn names_agree(names: &Vec<String>, bytes: &[u8], start: usize) -> (same: bool)
    requires
        start <= bytes@.len(),
        skip_lines(bytes@, start as int, names@.len()) is Some,
    ensures
        same == (written(texts(names@)) == lines_spelled(bytes@, start as int, names@.len())),
{
    let mut position: usize = start;
    let mut i: usize = 0;
    while i < names.len()
        invariant
            i <= names@.len(),
            position <= bytes@.len(),
            skip_lines(bytes@, start as int, names@.len()) is Some,
            skip_lines(bytes@, start as int, i as nat) == Some(position as int),
            forall|j: int|
                0 <= j < i ==> encode_utf8(names@[j]@) == line_at(
                    bytes@,
                    skip_lines(bytes@, start as int, j as nat).unwrap(),
                ),
        decreases names@.len() - i,
    {
        proof {
            skip_fewer(bytes@, start as int, names@.len(), i as nat);
            skip_one_more(bytes@, start as int, i as nat);
        }
        let end = find_feed(bytes, position);
        let stop = if position < end && end < bytes.len() && bytes[end - 1] == 13 {
            end - 1
        } else {
            end
        };
        if !same_stretch(names[i].as_str().as_bytes(), bytes, position, stop) {
            proof {
                let left = written(texts(names@));
                let right = lines_spelled(bytes@, start as int, names@.len());
                assert(left[i as int] == encode_utf8(names@[i as int]@));
                assert(right[i as int] == line_at(bytes@, position as int));
            }
            return false;
        }
        position = line_after(bytes, position);
        i += 1;
    }
    proof {
        let left = written(texts(names@));
        let right = lines_spelled(bytes@, start as int, names@.len());
        assert forall|j: int| 0 <= j < names@.len() implies left[j] == right[j] by {
            assert(left[j] == encode_utf8(names@[j]@));
        }
        assert(left =~= right);
    }
    true
}

/// One mark per attribute: set where the row `bytes[start..end]` has a
/// cross as the character of that number.
fn row_marks(bytes: &[u8], start: usize, end: usize, columns: usize) -> (marks: Vec<bool>)
    requires
        start <= end <= bytes@.len(),
        row_fits(bytes@, start as int, end as int, columns as nat),
    ensures
        marks@.len() == columns,
        forall|m: int|
            0 <= m < columns ==> marks@[m] == cross_before(
                bytes@,
                start as int,
                end as int,
                m as nat,
            ),
{
    let mut marks: Vec<bool> = Vec::new();
    let mut m: usize = 0;
    while m < columns
        invariant
            m <= columns,
            marks@.len() == m,
            forall|k: int| 0 <= k < m ==> !marks@[k],
        decreases columns - m,
    {
        marks.push(false);
        m += 1;
    }
    let mut seen: usize = 0;
    let mut i: usize = start;
    while i < end
        invariant
            start <= i <= end <= bytes@.len(),
            row_fits(bytes@, start as int, end as int, columns as nat),
            seen == chars_in(bytes@, start as int, i as int),
            seen <= i - start,
            marks@.len() == columns,
            forall|k: int|
                0 <= k < columns ==> marks@[k] == cross_before(
                    bytes@,
                    start as int,
                    i as int,
                    k as nat,
                ),
        decreases end - i,
    {
        let byte = bytes[i];
        let ghost before = marks@;
        if byte == 88 || byte == 120 {
            proof {
                assert(is_cross(bytes@[i as int]));
            }
            marks.set(seen, true);
        }
        proof {
            assert forall|k: int| 0 <= k < columns implies marks@[k] == cross_before(
                bytes@,
                start as int,
                i + 1,
                k as nat,
            ) by {
                let here = is_cross(bytes@[i as int]) && seen == k;
                if cross_before(bytes@, start as int, i + 1, k as nat) {
                    let j = choose|j: int|
                        start <= j < i + 1 && is_cross(#[trigger] bytes@[j]) && chars_in(
                            bytes@,
                            start as int,
                            j,
                        ) == k;
                    if j < i {
                        assert(cross_before(bytes@, start as int, i as int, k as nat));
                    }
                }
                if before[k] {
                    let j = choose|j: int|
                        start <= j < i && is_cross(#[trigger] bytes@[j]) && chars_in(
                            bytes@,
                            start as int,
                            j,
                        ) == k;
                    assert(start <= j < i + 1);
                }
                if here {
                    assert(start <= i < i + 1 && is_cross(bytes@[i as int]));
                }
            }
        }
        if !(128 <= byte && byte < 192) {
            seen += 1;
        }
        i += 1;
    }
    marks
}

/// Whether the crosses of the context are the crosses of the rows from
/// `start` on.
fn rows_agree(context: &Context, bytes: &[u8], start: usize, rows: usize, columns: usize) -> (same:
    bool)
    requires
        context.wf(),
        context.objects().len() == rows,
        context.attributes().len() == columns,
        start <= bytes@.len(),
        rows_fit(bytes@, start as int, rows as nat, columns as nat),
    ensures
        same == (context.incidence() == crosses_spelled(
            bytes@,
            start as int,
            rows as nat,
            columns as nat,
        )),
{
    let ghost spelled = crosses_spelled(bytes@, start as int, rows as nat, columns as nat);
    let mut position: usize = start;
    let mut g: usize = 0;
    while g < rows
        invariant
            g <= rows,
            position <= bytes@.len(),
            context.wf(),
            context.objects().len() == rows,
            context.attributes().len() == columns,
            rows_fit(bytes@, start as int, rows as nat, columns as nat),
            spelled == crosses_spelled(bytes@, start as int, rows as nat, columns as nat),
            skip_lines(bytes@, start as int, g as nat) == Some(position as int),
            forall|r: usize, c: usize|
                r < g && c < columns ==> context.incidence().contains((r, c)) == spelled.contains(
                    (r, c),
                ),
        decreases rows - g,
    {
        proof {
            each_row_is_fit(bytes@, start as int, rows as nat, columns as nat, g as nat);
            skip_one_more(bytes@, start as int, g as nat);
        }
        let end = find_feed(bytes, position);
        let marks = row_marks(bytes, position, end, columns);
        let mut m: usize = 0;
        while m < columns
            invariant
                m <= columns,
                g < rows,
                marks@.len() == columns,
                context.attributes().len() == columns,
                spelled == crosses_spelled(bytes@, start as int, rows as nat, columns as nat),
                skip_lines(bytes@, start as int, g as nat) == Some(position as int),
                end == feed_after(bytes@, position as int),
                forall|k: int|
                    0 <= k < columns ==> marks@[k] == cross_before(
                        bytes@,
                        position as int,
                        end as int,
                        k as nat,
                    ),
                forall|c: usize|
                    c < m ==> context.incidence().contains((g, c)) == spelled.contains((g, c)),
            decreases columns - m,
        {
            if context.has_cross(g, m) != marks[m] {
                proof {
                    assert(spelled.contains((g, m)) == marks@[m as int]);
                }
                return false;
            }
            proof {
                assert(spelled.contains((g, m)) == marks@[m as int]);
            }
            m += 1;
        }
        position = line_after(bytes, position);
        g += 1;
    }
    proof {
        assert forall|p: (usize, usize)| context.incidence().contains(p) == spelled.contains(
            p,
        ) by {
            if context.incidence().contains(p) {
                assert(p.0 < rows && p.1 < columns);
            }
        }
        assert(context.incidence() =~= spelled);
    }
    true
}

/// Whether the context is what the file spells out.
pub fn agrees(context: &Context, bytes: &[u8], layout: &Layout) -> (same: bool)
    requires
        context.wf(),
        loadable(bytes@),
        layout.rows == rows_of(bytes@),
        layout.columns == columns_of(bytes@),
        layout.names == names_at(bytes@),
        layout.attributes == attributes_at(bytes@),
        layout.table == table_at(bytes@),
        layout.names <= layout.attributes <= layout.table <= bytes@.len(),
    ensures
        same == reads_as(context.objects(), context.attributes(), context.incidence(), bytes@),
{
    if context.object_count() != layout.rows || context.attribute_count() != layout.columns {
        proof {
            assert(written(context.objects()).len() == context.objects().len());
            assert(written(context.attributes()).len() == context.attributes().len());
        }
        return false;
    }
    let objects = context.object_list();
    let attributes = context.attribute_list();
    proof {
        assert(texts(objects@).len() == objects@.len());
        assert(texts(attributes@).len() == attributes@.len());
    }
    if !names_agree(&objects, bytes, layout.names) {
        return false;
    }
    if !names_agree(&attributes, bytes, layout.attributes) {
        return false;
    }
    rows_agree(context, bytes, layout.table, layout.rows, layout.columns)
}

} // verus!
