//! What ties writing a context to reading it back: the text that is
//! written for a context may be handed to the engine, and it spells out
//! the context that it was written for.

use crate::export::{cxt_text, decimal, digit, name_lines, row_line, row_lines, shown};
use crate::closure::bounded;
use crate::context::Context;
use crate::import::{
    all_digits, attributes_at, chars_in, columns_of, content_end, count_of, feed_after,
    feed_found, is_cross, loadable, most, names_at, next_line, number, rows_fit, rows_of,
    skip_lines, table_at,
};
use crate::spelling::{cross_at, crosses_spelled, line_at, lines_spelled, reads_as, written};
use vstd::prelude::*;
use vstd::utf8::*;

verus! {

/// No character of the text is a line feed.
pub open spec fn on_one_line(text: Seq<char>) -> bool {
    forall|i: int| 0 <= i < text.len() ==> #[trigger] text[i] != '\n'
}

/// No name holds a line feed.
pub open spec fn each_on_one_line(names: Seq<Seq<char>>) -> bool {
    forall|i: int| 0 <= i < names.len() ==> on_one_line(#[trigger] names[i])
}

/// No byte in `bytes[from..to]` is a line feed.
pub open spec fn feed_free(bytes: Seq<u8>, from: int, to: int) -> bool {
    forall|i: int| from <= i < to ==> #[trigger] bytes[i] != 10
}

/// Every byte is 128 or more.
pub open spec fn all_high(bytes: Seq<u8>) -> bool {
    forall|j: int| 0 <= j < bytes.len() ==> #[trigger] bytes[j] >= 128
}

/// The bytes of two texts in a row are the bytes of the first and then the
/// bytes of the second.
pub proof fn encoded_in_a_row(first: Seq<char>, second: Seq<char>)
    ensures
        encode_utf8(first + second) == encode_utf8(first) + encode_utf8(second),
    decreases first.len(),
{
    if first.len() == 0 {
        assert(first + second =~= second);
        assert(encode_utf8(first) + encode_utf8(second) =~= encode_utf8(second));
    } else {
        let rest = first.drop_first();
        encoded_in_a_row(rest, second);
        assert((first + second).drop_first() =~= rest + second);
        assert((first + second)[0] == first[0]);
        let head = encode_scalar(first[0] as u32);
        let tail = encode_utf8(rest) + encode_utf8(second);
        assert(encode_utf8(first + second) =~= head + tail);
        assert(encode_utf8(first) + encode_utf8(second) =~= head + tail);
    }
}

/// A character below 128 is written as the one byte of its number; any
/// other character is written as bytes from 128 upwards.
pub proof fn bytes_of_char(c: char)
    ensures
        1 <= encode_scalar(c as u32).len() <= 4,
        (c as u32) < 128 ==> encode_scalar(c as u32) == seq![(c as u32) as u8],
        (c as u32) >= 128 ==> all_high(encode_scalar(c as u32)),
{
    let s = c as u32;
    if s < 128 {
        assert(s as u8 == leading_byte_width_1(s)) by (bit_vector)
            requires
                s < 128,
        ;
        assert(encode_scalar(s) =~= seq![s as u8]);
    } else {
        assert(forall|y: u8| (0xC0u8 | y) >= 128u8) by (bit_vector);
        assert(forall|y: u8| (0xE0u8 | y) >= 128u8) by (bit_vector);
        assert(forall|y: u8| (0xF0u8 | y) >= 128u8) by (bit_vector);
        assert(forall|y: u8| (0x80u8 | y) >= 128u8) by (bit_vector);
    }
}

/// A text without line feed is written without the byte of a line feed.
pub proof fn encoded_on_one_line(text: Seq<char>)
    requires
        on_one_line(text),
    ensures
        feed_free(encode_utf8(text), 0, encode_utf8(text).len() as int),
    decreases text.len(),
{
    if text.len() > 0 {
        let rest = text.drop_first();
        assert forall|i: int| 0 <= i < rest.len() implies #[trigger] rest[i] != '\n' by {
            assert(rest[i] == text[i + 1]);
        }
        encoded_on_one_line(rest);
        bytes_of_char(text[0]);
        let head = encode_scalar(text[0] as u32);
        assert(text[0] != '\n');
        assert forall|i: int| 0 <= i < encode_utf8(text).len() implies #[trigger] encode_utf8(
            text,
        )[i] != 10 by {
            if i < head.len() {
                assert(encode_utf8(text)[i] == head[i]);
                if (text[0] as u32) < 128 {
                    assert(head[i] == (text[0] as u32) as u8);
                    assert('\n' as u32 == 10);
                    if text[0] as u32 == 10 {
                        char_u32_cast(text[0], 10u32);
                        char_u32_cast('\n', 10u32);
                    }
                    assert(text[0] as u32 != 10);
                } else {
                    assert(all_high(head));
                    assert(head[i] >= 128);
                }
            } else {
                assert(encode_utf8(text)[i] == encode_utf8(rest)[i - head.len()]);
                assert(encode_utf8(rest)[i - head.len()] != 10);
            }
        }
    }
}

/// The decimal notation of a number consists of digits, at least one, and
/// reads as that number.
pub proof fn decimal_reads_back(n: nat)
    ensures
        decimal(n).len() >= 1,
        forall|i: int| 0 <= i < decimal(n).len() ==> '0' <= #[trigger] decimal(n)[i] <= '9',
        is_ascii_chars(decimal(n)),
        encode_utf8(decimal(n)).len() == decimal(n).len(),
        all_digits(encode_utf8(decimal(n)), 0, decimal(n).len() as int),
        number(encode_utf8(decimal(n)), 0, decimal(n).len() as int) == n,
    decreases n,
{
    let text = decimal(n);
    if n < 10 {
        assert(text =~= seq![digit(n)]);
        assert(is_ascii_chars(text));
        is_ascii_chars_encode_utf8(text);
        let bytes = encode_utf8(text);
        assert(bytes[0] == text[0] as u8);
        assert(bytes[0] == 48 + n);
        assert(number(bytes, 0, 0) == 0);
        assert(number(bytes, 0, 1) == n);
    } else {
        let front = decimal(n / 10);
        decimal_reads_back(n / 10);
        assert(text =~= front.push(digit(n % 10)));
        assert forall|i: int| 0 <= i < text.len() implies '0' <= #[trigger] text[i] <= '9' by {
            if i < front.len() {
                assert(text[i] == front[i]);
            }
        }
        assert(is_ascii_chars(text));
        is_ascii_chars_encode_utf8(text);
        is_ascii_chars_encode_utf8(front);
        let bytes = encode_utf8(text);
        let shorter = encode_utf8(front);
        assert forall|i: int| 0 <= i < front.len() implies bytes[i] == shorter[i] by {
            assert(text[i] == front[i]);
        }
        assert(bytes[front.len() as int] == text[front.len() as int] as u8);
        assert(bytes[front.len() as int] == 48 + n % 10);
        same_number(bytes, shorter, 0, front.len() as int);
        assert forall|i: int| 0 <= i < text.len() implies 48 <= #[trigger] bytes[i] <= 57 by {
            assert(bytes[i] == text[i] as u8);
        }
    }
}

/// Two byte texts that agree on `[from, to)` hold the same number there.
pub proof fn same_number(left: Seq<u8>, right: Seq<u8>, from: int, to: int)
    requires
        forall|i: int| from <= i < to ==> left[i] == right[i],
    ensures
        number(left, from, to) == number(right, from, to),
    decreases to - from,
{
    if from < to {
        same_number(left, right, from, to - 1);
    }
}

/// The block of bytes stands in `bytes` at `start`.
pub open spec fn sits_at(bytes: Seq<u8>, start: int, block: Seq<u8>) -> bool {
    &&& 0 <= start
    &&& start + block.len() <= bytes.len()
    &&& forall|i: int| 0 <= i < block.len() ==> bytes[start + i] == #[trigger] block[i]
}

/// Where a block of two parts stands, its first part stands too, and its
/// second part right after that.
pub proof fn sits_in_parts(bytes: Seq<u8>, start: int, first: Seq<u8>, second: Seq<u8>)
    requires
        sits_at(bytes, start, first + second),
    ensures
        sits_at(bytes, start, first),
        sits_at(bytes, start + first.len(), second),
{
    assert forall|i: int| 0 <= i < first.len() implies bytes[start + i] == #[trigger] first[i] by {
        assert((first + second)[i] == first[i]);
    }
    assert forall|i: int| 0 <= i < second.len() implies bytes[start + first.len() + i]
        == #[trigger] second[i] by {
        assert((first + second)[first.len() + i] == second[i]);
    }
}

/// A line that stands at `start`, free of line feeds and with a line feed
/// after it, ends at that line feed, and the next line begins right after.
pub proof fn line_stands(bytes: Seq<u8>, start: int, line: Seq<u8>)
    requires
        sits_at(bytes, start, line + seq![10u8]),
        feed_free(line, 0, line.len() as int),
    ensures
        start < bytes.len(),
        feed_after(bytes, start) == start + line.len(),
        next_line(bytes, start) == start + line.len() + 1,
{
    sits_in_parts(bytes, start, line, seq![10u8]);
    let end = start + line.len();
    assert(bytes[end] == seq![10u8][0]);
    assert forall|i: int| start <= i < end implies bytes[i] != 10 by {
        assert(bytes[start + (i - start)] == line[i - start]);
    }
    feed_found(bytes, start, end);
}

/// The name lines begin with the first name.
pub proof fn name_lines_from_the_front(names: Seq<Seq<char>>)
    requires
        names.len() >= 1,
    ensures
        name_lines(names) == shown(names[0]) + seq!['\n'] + name_lines(names.drop_first()),
    decreases names.len(),
{
    if names.len() == 1 {
        assert(names.drop_last() =~= Seq::<Seq<char>>::empty());
        assert(names.drop_first() =~= Seq::<Seq<char>>::empty());
        assert(name_lines(names) =~= shown(names[0]) + seq!['\n'] + name_lines(
            names.drop_first(),
        ));
    } else {
        let front = names.drop_last();
        name_lines_from_the_front(front);
        assert(front[0] == names[0]);
        assert(front.drop_first() =~= names.drop_first().drop_last());
        assert(names.drop_first().last() == names.last());
        assert(name_lines(names) =~= shown(names[0]) + seq!['\n'] + name_lines(
            names.drop_first(),
        ));
    }
}

/// A name is written on one line.
pub proof fn shown_on_one_line(name: Seq<char>)
    requires
        on_one_line(name),
    ensures
        on_one_line(shown(name)),
{
    reveal_strlit("\"no name\"");
}

/// Where the lines of some names stand, that many lines can be skipped,
/// and the text goes on right after them.
pub proof fn names_are_skipped(bytes: Seq<u8>, start: int, names: Seq<Seq<char>>)
    requires
        each_on_one_line(names),
        sits_at(bytes, start, encode_utf8(name_lines(names))),
    ensures
        skip_lines(bytes, start, names.len()) == Some(
            start + encode_utf8(name_lines(names)).len(),
        ),
    decreases names.len(),
{
    if names.len() == 0 {
        assert(encode_utf8(name_lines(names)).len() == 0);
    } else {
        let rest = names.drop_first();
        let line = encode_utf8(shown(names[0]));
        let feed = seq!['\n'];
        name_lines_from_the_front(names);
        encoded_in_a_row(shown(names[0]) + feed, name_lines(rest));
        encoded_in_a_row(shown(names[0]), feed);
        feed_is_one_byte();
        sits_in_parts(bytes, start, line + seq![10u8], encode_utf8(name_lines(rest)));
        shown_on_one_line(names[0]);
        encoded_on_one_line(shown(names[0]));
        line_stands(bytes, start, line);
        assert forall|i: int| 0 <= i < rest.len() implies on_one_line(#[trigger] rest[i]) by {
            assert(rest[i] == names[i + 1]);
        }
        names_are_skipped(bytes, start + line.len() + 1, rest);
    }
}

/// A line feed is written as the byte 10.
pub proof fn feed_is_one_byte()
    ensures
        encode_utf8(seq!['\n']) == seq![10u8],
{
    let feed = seq!['\n'];
    assert(is_ascii_chars(feed));
    is_ascii_chars_encode_utf8(feed);
    assert(encode_utf8(feed) =~= seq![10u8]);
}

/// The lines of the objects from `from` up to `rows`, each followed by a
/// line feed.
pub open spec fn rows_from(marks: Set<(usize, usize)>, from: nat, rows: nat, columns: nat) -> Seq<
    char,
>
    decreases rows - from,
{
    if from >= rows {
        Seq::empty()
    } else {
        row_line(marks, from as usize, columns) + seq!['\n'] + rows_from(
            marks,
            from + 1,
            rows,
            columns,
        )
    }
}

/// The rows up to `rows` are the rows up to the last and then the last.
pub proof fn rows_to_the_last(marks: Set<(usize, usize)>, from: nat, rows: nat, columns: nat)
    requires
        from < rows,
    ensures
        rows_from(marks, from, rows, columns) == rows_from(
            marks,
            from,
            (rows - 1) as nat,
            columns,
        ) + row_line(marks, (rows - 1) as usize, columns) + seq!['\n'],
    decreases rows - from,
{
    if from + 1 == rows {
        assert(rows_from(marks, from + 1, rows, columns) =~= Seq::<char>::empty());
        assert(rows_from(marks, from, (rows - 1) as nat, columns) =~= Seq::<char>::empty());
        assert(rows_from(marks, from, rows, columns) =~= rows_from(
            marks,
            from,
            (rows - 1) as nat,
            columns,
        ) + row_line(marks, (rows - 1) as usize, columns) + seq!['\n']);
    } else {
        rows_to_the_last(marks, from + 1, rows, columns);
        assert(rows_from(marks, from, rows, columns) =~= rows_from(
            marks,
            from,
            (rows - 1) as nat,
            columns,
        ) + row_line(marks, (rows - 1) as usize, columns) + seq!['\n']);
    }
}

/// The row lines of a context are its rows from the first on.
pub proof fn row_lines_from_the_front(marks: Set<(usize, usize)>, rows: nat, columns: nat)
    ensures
        row_lines(marks, rows, columns) == rows_from(marks, 0, rows, columns),
    decreases rows,
{
    if rows > 0 {
        row_lines_from_the_front(marks, (rows - 1) as nat, columns);
        rows_to_the_last(marks, 0, rows, columns);
    }
}

/// A stretch of bytes holds no more characters than bytes.
pub proof fn chars_are_bytes_at_most(bytes: Seq<u8>, from: int, to: int)
    ensures
        chars_in(bytes, from, to) <= if to >= from {
            to - from
        } else {
            0
        },
    decreases to - from,
{
    if to > from {
        chars_are_bytes_at_most(bytes, from, to - 1);
    }
}

/// A row is written as one byte per attribute, each an `X` or a `.`.
pub proof fn row_is_plain(marks: Set<(usize, usize)>, row: usize, columns: nat)
    ensures
        encode_utf8(row_line(marks, row, columns)).len() == columns,
        feed_free(encode_utf8(row_line(marks, row, columns)), 0, columns as int),
{
    let line = row_line(marks, row, columns);
    assert(is_ascii_chars(line));
    is_ascii_chars_encode_utf8(line);
    assert forall|i: int| 0 <= i < columns implies #[trigger] encode_utf8(line)[i] != 10 by {
        assert(encode_utf8(line)[i] == line[i] as u8);
    }
}

/// Where the rows of a context stand, they are as many as announced and
/// none has a cross beyond the last attribute.
pub proof fn rows_are_fit(
    bytes: Seq<u8>,
    start: int,
    marks: Set<(usize, usize)>,
    from: nat,
    rows: nat,
    columns: nat,
)
    requires
        from <= rows,
        sits_at(bytes, start, encode_utf8(rows_from(marks, from, rows, columns))),
    ensures
        rows_fit(bytes, start, (rows - from) as nat, columns),
    decreases rows - from,
{
    if from < rows {
        let line = encode_utf8(row_line(marks, from as usize, columns));
        let feed = seq!['\n'];
        let rest = rows_from(marks, from + 1, rows, columns);
        encoded_in_a_row(row_line(marks, from as usize, columns) + feed, rest);
        encoded_in_a_row(row_line(marks, from as usize, columns), feed);
        feed_is_one_byte();
        sits_in_parts(bytes, start, line + seq![10u8], encode_utf8(rest));
        row_is_plain(marks, from as usize, columns);
        line_stands(bytes, start, line);
        let end = start + columns;
        assert forall|i: int| start <= i < end && is_cross(#[trigger] bytes[i]) implies chars_in(
            bytes,
            start,
            i,
        ) < columns by {
            chars_are_bytes_at_most(bytes, start, i);
        }
        rows_are_fit(bytes, start + columns + 1, marks, from + 1, rows, columns);
    }
}

/// A window of digits holds the number that the digits hold by
/// themselves.
pub proof fn number_in_a_window(bytes: Seq<u8>, start: int, digits: Seq<u8>)
    requires
        sits_at(bytes, start, digits),
    ensures
        number(bytes, start, start + digits.len()) == number(digits, 0, digits.len() as int),
        all_digits(digits, 0, digits.len() as int) ==> all_digits(
            bytes,
            start,
            start + digits.len(),
        ),
    decreases digits.len(),
{
    if digits.len() > 0 {
        let front = digits.drop_last();
        assert forall|i: int| 0 <= i < front.len() implies
            bytes[start + i] == #[trigger] front[i] by {
            assert(front[i] == digits[i]);
        }
        number_in_a_window(bytes, start, front);
        same_number(front, digits, 0, front.len() as int);
        assert(bytes[start + digits.len() - 1] == digits[digits.len() - 1]);
    }
    if all_digits(digits, 0, digits.len() as int) {
        assert forall|i: int| start <= i < start + digits.len() implies 48 <= #[trigger] bytes[i]
            <= 57 by {
            assert(bytes[start + (i - start)] == digits[i - start]);
        }
    }
}

/// A count that stands on a line of its own is read as it was written.
pub proof fn count_reads_back(bytes: Seq<u8>, start: int, n: nat)
    requires
        n <= usize::MAX,
        sits_at(bytes, start, encode_utf8(decimal(n)) + seq![10u8]),
    ensures
        start < bytes.len(),
        next_line(bytes, start) == start + decimal(n).len() + 1,
        count_of(bytes, start, feed_after(bytes, start)) == Some(n),
{
    let digits = encode_utf8(decimal(n));
    decimal_reads_back(n);
    assert forall|i: int| 0 <= i < digits.len() implies #[trigger] digits[i] != 10 by {
        assert(48 <= digits[i] <= 57);
    }
    line_stands(bytes, start, digits);
    sits_in_parts(bytes, start, digits, seq![10u8]);
    number_in_a_window(bytes, start, digits);
    let end = start + digits.len();
    assert(48 <= bytes[end - 1] <= 57) by {
        assert(bytes[start + (digits.len() - 1)] == digits[digits.len() - 1]);
    }
    assert(48 <= bytes[start] <= 57) by {
        assert(bytes[start + 0] == digits[0]);
    }
    assert(content_end(bytes, start, end) == end);
}

/// The text that is written for a context may be handed to the engine,
/// provided that no name holds a line feed and that there are not more
/// objects or attributes than a file may announce.
pub proof fn written_text_is_loadable(
    objects: Seq<Seq<char>>,
    attributes: Seq<Seq<char>>,
    marks: Set<(usize, usize)>,
)
    requires
        each_on_one_line(objects),
        each_on_one_line(attributes),
        objects.len() <= most(),
        attributes.len() <= most(),
    ensures
        loadable(encode_utf8(cxt_text(objects, attributes, marks))),
        rows_of(encode_utf8(cxt_text(objects, attributes, marks))) == objects.len(),
        columns_of(encode_utf8(cxt_text(objects, attributes, marks))) == attributes.len(),
        sits_at(
            encode_utf8(cxt_text(objects, attributes, marks)),
            names_at(encode_utf8(cxt_text(objects, attributes, marks))),
            encode_utf8(name_lines(objects)),
        ),
        sits_at(
            encode_utf8(cxt_text(objects, attributes, marks)),
            attributes_at(encode_utf8(cxt_text(objects, attributes, marks))),
            encode_utf8(name_lines(attributes)),
        ),
        sits_at(
            encode_utf8(cxt_text(objects, attributes, marks)),
            table_at(encode_utf8(cxt_text(objects, attributes, marks))),
            encode_utf8(rows_from(marks, 0, objects.len(), attributes.len())),
        ),
{
    let rows = objects.len();
    let columns = attributes.len();
    let marker = seq!['B', '\n', '\n'];
    let feed = seq!['\n'];
    let gap = seq!['\n', '\n'];
    let object_part = name_lines(objects);
    let attribute_part = name_lines(attributes);
    let row_part = row_lines(marks, rows, columns);
    let text = cxt_text(objects, attributes, marks);
    let bytes = encode_utf8(text);
    let r = encode_utf8(decimal(rows));
    let c = encode_utf8(decimal(columns));
    let o = encode_utf8(object_part);
    let a = encode_utf8(attribute_part);
    let t = encode_utf8(row_part);

    assert(is_ascii_chars(marker));
    is_ascii_chars_encode_utf8(marker);
    assert(encode_utf8(marker) =~= seq![66u8, 10u8, 10u8]);
    assert(is_ascii_chars(gap));
    is_ascii_chars_encode_utf8(gap);
    assert(encode_utf8(gap) =~= seq![10u8, 10u8]);
    feed_is_one_byte();
    decimal_reads_back(rows);
    decimal_reads_back(columns);

    encoded_in_a_row(marker + decimal(rows) + feed + decimal(columns) + gap + object_part
        + attribute_part, row_part);
    encoded_in_a_row(marker + decimal(rows) + feed + decimal(columns) + gap + object_part,
        attribute_part);
    encoded_in_a_row(marker + decimal(rows) + feed + decimal(columns) + gap, object_part);
    encoded_in_a_row(marker + decimal(rows) + feed + decimal(columns), gap);
    encoded_in_a_row(marker + decimal(rows) + feed, decimal(columns));
    encoded_in_a_row(marker + decimal(rows), feed);
    encoded_in_a_row(marker, decimal(rows));

    let head = seq![66u8, 10u8, 10u8] + r + seq![10u8] + c + seq![10u8, 10u8];
    assert(bytes =~= head + o + a + t);
    let body = head.len() as int;
    assert(body == 6 + r.len() + c.len());

    assert(bytes[0] == 66 && bytes[1] == 10 && bytes[2] == 10);
    feed_found(bytes, 0, 1);
    feed_found(bytes, 2, 2);
    assert(next_line(bytes, 0) == 2);
    assert(next_line(bytes, 2) == 3);

    assert(sits_at(bytes, 3, r + seq![10u8])) by {
        assert forall|i: int| 0 <= i < (r + seq![10u8]).len() implies bytes[3 + i] == #[trigger] (r
            + seq![10u8])[i] by {}
    }
    count_reads_back(bytes, 3, rows);
    let fourth: int = 4 + r.len() as int;
    assert(sits_at(bytes, fourth, c + seq![10u8])) by {
        assert forall|i: int| 0 <= i < (c + seq![10u8]).len() implies bytes[fourth + i]
            == #[trigger] (c + seq![10u8])[i] by {}
    }
    count_reads_back(bytes, fourth, columns);
    let blank: int = fourth + c.len() as int + 1;
    assert(bytes[blank] == 10);
    feed_found(bytes, blank, blank);
    assert(next_line(bytes, blank) == body);

    assert(sits_at(bytes, body, o)) by {
        assert forall|i: int| 0 <= i < o.len() implies bytes[body + i] == #[trigger] o[i] by {}
    }
    names_are_skipped(bytes, body, objects);
    let second: int = body + o.len() as int;
    assert(sits_at(bytes, second, a)) by {
        assert forall|i: int| 0 <= i < a.len() implies bytes[second + i] == #[trigger] a[i] by {}
    }
    names_are_skipped(bytes, second, attributes);
    let third: int = second + a.len() as int;
    row_lines_from_the_front(marks, rows, columns);
    assert(sits_at(bytes, third, t)) by {
        assert forall|i: int| 0 <= i < t.len() implies bytes[third + i] == #[trigger] t[i] by {}
    }
    rows_are_fit(bytes, third, marks, 0, rows, columns);
    assert(names_at(bytes) == body);
    assert(attributes_at(bytes) == second);
    assert(table_at(bytes) == third);
}

/// The text does not end in a carriage return.
pub open spec fn ends_plainly(text: Seq<char>) -> bool {
    text.len() > 0 ==> text.last() != '\r'
}

/// No name ends in a carriage return.
pub open spec fn each_ends_plainly(names: Seq<Seq<char>>) -> bool {
    forall|i: int| 0 <= i < names.len() ==> ends_plainly(#[trigger] names[i])
}

/// No name is empty.
pub open spec fn none_empty(names: Seq<Seq<char>>) -> bool {
    forall|i: int| 0 <= i < names.len() ==> (#[trigger] names[i]).len() > 0
}

/// The names as they are written: an empty one as `"no name"`.
pub open spec fn shown_all(names: Seq<Seq<char>>) -> Seq<Seq<char>> {
    Seq::new(names.len(), |i: int| shown(names[i]))
}

/// A text that does not end in a carriage return is not written with the
/// byte of one at its end.
pub proof fn written_end_is_plain(text: Seq<char>)
    requires
        ends_plainly(text),
    ensures
        encode_utf8(text).len() > 0 ==> encode_utf8(text).last() != 13,
        text.len() == 0 ==> encode_utf8(text).len() == 0,
    decreases text.len(),
{
    if text.len() > 0 {
        let rest = text.drop_first();
        bytes_of_char(text[0]);
        let head = encode_scalar(text[0] as u32);
        assert(encode_utf8(text) =~= head + encode_utf8(rest));
        if rest.len() == 0 {
            assert(encode_utf8(rest).len() == 0);
            assert(text.last() == text[0]);
            if (text[0] as u32) < 128 {
                assert('\r' as u32 == 13);
                if text[0] as u32 == 13 {
                    char_u32_cast(text[0], 13u32);
                    char_u32_cast('\r', 13u32);
                }
            } else {
                assert(all_high(head));
                assert(head[head.len() - 1] >= 128);
            }
        } else {
            assert(rest.last() == text.last());
            written_end_is_plain(rest);
            bytes_of_char(rest[0]);
            assert(encode_utf8(rest) =~= encode_scalar(rest[0] as u32) + encode_utf8(
                rest.drop_first(),
            ));
        }
    }
}

/// Where the lines of some names stand, line `j` holds name `j` as it is
/// written.
pub proof fn name_is_found(bytes: Seq<u8>, start: int, names: Seq<Seq<char>>, j: nat)
    requires
        each_on_one_line(names),
        each_ends_plainly(names),
        sits_at(bytes, start, encode_utf8(name_lines(names))),
        j < names.len(),
    ensures
        skip_lines(bytes, start, j) is Some,
        line_at(bytes, skip_lines(bytes, start, j).unwrap()) == encode_utf8(shown(names[j as int])),
    decreases j,
{
    let rest = names.drop_first();
    let line = encode_utf8(shown(names[0]));
    let feed = seq!['\n'];
    name_lines_from_the_front(names);
    encoded_in_a_row(shown(names[0]) + feed, name_lines(rest));
    encoded_in_a_row(shown(names[0]), feed);
    feed_is_one_byte();
    sits_in_parts(bytes, start, line + seq![10u8], encode_utf8(name_lines(rest)));
    shown_on_one_line(names[0]);
    encoded_on_one_line(shown(names[0]));
    line_stands(bytes, start, line);
    if j == 0 {
        shown_ends_plainly(names[0]);
        written_end_is_plain(shown(names[0]));
        sits_in_parts(bytes, start, line, seq![10u8]);
        let end = start + line.len();
        if line.len() > 0 {
            assert(bytes[start + (line.len() - 1)] == line[line.len() - 1]);
        }
        assert(content_end(bytes, start, end) == end);
        assert(bytes.subrange(start, end) =~= line);
    } else {
        assert forall|i: int| 0 <= i < rest.len() implies on_one_line(#[trigger] rest[i]) by {
            assert(rest[i] == names[i + 1]);
        }
        assert forall|i: int| 0 <= i < rest.len() implies ends_plainly(#[trigger] rest[i]) by {
            assert(rest[i] == names[i + 1]);
        }
        name_is_found(bytes, start + line.len() + 1, rest, (j - 1) as nat);
        assert(rest[j - 1] == names[j as int]);
    }
}

/// A name that does not end in a carriage return is not written with one
/// at its end either.
pub proof fn shown_ends_plainly(name: Seq<char>)
    requires
        ends_plainly(name),
    ensures
        ends_plainly(shown(name)),
{
    reveal_strlit("\"no name\"");
}

/// Where the lines of some names stand, they spell out the names as they
/// are written.
pub proof fn names_are_spelled(bytes: Seq<u8>, start: int, names: Seq<Seq<char>>)
    requires
        each_on_one_line(names),
        each_ends_plainly(names),
        sits_at(bytes, start, encode_utf8(name_lines(names))),
    ensures
        lines_spelled(bytes, start, names.len()) == written(shown_all(names)),
{
    let left = lines_spelled(bytes, start, names.len());
    let right = written(shown_all(names));
    assert forall|j: int| 0 <= j < names.len() implies left[j] == right[j] by {
        name_is_found(bytes, start, names, j as nat);
    }
    assert(left =~= right);
}

/// In a stretch of bytes below 128 every byte is a character.
pub proof fn plain_bytes_are_chars(bytes: Seq<u8>, from: int, to: int)
    requires
        0 <= from <= to <= bytes.len(),
        forall|i: int| from <= i < to ==> #[trigger] bytes[i] < 128,
    ensures
        chars_in(bytes, from, to) == to - from,
    decreases to - from,
{
    if from < to {
        plain_bytes_are_chars(bytes, from, to - 1);
    }
}

/// Where the rows of a context stand, row `g` begins after `g` lines, ends
/// after one byte per attribute, and has a cross exactly where the context
/// has one.
pub proof fn row_is_found(
    bytes: Seq<u8>,
    start: int,
    marks: Set<(usize, usize)>,
    from: nat,
    rows: nat,
    columns: nat,
    g: nat,
)
    requires
        from + g < rows <= usize::MAX,
        sits_at(bytes, start, encode_utf8(rows_from(marks, from, rows, columns))),
    ensures
        skip_lines(bytes, start, g) is Some,
        forall|m: nat|
            m < columns ==> #[trigger] cross_at(bytes, skip_lines(bytes, start, g).unwrap(), m)
                == marks.contains(((from + g) as usize, m as usize)),
    decreases g,
{
    let text = row_line(marks, from as usize, columns);
    let line = encode_utf8(text);
    let feed = seq!['\n'];
    let rest = rows_from(marks, from + 1, rows, columns);
    encoded_in_a_row(text + feed, rest);
    encoded_in_a_row(text, feed);
    feed_is_one_byte();
    sits_in_parts(bytes, start, line + seq![10u8], encode_utf8(rest));
    row_is_plain(marks, from as usize, columns);
    line_stands(bytes, start, line);
    if g == 0 {
        sits_in_parts(bytes, start, line, seq![10u8]);
        assert(is_ascii_chars(text));
        is_ascii_chars_encode_utf8(text);
        let end = start + columns;
        assert forall|i: int| start <= i < end implies #[trigger] bytes[i] == (if marks.contains(
            (from as usize, (i - start) as usize),
        ) {
            88u8
        } else {
            46u8
        }) by {
            assert(bytes[start + (i - start)] == line[i - start]);
            assert(line[i - start] == text[i - start] as u8);
        }
        assert forall|m: nat| m < columns implies #[trigger] cross_at(bytes, start, m)
            == marks.contains((from as usize, m as usize)) by {
            assert forall|i: int| start <= i < end implies chars_in(bytes, start, i) == i
                - start by {
                assert forall|k: int| start <= k < i implies #[trigger] bytes[k] < 128 by {}
                plain_bytes_are_chars(bytes, start, i);
            }
            if marks.contains((from as usize, m as usize)) {
                assert(is_cross(bytes[start + m]));
                assert(chars_in(bytes, start, start + m) == m);
            }
            if cross_at(bytes, start, m) {
                let i = choose|i: int|
                    start <= i < end && is_cross(#[trigger] bytes[i]) && chars_in(
                        bytes,
                        start,
                        i,
                    ) == m;
                assert(i - start == m);
            }
        }
    } else {
        row_is_found(bytes, start + columns + 1, marks, from + 1, rows, columns, (g - 1) as nat);
        assert(skip_lines(bytes, start, g) == skip_lines(
            bytes,
            start + columns + 1,
            (g - 1) as nat,
        ));
    }
}

/// Where the rows of a context stand, they spell out its crosses.
pub proof fn crosses_are_spelled(
    bytes: Seq<u8>,
    start: int,
    marks: Set<(usize, usize)>,
    rows: nat,
    columns: nat,
)
    requires
        rows <= usize::MAX,
        bounded(marks, rows, columns),
        sits_at(bytes, start, encode_utf8(rows_from(marks, 0, rows, columns))),
    ensures
        crosses_spelled(bytes, start, rows, columns) == marks,
{
    let spelled = crosses_spelled(bytes, start, rows, columns);
    assert forall|p: (usize, usize)| spelled.contains(p) == marks.contains(p) by {
        if p.0 < rows && p.1 < columns {
            row_is_found(bytes, start, marks, 0, rows, columns, p.0 as nat);
            assert(cross_at(bytes, skip_lines(bytes, start, p.0 as nat).unwrap(), p.1 as nat)
                == marks.contains(p));
        }
    }
    assert(spelled =~= marks);
}

/// Names that are written with the same bytes are the same names.
pub proof fn written_alike(left: Seq<Seq<char>>, right: Seq<Seq<char>>)
    requires
        written(left) == written(right),
    ensures
        left == right,
{
    assert(written(left).len() == left.len());
    assert(written(right).len() == right.len());
    assert forall|i: int| 0 <= i < left.len() implies left[i] == right[i] by {
        assert(written(left)[i] == encode_utf8(left[i]));
        assert(written(right)[i] == encode_utf8(right[i]));
        encode_utf8_decode_utf8(left[i]);
        encode_utf8_decode_utf8(right[i]);
    }
    assert(left =~= right);
}

/// What is read from the text of a context is that context, with every
/// empty name replaced by `"no name"`; provided that no name holds a line
/// feed or ends in a carriage return, that the crosses lie inside the
/// table, and that there are not more objects or attributes than a file
/// may announce.
pub proof fn written_text_reads_back(
    objects: Seq<Seq<char>>,
    attributes: Seq<Seq<char>>,
    marks: Set<(usize, usize)>,
    read_objects: Seq<Seq<char>>,
    read_attributes: Seq<Seq<char>>,
    read_marks: Set<(usize, usize)>,
)
    requires
        each_on_one_line(objects),
        each_on_one_line(attributes),
        each_ends_plainly(objects),
        each_ends_plainly(attributes),
        objects.len() <= most(),
        attributes.len() <= most(),
        bounded(marks, objects.len(), attributes.len()),
        reads_as(
            read_objects,
            read_attributes,
            read_marks,
            encode_utf8(cxt_text(objects, attributes, marks)),
        ),
    ensures
        read_objects == shown_all(objects),
        read_attributes == shown_all(attributes),
        read_marks == marks,
{
    let bytes = encode_utf8(cxt_text(objects, attributes, marks));
    written_text_is_loadable(objects, attributes, marks);
    names_are_spelled(bytes, names_at(bytes), objects);
    names_are_spelled(bytes, attributes_at(bytes), attributes);
    crosses_are_spelled(bytes, table_at(bytes), marks, objects.len(), attributes.len());
    written_alike(read_objects, shown_all(objects));
    written_alike(read_attributes, shown_all(attributes));
}

/// A context whose names are not empty is read from its text as it is: the
/// same object names, the same attribute names, the same crosses.
pub proof fn round_trip(
    objects: Seq<Seq<char>>,
    attributes: Seq<Seq<char>>,
    marks: Set<(usize, usize)>,
    read_objects: Seq<Seq<char>>,
    read_attributes: Seq<Seq<char>>,
    read_marks: Set<(usize, usize)>,
)
    requires
        none_empty(objects),
        none_empty(attributes),
        each_on_one_line(objects),
        each_on_one_line(attributes),
        each_ends_plainly(objects),
        each_ends_plainly(attributes),
        objects.len() <= most(),
        attributes.len() <= most(),
        bounded(marks, objects.len(), attributes.len()),
        reads_as(
            read_objects,
            read_attributes,
            read_marks,
            encode_utf8(cxt_text(objects, attributes, marks)),
        ),
    ensures
        read_objects == objects,
        read_attributes == attributes,
        read_marks == marks,
{
    written_text_reads_back(
        objects,
        attributes,
        marks,
        read_objects,
        read_attributes,
        read_marks,
    );
    assert(shown_all(objects) =~= objects);
    assert(shown_all(attributes) =~= attributes);
}

/// Writing a context and reading the text back gives the same context:
/// the same object names, the same attribute names and the same crosses.
/// This holds of a context in which no name is empty, holds a line feed or
/// ends in a carriage return, and of whatever is read from the text as the
/// text spells it out.
pub proof fn export_then_import(before: Context, after: Context)
    requires
        before.wf(),
        none_empty(before.objects()),
        none_empty(before.attributes()),
        each_on_one_line(before.objects()),
        each_on_one_line(before.attributes()),
        each_ends_plainly(before.objects()),
        each_ends_plainly(before.attributes()),
        before.objects().len() <= most(),
        before.attributes().len() <= most(),
        reads_as(
            after.objects(),
            after.attributes(),
            after.incidence(),
            encode_utf8(cxt_text(before.objects(), before.attributes(), before.incidence())),
        ),
    ensures
        after.objects() == before.objects(),
        after.attributes() == before.attributes(),
        after.incidence() == before.incidence(),
{
    round_trip(
        before.objects(),
        before.attributes(),
        before.incidence(),
        after.objects(),
        after.attributes(),
        after.incidence(),
    );
}

} // verus!
