//! The text form of a context, as written to a `.cxt` file.
//!
//! The file starts with a line `B` and an empty line for the title. Then
//! come the number of objects and the number of attributes, one per line,
//! and an empty line; the object names and the attribute names, one per
//! line; and one line per object with an `X` for each cross and a `.` for
//! each blank.

use crate::context::Context;
use vstd::prelude::*;
use vstd::string::*;

verus! {

/// The decimal digit for `d`.
pub open spec fn digit(d: nat) -> char {
    if d == 0 {
        '0'
    } else if d == 1 {
        '1'
    } else if d == 2 {
        '2'
    } else if d == 3 {
        '3'
    } else if d == 4 {
        '4'
    } else if d == 5 {
        '5'
    } else if d == 6 {
        '6'
    } else if d == 7 {
        '7'
    } else if d == 8 {
        '8'
    } else {
        '9'
    }
}

/// The decimal notation of `n`, without leading zeros.
pub open spec fn decimal(n: nat) -> Seq<char>
    decreases n,
{
    if n < 10 {
        seq![digit(n)]
    } else {
        decimal(n / 10).push(digit(n % 10))
    }
}

/// The name as it is written: a name that is empty is written as
/// `"no name"`, quotation marks included.
pub open spec fn shown(name: Seq<char>) -> Seq<char> {
    if name.len() == 0 {
        "\"no name\""@
    } else {
        name
    }
}

/// The names, each as it is written and followed by a line feed.
pub open spec fn name_lines(names: Seq<Seq<char>>) -> Seq<char>
    decreases names.len(),
{
    if names.len() == 0 {
        Seq::empty()
    } else {
        name_lines(names.drop_last()) + shown(names.last()) + seq!['\n']
    }
}

/// The line of one object: `X` where it has a cross, `.` where it has none.
pub open spec fn row_line(marks: Set<(usize, usize)>, row: usize, columns: nat) -> Seq<char> {
    Seq::new(
        columns,
        |c: int|
            if marks.contains((row, c as usize)) {
                'X'
            } else {
                '.'
            },
    )
}

/// The lines of the first `rows` objects, each followed by a line feed.
pub open spec fn row_lines(marks: Set<(usize, usize)>, rows: nat, columns: nat) -> Seq<char>
    decreases rows,
{
    if rows == 0 {
        Seq::empty()
    } else {
        row_lines(marks, (rows - 1) as nat, columns) + row_line(
            marks,
            (rows - 1) as usize,
            columns,
        ) + seq!['\n']
    }
}

/// The text of a context.
pub open spec fn cxt_text(
    objects: Seq<Seq<char>>,
    attributes: Seq<Seq<char>>,
    marks: Set<(usize, usize)>,
) -> Seq<char> {
    seq!['B', '\n', '\n'] + decimal(objects.len()) + seq!['\n'] + decimal(attributes.len()) + seq![
        '\n',
        '\n',
    ] + name_lines(objects) + name_lines(attributes) + row_lines(
        marks,
        objects.len(),
        attributes.len(),
    )
}

/// The text before the first line feed, or all of it if there is none,
/// without a carriage return that stands right before that line feed.
pub open spec fn first_line(text: Seq<char>) -> Seq<char> {
    let end = first_feed(text);
    if end < text.len() && end > 0 && text[end - 1] == '\r' {
        text.take(end - 1)
    } else {
        text.take(end)
    }
}

/// The position of the first line feed in `text`, or its length if there
/// is none.
pub open spec fn first_feed(text: Seq<char>) -> int
    decreases text.len(),
{
    if text.len() == 0 || text[0] == '\n' {
        0
    } else {
        1 + first_feed(text.drop_first())
    }
}

/// The name under which a text is saved: its first line, unless that is
/// the bare marker `B`; then it is `Formal_context.cxt`.
pub open spec fn name_for(text: Seq<char>) -> Seq<char> {
    if first_line(text) == seq!['B'] {
        "Formal_context.cxt"@
    } else {
        first_line(text)
    }
}

/// The digit `d` as a string.
fn digit_text(d: usize) -> (text: &'static str)
    requires
        d < 10,
    ensures
        text@ == seq![digit(d as nat)],
{
    proof {
        reveal_strlit("0");
        reveal_strlit("1");
        reveal_strlit("2");
        reveal_strlit("3");
        reveal_strlit("4");
        reveal_strlit("5");
        reveal_strlit("6");
        reveal_strlit("7");
        reveal_strlit("8");
        reveal_strlit("9");
    }
    let text = if d == 0 {
        "0"
    } else if d == 1 {
        "1"
    } else if d == 2 {
        "2"
    } else if d == 3 {
        "3"
    } else if d == 4 {
        "4"
    } else if d == 5 {
        "5"
    } else if d == 6 {
        "6"
    } else if d == 7 {
        "7"
    } else if d == 8 {
        "8"
    } else {
        "9"
    };
    assert(text@ =~= seq![digit(d as nat)]);
    text
}

/// The decimal notation of `n`.
pub fn decimal_text(n: usize) -> (text: String)
    ensures
        text@ == decimal(n as nat),
    decreases n,
{
    if n < 10 {
        String::from_str(digit_text(n))
    } else {
        let mut text = decimal_text(n / 10);
        text.append(digit_text(n % 10));
        assert(text@ =~= decimal((n / 10) as nat).push(digit((n % 10) as nat)));
        text
    }
}

/// The text of `context`, ready to be written to a `.cxt` file.
pub fn export_text(context: &Context) -> (text: String)
    ensures
        text@ == cxt_text(context.objects(), context.attributes(), context.incidence()),
{
    let rows = context.object_count();
    let columns = context.attribute_count();
    let mut text = String::from_str("B\n\n");
    text.append(decimal_text(rows).as_str());
    text.append("\n");
    text.append(decimal_text(columns).as_str());
    text.append("\n\n");
    proof {
        reveal_strlit("B\n\n");
        reveal_strlit("\n");
        reveal_strlit("\n\n");
        assert(text@ =~= seq!['B', '\n', '\n'] + decimal(rows as nat) + seq!['\n'] + decimal(
            columns as nat,
        ) + seq!['\n', '\n']);
    }
    let ghost head = text@;
    let mut g: usize = 0;
    while g < rows
        invariant
            g <= rows,
            rows == context.objects().len(),
            text@ == head + name_lines(context.objects().take(g as int)),
        decreases rows - g,
    {
        let name = context.object_name(g);
        if name.as_str().is_empty() {
            text.append("\"no name\"");
        } else {
            text.append(name.as_str());
        }
        text.append("\n");
        proof {
            reveal_strlit("\n");
            let done = context.objects().take(g + 1);
            assert(done.drop_last() =~= context.objects().take(g as int));
            assert(done.last() == context.objects()[g as int]);
            assert(text@ =~= head + name_lines(done));
        }
        g += 1;
    }
    proof {
        assert(context.objects().take(rows as int) =~= context.objects());
    }
    let ghost named = text@;
    let mut m: usize = 0;
    while m < columns
        invariant
            m <= columns,
            columns == context.attributes().len(),
            text@ == named + name_lines(context.attributes().take(m as int)),
        decreases columns - m,
    {
        let name = context.attribute_name(m);
        if name.as_str().is_empty() {
            text.append("\"no name\"");
        } else {
            text.append(name.as_str());
        }
        text.append("\n");
        proof {
            reveal_strlit("\n");
            let done = context.attributes().take(m + 1);
            assert(done.drop_last() =~= context.attributes().take(m as int));
            assert(done.last() == context.attributes()[m as int]);
            assert(text@ =~= named + name_lines(done));
        }
        m += 1;
    }
    proof {
        assert(context.attributes().take(columns as int) =~= context.attributes());
    }
    let ghost labelled = text@;
    let mut g: usize = 0;
    while g < rows
        invariant
            g <= rows,
            rows == context.objects().len(),
            columns == context.attributes().len(),
            text@ == labelled + row_lines(context.incidence(), g as nat, columns as nat),
        decreases rows - g,
    {
        let ghost before = text@;
        let mut m: usize = 0;
        while m < columns
            invariant
                m <= columns,
                g < rows,
                text@ == before + row_line(context.incidence(), g, m as nat),
            decreases columns - m,
        {
            if context.has_cross(g, m) {
                text.append("X");
            } else {
                text.append(".");
            }
            proof {
                reveal_strlit("X");
                reveal_strlit(".");
                assert(text@ =~= before + row_line(context.incidence(), g, (m + 1) as nat));
            }
            m += 1;
        }
        text.append("\n");
        proof {
            reveal_strlit("\n");
            assert(text@ =~= labelled + row_lines(
                context.incidence(),
                (g + 1) as nat,
                columns as nat,
            ));
        }
        g += 1;
    }
    proof {
        assert(text@ =~= cxt_text(context.objects(), context.attributes(), context.incidence()));
    }
    text
}

/// The first line feed lies inside the text or right at its end.
pub proof fn first_feed_found(text: Seq<char>)
    ensures
        0 <= first_feed(text) <= text.len(),
        first_feed(text) < text.len() ==> text[first_feed(text)] == '\n',
        forall|i: int| 0 <= i < first_feed(text) ==> text[i] != '\n',
    decreases text.len(),
{
    if text.len() == 0 || text[0] == '\n' {
    } else {
        let rest = text.drop_first();
        first_feed_found(rest);
        assert forall|i: int| 0 <= i < first_feed(text) implies text[i] != '\n' by {
            if i > 0 {
                assert(rest[i - 1] == text[i]);
            }
        }
    }
}

/// The first position of a line feed is the first line feed.
pub proof fn first_feed_at(text: Seq<char>, end: int)
    requires
        0 <= end <= text.len(),
        end < text.len() ==> text[end] == '\n',
        forall|i: int| 0 <= i < end ==> text[i] != '\n',
    ensures
        first_feed(text) == end,
{
    first_feed_found(text);
}

/// The name under which `text` is saved.
pub fn file_name(text: &str) -> (name: String)
    requires
        text@.len() > 0,
    ensures
        name@ == name_for(text@),
{
    let length = text.unicode_len();
    let mut end: usize = 0;
    while end < length && text.get_char(end) != '\n'
        invariant
            end <= length,
            length == text@.len(),
            forall|i: int| 0 <= i < end ==> text@[i] != '\n',
        decreases length - end,
    {
        end += 1;
    }
    proof {
        first_feed_at(text@, end as int);
    }
    let stop = if end < length && end > 0 && text.get_char(end - 1) == '\r' {
        end - 1
    } else {
        end
    };
    let line = text.substring_char(0, stop);
    proof {
        assert(line@ =~= first_line(text@));
    }
    if line.unicode_len() == 1 && line.get_char(0) == 'B' {
        proof {
            assert(line@ =~= seq!['B']);
        }
        String::from_str("Formal_context.cxt")
    } else {
        proof {
            if line@ == seq!['B'] {
                assert(line@.len() == 1 && line@[0] == 'B');
            }
        }
        String::from_str(line)
    }
}

/// The text of a context is always saved as `Formal_context.cxt`: its
/// first line is the bare marker.
pub proof fn exported_name(
    objects: Seq<Seq<char>>,
    attributes: Seq<Seq<char>>,
    marks: Set<(usize, usize)>,
)
    ensures
        name_for(cxt_text(objects, attributes, marks)) == "Formal_context.cxt"@,
{
    let text = cxt_text(objects, attributes, marks);
    assert(text[0] == 'B' && text[1] == '\n');
    first_feed_at(text, 1);
    assert(first_line(text) =~= seq!['B']);
}

} // verus!
