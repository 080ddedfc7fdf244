//! The texts in which sets of objects and attributes are shown.
//!
//! A set is written as its names in braces, `{ a , b }`; the empty set is
//! `{ }`. A concept or an implication takes two lines: the first holds its
//! number and its first set, the second, indented, its second set.

use crate::attribute_set::{holds, members};
use crate::context::{texts, Context};
use crate::engine::implications;
use crate::export::{decimal, decimal_text};
use bit_set::BitSet;
use vstd::prelude::*;
use vstd::string::*;
use vstd::utf8::encode_utf8;

verus! {

/// The names of the members of `set` among the first `n` positions, each
/// with a blank before and after it, separated by commas.
pub open spec fn listed(names: Seq<Seq<char>>, set: Set<usize>, n: nat) -> Seq<char>
    decreases n,
{
    if n == 0 {
        Seq::empty()
    } else {
        let before = listed(names, set, (n - 1) as nat);
        if set.contains((n - 1) as usize) {
            (if before.len() == 0 {
                before
            } else {
                before + seq![',']
            }) + seq![' '] + names[n - 1] + seq![' ']
        } else {
            before
        }
    }
}

/// The set in braces: `{ a , b }`, or `{ }` if no position of `names`
/// belongs to it.
pub open spec fn braced(names: Seq<Seq<char>>, set: Set<usize>) -> Seq<char> {
    let inner = listed(names, set, names.len());
    seq!['{'] + (if inner.len() == 0 {
        seq![' ']
    } else {
        inner
    }) + seq!['}']
}

/// The blanks between the number of an entry and its text: three, or one
/// from the tenth entry on.
pub open spec fn gap(index: nat) -> Seq<char> {
    if index >= 9 {
        seq![' ']
    } else {
        seq![' ', ' ', ' ']
    }
}

/// The first line of entry `index`: its number, counted from one, a colon,
/// the gap, the text and a comma.
pub open spec fn entry_head(index: nat, text: Seq<char>) -> Seq<char> {
    decimal(index + 1) + seq![':'] + gap(index) + text + seq![',']
}

/// The second line of an entry: six blanks and the text.
pub open spec fn entry_tail(text: Seq<char>) -> Seq<char> {
    seq![' ', ' ', ' ', ' ', ' ', ' '] + text
}

/// The labels with one blank between each two.
pub open spec fn joined(labels: Seq<Seq<char>>) -> Seq<char>
    decreases labels.len(),
{
    if labels.len() == 0 {
        Seq::empty()
    } else if labels.len() == 1 {
        labels[0]
    } else {
        joined(labels.drop_last()) + seq![' '] + labels.last()
    }
}

/// The number of bytes that the joined labels take.
pub open spec fn width(labels: Seq<Seq<char>>) -> nat
    decreases labels.len(),
{
    if labels.len() == 0 {
        0
    } else if labels.len() == 1 {
        encode_utf8(labels[0]).len()
    } else {
        width(labels.drop_last()) + 1 + encode_utf8(labels.last()).len()
    }
}

/// A row of `N`, one for each byte of the joined labels: the shape that is
/// drawn behind a label to set it off.
pub open spec fn backdrop(labels: Seq<Seq<char>>) -> Seq<char> {
    Seq::new(width(labels), |i: int| 'N')
}

/// The names at the first `n` positions whose check mark is set, in order.
pub open spec fn picked(names: Seq<Seq<char>>, marks: Seq<bool>, n: nat) -> Seq<Seq<char>>
    decreases n,
{
    if n == 0 {
        Seq::empty()
    } else if n <= marks.len() && marks[n - 1] {
        picked(names, marks, (n - 1) as nat).push(names[n - 1])
    } else {
        picked(names, marks, (n - 1) as nat)
    }
}

/// The names whose check mark is set, in the order of their positions.
pub fn picked_names(names: &Vec<String>, marks: &Vec<bool>) -> (list: Vec<String>)
    ensures
        texts(list@) == picked(texts(names@), marks@, names@.len() as nat),
{
    let mut list: Vec<String> = Vec::new();
    let mut i: usize = 0;
    proof {
        assert(texts(list@) =~= picked(texts(names@), marks@, 0));
    }
    while i < names.len()
        invariant
            i <= names@.len(),
            texts(list@) == picked(texts(names@), marks@, i as nat),
        decreases names@.len() - i,
    {
        if i < marks.len() && marks[i] {
            let ghost before = list@;
            list.push(names[i].clone());
            proof {
                assert(texts(before).len() == before.len());
                assert(texts(list@).len() == list@.len());
                assert(texts(names@)[i as int] == names@[i as int]@);
                assert(texts(list@) =~= texts(before).push(names@[i as int]@));
            }
        }
        i += 1;
    }
    list
}

/// The set in braces, with the names of its members.
pub fn braced_text(names: &Vec<String>, set: &BitSet) -> (text: String)
    ensures
        text@ == braced(texts(names@), members(*set)),
{
    let mut text = String::from_str("{");
    let mut any = false;
    let mut i: usize = 0;
    proof {
        reveal_strlit("{");
        assert(text@ =~= seq!['{'] + listed(texts(names@), members(*set), 0));
    }
    while i < names.len()
        invariant
            i <= names@.len(),
            text@ == seq!['{'] + listed(texts(names@), members(*set), i as nat),
            any == (listed(texts(names@), members(*set), i as nat).len() > 0),
        decreases names@.len() - i,
    {
        if holds(set, i) {
            if any {
                text.append(",");
            }
            text.append(" ");
            text.append(names[i].as_str());
            text.append(" ");
            any = true;
        }
        proof {
            reveal_strlit(",");
            reveal_strlit(" ");
            assert(texts(names@)[i as int] == names@[i as int]@);
            assert(text@ =~= seq!['{'] + listed(texts(names@), members(*set), (i + 1) as nat));
        }
        i += 1;
    }
    if !any {
        text.append(" ");
    }
    text.append("}");
    proof {
        reveal_strlit(" ");
        reveal_strlit("}");
        assert(texts(names@).len() == names@.len());
        assert(text@ =~= braced(texts(names@), members(*set)));
    }
    text
}

/// The first line of entry `index`.
pub fn head_line(index: usize, text: &str) -> (line: String)
    requires
        index < usize::MAX,
    ensures
        line@ == entry_head(index as nat, text@),
{
    let mut line = decimal_text(index + 1);
    line.append(":");
    if index >= 9 {
        line.append(" ");
    } else {
        line.append("   ");
    }
    line.append(text);
    line.append(",");
    proof {
        reveal_strlit(":");
        reveal_strlit(" ");
        reveal_strlit("   ");
        reveal_strlit(",");
        assert(line@ =~= entry_head(index as nat, text@));
    }
    line
}

/// The second line of an entry.
pub fn tail_line(text: &str) -> (line: String)
    ensures
        line@ == entry_tail(text@),
{
    let mut line = String::from_str("      ");
    line.append(text);
    proof {
        reveal_strlit("      ");
        assert(line@ =~= entry_tail(text@));
    }
    line
}

/// The two lines of every pair of sets: the first set is named by
/// `first_names`, the second by `second_names`.
pub fn listing(
    first_names: &Vec<String>,
    second_names: &Vec<String>,
    pairs: &Vec<(BitSet, BitSet)>,
) -> (lines: Vec<(String, String)>)
    ensures
        lines@.len() == pairs@.len(),
        forall|i: int|
            0 <= i < pairs@.len() ==> {
                &&& (#[trigger] lines@[i]).0@ == entry_head(
                    i as nat,
                    braced(texts(first_names@), implications(pairs@)[i].0),
                )
                &&& lines@[i].1@ == entry_tail(
                    braced(texts(second_names@), implications(pairs@)[i].1),
                )
            },
{
    let mut lines: Vec<(String, String)> = Vec::new();
    let mut i: usize = 0;
    while i < pairs.len()
        invariant
            i <= pairs@.len(),
            lines@.len() == i,
            forall|j: int|
                0 <= j < i ==> {
                    &&& (#[trigger] lines@[j]).0@ == entry_head(
                        j as nat,
                        braced(texts(first_names@), implications(pairs@)[j].0),
                    )
                    &&& lines@[j].1@ == entry_tail(
                        braced(texts(second_names@), implications(pairs@)[j].1),
                    )
                },
        decreases pairs@.len() - i,
    {
        let first = braced_text(first_names, &pairs[i].0);
        let second = braced_text(second_names, &pairs[i].1);
        let head = head_line(i, first.as_str());
        let tail = tail_line(second.as_str());
        lines.push((head, tail));
        i += 1;
    }
    lines
}

/// The lines that list the concepts of `context`: objects first, then
/// attributes.
pub fn concept_lines(context: &Context) -> (lines: Vec<(String, String)>)
    requires
        context.wf(),
    ensures
        lines@.len() == context.concepts_of().len(),
        forall|i: int|
            0 <= i < lines@.len() ==> {
                &&& (#[trigger] lines@[i]).0@ == entry_head(
                    i as nat,
                    braced(context.objects(), context.concepts_of()[i].0),
                )
                &&& lines@[i].1@ == entry_tail(
                    braced(context.attributes(), context.concepts_of()[i].1),
                )
            },
{
    let concepts = context.concepts();
    let objects = context.object_list();
    let attributes = context.attribute_list();
    proof {
        assert(implications(concepts@).len() == concepts@.len());
    }
    listing(&objects, &attributes, &concepts)
}

/// The lines that list the implications of the canonical basis of
/// `context`: premise first, then closure.
pub fn implication_lines(context: &Context) -> (lines: Vec<(String, String)>)
    requires
        context.wf(),
    ensures
        lines@.len() == context.canonical_basis_of().len(),
        forall|i: int|
            0 <= i < lines@.len() ==> {
                &&& (#[trigger] lines@[i]).0@ == entry_head(
                    i as nat,
                    braced(context.attributes(), context.canonical_basis_of()[i].0),
                )
                &&& lines@[i].1@ == entry_tail(
                    braced(context.attributes(), context.canonical_basis_of()[i].1),
                )
            },
{
    let basis = context.canonical_basis();
    let attributes = context.attribute_list();
    proof {
        assert(implications(basis@).len() == basis@.len());
    }
    listing(&attributes, &attributes, &basis)
}

/// The labels with one blank between each two.
pub fn joined_text(labels: &Vec<String>) -> (text: String)
    ensures
        text@ == joined(texts(labels@)),
{
    let mut text = String::new();
    let mut i: usize = 0;
    while i < labels.len()
        invariant
            i <= labels@.len(),
            text@ == joined(texts(labels@).take(i as int)),
        decreases labels@.len() - i,
    {
        if i > 0 {
            text.append(" ");
        }
        text.append(labels[i].as_str());
        proof {
            reveal_strlit(" ");
            let done = texts(labels@).take(i + 1);
            assert(done.drop_last() =~= texts(labels@).take(i as int));
            assert(done.last() == labels@[i as int]@);
            assert(text@ =~= joined(done));
        }
        i += 1;
    }
    proof {
        assert(texts(labels@).take(labels@.len() as int) =~= texts(labels@));
    }
    text
}

/// A row of `N`, one for each byte of the joined labels.
pub fn backdrop_text(labels: &Vec<String>) -> (text: String)
    ensures
        text@ == backdrop(texts(labels@)),
{
    let mut text = String::new();
    let mut i: usize = 0;
    while i < labels.len()
        invariant
            i <= labels@.len(),
            text@ == backdrop(texts(labels@).take(i as int)),
        decreases labels@.len() - i,
    {
        let ghost done = texts(labels@).take(i + 1);
        proof {
            assert(done.drop_last() =~= texts(labels@).take(i as int));
            assert(done.last() == labels@[i as int]@);
        }
        if i > 0 {
            text.append("N");
        }
        let bytes = labels[i].as_str().as_bytes().len();
        let ghost base = text@;
        let mut k: usize = 0;
        while k < bytes
            invariant
                k <= bytes,
                text@ == base + Seq::new(k as nat, |j: int| 'N'),
            decreases bytes - k,
        {
            text.append("N");
            proof {
                reveal_strlit("N");
                assert(text@ =~= base + Seq::new((k + 1) as nat, |j: int| 'N'));
            }
            k += 1;
        }
        proof {
            reveal_strlit("N");
            assert(bytes == encode_utf8(labels@[i as int]@).len());
            assert(text@ =~= backdrop(done));
        }
        i += 1;
    }
    proof {
        assert(texts(labels@).take(labels@.len() as int) =~= texts(labels@));
    }
    text
}

} // verus!
