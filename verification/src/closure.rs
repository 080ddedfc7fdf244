//! The closure of a set of attributes in a table of crosses, and what
//! follows from its definition.

use crate::attribute_set::below;
use vstd::prelude::*;

verus! {

/// Every cross lies inside a table of the given size.
pub open spec fn bounded(
    marks: Set<(usize, usize)>,
    object_count: nat,
    attribute_count: nat,
) -> bool {
    forall|p: (usize, usize)| #[trigger]
        marks.contains(p) ==> p.0 < object_count && p.1 < attribute_count
}

/// The crosses of one row: (`object`, a) for every a in `attributes`.
pub open spec fn row_of(object: usize, attributes: Set<usize>) -> Set<(usize, usize)> {
    Set::new(|p: (usize, usize)| p.0 == object && attributes.contains(p.1))
}

/// The crosses of one column: (g, `attribute`) for every g in `objects`.
pub open spec fn column_of(attribute: usize, objects: Set<usize>) -> Set<(usize, usize)> {
    Set::new(|p: (usize, usize)| p.1 == attribute && objects.contains(p.0))
}

/// Object `object` is crossed with every attribute of `attributes`.
pub open spec fn has_all(
    marks: Set<(usize, usize)>,
    object: usize,
    attributes: Set<usize>,
) -> bool {
    forall|a: usize| #[trigger] attributes.contains(a) ==> marks.contains((object, a))
}

/// The closure of `attributes`: the attributes shared by all objects that
/// are crossed with every attribute of `attributes`.
pub open spec fn closure(
    marks: Set<(usize, usize)>,
    object_count: nat,
    attribute_count: nat,
    attributes: Set<usize>,
) -> Set<usize> {
    Set::new(
        |m: usize|
            m < attribute_count && forall|g: usize|
                g < object_count && #[trigger] has_all(marks, g, attributes) ==> marks.contains(
                    (g, m),
                ),
    )
}

/// A closure names existing attributes only.
pub proof fn closure_inside(
    marks: Set<(usize, usize)>,
    object_count: nat,
    attribute_count: nat,
    attributes: Set<usize>,
)
    ensures
        closure(marks, object_count, attribute_count, attributes).subset_of(below(attribute_count)),
{
}

/// A set of existing attributes is part of its closure: the closure never
/// loses an attribute.
pub proof fn closure_extensive(
    marks: Set<(usize, usize)>,
    object_count: nat,
    attribute_count: nat,
    attributes: Set<usize>,
)
    requires
        attributes.subset_of(below(attribute_count)),
    ensures
        attributes.subset_of(closure(marks, object_count, attribute_count, attributes)),
{
    assert forall|m: usize| attributes.contains(m) implies closure(
        marks,
        object_count,
        attribute_count,
        attributes,
    ).contains(m) by {
        assert(below(attribute_count).contains(m));
        assert forall|g: usize|
            g < object_count && #[trigger] has_all(marks, g, attributes) implies marks.contains(
            (g, m),
        ) by {}
    }
}

/// The closure of all attributes is all attributes.
pub proof fn closure_of_full(marks: Set<(usize, usize)>, object_count: nat, attribute_count: nat)
    ensures
        closure(marks, object_count, attribute_count, below(attribute_count)) == below(
            attribute_count,
        ),
{
    closure_extensive(marks, object_count, attribute_count, below(attribute_count));
    assert(closure(marks, object_count, attribute_count, below(attribute_count)) =~= below(
        attribute_count,
    ));
}

/// What a new object does to a closure. Let the new object, appended below
/// the others, be crossed with exactly the attributes of `shape`. If it has
/// all of `premise`, the closure of `premise` keeps only what the object has
/// too; if it lacks some of `premise`, the closure of `premise` is as before.
pub proof fn closure_after_object(
    marks: Set<(usize, usize)>,
    object_count: nat,
    attribute_count: nat,
    shape: Set<usize>,
    premise: Set<usize>,
)
    requires
        bounded(marks, object_count, attribute_count),
        object_count <= usize::MAX,
    ensures
        closure(
            marks.union(row_of(object_count as usize, shape)),
            object_count + 1,
            attribute_count,
            premise,
        ) == if premise.subset_of(shape) {
            closure(marks, object_count, attribute_count, premise).intersect(shape)
        } else {
            closure(marks, object_count, attribute_count, premise)
        },
{
    let last = object_count as usize;
    let grown = marks.union(row_of(last, shape));
    let before = closure(marks, object_count, attribute_count, premise);
    let after = closure(grown, object_count + 1, attribute_count, premise);
    assert forall|g: usize| g < object_count implies has_all(grown, g, premise) == has_all(
        marks,
        g,
        premise,
    ) by {
        if has_all(grown, g, premise) {
            assert forall|a: usize| #[trigger] premise.contains(a) implies marks.contains(
                (g, a),
            ) by {
                assert(grown.contains((g, a)));
            }
        }
        if has_all(marks, g, premise) {
            assert forall|a: usize| #[trigger] premise.contains(a) implies grown.contains(
                (g, a),
            ) by {
                assert(marks.contains((g, a)));
            }
        }
    }
    assert(has_all(grown, last, premise) == premise.subset_of(shape)) by {
        if has_all(grown, last, premise) {
            assert forall|a: usize| premise.contains(a) implies shape.contains(a) by {
                assert(grown.contains((last, a)));
                assert(!marks.contains((last, a)));
            }
        }
        if premise.subset_of(shape) {
            assert forall|a: usize| #[trigger] premise.contains(a) implies grown.contains(
                (last, a),
            ) by {
                assert(row_of(last, shape).contains((last, a)));
            }
        }
    }
    assert forall|m: usize| after.contains(m) == (before.contains(m) && (premise.subset_of(shape)
        ==> shape.contains(m))) by {
        if after.contains(m) {
            assert forall|g: usize|
                g < object_count && #[trigger] has_all(marks, g, premise) implies marks.contains(
                (g, m),
            ) by {
                assert(has_all(grown, g, premise));
                assert(grown.contains((g, m)));
            }
            if premise.subset_of(shape) {
                assert(has_all(grown, last, premise));
                assert(grown.contains((last, m)));
                assert(!marks.contains((last, m)));
            }
        }
        if before.contains(m) && (premise.subset_of(shape) ==> shape.contains(m)) {
            assert forall|g: usize|
                g < object_count + 1 && #[trigger] has_all(grown, g, premise) implies
                    grown.contains(
                (g, m),
            ) by {
                if g < object_count {
                    assert(has_all(marks, g, premise));
                    assert(marks.contains((g, m)));
                } else {
                    assert(g == last);
                    assert(row_of(last, shape).contains((last, m)));
                }
            }
        }
    }
    if premise.subset_of(shape) {
        assert(after =~= before.intersect(shape));
    } else {
        assert(after =~= before);
    }
}

/// A new object that has the whole closure of `premise` leaves that closure
/// as it is: an object that does not refute an implication does not touch
/// it either.
pub proof fn closure_kept(
    marks: Set<(usize, usize)>,
    object_count: nat,
    attribute_count: nat,
    shape: Set<usize>,
    premise: Set<usize>,
)
    requires
        bounded(marks, object_count, attribute_count),
        object_count <= usize::MAX,
        closure(marks, object_count, attribute_count, premise).subset_of(shape),
    ensures
        closure(
            marks.union(row_of(object_count as usize, shape)),
            object_count + 1,
            attribute_count,
            premise,
        ) == closure(marks, object_count, attribute_count, premise),
{
    closure_after_object(marks, object_count, attribute_count, shape, premise);
    let before = closure(marks, object_count, attribute_count, premise);
    assert(before.intersect(shape) =~= before);
}

/// A new object that has all of `premise` and lacks `attribute` takes
/// `attribute` out of the closure of `premise`.
pub proof fn closure_loses(
    marks: Set<(usize, usize)>,
    object_count: nat,
    attribute_count: nat,
    shape: Set<usize>,
    premise: Set<usize>,
    attribute: usize,
)
    requires
        bounded(marks, object_count, attribute_count),
        object_count <= usize::MAX,
        premise.subset_of(shape),
        !shape.contains(attribute),
    ensures
        !closure(
            marks.union(row_of(object_count as usize, shape)),
            object_count + 1,
            attribute_count,
            premise,
        ).contains(attribute),
{
    closure_after_object(marks, object_count, attribute_count, shape, premise);
}

/// A new object that has exactly the attributes of `premise` makes
/// `premise` closed.
pub proof fn closure_of_exact_match(
    marks: Set<(usize, usize)>,
    object_count: nat,
    attribute_count: nat,
    premise: Set<usize>,
)
    requires
        bounded(marks, object_count, attribute_count),
        object_count <= usize::MAX,
        premise.subset_of(below(attribute_count)),
    ensures
        closure(
            marks.union(row_of(object_count as usize, premise)),
            object_count + 1,
            attribute_count,
            premise,
        ) == premise,
{
    closure_after_object(marks, object_count, attribute_count, premise, premise);
    closure_extensive(marks, object_count, attribute_count, premise);
    let before = closure(marks, object_count, attribute_count, premise);
    assert(before.intersect(premise) =~= premise);
}

} // verus!
