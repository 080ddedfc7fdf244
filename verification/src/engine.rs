//! The formal context of the `odis` crate, as far as this crate uses it.
//!
//! An `odis::FormalContext` keeps the names of its objects and attributes,
//! the set of crosses (object, attribute), and two lookup tables derived from
//! the crosses that its algorithms read. Verus cannot look inside, so the
//! names and the crosses are given spec-level names here, and each method
//! that this crate calls is described in terms of them. These descriptions
//! are taken on trust from the source of `odis`; nothing in this file is
//! proved. The verified facade over them is [`crate::context::Context`].

use crate::attribute_set::{below, members};
use crate::closure::{bounded, closure, column_of, row_of};
use bit_set::BitSet;
use odis::FormalContext;
use vstd::prelude::*;

verus! {

#[verifier::external_type_specification]
#[verifier::external_body]
#[verifier::reject_recursive_types(T)]
pub struct ExFormalContext<T>(FormalContext<T>);

/// The object names of a formal context, in order (`objects`).
pub uninterp spec fn object_names(context: FormalContext<String>) -> Seq<Seq<char>>;

/// The attribute names of a formal context, in order (`attributes`).
pub uninterp spec fn attribute_names(context: FormalContext<String>) -> Seq<Seq<char>>;

/// The crosses of a formal context: the pairs (object index, attribute
/// index) of `incidence`.
pub uninterp spec fn crosses(context: FormalContext<String>) -> Set<(usize, usize)>;

/// Whether the two lookup tables of a formal context agree with the rest of
/// it: one entry per object and one per attribute, the entry of an object
/// listing exactly the attributes it is crossed with, the entry of an
/// attribute exactly the objects. The methods of `FormalContext` keep this
/// up; only writing to its public fields directly can break it.
pub uninterp spec fn coherent(context: FormalContext<String>) -> bool;

/// What `odis::algorithms::canonical_basis::index_next_preclosure` returns:
/// the set that follows `premise` in lectic order among the sets closed under
/// all but their own implication of `basis`, over the attributes
/// `0, .., attribute_count - 1`.
pub uninterp spec fn next_preclosure_of(
    attribute_count: nat,
    basis: Seq<(Set<usize>, Set<usize>)>,
    premise: Set<usize>,
) -> Set<usize>;

/// What `FormalContext::index_fcbo_concepts` yields, in order: the formal
/// concepts of the context as pairs (extent, intent), as the Fast
/// Close-by-One walk finds them.
pub uninterp spec fn fcbo_concepts_of(
    object_count: nat,
    attribute_count: nat,
    marks: Set<(usize, usize)>,
) -> Seq<(Set<usize>, Set<usize>)>;

/// What `FormalContext::index_sort_lectic_order` turns a list of concepts
/// into: the same pairs, ordered by their intents.
pub uninterp spec fn lectic_order_of(
    attribute_count: nat,
    concepts: Seq<(Set<usize>, Set<usize>)>,
) -> Seq<(Set<usize>, Set<usize>)>;

/// What `FormalContext::index_canonical_basis` returns: the implications
/// (premise, closure) of the canonical basis, in lectic order of their
/// premises.
pub uninterp spec fn canonical_basis_of(
    object_count: nat,
    attribute_count: nat,
    marks: Set<(usize, usize)>,
) -> Seq<(Set<usize>, Set<usize>)>;

/// The crosses that are left when row `index` is taken out and the rows
/// after it move up by one.
pub open spec fn without_row(marks: Set<(usize, usize)>, index: usize) -> Set<(usize, usize)> {
    Set::new(
        |p: (usize, usize)|
            if p.0 < index {
                marks.contains(p)
            } else {
                p.0 < usize::MAX && marks.contains(((p.0 + 1) as usize, p.1))
            },
    )
}

/// The crosses that are left when column `index` is taken out and the
/// columns after it move left by one.
pub open spec fn without_column(marks: Set<(usize, usize)>, index: usize) -> Set<(usize, usize)> {
    Set::new(
        |p: (usize, usize)|
            if p.1 < index {
                marks.contains(p)
            } else {
                p.1 < usize::MAX && marks.contains((p.0, (p.1 + 1) as usize))
            },
    )
}

/// A list of implications as pairs of plain sets.
pub open spec fn implications(basis: Seq<(BitSet, BitSet)>) -> Seq<(Set<usize>, Set<usize>)> {
    Seq::new(basis.len(), |i: int| (members(basis[i].0), members(basis[i].1)))
}

/// Trusted: `FormalContext::new` returns a context without objects,
/// attributes or crosses, with empty lookup tables.
#[verifier::external_body]
pub(crate) fn new_context() -> (context: FormalContext<String>)
    ensures
        coherent(context),
        object_names(context) == Seq::<Seq<char>>::empty(),
        attribute_names(context) == Seq::<Seq<char>>::empty(),
        crosses(context) == Set::<(usize, usize)>::empty(),
{
    FormalContext::new()
}

/// Trusted: `FormalContext::add_object` appends the object and crosses it
/// with each attribute of `attributes`. It indexes the attribute table by
/// those attributes, so they have to exist, and the list of objects must
/// have room for one more.
#[verifier::external_body]
pub(crate) fn push_object(context: &mut FormalContext<String>, name: String, attributes: &BitSet)
    requires
        coherent(*old(context)),
        object_names(*old(context)).len() < usize::MAX,
        members(*attributes).subset_of(below(attribute_names(*old(context)).len())),
    ensures
        coherent(*final(context)),
        object_names(*final(context)) == object_names(*old(context)).push(name@),
        attribute_names(*final(context)) == attribute_names(*old(context)),
        crosses(*final(context)) == crosses(*old(context)).union(
            row_of(object_names(*old(context)).len() as usize, members(*attributes)),
        ),
{
    context.add_object(name, attributes)
}

/// Trusted: `FormalContext::add_attribute` appends the attribute and crosses
/// each object of `objects` with it. It indexes the object table by those
/// objects, so they have to exist, and the list of attributes must have room
/// for one more.
#[verifier::external_body]
pub(crate) fn push_attribute(context: &mut FormalContext<String>, name: String, objects: &BitSet)
    requires
        coherent(*old(context)),
        attribute_names(*old(context)).len() < usize::MAX,
        members(*objects).subset_of(below(object_names(*old(context)).len())),
    ensures
        coherent(*final(context)),
        object_names(*final(context)) == object_names(*old(context)),
        attribute_names(*final(context)) == attribute_names(*old(context)).push(name@),
        crosses(*final(context)) == crosses(*old(context)).union(
            column_of(attribute_names(*old(context)).len() as usize, members(*objects)),
        ),
{
    context.add_attribute(name, objects)
}

/// Trusted: `FormalContext::set_cross` sets or clears one cross, in the
/// crosses and in both lookup tables, which it indexes by `object` and
/// `attribute`.
#[verifier::external_body]
pub(crate) fn mark(
    context: &mut FormalContext<String>,
    object: usize,
    attribute: usize,
    value: bool,
)
    requires
        coherent(*old(context)),
        object < object_names(*old(context)).len(),
        attribute < attribute_names(*old(context)).len(),
    ensures
        coherent(*final(context)),
        object_names(*final(context)) == object_names(*old(context)),
        attribute_names(*final(context)) == attribute_names(*old(context)),
        crosses(*final(context)) == if value {
            crosses(*old(context)).insert((object, attribute))
        } else {
            crosses(*old(context)).remove((object, attribute))
        },
{
    context.set_cross(object, attribute, value)
}

/// Trusted: `FormalContext::remove_object` takes out the object at `index`
/// with its crosses and moves the crosses of all later objects up by one
/// row. It clears the row attribute by attribute, so it clears all of it
/// only where the crosses lie inside the table.
#[verifier::external_body]
pub(crate) fn drop_object(context: &mut FormalContext<String>, index: usize)
    requires
        coherent(*old(context)),
        bounded(
            crosses(*old(context)),
            object_names(*old(context)).len(),
            attribute_names(*old(context)).len(),
        ),
        index < object_names(*old(context)).len(),
    ensures
        coherent(*final(context)),
        object_names(*final(context)) == object_names(*old(context)).remove(index as int),
        attribute_names(*final(context)) == attribute_names(*old(context)),
        crosses(*final(context)) == without_row(crosses(*old(context)), index),
{
    context.remove_object(index)
}

/// Trusted: `FormalContext::remove_attribute` takes out the attribute at
/// `index` with its crosses and moves the crosses of all later attributes
/// left by one column. It clears the column object by object, so it clears
/// all of it only where the crosses lie inside the table.
#[verifier::external_body]
pub(crate) fn drop_attribute(context: &mut FormalContext<String>, index: usize)
    requires
        coherent(*old(context)),
        bounded(
            crosses(*old(context)),
            object_names(*old(context)).len(),
            attribute_names(*old(context)).len(),
        ),
        index < attribute_names(*old(context)).len(),
    ensures
        coherent(*final(context)),
        object_names(*final(context)) == object_names(*old(context)),
        attribute_names(*final(context)) == attribute_names(*old(context)).remove(index as int),
        crosses(*final(context)) == without_column(crosses(*old(context)), index),
{
    context.remove_attribute(index)
}

/// Trusted: `FormalContext::change_object_name` replaces the name at `index`
/// and touches nothing else.
#[verifier::external_body]
pub(crate) fn name_object(context: &mut FormalContext<String>, name: String, index: usize)
    requires
        index < object_names(*old(context)).len(),
    ensures
        coherent(*final(context)) == coherent(*old(context)),
        object_names(*final(context)) == object_names(*old(context)).update(index as int, name@),
        attribute_names(*final(context)) == attribute_names(*old(context)),
        crosses(*final(context)) == crosses(*old(context)),
{
    context.change_object_name(name, index)
}

/// Trusted: `FormalContext::change_attribute_name` replaces the name at
/// `index` and touches nothing else.
#[verifier::external_body]
pub(crate) fn name_attribute(context: &mut FormalContext<String>, name: String, index: usize)
    requires
        index < attribute_names(*old(context)).len(),
    ensures
        coherent(*final(context)) == coherent(*old(context)),
        object_names(*final(context)) == object_names(*old(context)),
        attribute_names(*final(context)) == attribute_names(*old(context)).update(
            index as int,
            name@,
        ),
        crosses(*final(context)) == crosses(*old(context)),
{
    context.change_attribute_name(name, index)
}

/// Trusted: the number of entries of the field `objects`.
#[verifier::external_body]
pub(crate) fn count_objects(context: &FormalContext<String>) -> (count: usize)
    ensures
        count == object_names(*context).len(),
{
    context.objects.len()
}

/// Trusted: the number of entries of the field `attributes`.
#[verifier::external_body]
pub(crate) fn count_attributes(context: &FormalContext<String>) -> (count: usize)
    ensures
        count == attribute_names(*context).len(),
{
    context.attributes.len()
}

/// Trusted: a copy of entry `index` of the field `objects`.
#[verifier::external_body]
pub(crate) fn object_label(context: &FormalContext<String>, index: usize) -> (name: String)
    requires
        index < object_names(*context).len(),
    ensures
        name@ == object_names(*context)[index as int],
{
    context.objects[index].clone()
}

/// Trusted: a copy of entry `index` of the field `attributes`.
#[verifier::external_body]
pub(crate) fn attribute_label(context: &FormalContext<String>, index: usize) -> (name: String)
    requires
        index < attribute_names(*context).len(),
    ensures
        name@ == attribute_names(*context)[index as int],
{
    context.attributes[index].clone()
}

/// Trusted: whether the field `incidence` holds the pair.
#[verifier::external_body]
pub(crate) fn has_cross(
    context: &FormalContext<String>,
    object: usize,
    attribute: usize,
) -> (found: bool)
    ensures
        found == crosses(*context).contains((object, attribute)),
{
    context.incidence.contains(&(object, attribute))
}

/// Trusted: `FormalContext::index_attribute_hull` intersects the table
/// entries of the given attributes (all objects, if there are none), then
/// the table entries of the objects found (all attributes, if there are
/// none). With coherent tables that is the closure. It indexes the
/// attribute table by the given attributes, so they have to exist.
#[verifier::external_body]
pub(crate) fn attribute_hull(context: &FormalContext<String>, attributes: &BitSet) -> (hull: BitSet)
    requires
        coherent(*context),
        bounded(crosses(*context), object_names(*context).len(), attribute_names(*context).len()),
        members(*attributes).subset_of(below(attribute_names(*context).len())),
    ensures
        members(hull) == closure(
            crosses(*context),
            object_names(*context).len(),
            attribute_names(*context).len(),
            members(*attributes),
        ),
{
    context.index_attribute_hull(attributes)
}

/// Trusted: `index_next_preclosure` reads the number of attributes of the
/// context, the implications and the given set, and nothing else.
#[verifier::external_body]
pub(crate) fn next_preclosure(
    context: &FormalContext<String>,
    basis: &Vec<(BitSet, BitSet)>,
    premise: &BitSet,
) -> (next: BitSet)
    ensures
        members(next) == next_preclosure_of(
            attribute_names(*context).len(),
            implications(basis@),
            members(*premise),
        ),
{
    odis::algorithms::canonical_basis::index_next_preclosure(context, basis, premise)
}

/// Trusted: `FormalContext::index_fcbo_concepts`, collected. The walk
/// reads the sizes and the lookup tables of the context and nothing else,
/// and the first thing it yields is the concept of the empty attribute set,
/// so the list is never empty. It indexes the lookup tables by what it
/// finds in them, so they have to be coherent and the crosses inside the
/// table.
#[verifier::external_body]
pub(crate) fn fcbo_concepts(context: &FormalContext<String>) -> (concepts: Vec<(BitSet, BitSet)>)
    requires
        coherent(*context),
        bounded(crosses(*context), object_names(*context).len(), attribute_names(*context).len()),
    ensures
        concepts@.len() >= 1,
        implications(concepts@) == fcbo_concepts_of(
            object_names(*context).len(),
            attribute_names(*context).len(),
            crosses(*context),
        ),
{
    context.index_fcbo_concepts().collect()
}

/// Trusted: `FormalContext::index_sort_lectic_order` reorders the list in
/// place; it reads the number of attributes and the intents. It weighs
/// attribute `i` of `n` with `2^(n - i)` in a `usize`, so `n` has to stay
/// below the number of bits of a `usize`, and it counts up to the length
/// less one, so the list must not be empty.
#[verifier::external_body]
pub(crate) fn lectic_sort(context: &FormalContext<String>, concepts: &mut Vec<(BitSet, BitSet)>)
    requires
        old(concepts)@.len() >= 1,
        attribute_names(*context).len() < usize::BITS,
    ensures
        implications(final(concepts)@) == lectic_order_of(
            attribute_names(*context).len(),
            implications(old(concepts)@),
        ),
{
    context.index_sort_lectic_order(concepts)
}

/// Trusted: `FormalContext::index_canonical_basis` walks the pre-closed
/// sets with `index_attribute_hull` and `index_next_preclosure`; it reads
/// the sizes and the lookup tables of the context and nothing else.
#[verifier::external_body]
pub(crate) fn canonical_basis(context: &FormalContext<String>) -> (basis: Vec<(BitSet, BitSet)>)
    requires
        coherent(*context),
        bounded(crosses(*context), object_names(*context).len(), attribute_names(*context).len()),
    ensures
        implications(basis@) == canonical_basis_of(
            object_names(*context).len(),
            attribute_names(*context).len(),
            crosses(*context),
        ),
{
    context.index_canonical_basis()
}

} // verus!
