//! A formal context: named objects, named attributes and the crosses
//! between them, addressed by position.

use crate::attribute_set::{below, empty_set, members};
use crate::closure::{bounded, closure, column_of, row_of};
use crate::engine::{
    attribute_hull, attribute_label, attribute_names, canonical_basis, canonical_basis_of,
    coherent, count_attributes, count_objects, crosses, drop_attribute, drop_object,
    fcbo_concepts, fcbo_concepts_of, has_cross, implications, lectic_order_of, lectic_sort, mark,
    name_attribute, name_object, new_context, next_preclosure, next_preclosure_of, object_label,
    object_names, push_attribute, push_object, without_column, without_row,
};
use bit_set::BitSet;
use odis::FormalContext;
use vstd::prelude::*;

verus! {

/// The views of a list of names.
pub open spec fn texts(names: Seq<String>) -> Seq<Seq<char>> {
    Seq::new(names.len(), |i: int| names[i]@)
}

/// A formal context kept by the `odis` engine.
///
/// Objects and attributes are addressed by their position; removing one
/// moves every later one down by one.
pub struct Context {
    inner: FormalContext<String>,
}

impl Context {
    /// The names of the objects, by position.
    pub closed spec fn objects(&self) -> Seq<Seq<char>> {
        object_names(self.inner)
    }

    /// The names of the attributes, by position.
    pub closed spec fn attributes(&self) -> Seq<Seq<char>> {
        attribute_names(self.inner)
    }

    /// The crosses: the pairs (object position, attribute position) in the
    /// incidence relation.
    pub closed spec fn incidence(&self) -> Set<(usize, usize)> {
        crosses(self.inner)
    }

    /// The engine's lookup tables agree with the crosses.
    pub closed spec fn sound(&self) -> bool {
        coherent(self.inner)
    }

    /// Well-formedness: the engine is sound and every cross refers to an
    /// object and an attribute that exist.
    pub open spec fn wf(&self) -> bool {
        &&& self.sound()
        &&& bounded(self.incidence(), self.objects().len(), self.attributes().len())
    }

    /// The closure of a set of attributes in this context.
    pub open spec fn closure_of(&self, attributes: Set<usize>) -> Set<usize> {
        closure(self.incidence(), self.objects().len(), self.attributes().len(), attributes)
    }

    /// The set that follows `premise` in the engine's enumeration of
    /// pre-closed sets under `basis`.
    pub open spec fn next_premise_of(
        &self,
        basis: Seq<(Set<usize>, Set<usize>)>,
        premise: Set<usize>,
    ) -> Set<usize> {
        next_preclosure_of(self.attributes().len(), basis, premise)
    }

    /// A context without objects and attributes.
    pub fn new() -> (context: Context)
        ensures
            context.wf(),
            context.objects().len() == 0,
            context.attributes().len() == 0,
            context.incidence() == Set::<(usize, usize)>::empty(),
    {
        Context { inner: new_context() }
    }

    /// The context that the engine has built.
    pub(crate) fn from_engine(inner: FormalContext<String>) -> (context: Context)
        requires
            coherent(inner),
            bounded(crosses(inner), object_names(inner).len(), attribute_names(inner).len()),
        ensures
            context.wf(),
            context.objects() == object_names(inner),
            context.attributes() == attribute_names(inner),
            context.incidence() == crosses(inner),
    {
        Context { inner }
    }

    /// The number of objects.
    pub fn object_count(&self) -> (count: usize)
        ensures
            count == self.objects().len(),
    {
        count_objects(&self.inner)
    }

    /// The number of attributes.
    pub fn attribute_count(&self) -> (count: usize)
        ensures
            count == self.attributes().len(),
    {
        count_attributes(&self.inner)
    }

    /// The name of the object at `index`.
    pub fn object_name(&self, index: usize) -> (name: String)
        requires
            index < self.objects().len(),
        ensures
            name@ == self.objects()[index as int],
    {
        object_label(&self.inner, index)
    }

    /// The name of the attribute at `index`.
    pub fn attribute_name(&self, index: usize) -> (name: String)
        requires
            index < self.attributes().len(),
        ensures
            name@ == self.attributes()[index as int],
    {
        attribute_label(&self.inner, index)
    }

    /// Whether `object` is crossed with `attribute`.
    pub fn has_cross(&self, object: usize, attribute: usize) -> (found: bool)
        ensures
            found == self.incidence().contains((object, attribute)),
    {
        has_cross(&self.inner, object, attribute)
    }

    /// Appends an object that is crossed with exactly the given attributes.
    pub fn add_object(&mut self, name: String, attributes: &BitSet)
        requires
            old(self).wf(),
            old(self).objects().len() < usize::MAX,
            members(*attributes).subset_of(below(old(self).attributes().len())),
        ensures
            final(self).wf(),
            final(self).objects() == old(self).objects().push(name@),
            final(self).attributes() == old(self).attributes(),
            final(self).incidence() == old(self).incidence().union(
                row_of(old(self).objects().len() as usize, members(*attributes)),
            ),
    {
        push_object(&mut self.inner, name, attributes);
    }

    /// Appends an attribute that exactly the given objects are crossed with.
    pub fn add_attribute(&mut self, name: String, objects: &BitSet)
        requires
            old(self).wf(),
            old(self).attributes().len() < usize::MAX,
            members(*objects).subset_of(below(old(self).objects().len())),
        ensures
            final(self).wf(),
            final(self).objects() == old(self).objects(),
            final(self).attributes() == old(self).attributes().push(name@),
            final(self).incidence() == old(self).incidence().union(
                column_of(old(self).attributes().len() as usize, members(*objects)),
            ),
    {
        push_attribute(&mut self.inner, name, objects);
    }

    /// Sets (`value`) or clears (`!value`) the cross of `object` and
    /// `attribute`.
    pub fn set_cross(&mut self, object: usize, attribute: usize, value: bool)
        requires
            old(self).wf(),
            object < old(self).objects().len(),
            attribute < old(self).attributes().len(),
        ensures
            final(self).wf(),
            final(self).objects() == old(self).objects(),
            final(self).attributes() == old(self).attributes(),
            final(self).incidence() == if value {
                old(self).incidence().insert((object, attribute))
            } else {
                old(self).incidence().remove((object, attribute))
            },
    {
        mark(&mut self.inner, object, attribute, value);
    }

    /// Removes the object at `index`; the objects after it, and their
    /// crosses, move up by one position.
    pub fn remove_object(&mut self, index: usize)
        requires
            old(self).wf(),
            index < old(self).objects().len(),
        ensures
            final(self).wf(),
            final(self).objects() == old(self).objects().remove(index as int),
            final(self).attributes() == old(self).attributes(),
            final(self).incidence() == without_row(old(self).incidence(), index),
    {
        drop_object(&mut self.inner, index);
    }

    /// Removes the attribute at `index`; the attributes after it, and their
    /// crosses, move down by one position.
    pub fn remove_attribute(&mut self, index: usize)
        requires
            old(self).wf(),
            index < old(self).attributes().len(),
        ensures
            final(self).wf(),
            final(self).objects() == old(self).objects(),
            final(self).attributes() == old(self).attributes().remove(index as int),
            final(self).incidence() == without_column(old(self).incidence(), index),
    {
        drop_attribute(&mut self.inner, index);
    }

    /// Gives the object at `index` a new name.
    pub fn rename_object(&mut self, index: usize, name: String)
        requires
            old(self).wf(),
            index < old(self).objects().len(),
        ensures
            final(self).wf(),
            final(self).objects() == old(self).objects().update(index as int, name@),
            final(self).attributes() == old(self).attributes(),
            final(self).incidence() == old(self).incidence(),
    {
        name_object(&mut self.inner, name, index);
    }

    /// Gives the attribute at `index` a new name.
    pub fn rename_attribute(&mut self, index: usize, name: String)
        requires
            old(self).wf(),
            index < old(self).attributes().len(),
        ensures
            final(self).wf(),
            final(self).objects() == old(self).objects(),
            final(self).attributes() == old(self).attributes().update(index as int, name@),
            final(self).incidence() == old(self).incidence(),
    {
        name_attribute(&mut self.inner, name, index);
    }

    /// The closure of `attributes`: every attribute shared by all objects
    /// that have all of `attributes`.
    pub fn closure(&self, attributes: &BitSet) -> (hull: BitSet)
        requires
            self.wf(),
            members(*attributes).subset_of(below(self.attributes().len())),
        ensures
            members(hull) == self.closure_of(members(*attributes)),
    {
        attribute_hull(&self.inner, attributes)
    }

    /// The set that follows `premise` in the enumeration of the sets that
    /// are pre-closed under `basis`.
    pub fn next_premise(&self, basis: &Vec<(BitSet, BitSet)>, premise: &BitSet) -> (next: BitSet)
        ensures
            members(next) == self.next_premise_of(implications(basis@), members(*premise)),
    {
        next_preclosure(&self.inner, basis, premise)
    }

    /// The formal concepts of this context as pairs (extent, intent), in
    /// lectic order of their intents. With as many attributes as a `usize`
    /// has bits, or more, the engine cannot order them, and they are listed
    /// as found.
    pub open spec fn concepts_of(&self) -> Seq<(Set<usize>, Set<usize>)> {
        let found = fcbo_concepts_of(
            self.objects().len(),
            self.attributes().len(),
            self.incidence(),
        );
        if found.len() >= 1 && self.attributes().len() < usize::BITS {
            lectic_order_of(self.attributes().len(), found)
        } else {
            found
        }
    }

    /// The canonical basis of this context: implications (premise, closure).
    pub open spec fn canonical_basis_of(&self) -> Seq<(Set<usize>, Set<usize>)> {
        canonical_basis_of(self.objects().len(), self.attributes().len(), self.incidence())
    }

    /// The formal concepts of this context as pairs (extent, intent), in
    /// lectic order of their intents where the engine can order them.
    pub fn concepts(&self) -> (list: Vec<(BitSet, BitSet)>)
        requires
            self.wf(),
        ensures
            implications(list@) == self.concepts_of(),
    {
        let mut list = fcbo_concepts(&self.inner);
        proof {
            assert(implications(list@).len() == list@.len());
        }
        if list.len() >= 1 && self.attribute_count() < usize::BITS as usize {
            lectic_sort(&self.inner, &mut list);
        }
        list
    }

    /// The canonical basis of this context: implications (premise, closure).
    pub fn canonical_basis(&self) -> (basis: Vec<(BitSet, BitSet)>)
        requires
            self.wf(),
        ensures
            implications(basis@) == self.canonical_basis_of(),
    {
        canonical_basis(&self.inner)
    }

    /// The engine's own value, for its drawing algorithms.
    pub fn engine(&self) -> (inner: &FormalContext<String>)
        ensures
            object_names(*inner) == self.objects(),
            attribute_names(*inner) == self.attributes(),
            crosses(*inner) == self.incidence(),
    {
        &self.inner
    }

    /// The names of the objects, by position.
    pub fn object_list(&self) -> (names: Vec<String>)
        ensures
            texts(names@) == self.objects(),
    {
        let count = self.object_count();
        let mut names: Vec<String> = Vec::new();
        let mut i: usize = 0;
        while i < count
            invariant
                i <= count,
                count == self.objects().len(),
                texts(names@) =~= self.objects().take(i as int),
            decreases count - i,
        {
            let ghost before = names@;
            let name = self.object_name(i);
            names.push(name);
            proof {
                assert(texts(before).len() == i);
                assert(texts(names@).len() == i + 1);
                assert forall|j: int| 0 <= j < i + 1 implies
                    texts(names@)[j] == self.objects()[j] by {
                    if j < i {
                        assert(texts(before)[j] == self.objects().take(i as int)[j]);
                    }
                }
            }
            i += 1;
        }
        proof {
            assert(self.objects().take(count as int) =~= self.objects());
        }
        names
    }

    /// The names of the attributes, by position.
    pub fn attribute_list(&self) -> (names: Vec<String>)
        ensures
            texts(names@) == self.attributes(),
    {
        let count = self.attribute_count();
        let mut names: Vec<String> = Vec::new();
        let mut i: usize = 0;
        while i < count
            invariant
                i <= count,
                count == self.attributes().len(),
                texts(names@) =~= self.attributes().take(i as int),
            decreases count - i,
        {
            let ghost before = names@;
            let name = self.attribute_name(i);
            names.push(name);
            proof {
                assert(texts(before).len() == i);
                assert(texts(names@).len() == i + 1);
                assert forall|j: int| 0 <= j < i + 1 implies texts(names@)[j]
                    == self.attributes()[j] by {
                    if j < i {
                        assert(texts(before)[j] == self.attributes().take(i as int)[j]);
                    }
                }
            }
            i += 1;
        }
        proof {
            assert(self.attributes().take(count as int) =~= self.attributes());
        }
        names
    }

    /// Builds a context from its names and crosses. The crosses may come in
    /// any order and may repeat. Returns `None` exactly when a cross lies
    /// outside the table.
    pub fn from_parts(
        object_names: &Vec<String>,
        attribute_names: &Vec<String>,
        marks: &Vec<(usize, usize)>,
    ) -> (built: Option<Context>)
        ensures
            built is Some <==> bounded(
                marks@.to_set(),
                object_names@.len(),
                attribute_names@.len(),
            ),
            built matches Some(context) ==> {
                &&& context.wf()
                &&& context.objects() == texts(object_names@)
                &&& context.attributes() == texts(attribute_names@)
                &&& context.incidence() == marks@.to_set()
            },
    {
        let mut context = Context::new();
        let none = empty_set();
        let mut g: usize = 0;
        while g < object_names.len()
            invariant
                g <= object_names@.len(),
                context.wf(),
                context.objects() =~= texts(object_names@.take(g as int)),
                context.attributes().len() == 0,
                context.incidence() =~= Set::<(usize, usize)>::empty(),
                members(none) == Set::<usize>::empty(),
            decreases object_names@.len() - g,
        {
            context.add_object(object_names[g].clone(), &none);
            g += 1;
        }
        let mut m: usize = 0;
        while m < attribute_names.len()
            invariant
                m <= attribute_names@.len(),
                context.wf(),
                context.objects() =~= texts(object_names@),
                context.attributes() =~= texts(attribute_names@.take(m as int)),
                context.incidence() =~= Set::<(usize, usize)>::empty(),
                members(none) == Set::<usize>::empty(),
            decreases attribute_names@.len() - m,
        {
            proof {
                assert(object_names@.take(object_names@.len() as int) =~= object_names@);
            }
            context.add_attribute(attribute_names[m].clone(), &none);
            m += 1;
        }
        proof {
            assert(object_names@.take(object_names@.len() as int) =~= object_names@);
            assert(attribute_names@.take(attribute_names@.len() as int) =~= attribute_names@);
        }
        let mut k: usize = 0;
        while k < marks.len()
            invariant
                k <= marks@.len(),
                context.wf(),
                context.objects() == texts(object_names@),
                context.attributes() == texts(attribute_names@),
                context.incidence() =~= marks@.take(k as int).to_set(),
            decreases marks@.len() - k,
        {
            let (object, attribute) = marks[k];
            if object >= object_names.len() || attribute >= attribute_names.len() {
                proof {
                    assert(marks@.to_set().contains(marks@[k as int]));
                }
                return None;
            }
            context.set_cross(object, attribute, true);
            proof {
                let head = marks@.take(k as int);
                let next = marks@.take(k + 1);
                assert(next =~= head.push((object, attribute)));
                assert forall|p: (usize, usize)|
                    next.to_set().contains(p) == head.to_set().insert(
                        (object, attribute),
                    ).contains(p) by {
                    if head.contains(p) {
                        let i = choose|i: int| 0 <= i < head.len() && head[i] == p;
                        assert(next[i] == p);
                    }
                    if next.contains(p) {
                        let i = choose|i: int| 0 <= i < next.len() && next[i] == p;
                        if i < head.len() {
                            assert(head[i] == p);
                        }
                    }
                    assert(next[k as int] == (object, attribute));
                }
            }
            k += 1;
        }
        proof {
            assert(marks@.take(marks@.len() as int) =~= marks@);
        }
        Some(context)
    }
}

} // verus!
