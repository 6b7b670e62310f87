//! The three persisted records: resource definitions with their models,
//! component definitions, and the per-instance value table. Each carries a
//! well-formedness invariant and an abstraction to mathematical maps.

use vstd::prelude::*;
use crate::assoc::{
    find_usize, lemma_map_values_insert, lemma_usize_map_contains, lemma_usize_map_index,
    lemma_usize_map_push, lemma_usize_map_update, str_map, unique_str_keys, unique_usize_keys,
    usize_map,
};
use crate::data::{Data, DataIO, DataType, ResourceIO};

verus! {

/// Resource definitions: name to (id, kind), the fixed instance id a FORM
/// resource may have been registered with, the per-resource model binding
/// component ids to access modes, and the id counter.
#[derive(Debug, PartialEq)]
pub struct Resources {
    pub resources: Vec<(String, (usize, ResourceIO))>,
    pub resource_instances: Vec<(usize, usize)>,
    pub models: Vec<(usize, Vec<(usize, DataIO)>)>,
    pub next_resource_id: usize,
}

impl Resources {
    /// Resource name (as a character sequence) to (id, kind).
    pub open spec fn res_map(self) -> Map<Seq<char>, (usize, ResourceIO)> {
        str_map(self.resources@)
    }

    /// Resource id to the fixed instance id it was registered with.
    pub open spec fn fixed_map(self) -> Map<usize, usize> {
        usize_map(self.resource_instances@)
    }

    /// Resource id to its model: component id to access mode.
    pub open spec fn models_map(self) -> Map<usize, Map<usize, DataIO>> {
        usize_map(self.models@).map_values(|m: Vec<(usize, DataIO)>| usize_map(m@))
    }

    /// The model entry list of resource `rid`, in binding order.
    pub open spec fn model_seq(self, rid: usize) -> Seq<(usize, DataIO)> {
        self.models@[self.model_index(rid)].1@
    }

    /// Index of the model entry for resource `rid`.
    pub open spec fn model_index(self, rid: usize) -> int {
        choose|i: int| 0 <= i < self.models@.len() && self.models@[i].0 == rid
    }

    /// Names unique, ids unique and below the counter, every registered
    /// resource owns a model entry, and every key list is duplicate free.
    pub open spec fn wf(self) -> bool {
        &&& unique_str_keys(self.resources@)
        &&& unique_usize_keys(self.resource_instances@)
        &&& unique_usize_keys(self.models@)
        &&& forall|i: int, j: int|
            0 <= i < j < self.resources@.len() ==> self.resources@[i].1.0 != self.resources@[j].1.0
        &&& forall|i: int|
            0 <= i < self.resources@.len() ==> self.resources@[i].1.0 < self.next_resource_id
        &&& forall|i: int|
            0 <= i < self.resource_instances@.len() ==> (#[trigger] self.resource_instances@[i].0)
                < self.next_resource_id
        &&& forall|i: int|
            0 <= i < self.models@.len() ==> (#[trigger] self.models@[i].0) < self.next_resource_id
        &&& forall|i: int|
            0 <= i < self.resources@.len() ==> exists|j: int|
                0 <= j < self.models@.len() && (#[trigger] self.models@[j].0)
                    == (#[trigger] self.resources@[i].1).0
        &&& forall|i: int|
            0 <= i < self.models@.len() ==> unique_usize_keys(#[trigger] self.models@[i].1@)
    }

    /// Nothing registered yet; resource ids start at 1.
    pub open spec fn is_initial(self) -> bool {
        &&& self.resources@.len() == 0
        &&& self.resource_instances@.len() == 0
        &&& self.models@.len() == 0
        &&& self.next_resource_id == 1
    }

    pub fn new() -> (r: Resources)
        ensures
            r.is_initial(),
            r.wf(),
    {
        Resources {
            resources: Vec::new(),
            resource_instances: Vec::new(),
            models: Vec::new(),
            next_resource_id: 1,
        }
    }
}

/// Uniqueness: a well-formed resource record never aliases one name to two
/// ids. Two entries whose names read the same are one and the same entry,
/// so a name determines its id and kind.
pub proof fn lemma_resource_names_unique(r: Resources, i: int, j: int)
    requires
        r.wf(),
        0 <= i < r.resources@.len(),
        0 <= j < r.resources@.len(),
        r.resources@[i].0@ == r.resources@[j].0@,
    ensures
        i == j,
        r.resources@[i].1 == r.resources@[j].1,
{
}

/// Component definitions: name to id, id back to name, id to declared type,
/// and the id counter.
#[derive(Debug, PartialEq)]
pub struct Components {
    pub components: Vec<(String, usize)>,
    pub component_names: Vec<(usize, String)>,
    pub component_data_types: Vec<(usize, DataType)>,
    pub next_component_id: usize,
}

impl Components {
    /// Component name (as a character sequence) to id.
    pub open spec fn comp_map(self) -> Map<Seq<char>, usize> {
        str_map(self.components@)
    }

    /// Component id back to its name.
    pub open spec fn name_map(self) -> Map<usize, Seq<char>> {
        usize_map(self.component_names@).map_values(|n: String| n@)
    }

    /// Component id to its declared type.
    pub open spec fn dtype_map(self) -> Map<usize, DataType> {
        usize_map(self.component_data_types@)
    }

    /// Names unique, ids unique and below the counter, and every registered
    /// component has a name and a declared type under its id.
    pub open spec fn wf(self) -> bool {
        &&& unique_str_keys(self.components@)
        &&& unique_usize_keys(self.component_names@)
        &&& unique_usize_keys(self.component_data_types@)
        &&& forall|i: int, j: int|
            0 <= i < j < self.components@.len() ==> self.components@[i].1 != self.components@[j].1
        &&& forall|i: int|
            0 <= i < self.components@.len() ==> self.components@[i].1 < self.next_component_id
        &&& forall|i: int|
            0 <= i < self.component_names@.len() ==> (#[trigger] self.component_names@[i].0)
                < self.next_component_id
        &&& forall|i: int|
            0 <= i < self.component_data_types@.len() ==> (#[trigger] self.component_data_types@[
                i
            ].0) < self.next_component_id
        &&& forall|i: int|
            0 <= i < self.components@.len() ==> exists|j: int|
                0 <= j < self.component_names@.len() && (#[trigger] self.component_names@[j].0)
                    == #[trigger] self.components@[i].1
        &&& forall|i: int|
            0 <= i < self.components@.len() ==> exists|j: int|
                0 <= j < self.component_data_types@.len() && (#[trigger] self.component_data_types@[
                    j
                ].0) == #[trigger] self.components@[i].1
    }

    /// Nothing registered yet; component ids start at 0.
    pub open spec fn is_initial(self) -> bool {
        &&& self.components@.len() == 0
        &&& self.component_names@.len() == 0
        &&& self.component_data_types@.len() == 0
        &&& self.next_component_id == 0
    }

    pub fn new() -> (r: Components)
        ensures
            r.is_initial(),
            r.wf(),
    {
        Components {
            components: Vec::new(),
            component_names: Vec::new(),
            component_data_types: Vec::new(),
            next_component_id: 0,
        }
    }
}

/// Uniqueness: a well-formed component record never aliases one name to
/// two ids. Two entries whose names read the same are one and the same
/// entry, so a name determines its id.
pub proof fn lemma_component_names_unique(c: Components, i: int, j: int)
    requires
        c.wf(),
        0 <= i < c.components@.len(),
        0 <= j < c.components@.len(),
        c.components@[i].0@ == c.components@[j].0@,
    ensures
        i == j,
        c.components@[i].1 == c.components@[j].1,
{
}

/// The instance value table: component id to (instance id to value), and the
/// instance id counter.
#[derive(Debug, PartialEq)]
pub struct Instances {
    pub instances: Vec<(usize, Vec<(usize, Data)>)>,
    pub next_instance_id: usize,
}

/// The value a raw value table holds for `(cid, iid)`, if any.
pub open spec fn slot(vm: Map<usize, Map<usize, Data>>, cid: usize, iid: usize) -> Option<Data> {
    if vm.contains_key(cid) && vm[cid].contains_key(iid) {
        Some(vm[cid][iid])
    } else {
        None
    }
}

impl Instances {
    /// Component id to (instance id to stored value).
    pub open spec fn value_map(self) -> Map<usize, Map<usize, Data>> {
        usize_map(self.instances@).map_values(|m: Vec<(usize, Data)>| usize_map(m@))
    }

    /// Every key list is duplicate free.
    pub open spec fn wf(self) -> bool {
        &&& unique_usize_keys(self.instances@)
        &&& forall|i: int|
            0 <= i < self.instances@.len() ==> unique_usize_keys(#[trigger] self.instances@[i].1@)
    }

    /// The value stored for `(cid, iid)`, if one was ever saved.
    pub open spec fn stored(self, cid: usize, iid: usize) -> Option<Data> {
        slot(self.value_map(), cid, iid)
    }

    /// Read semantics: a saved value is returned as it is; an absent slot
    /// reads as the default (empty string) value.
    pub open spec fn reads_as(self, cid: usize, iid: usize, d: Data) -> bool {
        match self.stored(cid, iid) {
            Some(v) => d == v,
            None => d.is_default(),
        }
    }

    /// Fetches the value stored for `(component_id, instance_id)`; an
    /// absent slot reads as the default (empty string) value, never as an
    /// error.
    pub fn get(&self, component_id: usize, instance_id: usize) -> (r: Data)
        requires
            self.wf(),
        ensures
            self.reads_as(component_id, instance_id, r),
    {
        proof {
            lemma_usize_map_contains(self.instances@);
        }
        match find_usize(&self.instances, component_id) {
            None => Data::default_value(),
            Some(xi) => {
                proof {
                    lemma_usize_map_index(self.instances@, xi as int);
                    lemma_usize_map_contains(self.instances@[xi as int].1@);
                }
                match find_usize(&self.instances[xi].1, instance_id) {
                    None => Data::default_value(),
                    Some(yi) => {
                        proof {
                            lemma_usize_map_index(self.instances@[xi as int].1@, yi as int);
                        }
                        self.instances[xi].1[yi].1.copy()
                    },
                }
            },
        }
    }

    /// Stores a value under `(component_id, instance_id)`, overwriting a
    /// previous value and creating the slot if none existed.
    pub fn set(&mut self, component_id: usize, instance_id: usize, value: Data)
        requires
            old(self).wf(),
        ensures
            final(self).wf(),
            final(self).next_instance_id == old(self).next_instance_id,
            final(self).value_map() == old(self).value_map().insert(
                component_id,
                (if old(self).value_map().contains_key(component_id) {
                    old(self).value_map()[component_id]
                } else {
                    Map::<usize, Data>::empty()
                }).insert(instance_id, value),
            ),
    {
        proof {
            lemma_usize_map_contains(self.instances@);
        }
        let ghost old_outer = self.instances@;
        match find_usize(&self.instances, component_id) {
            Some(xi) => {
                proof {
                    lemma_usize_map_index(self.instances@, xi as int);
                    lemma_usize_map_contains(self.instances@[xi as int].1@);
                }
                let ghost old_inner = self.instances@[xi as int].1@;
                match find_usize(&self.instances[xi].1, instance_id) {
                    Some(yi) => {
                        self.instances[xi].1[yi].1 = value;
                        proof {
                            assert(self.instances@[xi as int].1@ =~= old_inner.update(
                                yi as int,
                                (instance_id, value),
                            ));
                            lemma_usize_map_update(old_inner, yi as int, value);
                        }
                    },
                    None => {
                        self.instances[xi].1.push((instance_id, value));
                        proof {
                            lemma_usize_map_push(old_inner, (instance_id, value));
                        }
                    },
                }
                proof {
                    let new_inner = self.instances@[xi as int].1;
                    assert(self.instances@ =~= old_outer.update(
                        xi as int,
                        (component_id, new_inner),
                    ));
                    lemma_usize_map_update(old_outer, xi as int, new_inner);
                    lemma_map_values_insert(
                        usize_map(old_outer),
                        |mm: Vec<(usize, Data)>| usize_map(mm@),
                        component_id,
                        new_inner,
                    );
                }
            },
            None => {
                let mut new_values: Vec<(usize, Data)> = Vec::new();
                new_values.push((instance_id, value));
                self.instances.push((component_id, new_values));
                proof {
                    lemma_usize_map_push(old_outer, self.instances@.last());
                    lemma_map_values_insert(
                        usize_map(old_outer),
                        |mm: Vec<(usize, Data)>| usize_map(mm@),
                        component_id,
                        self.instances@.last().1,
                    );
                    let s = self.instances@.last().1@;
                    assert(s.len() == 1);
                    assert(s.drop_last() =~= Seq::<(usize, Data)>::empty());
                    assert(usize_map(s.drop_last()) == Map::<usize, Data>::empty());
                    assert(s.last() == (instance_id, value));
                    assert(usize_map(s) == Map::<usize, Data>::empty().insert(
                        instance_id,
                        value,
                    ));
                }
            },
        }
    }

    /// Nothing stored yet; instance ids start at 1.
    pub open spec fn is_initial(self) -> bool {
        &&& self.instances@.len() == 0
        &&& self.next_instance_id == 1
    }

    pub fn new() -> (r: Instances)
        ensures
            r.is_initial(),
            r.wf(),
    {
        Instances { instances: Vec::new(), next_instance_id: 1 }
    }
}

} // verus!
