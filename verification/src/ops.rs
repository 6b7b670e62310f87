//! The store's operation surface: schema administration, id allocation, and
//! the model protocol that joins the schema with the instance values.

use vstd::prelude::*;
use vstd::string::StringExecFns;
use crate::assoc::{
    find_str, find_usize, lemma_map_values_insert, lemma_str_map_contains, lemma_str_map_index,
    lemma_str_map_push, lemma_usize_map_contains, lemma_usize_map_index, lemma_usize_map_push,
    usize_map,
};
use crate::data::{ComponentInstance, DBResult, Data, DataIO, DataType, DatabaseError, ResourceIO};
use crate::store::{Components, Instances, Resources};

verus! {

/// An error message made of a fixed prefix and the offending name.
fn err_msg(prefix: &str, name: &str) -> (r: String)
    ensures
        r@ == prefix@ + name@,
{
    String::from_str(prefix).concat(name)
}

/// Registers a resource under a fresh id with an empty model. A fixed
/// instance id may only accompany a FORM resource, and a name may only be
/// registered once; both violations are structural errors that leave the
/// record untouched.
pub fn add_resource(
    resources: &mut Resources,
    resource_name: &str,
    resource_type: ResourceIO,
    instance_id: Option<usize>,
) -> (r: DBResult<usize>)
    requires
        old(resources).wf(),
        old(resources).next_resource_id < usize::MAX,
    ensures
        final(resources).wf(),
        match r {
            Ok(id) => {
                &&& !old(resources).res_map().contains_key(resource_name@)
                &&& !(instance_id is Some && resource_type != ResourceIO::FORM)
                &&& id == old(resources).next_resource_id
                &&& final(resources).next_resource_id == old(resources).next_resource_id + 1
                &&& final(resources).res_map() == old(resources).res_map().insert(
                    resource_name@,
                    (id, resource_type),
                )
                &&& final(resources).models_map() == old(resources).models_map().insert(
                    id,
                    Map::<usize, DataIO>::empty(),
                )
                &&& final(resources).fixed_map() == match instance_id {
                    Some(iid) => old(resources).fixed_map().insert(id, iid),
                    None => old(resources).fixed_map(),
                }
                &&& forall|c: Components|
                    models_components_defined(*old(resources), c) ==> models_components_defined(
                        *final(resources),
                        c,
                    )
            },
            Err(e) => {
                &&& *final(resources) == *old(resources)
                &&& e matches DatabaseError::MalformedStructure(_)
                &&& old(resources).res_map().contains_key(resource_name@) || (instance_id is Some
                    && resource_type != ResourceIO::FORM)
            },
        },
{
    proof {
        lemma_str_map_contains(resources.resources@);
    }
    if let Some(_) = find_str(&resources.resources, resource_name) {
        return Err(
            DatabaseError::MalformedStructure(
                err_msg("Resource name is already defined: ", resource_name),
            ),
        );
    }
    if instance_id.is_some() && resource_type != ResourceIO::FORM {
        return Err(
            DatabaseError::MalformedStructure(
                err_msg("Resource is not FORM IO type: ", resource_name),
            ),
        );
    }
    let resource_id = resources.next_resource_id;
    resources.next_resource_id = resources.next_resource_id + 1;
    let ghost old_resources = resources.resources@;
    let ghost old_instances = resources.resource_instances@;
    let ghost old_models = resources.models@;
    resources.resources.push((String::from_str(resource_name), (resource_id, resource_type)));
    if let Some(iid) = instance_id {
        resources.resource_instances.push((resource_id, iid));
        proof {
            lemma_usize_map_push(old_instances, (resource_id, iid));
        }
    }
    let empty_model: Vec<(usize, DataIO)> = Vec::new();
    resources.models.push((resource_id, empty_model));
    proof {
        lemma_str_map_push(old_resources, resources.resources@.last());
        lemma_usize_map_push(old_models, resources.models@.last());
        lemma_map_values_insert(
            usize_map(old_models),
            |m: Vec<(usize, DataIO)>| usize_map(m@),
            resource_id,
            resources.models@.last().1,
        );
        assert(usize_map(resources.models@.last().1@) =~= Map::<usize, DataIO>::empty());
        assert(final(resources).res_map() == old(resources).res_map().insert(
            resource_name@,
            (resource_id, resource_type),
        ));
        assert forall|i: int| 0 <= i < final(resources).resources@.len() implies exists|j: int|
            0 <= j < final(resources).models@.len() && (#[trigger] final(resources).models@[j].0)
                == (#[trigger] final(resources).resources@[i].1).0 by {
            if i < old_resources.len() {
                let j = choose|j: int|
                    0 <= j < old_models.len() && (#[trigger] old_models[j].0) == (
                    #[trigger] old_resources[i].1).0;
                assert(final(resources).models@[j].0 == final(resources).resources@[i].1.0);
            } else {
                let j = final(resources).models@.len() - 1;
                assert(final(resources).models@[j].0 == final(resources).resources@[i].1.0);
            }
        }
        assert forall|c: Components| models_components_defined(*old(resources), c) implies
            models_components_defined(*final(resources), c) by {
            assert forall|i: int, k: int|
                0 <= i < final(resources).models@.len() && 0 <= k < final(resources).models@[i].1@.len() implies c.name_map().contains_key(
                (#[trigger] final(resources).models@[i].1@[k]).0,
            ) && c.dtype_map().contains_key(final(resources).models@[i].1@[k].0) by {
                assert(i < old_models.len());
                assert(final(resources).models@[i].1@[k] == old_models[i].1@[k]);
            }
        }
    }
    Ok(resource_id)
}

/// Registers a component under a fresh id with the given declared type.
/// Repeat registration of a name is rejected as a structural error, so one
/// name can never shadow two distinct ids.
pub fn add_component(
    components: &mut Components,
    component_name: &str,
    data_type: DataType,
) -> (r: DBResult<usize>)
    requires
        old(components).wf(),
        old(components).next_component_id < usize::MAX,
    ensures
        final(components).wf(),
        match r {
            Ok(id) => {
                &&& !old(components).comp_map().contains_key(component_name@)
                &&& id == old(components).next_component_id
                &&& final(components).next_component_id == old(components).next_component_id + 1
                &&& final(components).comp_map() == old(components).comp_map().insert(
                    component_name@,
                    id,
                )
                &&& final(components).name_map() == old(components).name_map().insert(
                    id,
                    component_name@,
                )
                &&& final(components).dtype_map() == old(components).dtype_map().insert(
                    id,
                    data_type,
                )
                &&& forall|rr: Resources|
                    models_components_defined(rr, *old(components)) ==> models_components_defined(
                        rr,
                        *final(components),
                    )
            },
            Err(e) => {
                &&& *final(components) == *old(components)
                &&& e matches DatabaseError::MalformedStructure(_)
                &&& old(components).comp_map().contains_key(component_name@)
            },
        },
{
    proof {
        lemma_str_map_contains(components.components@);
    }
    if let Some(_) = find_str(&components.components, component_name) {
        return Err(
            DatabaseError::MalformedStructure(
                err_msg("Component name is already defined: ", component_name),
            ),
        );
    }
    let component_id = components.next_component_id;
    components.next_component_id = components.next_component_id + 1;
    let ghost old_components = components.components@;
    let ghost old_names = components.component_names@;
    let ghost old_dtypes = components.component_data_types@;
    components.components.push((String::from_str(component_name), component_id));
    components.component_names.push((component_id, String::from_str(component_name)));
    components.component_data_types.push((component_id, data_type));
    proof {
        lemma_str_map_push(old_components, components.components@.last());
        lemma_usize_map_push(old_names, components.component_names@.last());
        lemma_usize_map_push(old_dtypes, components.component_data_types@.last());
        lemma_map_values_insert(
            usize_map(old_names),
            |n: String| n@,
            component_id,
            components.component_names@.last().1,
        );
        assert forall|i: int| 0 <= i < final(components).components@.len() implies exists|j: int|
            0 <= j < final(components).component_names@.len() && (#[trigger] final(components).component_names@[j].0) == #[trigger] final(components).components@[i].1 by {
            if i < old_components.len() {
                let j = choose|j: int|
                    0 <= j < old_names.len() && (#[trigger] old_names[j].0) == (
                    #[trigger] old_components[i].1);
                assert(final(components).component_names@[j].0 == final(components).components@[i].1);
            } else {
                let j = final(components).component_names@.len() - 1;
                assert(final(components).component_names@[j].0 == final(components).components@[i].1);
            }
        }
        assert forall|i: int| 0 <= i < final(components).components@.len() implies exists|j: int|
            0 <= j < final(components).component_data_types@.len() && (#[trigger] final(components).component_data_types@[j].0) == #[trigger] final(components).components@[i].1 by {
            if i < old_components.len() {
                let j = choose|j: int|
                    0 <= j < old_dtypes.len() && (#[trigger] old_dtypes[j].0) == (
                    #[trigger] old_components[i].1);
                assert(final(components).component_data_types@[j].0 == final(components).components@[i].1);
            } else {
                let j = final(components).component_data_types@.len() - 1;
                assert(final(components).component_data_types@[j].0 == final(components).components@[i].1);
            }
        }
        assert forall|rr: Resources| models_components_defined(rr, *old(components)) implies
            models_components_defined(rr, *final(components)) by {
            assert forall|i: int, k: int|
                0 <= i < rr.models@.len() && 0 <= k < rr.models@[i].1@.len() implies final(components).name_map().contains_key((#[trigger] rr.models@[i].1@[k]).0) && final(components).dtype_map().contains_key(rr.models@[i].1@[k].0) by {
                assert(old(components).name_map().contains_key(rr.models@[i].1@[k].0));
                assert(old(components).dtype_map().contains_key(rr.models@[i].1@[k].0));
            }
        }
    }
    Ok(component_id)
}

/// Every component id bound in any model is a registered component, with a
/// name and a declared type on record.
pub open spec fn models_components_defined(r: Resources, c: Components) -> bool {
    forall|i: int, k: int|
        0 <= i < r.models@.len() && 0 <= k < r.models@[i].1@.len() ==> c.name_map().contains_key(
            (#[trigger] r.models@[i].1@[k]).0,
        ) && c.dtype_map().contains_key(r.models@[i].1@[k].0)
}

/// Binds a component to a resource's model under the given access mode,
/// overwriting the mode of an existing binding. For a mode other than
/// `STATIC` an (initially empty) value slot is set up for the component.
/// Both names must already be registered.
pub fn add_component_to_model(
    resources: &mut Resources,
    components: &Components,
    instances: &mut Instances,
    resource_name: &str,
    component_name: &str,
    io_type: DataIO,
) -> (r: DBResult<()>)
    requires
        old(resources).wf(),
        components.wf(),
        old(instances).wf(),
    ensures
        final(resources).wf(),
        final(instances).wf(),
        match r {
            Ok(_) => {
                let rid = old(resources).res_map()[resource_name@].0;
                let cid = components.comp_map()[component_name@];
                &&& old(resources).res_map().contains_key(resource_name@)
                &&& components.comp_map().contains_key(component_name@)
                &&& final(resources).res_map() == old(resources).res_map()
                &&& final(resources).fixed_map() == old(resources).fixed_map()
                &&& final(resources).next_resource_id == old(resources).next_resource_id
                &&& old(resources).models_map().contains_key(rid)
                &&& final(resources).models_map() == old(resources).models_map().insert(
                    rid,
                    old(resources).models_map()[rid].insert(cid, io_type),
                )
                &&& final(instances).next_instance_id == old(instances).next_instance_id
                &&& final(instances).value_map() == (if io_type != DataIO::STATIC && !old(instances).value_map().contains_key(cid) {
                    old(instances).value_map().insert(cid, Map::<usize, Data>::empty())
                } else {
                    old(instances).value_map()
                })
                &&& models_components_defined(*old(resources), *components)
                    ==> models_components_defined(*final(resources), *components)
            },
            Err(e) => {
                &&& *final(resources) == *old(resources)
                &&& *final(instances) == *old(instances)
                &&& ((e matches DatabaseError::ResourceNotDefined(_) && !old(resources).res_map().contains_key(resource_name@)) || (e
                    matches DatabaseError::ComponentNotDefined(_) && old(resources).res_map().contains_key(resource_name@) && !components.comp_map().contains_key(
                    component_name@,
                )))
            },
        },
{
    proof {
        lemma_str_map_contains(resources.resources@);
        lemma_str_map_contains(components.components@);
    }
    let ri = match find_str(&resources.resources, resource_name) {
        None => {
            return Err(
                DatabaseError::ResourceNotDefined(
                    err_msg("Resource is not defined: ", resource_name),
                ),
            );
        },
        Some(i) => i,
    };
    let ci = match find_str(&components.components, component_name) {
        None => {
            return Err(
                DatabaseError::ComponentNotDefined(
                    err_msg("Component is not defined: ", component_name),
                ),
            );
        },
        Some(i) => i,
    };
    let component_id = components.components[ci].1;
    let resource_id = resources.resources[ri].1.0;
    proof {
        lemma_str_map_index(resources.resources@, ri as int);
        lemma_str_map_index(components.components@, ci as int);
        lemma_usize_map_contains(resources.models@);
    }
    let mi = match find_usize(&resources.models, resource_id) {
        None => {
            proof {
                assert(false);
            }
            unreached()
        },
        Some(i) => i,
    };
    let ghost old_models_seq = resources.models@;
    let ghost old_inner = resources.models@[mi as int].1@;
    proof {
        lemma_usize_map_index(resources.models@, mi as int);
    }
    match find_usize(&resources.models[mi].1, component_id) {
        Some(k) => {
            resources.models[mi].1[k].1 = io_type;
            proof {
                assert(resources.models@[mi as int].1@ =~= old_inner.update(
                    k as int,
                    (component_id, io_type),
                ));
                crate::assoc::lemma_usize_map_update(old_inner, k as int, io_type);
            }
        },
        None => {
            resources.models[mi].1.push((component_id, io_type));
            proof {
                lemma_usize_map_push(old_inner, (component_id, io_type));
            }
        },
    }
    proof {
        let rid = resource_id;
        let cid = component_id;
        let new_inner = resources.models@[mi as int].1;
        assert(resources.models@ =~= old_models_seq.update(mi as int, (rid, new_inner)));
        crate::assoc::lemma_usize_map_update(old_models_seq, mi as int, new_inner);
        lemma_map_values_insert(
            usize_map(old_models_seq),
            |m: Vec<(usize, DataIO)>| usize_map(m@),
            rid,
            new_inner,
        );
        assert(usize_map(new_inner@) == old(resources).models_map()[rid].insert(cid, io_type));
    }
    let ghost cid = component_id;
    if io_type != DataIO::STATIC {
        proof {
            lemma_usize_map_contains(instances.instances@);
        }
        let ghost old_instances_seq = instances.instances@;
        if let None = find_usize(&instances.instances, component_id) {
            let empty_values: Vec<(usize, Data)> = Vec::new();
            instances.instances.push((component_id, empty_values));
            proof {
                lemma_usize_map_push(old_instances_seq, instances.instances@.last());
                lemma_map_values_insert(
                    usize_map(old_instances_seq),
                    |m: Vec<(usize, Data)>| usize_map(m@),
                    cid,
                    instances.instances@.last().1,
                );
                assert(usize_map(instances.instances@.last().1@) =~= Map::<usize, Data>::empty());
            }
        }
    }
    proof {
        if models_components_defined(*old(resources), *components) {
            assert forall|i: int, k: int|
                0 <= i < resources.models@.len() && 0 <= k < resources.models@[i].1@.len() implies components.name_map().contains_key(
                (#[trigger] resources.models@[i].1@[k]).0,
            ) && components.dtype_map().contains_key(resources.models@[i].1@[k].0) by {
                let entry_cid = resources.models@[i].1@[k].0;
                if i == mi as int && !(k < old_inner.len() && old_models_seq[i].1@[k].0
                    == entry_cid) {
                    assert(entry_cid == cid);
                    lemma_usize_map_contains(components.component_names@);
                    lemma_usize_map_contains(components.component_data_types@);
                    assert(components.name_map().contains_key(cid));
                    assert(components.dtype_map().contains_key(cid));
                } else {
                    assert(old_models_seq[i].1@[k].0 == entry_cid);
                }
            }
        }
        assert forall|i: int| 0 <= i < resources.resources@.len() implies exists|j: int|
            0 <= j < resources.models@.len() && (#[trigger] resources.models@[j].0) == (
            #[trigger] resources.resources@[i].1).0 by {
            let j = choose|j: int|
                0 <= j < old_models_seq.len() && (#[trigger] old_models_seq[j].0) == (
                #[trigger] resources.resources@[i].1).0;
            assert(resources.models@[j].0 == old_models_seq[j].0);
        }
    }
    Ok(())
}

/// Hands out the next instance id and advances the persisted counter, so
/// consecutive calls yield strictly increasing, never reused ids. Fails only
/// when the counter has exhausted the id space.
pub fn next_instance_id(instances: &mut Instances) -> (r: DBResult<usize>)
    requires
        old(instances).wf(),
    ensures
        final(instances).wf(),
        final(instances).value_map() == old(instances).value_map(),
        final(instances).instances@ == old(instances).instances@,
        match r {
            Ok(id) => {
                &&& old(instances).next_instance_id < usize::MAX
                &&& id == old(instances).next_instance_id
                &&& final(instances).next_instance_id == old(instances).next_instance_id + 1
            },
            Err(e) => {
                &&& old(instances).next_instance_id == usize::MAX
                &&& *final(instances) == *old(instances)
                &&& e matches DatabaseError::GenericError
            },
        },
{
    if instances.next_instance_id == usize::MAX {
        return Err(DatabaseError::GenericError);
    }
    let instance_id = instances.next_instance_id;
    instances.next_instance_id = instances.next_instance_id + 1;
    Ok(instance_id)
}

/// Looks a component's declared type up by name.
pub fn get_component_data_type(components: &Components, component_name: &str) -> (r: DBResult<
    DataType,
>)
    requires
        components.wf(),
    ensures
        match r {
            Ok(dt) => {
                &&& components.comp_map().contains_key(component_name@)
                &&& components.dtype_map().contains_key(components.comp_map()[component_name@])
                &&& dt == components.dtype_map()[components.comp_map()[component_name@]]
            },
            Err(e) => {
                &&& e matches DatabaseError::ComponentNotDefined(_)
                &&& !components.comp_map().contains_key(component_name@)
            },
        },
{
    proof {
        lemma_str_map_contains(components.components@);
    }
    let ci = match find_str(&components.components, component_name) {
        None => {
            return Err(
                DatabaseError::ComponentNotDefined(
                    err_msg("Component is not defined: ", component_name),
                ),
            );
        },
        Some(i) => i,
    };
    let component_id = components.components[ci].1;
    proof {
        lemma_str_map_index(components.components@, ci as int);
        lemma_usize_map_contains(components.component_data_types@);
    }
    let di = match find_usize(&components.component_data_types, component_id) {
        None => {
            proof {
                assert(false);
            }
            unreached()
        },
        Some(i) => i,
    };
    proof {
        lemma_usize_map_index(components.component_data_types@, di as int);
    }
    Ok(components.component_data_types[di].1)
}

/// Loads the model of a STATIC resource: one field view per bound
/// component, every one with the `STATIC` access mode and the default
/// (empty string) value, since a STATIC resource never carries stored
/// values. A resource of any other kind, or a model with any non-STATIC
/// binding, is rejected as a structural error.
#[verifier::loop_isolation(false)]
pub fn load_static_model(
    resources: &Resources,
    components: &Components,
    resource_name: &str,
) -> (r: DBResult<Vec<ComponentInstance>>)
    requires
        resources.wf(),
        components.wf(),
        models_components_defined(*resources, *components),
    ensures
        match r {
            Ok(v) => {
                let rid = resources.res_map()[resource_name@].0;
                let model = resources.model_seq(rid);
                &&& resources.res_map().contains_key(resource_name@)
                &&& resources.res_map()[resource_name@].1 == ResourceIO::STATIC
                &&& forall|k: int| 0 <= k < model.len() ==> (#[trigger] model[k]).1 == DataIO::STATIC
                &&& v@.len() == model.len()
                &&& forall|k: int|
                    0 <= k < model.len() ==> {
                        let f = #[trigger] v@[k];
                        &&& f.component_id == model[k].0
                        &&& f.component_io_type == model[k].1
                        &&& f.component_name@ == components.name_map()[model[k].0]
                        &&& f.component_data_type == components.dtype_map()[model[k].0]
                        &&& f.data.is_default()
                    }
            },
            Err(e) => {
                ||| (e matches DatabaseError::ResourceNotDefined(_)
                    && !resources.res_map().contains_key(resource_name@))
                ||| (e matches DatabaseError::MalformedStructure(_)
                    && resources.res_map().contains_key(resource_name@) && {
                    let rid = resources.res_map()[resource_name@].0;
                    ||| resources.res_map()[resource_name@].1 != ResourceIO::STATIC
                    ||| exists|k: int|
                        0 <= k < resources.model_seq(rid).len() && (#[trigger] resources.model_seq(
                            rid,
                        )[k]).1 != DataIO::STATIC
                })
            },
        },
{
    proof {
        lemma_str_map_contains(resources.resources@);
    }
    let ri = match find_str(&resources.resources, resource_name) {
        None => {
            return Err(
                DatabaseError::ResourceNotDefined(
                    err_msg("Resource is not defined: ", resource_name),
                ),
            );
        },
        Some(i) => i,
    };
    proof {
        lemma_str_map_index(resources.resources@, ri as int);
    }
    if resources.resources[ri].1.1 != ResourceIO::STATIC {
        return Err(
            DatabaseError::MalformedStructure(err_msg("Resource is not static: ", resource_name)),
        );
    }
    let resource_id = resources.resources[ri].1.0;
    proof {
        lemma_usize_map_contains(resources.models@);
    }
    let mi = match find_usize(&resources.models, resource_id) {
        None => {
            proof {
                assert(false);
            }
            unreached()
        },
        Some(i) => i,
    };
    proof {
        let j = resources.model_index(resource_id);
        assert(resources.models@[mi as int].0 == resource_id);
        assert(0 <= j < resources.models@.len() && resources.models@[j].0 == resource_id);
        assert(j == mi as int);
    }
    let n = resources.models[mi].1.len();
    let mut out: Vec<ComponentInstance> = Vec::new();
    let mut k: usize = 0;
    while k < n
        invariant
            resources.wf(),
            components.wf(),
            models_components_defined(*resources, *components),
            mi < resources.models@.len(),
            resources.model_seq(resource_id) == resources.models@[mi as int].1@,
            n == resources.models@[mi as int].1@.len(),
            k <= n,
            out@.len() == k,
            forall|q: int|
                0 <= q < k ==> (#[trigger] resources.models@[mi as int].1@[q]).1 == DataIO::STATIC,
            forall|q: int|
                0 <= q < k ==> {
                    let f = #[trigger] out@[q];
                    let entry = resources.models@[mi as int].1@[q];
                    &&& f.component_id == entry.0
                    &&& f.component_io_type == entry.1
                    &&& f.component_name@ == components.name_map()[entry.0]
                    &&& f.component_data_type == components.dtype_map()[entry.0]
                    &&& f.data.is_default()
                },
        decreases n - k,
    {
        let entry_cid = resources.models[mi].1[k].0;
        let entry_io = resources.models[mi].1[k].1;
        if entry_io != DataIO::STATIC {
            proof {
                assert(resources.model_seq(resource_id)[k as int].1 != DataIO::STATIC);
                assert(exists|q: int|
                    0 <= q < resources.model_seq(resource_id).len() && (
                    #[trigger] resources.model_seq(resource_id)[q]).1 != DataIO::STATIC);
            }
            return Err(
                DatabaseError::MalformedStructure(
                    err_msg("Component is not static: ", resource_name),
                ),
            );
        }
        proof {
            assert(resources.models@[mi as int].1@[k as int].0 == entry_cid);
            lemma_usize_map_contains(components.component_names@);
            lemma_usize_map_contains(components.component_data_types@);
        }
        let ni = match find_usize(&components.component_names, entry_cid) {
            None => {
                proof {
                    assert(false);
                }
                unreached()
            },
            Some(i) => i,
        };
        let di = match find_usize(&components.component_data_types, entry_cid) {
            None => {
                proof {
                    assert(false);
                }
                unreached()
            },
            Some(i) => i,
        };
        proof {
            lemma_usize_map_index(components.component_names@, ni as int);
            lemma_usize_map_index(components.component_data_types@, di as int);
        }
        out.push(
            ComponentInstance {
                component_id: entry_cid,
                component_name: components.component_names[ni].1.clone(),
                component_data_type: components.component_data_types[di].1,
                component_io_type: entry_io,
                data: Data::default_value(),
            },
        );
        k += 1;
    }
    Ok(out)
}

/// Loads the model of a resource for one instance: one field view per bound
/// component whatever its access mode, carrying the stored value for
/// `(component, instance)` or the default (empty string) value when nothing
/// was ever saved there.
#[verifier::loop_isolation(false)]
pub fn load_model(
    resources: &Resources,
    components: &Components,
    instances: &Instances,
    resource_name: &str,
    instance_id: usize,
) -> (r: DBResult<Vec<ComponentInstance>>)
    requires
        resources.wf(),
        components.wf(),
        instances.wf(),
        models_components_defined(*resources, *components),
    ensures
        match r {
            Ok(v) => {
                let rid = resources.res_map()[resource_name@].0;
                let model = resources.model_seq(rid);
                &&& resources.res_map().contains_key(resource_name@)
                &&& v@.len() == model.len()
                &&& forall|k: int|
                    0 <= k < model.len() ==> {
                        let f = #[trigger] v@[k];
                        &&& f.component_id == model[k].0
                        &&& f.component_io_type == model[k].1
                        &&& f.component_name@ == components.name_map()[model[k].0]
                        &&& f.component_data_type == components.dtype_map()[model[k].0]
                        &&& instances.reads_as(model[k].0, instance_id, f.data)
                    }
            },
            Err(e) => {
                &&& e matches DatabaseError::ResourceNotDefined(_)
                &&& !resources.res_map().contains_key(resource_name@)
            },
        },
{
    proof {
        lemma_str_map_contains(resources.resources@);
    }
    let ri = match find_str(&resources.resources, resource_name) {
        None => {
            return Err(
                DatabaseError::ResourceNotDefined(
                    err_msg("Resource is not defined: ", resource_name),
                ),
            );
        },
        Some(i) => i,
    };
    proof {
        lemma_str_map_index(resources.resources@, ri as int);
    }
    let resource_id = resources.resources[ri].1.0;
    proof {
        lemma_usize_map_contains(resources.models@);
    }
    let mi = match find_usize(&resources.models, resource_id) {
        None => {
            proof {
                assert(false);
            }
            unreached()
        },
        Some(i) => i,
    };
    proof {
        let j = resources.model_index(resource_id);
        assert(resources.models@[mi as int].0 == resource_id);
        assert(0 <= j < resources.models@.len() && resources.models@[j].0 == resource_id);
        assert(j == mi as int);
    }
    let n = resources.models[mi].1.len();
    let mut out: Vec<ComponentInstance> = Vec::new();
    let mut k: usize = 0;
    while k < n
        invariant
            resources.wf(),
            components.wf(),
            instances.wf(),
            models_components_defined(*resources, *components),
            mi < resources.models@.len(),
            resources.model_seq(resource_id) == resources.models@[mi as int].1@,
            n == resources.models@[mi as int].1@.len(),
            k <= n,
            out@.len() == k,
            forall|q: int|
                0 <= q < k ==> {
                    let f = #[trigger] out@[q];
                    let entry = resources.models@[mi as int].1@[q];
                    &&& f.component_id == entry.0
                    &&& f.component_io_type == entry.1
                    &&& f.component_name@ == components.name_map()[entry.0]
                    &&& f.component_data_type == components.dtype_map()[entry.0]
                    &&& instances.reads_as(entry.0, instance_id, f.data)
                },
        decreases n - k,
    {
        let entry_cid = resources.models[mi].1[k].0;
        let entry_io = resources.models[mi].1[k].1;
        proof {
            assert(resources.models@[mi as int].1@[k as int].0 == entry_cid);
            lemma_usize_map_contains(components.component_names@);
            lemma_usize_map_contains(components.component_data_types@);
        }
        let ni = match find_usize(&components.component_names, entry_cid) {
            None => {
                proof {
                    assert(false);
                }
                unreached()
            },
            Some(i) => i,
        };
        let di = match find_usize(&components.component_data_types, entry_cid) {
            None => {
                proof {
                    assert(false);
                }
                unreached()
            },
            Some(i) => i,
        };
        proof {
            lemma_usize_map_index(components.component_names@, ni as int);
            lemma_usize_map_index(components.component_data_types@, di as int);
            lemma_usize_map_contains(instances.instances@);
        }
        let value = match find_usize(&instances.instances, entry_cid) {
            None => Data::default_value(),
            Some(xi) => {
                proof {
                    lemma_usize_map_index(instances.instances@, xi as int);
                    lemma_usize_map_contains(instances.instances@[xi as int].1@);
                }
                match find_usize(&instances.instances[xi].1, instance_id) {
                    None => Data::default_value(),
                    Some(yi) => {
                        proof {
                            lemma_usize_map_index(instances.instances@[xi as int].1@, yi as int);
                        }
                        instances.instances[xi].1[yi].1.copy()
                    },
                }
            },
        };
        proof {
            assert(instances.reads_as(entry_cid, instance_id, value));
        }
        out.push(
            ComponentInstance {
                component_id: entry_cid,
                component_name: components.component_names[ni].1.clone(),
                component_data_type: components.component_data_types[di].1,
                component_io_type: entry_io,
                data: value,
            },
        );
        k += 1;
    }
    Ok(out)
}

/// What one supplied field does to the value table: a field whose bound
/// mode is `DB_READ_ONLY` or `STATIC` is skipped; any other field's value
/// overwrites the slot `(component id, iid)`.
pub open spec fn apply_field(
    vm: Map<usize, Map<usize, Data>>,
    f: ComponentInstance,
    model: Map<usize, DataIO>,
    iid: usize,
) -> Map<usize, Map<usize, Data>> {
    if model[f.component_id] == DataIO::DB_READ_ONLY || model[f.component_id] == DataIO::STATIC {
        vm
    } else {
        let inner = if vm.contains_key(f.component_id) {
            vm[f.component_id]
        } else {
            Map::<usize, Data>::empty()
        };
        vm.insert(f.component_id, inner.insert(iid, f.data))
    }
}

/// The supplied fields applied in order, later fields winning.
pub open spec fn apply_fields(
    vm: Map<usize, Map<usize, Data>>,
    fields: Seq<ComponentInstance>,
    model: Map<usize, DataIO>,
    iid: usize,
) -> Map<usize, Map<usize, Data>>
    decreases fields.len(),
{
    if fields.len() == 0 {
        vm
    } else {
        apply_fields(apply_field(vm, fields[0], model, iid), fields.skip(1), model, iid)
    }
}

/// Applying one more field at the end is one more `apply_field` step.
pub proof fn lemma_apply_fields_snoc(
    vm: Map<usize, Map<usize, Data>>,
    fields: Seq<ComponentInstance>,
    f: ComponentInstance,
    model: Map<usize, DataIO>,
    iid: usize,
)
    ensures
        apply_fields(vm, fields.push(f), model, iid) == apply_field(
            apply_fields(vm, fields, model, iid),
            f,
            model,
            iid,
        ),
    decreases fields.len(),
{
    if fields.len() == 0 {
        assert(fields.push(f)[0] == f);
        assert(fields.push(f).skip(1) =~= Seq::<ComponentInstance>::empty());
        let vm1 = apply_field(vm, f, model, iid);
        assert(apply_fields(vm1, Seq::<ComponentInstance>::empty(), model, iid) == vm1);
        assert(apply_fields(vm, fields, model, iid) == vm);
    } else {
        assert(fields.push(f)[0] == fields[0]);
        assert(fields.push(f).skip(1) =~= fields.skip(1).push(f));
        lemma_apply_fields_snoc(apply_field(vm, fields[0], model, iid), fields.skip(1), f, model, iid);
    }
}

/// A save never touches a slot whose component is bound read-only or
/// static, belongs to another instance, or does not occur among the
/// supplied fields.
pub proof fn lemma_apply_fields_frame(
    vm: Map<usize, Map<usize, Data>>,
    fields: Seq<ComponentInstance>,
    model: Map<usize, DataIO>,
    iid: usize,
    c: usize,
    i2: usize,
)
    requires
        i2 != iid || (model.contains_key(c) && (model[c] == DataIO::DB_READ_ONLY || model[c]
            == DataIO::STATIC)) || (forall|k: int|
            0 <= k < fields.len() ==> (#[trigger] fields[k]).component_id != c),
    ensures
        crate::store::slot(apply_fields(vm, fields, model, iid), c, i2) == crate::store::slot(
            vm,
            c,
            i2,
        ),
    decreases fields.len(),
{
    if fields.len() > 0 {
        let f = fields[0];
        let vm1 = apply_field(vm, f, model, iid);
        assert(crate::store::slot(vm1, c, i2) == crate::store::slot(vm, c, i2));
        assert(forall|k: int|
            0 <= k < fields.skip(1).len() ==> fields.skip(1)[k] == fields[k + 1]);
        lemma_apply_fields_frame(vm1, fields.skip(1), model, iid, c, i2);
    }
}

/// Saves a batch of fields for one instance of a resource. Each field's
/// access mode is resolved from the resource's model: a `DB_READ_ONLY` or
/// `STATIC` binding makes the field a silent no-op, any other binding
/// overwrites the slot `(component id, instance id)`. A field whose
/// component is not bound in the model at all is a structural error, and an
/// unknown resource name a lookup error; either way nothing is changed.
#[verifier::loop_isolation(false)]
pub fn save_model(
    instances: &mut Instances,
    resources: &Resources,
    model: Vec<ComponentInstance>,
    resource_name: &str,
    instance_id: usize,
) -> (r: DBResult<()>)
    requires
        resources.wf(),
        old(instances).wf(),
    ensures
        final(instances).wf(),
        final(instances).next_instance_id == old(instances).next_instance_id,
        match r {
            Ok(_) => {
                let rid = resources.res_map()[resource_name@].0;
                let m = resources.models_map()[rid];
                &&& resources.res_map().contains_key(resource_name@)
                &&& forall|k: int|
                    0 <= k < model@.len() ==> m.contains_key(
                        (#[trigger] model@[k]).component_id,
                    )
                &&& final(instances).value_map() == apply_fields(
                    old(instances).value_map(),
                    model@,
                    m,
                    instance_id,
                )
                &&& forall|c: usize, i2: usize|
                    #![trigger final(instances).stored(c, i2)]
                    (i2 != instance_id || (m.contains_key(c) && (m[c] == DataIO::DB_READ_ONLY
                        || m[c] == DataIO::STATIC)) || (forall|k: int|
                        0 <= k < model@.len() ==> (#[trigger] model@[k]).component_id != c))
                        ==> final(instances).stored(c, i2) == old(instances).stored(c, i2)
            },
            Err(e) => {
                &&& *final(instances) == *old(instances)
                &&& ((e matches DatabaseError::ResourceNotDefined(_)
                    && !resources.res_map().contains_key(resource_name@)) || (e
                    matches DatabaseError::MalformedStructure(_)
                    && resources.res_map().contains_key(resource_name@) && exists|k: int|
                    0 <= k < model@.len() && !resources.models_map()[resources.res_map()[resource_name@].0].contains_key(
                        (#[trigger] model@[k]).component_id,
                    )))
            },
        },
{
    proof {
        lemma_str_map_contains(resources.resources@);
    }
    let ri = match find_str(&resources.resources, resource_name) {
        None => {
            return Err(
                DatabaseError::ResourceNotDefined(
                    err_msg("Resource is not defined: ", resource_name),
                ),
            );
        },
        Some(i) => i,
    };
    proof {
        lemma_str_map_index(resources.resources@, ri as int);
    }
    let resource_id = resources.resources[ri].1.0;
    proof {
        lemma_usize_map_contains(resources.models@);
    }
    let mi = match find_usize(&resources.models, resource_id) {
        None => {
            proof {
                assert(false);
            }
            unreached()
        },
        Some(i) => i,
    };
    proof {
        lemma_usize_map_index(resources.models@, mi as int);
    }
    let ghost m = resources.models_map()[resource_id];
    let n = model.len();
    let mut k: usize = 0;
    while k < n
        invariant
            k <= n,
            forall|q: int| 0 <= q < k ==> m.contains_key((#[trigger] model@[q]).component_id),
        decreases n - k,
    {
        proof {
            lemma_usize_map_contains(resources.models@[mi as int].1@);
        }
        if find_usize(&resources.models[mi].1, model[k].component_id).is_none() {
            return Err(
                DatabaseError::MalformedStructure(
                    err_msg("Component is not part of the model: ", resource_name),
                ),
            );
        }
        k += 1;
    }
    let ghost old_vm = instances.value_map();
    let mut k: usize = 0;
    while k < n
        invariant
            k <= n,
            instances.wf(),
            instances.next_instance_id == old(instances).next_instance_id,
            forall|q: int| 0 <= q < n ==> m.contains_key((#[trigger] model@[q]).component_id),
            instances.value_map() == apply_fields(old_vm, model@.take(k as int), m, instance_id),
        decreases n - k,
    {
        let ghost vm_before = instances.value_map();
        let field_cid = model[k].component_id;
        proof {
            lemma_usize_map_contains(resources.models@[mi as int].1@);
            assert(m.contains_key(field_cid));
        }
        let bi = match find_usize(&resources.models[mi].1, field_cid) {
            None => {
                proof {
                    assert(false);
                }
                unreached()
            },
            Some(i) => i,
        };
        proof {
            lemma_usize_map_index(resources.models@[mi as int].1@, bi as int);
        }
        let mode = resources.models[mi].1[bi].1;
        if mode != DataIO::DB_READ_ONLY && mode != DataIO::STATIC {
            let value = model[k].data.copy();
            proof {
                lemma_usize_map_contains(instances.instances@);
            }
            let ghost old_outer = instances.instances@;
            match find_usize(&instances.instances, field_cid) {
                Some(xi) => {
                    proof {
                        lemma_usize_map_index(instances.instances@, xi as int);
                        lemma_usize_map_contains(instances.instances@[xi as int].1@);
                    }
                    let ghost old_inner = instances.instances@[xi as int].1@;
                    match find_usize(&instances.instances[xi].1, instance_id) {
                        Some(yi) => {
                            instances.instances[xi].1[yi].1 = value;
                            proof {
                                assert(instances.instances@[xi as int].1@ =~= old_inner.update(
                                    yi as int,
                                    (instance_id, value),
                                ));
                                crate::assoc::lemma_usize_map_update(old_inner, yi as int, value);
                            }
                        },
                        None => {
                            instances.instances[xi].1.push((instance_id, value));
                            proof {
                                lemma_usize_map_push(old_inner, (instance_id, value));
                            }
                        },
                    }
                    proof {
                        let new_inner = instances.instances@[xi as int].1;
                        assert(instances.instances@ =~= old_outer.update(
                            xi as int,
                            (field_cid, new_inner),
                        ));
                        crate::assoc::lemma_usize_map_update(old_outer, xi as int, new_inner);
                        lemma_map_values_insert(
                            usize_map(old_outer),
                            |mm: Vec<(usize, Data)>| usize_map(mm@),
                            field_cid,
                            new_inner,
                        );
                        assert(instances.value_map() == apply_field(
                            vm_before,
                            model@[k as int],
                            m,
                            instance_id,
                        ));
                    }
                },
                None => {
                    let mut new_values: Vec<(usize, Data)> = Vec::new();
                    new_values.push((instance_id, value));
                    instances.instances.push((field_cid, new_values));
                    proof {
                        lemma_usize_map_push(old_outer, instances.instances@.last());
                        lemma_map_values_insert(
                            usize_map(old_outer),
                            |mm: Vec<(usize, Data)>| usize_map(mm@),
                            field_cid,
                            instances.instances@.last().1,
                        );
                        let s = instances.instances@.last().1@;
                        assert(s.len() == 1);
                        assert(s.drop_last() =~= Seq::<(usize, Data)>::empty());
                        assert(usize_map(s.drop_last()) == Map::<usize, Data>::empty());
                        assert(s.last() == (instance_id, value));
                        assert(usize_map(s) == Map::<usize, Data>::empty().insert(
                            instance_id,
                            value,
                        ));
                        assert(instances.value_map() == apply_field(
                            vm_before,
                            model@[k as int],
                            m,
                            instance_id,
                        ));
                    }
                },
            }
        }
        proof {
            assert(model@.take(k as int).push(model@[k as int]) =~= model@.take(k as int + 1));
            lemma_apply_fields_snoc(old_vm, model@.take(k as int), model@[k as int], m, instance_id);
        }
        k += 1;
    }
    proof {
        assert(model@.take(n as int) =~= model@);
        assert forall|c: usize, i2: usize|
            #![trigger final(instances).stored(c, i2)]
            (i2 != instance_id || (m.contains_key(c) && (m[c] == DataIO::DB_READ_ONLY || m[c]
                == DataIO::STATIC)) || (forall|q: int|
                0 <= q < model@.len() ==> (#[trigger] model@[q]).component_id != c))
            implies final(instances).stored(c, i2) == old(instances).stored(c, i2) by {
            lemma_apply_fields_frame(old_vm, model@, m, instance_id, c, i2);
        }
    }
    Ok(())
}

/// Tells whether the named resource is a STATIC resource.
pub fn is_static_resource(resources: &Resources, resource_name: &str) -> (r: DBResult<bool>)
    requires
        resources.wf(),
    ensures
        match r {
            Ok(b) => {
                &&& resources.res_map().contains_key(resource_name@)
                &&& b == (resources.res_map()[resource_name@].1 == ResourceIO::STATIC)
            },
            Err(e) => {
                &&& e matches DatabaseError::ResourceNotDefined(_)
                &&& !resources.res_map().contains_key(resource_name@)
            },
        },
{
    proof {
        lemma_str_map_contains(resources.resources@);
    }
    let ri = match find_str(&resources.resources, resource_name) {
        None => {
            return Err(
                DatabaseError::ResourceNotDefined(
                    err_msg("Resource is not defined: ", resource_name),
                ),
            );
        },
        Some(i) => i,
    };
    proof {
        lemma_str_map_index(resources.resources@, ri as int);
    }
    let kind = resources.resources[ri].1.1;
    Ok(kind == ResourceIO::STATIC)
}

/// The fresh initial contents of the three records: empty definitions and
/// counters at their base values.
pub fn start_from_scratch() -> (r: (Resources, Components, Instances))
    ensures
        r.0.is_initial(),
        r.0.wf(),
        r.1.is_initial(),
        r.1.wf(),
        r.2.is_initial(),
        r.2.wf(),
        forall|c: Components| models_components_defined(r.0, c),
{
    (Resources::new(), Components::new(), Instances::new())
}

/// Discards all prior state: every definition and every stored value is
/// gone, and every id counter restarts at its base value. Destructive by
/// design.
pub fn reset() -> (r: (Resources, Components, Instances))
    ensures
        r.0.is_initial(),
        r.0.wf(),
        r.1.is_initial(),
        r.1.wf(),
        r.2.is_initial(),
        r.2.wf(),
        forall|c: Components| models_components_defined(r.0, c),
{
    start_from_scratch()
}

/// Loads whatever model fits the resource's kind: the static model for a
/// STATIC resource, the instance model (under the given instance id) for
/// any other.
pub fn get_model(
    resources: &Resources,
    components: &Components,
    instances: &Instances,
    resource_name: &str,
    instance_id: usize,
) -> (r: DBResult<Vec<ComponentInstance>>)
    requires
        resources.wf(),
        components.wf(),
        instances.wf(),
        models_components_defined(*resources, *components),
    ensures
        match r {
            Ok(v) => {
                let rid = resources.res_map()[resource_name@].0;
                let model = resources.model_seq(rid);
                &&& resources.res_map().contains_key(resource_name@)
                &&& v@.len() == model.len()
                &&& forall|k: int|
                    0 <= k < model.len() ==> {
                        let f = #[trigger] v@[k];
                        &&& f.component_id == model[k].0
                        &&& f.component_io_type == model[k].1
                        &&& f.component_name@ == components.name_map()[model[k].0]
                        &&& f.component_data_type == components.dtype_map()[model[k].0]
                    }
                &&& resources.res_map()[resource_name@].1 == ResourceIO::STATIC ==> forall|k: int|
                    0 <= k < model.len() ==> (#[trigger] v@[k]).data.is_default()
                &&& resources.res_map()[resource_name@].1 != ResourceIO::STATIC ==> forall|k: int|
                    0 <= k < model.len() ==> instances.reads_as(
                        model[k].0,
                        instance_id,
                        (#[trigger] v@[k]).data,
                    )
            },
            Err(_) => {
                ||| !resources.res_map().contains_key(resource_name@)
                ||| (resources.res_map()[resource_name@].1 == ResourceIO::STATIC && exists|k: int|
                    0 <= k < resources.model_seq(resources.res_map()[resource_name@].0).len() && (
                    #[trigger] resources.model_seq(resources.res_map()[resource_name@].0)[k]).1
                        != DataIO::STATIC)
            },
        },
{
    let is_static = match is_static_resource(resources, resource_name) {
        Err(e) => {
            return Err(e);
        },
        Ok(b) => b,
    };
    if is_static {
        load_static_model(resources, components, resource_name)
    } else {
        load_model(resources, components, instances, resource_name, instance_id)
    }
}

/// The ids that `n` consecutive `next_instance_id` calls hand out from a
/// given state: by that function's contract, the k-th call returns the
/// counter advanced k times and leaves the counter one higher.
pub open spec fn instance_ids_handed_out(s: Instances, n: nat) -> Seq<int> {
    Seq::new(n, |k: int| s.next_instance_id + k)
}

/// Monotonic ids: any number of consecutive `next_instance_id` calls
/// return strictly increasing, pairwise distinct values. The persistence
/// round trip keeps the counter, so the sequence stays monotonic across a
/// save and reload as well.
pub proof fn lemma_instance_ids_monotonic(s: Instances, n: nat)
    ensures
        forall|i: int, j: int|
            0 <= i < j < n ==> #[trigger] instance_ids_handed_out(s, n)[i]
                < #[trigger] instance_ids_handed_out(s, n)[j],
        forall|i: int, j: int|
            0 <= i < j < n ==> #[trigger] instance_ids_handed_out(s, n)[i]
                != #[trigger] instance_ids_handed_out(s, n)[j],
{
}

} // verus!
