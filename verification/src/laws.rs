//! Properties of the registry and of tool schemas that hold across calls and
//! for all inputs, stated over the models that the operations' contracts use.
use vstd::prelude::*;
use crate::keyed::{KeyedView, keys_of, strictly_sorted, lists_exactly, lemma_lists_exactly_unique};
use crate::registry::{ToolRegistry, tagged};
use crate::schema::{SchemaView, is_schema_of, property_of, properties_of, required_names};
use crate::tool::{ParamView, ToolView};

verus! {

/// After `register(t)`, looking up `t`'s name finds `t`, and every other name
/// finds what it found before.
pub proof fn law_register_then_get(before: Map<Seq<char>, ToolView>, t: ToolView, name: Seq<char>)
    ensures
        before.insert(t.name, t).contains_key(t.name),
        before.insert(t.name, t)[t.name] == t,
        name != t.name ==> before.insert(t.name, t).contains_key(name) == before.contains_key(name),
        name != t.name && before.contains_key(name) ==> before.insert(t.name, t)[name] == before[name],
{
}

/// Registering a tool under a name that is already registered does not grow
/// the registry; under a new name it grows it by one.
pub proof fn law_register_len(before: Map<Seq<char>, ToolView>, t: ToolView)
    requires
        before.dom().finite(),
    ensures
        before.contains_key(t.name) ==> before.insert(t.name, t).len() == before.len(),
        !before.contains_key(t.name) ==> before.insert(t.name, t).len() == before.len() + 1,
{
}

/// Removing the name of a tool just registered undoes the registration: the
/// registry is as before, less any earlier tool of that name.
pub proof fn law_register_then_remove(before: Map<Seq<char>, ToolView>, t: ToolView)
    ensures
        before.insert(t.name, t).remove(t.name) == before.remove(t.name),
        !before.contains_key(t.name) ==> before.insert(t.name, t).remove(t.name) == before,
{
    assert(before.insert(t.name, t).remove(t.name) =~= before.remove(t.name));
    if !before.contains_key(t.name) {
        assert(before.remove(t.name) =~= before);
    }
}

/// After `remove(name)`, looking up `name` finds nothing, and every other
/// name finds what it found before.
pub proof fn law_remove_then_get(before: Map<Seq<char>, ToolView>, name: Seq<char>, other: Seq<char>)
    ensures
        !before.remove(name).contains_key(name),
        other != name ==> before.remove(name).contains_key(other) == before.contains_key(other),
        other != name && before.contains_key(other) ==> before.remove(name)[other] == before[other],
{
}

/// Registries with the same tools list them in the same order: the listing
/// (and so `names`, `iter`, `schemas` and `by_tag`) depends on the registered
/// tools alone.
pub proof fn law_listing_depends_on_contents(r1: &ToolRegistry, r2: &ToolRegistry)
    requires
        r1.wf(),
        r2.wf(),
        r1@ == r2@,
    ensures
        r1.listing() == r2.listing(),
{
    r1.lemma_listing();
    r2.lemma_listing();
    lemma_lists_exactly_unique(r1.listing(), r2.listing(), r1@);
}

/// The names that `names` returns are the registered names, each once, in
/// ascending order; there are `len()` of them.
pub proof fn law_names_are_the_registered_names(r: &ToolRegistry)
    requires
        r.wf(),
    ensures
        strictly_sorted(keys_of(r.listing())),
        keys_of(r.listing()).len() == r@.len(),
        forall|k: Seq<char>| keys_of(r.listing()).contains(k) <==> r@.contains_key(k),
{
    r.lemma_listing();
    let s = r.listing();
    assert forall|k: Seq<char>| keys_of(s).contains(k) <==> r@.contains_key(k) by {
        if keys_of(s).contains(k) {
            let i = choose|i: int| 0 <= i < keys_of(s).len() && keys_of(s)[i] == k;
            assert(s[i].key() == k);
            assert(r@.contains_key(s[i].key()));
        }
        if r@.contains_key(k) {
            let i = choose|i: int| 0 <= i < s.len() && s[i].key() == k;
            assert(keys_of(s)[i] == k);
        }
    }
}

/// The registered tools that carry `tag`.
pub open spec fn tools_with_tag(m: Map<Seq<char>, ToolView>, tag: Seq<char>) -> Map<
    Seq<char>,
    ToolView,
> {
    m.restrict(Set::new(|k: Seq<char>| m.contains_key(k) && m[k].tags.contains(tag)))
}

proof fn lemma_tagged_source(s: Seq<ToolView>, tag: Seq<char>, i: int) -> (j: int)
    requires
        0 <= i < tagged(s, tag).len(),
    ensures
        0 <= j < s.len(),
        s[j] == tagged(s, tag)[i],
        s[j].tags.contains(tag),
    decreases s.len(),
{
    let t = s.drop_last();
    let e = tagged(t, tag);
    let n = s.len() - 1;
    if i < e.len() {
        assert(tagged(s, tag)[i] == e[i]);
        let j = lemma_tagged_source(t, tag, i);
        assert(s[j] == t[j]);
        j
    } else {
        assert(s.last().tags.contains(tag));
        assert(tagged(s, tag) == e.push(s.last()));
        n
    }
}

proof fn lemma_tagged_sources_in_order(s: Seq<ToolView>, tag: Seq<char>, i: int, k: int) -> (r: (int, int))
    requires
        0 <= i < k < tagged(s, tag).len(),
    ensures
        0 <= r.0 < r.1 < s.len(),
        s[r.0] == tagged(s, tag)[i],
        s[r.1] == tagged(s, tag)[k],
    decreases s.len(),
{
    let t = s.drop_last();
    let e = tagged(t, tag);
    let n = s.len() - 1;
    assert(tagged(s, tag)[i] == e[i]);
    if k < e.len() {
        assert(tagged(s, tag)[k] == e[k]);
        let (j, l) = lemma_tagged_sources_in_order(t, tag, i, k);
        assert(s[j] == t[j] && s[l] == t[l]);
        (j, l)
    } else {
        let j = lemma_tagged_source(t, tag, i);
        assert(s[j] == t[j]);
        assert(tagged(s, tag) == e.push(s.last()));
        (j, n)
    }
}

proof fn lemma_tagged_members(s: Seq<ToolView>, tag: Seq<char>)
    ensures
        forall|j: int| 0 <= j < s.len() && (#[trigger] s[j]).tags.contains(tag) ==> tagged(s, tag).contains(
            s[j],
        ),
    decreases s.len(),
{
    if s.len() == 0 {
        assert(tagged(s, tag).len() == 0);
    } else {
        let t = s.drop_last();
        lemma_tagged_members(t, tag);
        let e = tagged(t, tag);
        let n = s.len() - 1;
        assert forall|j: int| 0 <= j < s.len() && (#[trigger] s[j]).tags.contains(tag) implies tagged(
            s,
            tag,
        ).contains(s[j]) by {
            if j < n {
                assert(t[j] == s[j]);
                assert(e.contains(t[j]));
                let i = choose|i: int| 0 <= i < e.len() && e[i] == t[j];
                assert(tagged(s, tag)[i] == e[i]);
            } else {
                assert(tagged(s, tag)[e.len() as int] == s[j]);
            }
        }
    }
}

/// `by_tag` lists exactly the registered tools that carry the tag, each once,
/// in ascending order of name.
pub proof fn law_by_tag_lists_the_tagged_tools(r: &ToolRegistry, tag: Seq<char>)
    requires
        r.wf(),
    ensures
        lists_exactly(tagged(r.listing(), tag), tools_with_tag(r@, tag)),
{
    r.lemma_listing();
    let s = r.listing();
    let f = tagged(s, tag);
    let m = tools_with_tag(r@, tag);
    lemma_tagged_members(s, tag);
    assert(strictly_sorted(keys_of(f))) by {
        assert forall|i: int, k: int| 0 <= i < k < keys_of(f).len() implies crate::order::name_lt(
            #[trigger] keys_of(f)[i],
            #[trigger] keys_of(f)[k],
        ) by {
            let (j, l) = lemma_tagged_sources_in_order(s, tag, i, k);
            assert(keys_of(s)[j] == s[j].key());
            assert(keys_of(s)[l] == s[l].key());
        }
    }
    assert forall|i: int| 0 <= i < f.len() implies #[trigger] m.contains_key(f[i].key()) && m[f[i].key()]
        == f[i] by {
        let j = lemma_tagged_source(s, tag, i);
        assert(r@.contains_key(s[j].key()));
    }
    assert forall|k: Seq<char>| #[trigger] m.contains_key(k) implies exists|i: int|
        0 <= i < f.len() && f[i].key() == k by {
        assert(r@.contains_key(k));
        let j = choose|j: int| 0 <= j < s.len() && s[j].key() == k;
        assert(r@[s[j].key()] == s[j]);
        assert(s[j].tags.contains(tag));
        assert(f.contains(s[j]));
    }
}

/// A name is in a schema's required list exactly when some parameter of that
/// name is required.
pub proof fn law_required_iff_some_param_required(params: Seq<ParamView>, name: Seq<char>)
    ensures
        required_names(params).contains(name) <==> exists|i: int|
            0 <= i < params.len() && (#[trigger] params[i]).name == name && params[i].required,
    decreases params.len(),
{
    if params.len() > 0 {
        let t = params.drop_last();
        law_required_iff_some_param_required(t, name);
        let n = params.len() - 1;
        let e = required_names(t);
        if e.contains(name) {
            let i = choose|i: int| 0 <= i < t.len() && (#[trigger] t[i]).name == name && t[i].required;
            assert(params[i] == t[i]);
            let k = choose|k: int| 0 <= k < e.len() && e[k] == name;
            assert(required_names(params)[k] == name);
        }
        if exists|i: int| 0 <= i < params.len() && (#[trigger] params[i]).name == name && params[i].required {
            let i = choose|i: int| 0 <= i < params.len() && (#[trigger] params[i]).name == name && params[i].required;
            if i < n {
                assert(t[i] == params[i]);
            } else {
                assert(required_names(params)[e.len() as int] == name);
            }
        }
        if required_names(params).contains(name) && !e.contains(name) {
            let k = choose|k: int| 0 <= k < required_names(params).len() && required_names(params)[k] == name;
            if k < e.len() {
                assert(required_names(params)[k] == e[k]);
            } else {
                assert(params[n].name == name && params[n].required);
            }
        }
    }
}

/// A schema has a property for each parameter name and for no other name;
/// the property of a name comes from the last parameter of that name.
pub proof fn law_properties_from_last_param(params: Seq<ParamView>, i: int)
    requires
        0 <= i < params.len(),
        forall|j: int| i < j < params.len() ==> (#[trigger] params[j]).name != params[i].name,
    ensures
        properties_of(params).contains_key(params[i].name),
        properties_of(params)[params[i].name] == property_of(params[i]),
        properties_of(params)[params[i].name].name == params[i].name,
        properties_of(params)[params[i].name].param_type == params[i].param_type,
        properties_of(params)[params[i].name].description == params[i].description,
    decreases params.len(),
{
    let f = |p: ParamView| property_of(p);
    let n = params.len() - 1;
    assert(params.map_values(f).drop_last() =~= params.drop_last().map_values(f));
    if i < n {
        let t = params.drop_last();
        assert forall|j: int| i < j < t.len() implies (#[trigger] t[j]).name != t[i].name by {
            assert(t[j] == params[j]);
        }
        law_properties_from_last_param(t, i);
    }
}

/// The names that have a property in a schema are exactly the parameter names.
pub proof fn law_property_names_are_param_names(params: Seq<ParamView>, name: Seq<char>)
    ensures
        properties_of(params).contains_key(name) <==> exists|i: int|
            0 <= i < params.len() && (#[trigger] params[i]).name == name,
    decreases params.len(),
{
    if params.len() > 0 {
        let f = |p: ParamView| property_of(p);
        let t = params.drop_last();
        assert(params.map_values(f).drop_last() =~= t.map_values(f));
        law_property_names_are_param_names(t, name);
        let n = params.len() - 1;
        if exists|i: int| 0 <= i < params.len() && (#[trigger] params[i]).name == name {
            let i = choose|i: int| 0 <= i < params.len() && (#[trigger] params[i]).name == name;
            if i < n {
                assert(t[i] == params[i]);
            }
        }
        if properties_of(t).contains_key(name) {
            let i = choose|i: int| 0 <= i < t.len() && (#[trigger] t[i]).name == name;
            assert(params[i] == t[i]);
        }
    }
}

/// A call that changes a registry: `register` of a tool, or `remove` of a name.
pub enum RegistryOp {
    Register(ToolView),
    Remove(Seq<char>),
}

/// The registry after one call: `register` inserts the tool under its name
/// (the `ensures` of `ToolRegistry::register`), `remove` takes the name out
/// (the `ensures` of `ToolRegistry::remove`).
pub open spec fn apply_op(m: Map<Seq<char>, ToolView>, op: RegistryOp) -> Map<Seq<char>, ToolView> {
    match op {
        RegistryOp::Register(t) => m.insert(t.name, t),
        RegistryOp::Remove(n) => m.remove(n),
    }
}

/// The registry after a history of calls, made in order from `m`.
pub open spec fn apply_ops(m: Map<Seq<char>, ToolView>, ops: Seq<RegistryOp>) -> Map<Seq<char>, ToolView>
    decreases ops.len(),
{
    if ops.len() == 0 {
        m
    } else {
        apply_op(apply_ops(m, ops.drop_last()), ops.last())
    }
}

/// The call registers a tool named `name`.
pub open spec fn registers(op: RegistryOp, name: Seq<char>) -> bool {
    match op {
        RegistryOp::Register(t) => t.name == name,
        RegistryOp::Remove(_) => false,
    }
}

/// The call removes `name`.
pub open spec fn removes(op: RegistryOp, name: Seq<char>) -> bool {
    match op {
        RegistryOp::Register(_) => false,
        RegistryOp::Remove(n) => n == name,
    }
}

/// The tool that a `register` call hands over.
pub open spec fn registered_tool(op: RegistryOp) -> ToolView
    recommends
        op is Register,
{
    match op {
        RegistryOp::Register(t) => t,
        RegistryOp::Remove(_) => arbitrary(),
    }
}

/// Call `i` is the latest `register` of `name` in `ops`, and `name` has not
/// been removed since.
pub open spec fn still_registered(ops: Seq<RegistryOp>, name: Seq<char>, i: int) -> bool {
    &&& 0 <= i < ops.len()
    &&& registers(ops[i], name)
    &&& forall|j: int| i < j < ops.len() ==> !registers(#[trigger] ops[j], name)
    &&& forall|j: int| i < j < ops.len() ==> !removes(#[trigger] ops[j], name)
}

/// Over a whole history of `register` and `remove` calls, looking up a name
/// finds the tool of the latest `register` of that name, unless the name was
/// removed since; a name that the history registers or removes and that is
/// not still registered is absent; a name the history never touches keeps
/// what it had at the start. A found tool carries the name looked up.
pub proof fn law_get_after_history(m0: Map<Seq<char>, ToolView>, ops: Seq<RegistryOp>, name: Seq<char>)
    requires
        forall|k: Seq<char>| #[trigger] m0.contains_key(k) ==> m0[k].name == k,
    ensures
        forall|i: int| #[trigger] still_registered(ops, name, i) ==> apply_ops(m0, ops).contains_key(name)
            && apply_ops(m0, ops)[name] == registered_tool(ops[i]),
        (forall|i: int| !#[trigger] still_registered(ops, name, i)) && (exists|j: int|
            0 <= j < ops.len() && (registers(#[trigger] ops[j], name) || removes(ops[j], name)))
            ==> !apply_ops(m0, ops).contains_key(name),
        (forall|j: int| 0 <= j < ops.len() ==> !registers(#[trigger] ops[j], name) && !removes(ops[j], name))
            ==> (apply_ops(m0, ops).contains_key(name) == m0.contains_key(name) && (m0.contains_key(name)
            ==> apply_ops(m0, ops)[name] == m0[name])),
        apply_ops(m0, ops).contains_key(name) ==> apply_ops(m0, ops)[name].name == name,
    decreases ops.len(),
{
    if ops.len() > 0 {
        let t = ops.drop_last();
        let n = ops.len() - 1;
        law_get_after_history(m0, t, name);
        let before = apply_ops(m0, t);
        let after = apply_ops(m0, ops);
        let o = ops[n];
        assert(after == apply_op(before, o));
        if registers(o, name) {
            assert(still_registered(ops, name, n));
            assert forall|i: int| #[trigger] still_registered(ops, name, i) implies after.contains_key(name)
                && after[name] == registered_tool(ops[i]) by {
                assert(i == n);
            }
        } else if removes(o, name) {
            assert forall|i: int| !#[trigger] still_registered(ops, name, i) by {
                if 0 <= i < n {
                    assert(removes(ops[n], name));
                }
            }
        } else {
            assert(after.contains_key(name) == before.contains_key(name));
            assert(after.contains_key(name) ==> after[name] == before[name]);
            assert forall|i: int| #[trigger] still_registered(ops, name, i) <==> still_registered(t, name, i) by {
                if 0 <= i < n {
                    assert(ops[i] == t[i]);
                    assert forall|j: int| i < j < t.len() implies t[j] == ops[j] by {}
                }
            }
            if (forall|i: int| !#[trigger] still_registered(ops, name, i)) && exists|j: int|
                0 <= j < ops.len() && (registers(#[trigger] ops[j], name) || removes(ops[j], name)) {
                let j = choose|j: int|
                    0 <= j < ops.len() && (registers(#[trigger] ops[j], name) || removes(ops[j], name));
                assert(j < n);
                assert(t[j] == ops[j]);
                assert(registers(t[j], name) || removes(t[j], name));
                assert forall|i: int| !#[trigger] still_registered(t, name, i) by {
                    assert(!still_registered(ops, name, i));
                }
                assert(!before.contains_key(name));
            }
            assert forall|j: int| 0 <= j < t.len() && (forall|j2: int| 0 <= j2 < ops.len() ==> !registers(#[trigger] ops[j2], name) && !removes(ops[j2], name))
                implies !registers(#[trigger] t[j], name) && !removes(t[j], name) by {
                assert(t[j] == ops[j]);
            }
        }
    }
}

/// From a new registry, a name is registered exactly when some `register`
/// of it has not been followed by a `remove` of it, and then it holds the
/// tool of the latest such `register`.
pub proof fn law_get_after_history_from_new(ops: Seq<RegistryOp>, name: Seq<char>)
    ensures
        apply_ops(Map::empty(), ops).contains_key(name) <==> exists|i: int| #[trigger] still_registered(ops, name, i),
        forall|i: int| #[trigger] still_registered(ops, name, i)
            ==> apply_ops(Map::empty(), ops)[name] == registered_tool(ops[i]),
{
    law_get_after_history(Map::empty(), ops, name);
}

/// In a tool's schema, the parameter that is the last of its name has a
/// property under that name with its type and its description exactly as
/// given, whether the parameter is required or not.
pub proof fn law_schema_property_of_param(s: SchemaView, t: ToolView, i: int)
    requires
        is_schema_of(s, t),
        0 <= i < t.params.len(),
        forall|j: int| i < j < t.params.len() ==> (#[trigger] t.params[j]).name != t.params[i].name,
    ensures
        exists|k: int|
            0 <= k < s.properties.len() && (#[trigger] s.properties[k]).name == t.params[i].name
                && s.properties[k].param_type == t.params[i].param_type && s.properties[k].description
                == t.params[i].description,
{
    law_properties_from_last_param(t.params, i);
    let m = properties_of(t.params);
    let name = t.params[i].name;
    assert(m.contains_key(name));
    let k = choose|k: int| 0 <= k < s.properties.len() && s.properties[k].key() == name;
    assert(m.contains_key(s.properties[k].key()));
}

/// A schema's required list names each required parameter once, in the
/// order of the parameters, and nothing else: `idx` gives, for each entry,
/// the position of its parameter; the positions ascend and are exactly those
/// of the required parameters.
pub proof fn law_required_lists_each_required_param_once(params: Seq<ParamView>) -> (idx: Seq<int>)
    ensures
        idx.len() == required_names(params).len(),
        forall|k: int| 0 <= k < idx.len() ==> 0 <= #[trigger] idx[k] < params.len(),
        forall|k: int| 0 <= k < idx.len() ==> params[#[trigger] idx[k]].required,
        forall|k: int| 0 <= k < idx.len() ==> required_names(params)[k] == params[#[trigger] idx[k]].name,
        forall|k: int, l: int| 0 <= k < l < idx.len() ==> #[trigger] idx[k] < #[trigger] idx[l],
        forall|i: int| 0 <= i < params.len() && (#[trigger] params[i]).required ==> idx.contains(i),
    decreases params.len(),
{
    if params.len() == 0 {
        Seq::empty()
    } else {
        let t = params.drop_last();
        let n = params.len() - 1;
        let e = law_required_lists_each_required_param_once(t);
        assert forall|k: int| 0 <= k < e.len() implies params[#[trigger] e[k]] == t[e[k]] by {}
        if params.last().required {
            let idx = e.push(n);
            assert forall|k: int| 0 <= k < idx.len() implies required_names(params)[k] == params[
                #[trigger] idx[k]].name by {
                if k < e.len() {
                    assert(idx[k] == e[k]);
                }
            }
            assert forall|i: int| 0 <= i < params.len() && (#[trigger] params[i]).required implies idx.contains(i) by {
                if i < n {
                    assert(t[i] == params[i]);
                    let k = choose|k: int| 0 <= k < e.len() && e[k] == i;
                    assert(idx[k] == i);
                } else {
                    assert(idx[e.len() as int] == i);
                }
            }
            idx
        } else {
            assert forall|i: int| 0 <= i < params.len() && (#[trigger] params[i]).required implies e.contains(i) by {
                assert(i < n);
                assert(t[i] == params[i]);
            }
            e
        }
    }
}

} // verus!
