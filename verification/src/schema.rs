//! The tool schema handed to an LLM: `name`, `description`, and an
//! `input_schema` of type `"object"` with one property per parameter name and
//! the list of required parameter names.
use vstd::prelude::*;
use crate::keyed::{
    KeyedView, Named, keys_of, strictly_sorted, keyed_map, lists_exactly, lemma_insert_at,
    lemma_update_at, lemma_keyed_map_of_sorted, locate,
};
use crate::order::{compare_names, NameOrder};
use crate::tool::{ParamDef, ParamView, ToolDef, ToolView, opt_text};

verus! {

broadcast use vstd::string::group_string_axioms;

/// One entry of a schema's `properties`: the JSON type of a parameter and its
/// description, if it has one.
#[derive(Debug, PartialEq, Eq)]
pub struct PropertySchema {
    /// The parameter name, the key of this property.
    pub name: String,
    /// The `type` of the property.
    pub param_type: String,
    /// The `description` of the property, absent when the parameter has none.
    pub description: Option<String>,
}

/// The model of a [`PropertySchema`].
pub struct PropertyView {
    pub name: Seq<char>,
    pub param_type: Seq<char>,
    pub description: Option<Seq<char>>,
}

impl KeyedView for PropertyView {
    open spec fn key(self) -> Seq<char> {
        self.name
    }
}

impl View for PropertySchema {
    type V = PropertyView;

    open spec fn view(&self) -> PropertyView {
        PropertyView {
            name: self.name@,
            param_type: self.param_type@,
            description: opt_text(self.description),
        }
    }
}

impl Named for PropertySchema {
    open spec fn name_view(&self) -> Seq<char> {
        self.name@
    }

    fn name_str(&self) -> (r: &str) {
        self.name.as_str()
    }
}

/// The `input_schema` of a tool schema.
#[derive(Debug, PartialEq, Eq)]
pub struct InputSchema {
    /// The `type` of the input, always `"object"`.
    pub schema_type: String,
    /// The `properties`, one per parameter name, in ascending order of name.
    pub properties: Vec<PropertySchema>,
    /// The names of the required parameters, in the order of the parameters.
    pub required: Vec<String>,
}

/// A tool schema in the shape LLM APIs expect (`name`, `description`,
/// `input_schema`).
#[derive(Debug, PartialEq, Eq)]
pub struct ToolSchema {
    /// The tool's `name`.
    pub name: String,
    /// The tool's `description`.
    pub description: String,
    /// The tool's `input_schema`.
    pub input_schema: InputSchema,
}

/// The model of a [`ToolSchema`], its input schema flattened into it.
pub struct SchemaView {
    pub name: Seq<char>,
    pub description: Seq<char>,
    pub schema_type: Seq<char>,
    pub properties: Seq<PropertyView>,
    pub required: Seq<Seq<char>>,
}

pub open spec fn property_views(props: Seq<PropertySchema>) -> Seq<PropertyView> {
    props.map_values(|q: PropertySchema| q@)
}

pub open spec fn text_views(texts: Seq<String>) -> Seq<Seq<char>> {
    texts.map_values(|s: String| s@)
}

impl View for ToolSchema {
    type V = SchemaView;

    open spec fn view(&self) -> SchemaView {
        SchemaView {
            name: self.name@,
            description: self.description@,
            schema_type: self.input_schema.schema_type@,
            properties: property_views(self.input_schema.properties@),
            required: text_views(self.input_schema.required@),
        }
    }
}

/// The property that a parameter contributes.
pub open spec fn property_of(p: ParamView) -> PropertyView {
    PropertyView { name: p.name, param_type: p.param_type, description: p.description }
}

/// The properties of a parameter list by name: where two parameters share a
/// name, the later one's property stands.
pub open spec fn properties_of(params: Seq<ParamView>) -> Map<Seq<char>, PropertyView> {
    keyed_map(params.map_values(|p: ParamView| property_of(p)))
}

/// The names of the required parameters, in order, repeats kept.
pub open spec fn required_names(params: Seq<ParamView>) -> Seq<Seq<char>>
    decreases params.len(),
{
    if params.len() == 0 {
        Seq::empty()
    } else {
        let earlier = required_names(params.drop_last());
        if params.last().required {
            earlier.push(params.last().name)
        } else {
            earlier
        }
    }
}

/// `s` is the schema of tool `t`.
pub open spec fn is_schema_of(s: SchemaView, t: ToolView) -> bool {
    &&& s.name == t.name
    &&& s.description == t.description
    &&& s.schema_type == "object"@
    &&& lists_exactly(s.properties, properties_of(t.params))
    &&& s.required == required_names(t.params)
}

fn property_from(p: &ParamDef) -> (q: PropertySchema)
    ensures
        q@ == property_of(p@),
{
    let description = match &p.description {
        Some(d) => Some(d.clone()),
        None => None,
    };
    PropertySchema { name: p.name.clone(), param_type: p.param_type.clone(), description }
}

impl ToolDef {
    /// The schema of this tool: its name and description, and an input schema
    /// of type `"object"` whose properties hold, for each parameter name, the
    /// type and description of the last parameter of that name, and whose
    /// required list names the required parameters in order.
    pub fn to_schema(&self) -> (s: ToolSchema)
        ensures
            is_schema_of(s@, self@),
    {
        let ghost params = self@.params;
        let mut properties: Vec<PropertySchema> = Vec::new();
        let mut required: Vec<String> = Vec::new();
        proof {
            assert(params.take(0).map_values(|p: ParamView| property_of(p)) =~= Seq::<PropertyView>::empty());
            assert(property_views(properties@) =~= Seq::<PropertyView>::empty());
            assert(text_views(required@) =~= Seq::<Seq<char>>::empty());
            assert(params.take(0) =~= Seq::<ParamView>::empty());
        }
        for i in 0..self.params.len()
            invariant
                params == self@.params,
                params.len() == self.params@.len(),
                strictly_sorted(keys_of(property_views(properties@))),
                keyed_map(property_views(properties@)) == properties_of(params.take(i as int)),
                text_views(required@) == required_names(params.take(i as int)),
        {
            let p = &self.params[i];
            let q = property_from(p);
            let ghost old_props = property_views(properties@);
            let ghost old_req = text_views(required@);
            proof {
                assert(properties@.map_values(|t: PropertySchema| t.name_view()) =~= keys_of(old_props));
            }
            let (pos, found) = locate(&properties, p.name.as_str());
            proof {
                assert forall|j: int| 0 <= j < old_props.len() implies #[trigger] old_props[j].key()
                    == properties@[j].name_view() by {}
            }
            if found {
                let _ = properties.remove(pos);
                properties.insert(pos, q);
                proof {
                    assert(property_views(properties@) =~= old_props.update(pos as int, q@));
                    lemma_update_at(old_props, pos as int, q@);
                }
            } else {
                properties.insert(pos, q);
                proof {
                    assert(property_views(properties@) =~= old_props.insert(pos as int, q@));
                    lemma_insert_at(old_props, pos as int, q@);
                }
            }
            if p.required {
                required.push(p.name.clone());
                proof {
                    assert(text_views(required@) =~= old_req.push(p@.name));
                }
            }
            proof {
                let f = |x: ParamView| property_of(x);
                assert(params.take(i + 1).map_values(f).drop_last() =~= params.take(i as int).map_values(f));
                assert(params.take(i + 1).drop_last() =~= params.take(i as int));
                assert(params[i as int] == p@);
            }
        }
        proof {
            assert(params.take(params.len() as int) =~= params);
            lemma_keyed_map_of_sorted(property_views(properties@));
        }
        let schema_type = "object".to_string();
        ToolSchema {
            name: self.name.clone(),
            description: self.description.clone(),
            input_schema: InputSchema { schema_type, properties, required },
        }
    }
}

impl InputSchema {
    /// The first property named `name`, if there is one.
    pub fn property(&self, name: &str) -> (r: Option<&PropertySchema>)
        ensures
            match r {
                Some(q) => exists|i: int|
                    0 <= i < self.properties@.len() && self.properties@[i] == *q && q.name@ == name@
                        && forall|j: int| 0 <= j < i ==> (#[trigger] self.properties@[j]).name@ != name@,
                None => forall|j: int|
                    0 <= j < self.properties@.len() ==> (#[trigger] self.properties@[j]).name@ != name@,
            },
    {
        for i in 0..self.properties.len()
            invariant
                forall|j: int| 0 <= j < i ==> (#[trigger] self.properties@[j]).name@ != name@,
        {
            match compare_names(self.properties[i].name.as_str(), name) {
                NameOrder::Equal => {
                    return Some(&self.properties[i]);
                },
                _ => {},
            }
        }
        None
    }
}

} // verus!
