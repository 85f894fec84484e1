//! Tool definitions and their parameters, built fluently.
use vstd::prelude::*;
use crate::keyed::{KeyedView, Named};

verus! {

broadcast use vstd::string::group_string_axioms;

/// A single parameter of a [`ToolDef`].
///
/// Parameters map onto the `properties` of the generated schema; a parameter
/// whose `required` flag is set is also listed in the schema's `required` list.
#[derive(Debug, PartialEq, Eq)]
pub struct ParamDef {
    /// Parameter name, used as the property key in the generated schema.
    pub name: String,
    /// JSON Schema type, e.g. `"string"`, `"integer"`, `"boolean"`.
    pub param_type: String,
    /// Optional human-readable description surfaced to the LLM.
    pub description: Option<String>,
    /// Whether the parameter is required.
    pub required: bool,
}

/// The model of a [`ParamDef`]: its texts as character sequences.
pub struct ParamView {
    pub name: Seq<char>,
    pub param_type: Seq<char>,
    pub description: Option<Seq<char>>,
    pub required: bool,
}

/// The model of an optional text.
pub open spec fn opt_text(o: Option<String>) -> Option<Seq<char>> {
    match o {
        Some(s) => Some(s@),
        None => None,
    }
}

impl View for ParamDef {
    type V = ParamView;

    open spec fn view(&self) -> ParamView {
        ParamView {
            name: self.name@,
            param_type: self.param_type@,
            description: opt_text(self.description),
            required: self.required,
        }
    }
}

impl Clone for ParamDef {
    fn clone(&self) -> (r: Self)
        ensures
            r@ == self@,
    {
        let description = match &self.description {
            Some(d) => Some(d.clone()),
            None => None,
        };
        ParamDef {
            name: self.name.clone(),
            param_type: self.param_type.clone(),
            description,
            required: self.required,
        }
    }
}

/// A tool definition: a name, a description, an ordered list of parameters,
/// and tags for filtering.
#[derive(Debug, PartialEq, Eq)]
pub struct ToolDef {
    /// Unique tool name (also the key used inside a registry).
    pub name: String,
    /// Human-readable description of what the tool does.
    pub description: String,
    /// Ordered list of parameters.
    pub params: Vec<ParamDef>,
    /// Tags used for filtering.
    pub tags: Vec<String>,
}

/// The model of a [`ToolDef`].
pub struct ToolView {
    pub name: Seq<char>,
    pub description: Seq<char>,
    pub params: Seq<ParamView>,
    pub tags: Seq<Seq<char>>,
}

impl KeyedView for ToolView {
    open spec fn key(self) -> Seq<char> {
        self.name
    }
}

impl View for ToolDef {
    type V = ToolView;

    open spec fn view(&self) -> ToolView {
        ToolView {
            name: self.name@,
            description: self.description@,
            params: self.params@.map_values(|p: ParamDef| p@),
            tags: self.tags@.map_values(|t: String| t@),
        }
    }
}

impl Named for ToolDef {
    open spec fn name_view(&self) -> Seq<char> {
        self.name@
    }

    fn name_str(&self) -> (r: &str) {
        self.name.as_str()
    }
}

/// The model of a parameter made from its parts.
pub open spec fn param_view(
    name: Seq<char>,
    param_type: Seq<char>,
    description: Option<Seq<char>>,
    required: bool,
) -> ParamView {
    ParamView { name, param_type, description, required }
}

impl ToolDef {
    /// Creates a tool definition with the given name and description and no
    /// parameters or tags.
    pub fn new(name: &str, description: &str) -> (t: Self)
        ensures
            t@ == (ToolView {
                name: name@,
                description: description@,
                params: Seq::empty(),
                tags: Seq::empty(),
            }),
    {
        let t = ToolDef {
            name: name.to_string(),
            description: description.to_string(),
            params: Vec::new(),
            tags: Vec::new(),
        };
        assert(t@.params =~= Seq::<ParamView>::empty());
        assert(t@.tags =~= Seq::<Seq<char>>::empty());
        t
    }

    /// Adds a parameter without a description, after those already there.
    pub fn param(self, name: &str, param_type: &str, required: bool) -> (t: Self)
        ensures
            t@ == (ToolView {
                params: self@.params.push(param_view(name@, param_type@, None, required)),
                ..self@
            }),
            t@.name == self@.name,
            t@.description == self@.description,
            t@.tags == self@.tags,
            t@.params.len() == self@.params.len() + 1,
            t@.params.drop_last() == self@.params,
            t@.params.last().name == name@,
            t@.params.last().param_type == param_type@,
            t@.params.last().description == None::<Seq<char>>,
            t@.params.last().required == required,
    {
        let mut t = self;
        t.params.push(
            ParamDef {
                name: name.to_string(),
                param_type: param_type.to_string(),
                description: None,
                required,
            },
        );
        assert(t@.params =~= self@.params.push(param_view(name@, param_type@, None, required)));
        t
    }

    /// Adds a parameter with a description, after those already there.
    pub fn param_desc(self, name: &str, param_type: &str, required: bool, desc: &str) -> (t: Self)
        ensures
            t@ == (ToolView {
                params: self@.params.push(param_view(name@, param_type@, Some(desc@), required)),
                ..self@
            }),
            t@.name == self@.name,
            t@.description == self@.description,
            t@.tags == self@.tags,
            t@.params.len() == self@.params.len() + 1,
            t@.params.drop_last() == self@.params,
            t@.params.last().name == name@,
            t@.params.last().param_type == param_type@,
            t@.params.last().description == Some(desc@),
            t@.params.last().required == required,
    {
        let mut t = self;
        t.params.push(
            ParamDef {
                name: name.to_string(),
                param_type: param_type.to_string(),
                description: Some(desc.to_string()),
                required,
            },
        );
        assert(t@.params =~= self@.params.push(param_view(name@, param_type@, Some(desc@), required)));
        t
    }

    /// Adds a tag, after those already there.
    pub fn tag(self, t: &str) -> (r: Self)
        ensures
            r@ == (ToolView { tags: self@.tags.push(t@), ..self@ }),
    {
        let mut r = self;
        r.tags.push(t.to_string());
        assert(r@.tags =~= self@.tags.push(t@));
        r
    }
}

impl Clone for ToolDef {
    fn clone(&self) -> (r: Self)
        ensures
            r@ == self@,
    {
        let mut params: Vec<ParamDef> = Vec::new();
        for i in 0..self.params.len()
            invariant
                params@.len() == i,
                forall|j: int| 0 <= j < i ==> (#[trigger] params@[j])@ == self.params@[j]@,
        {
            params.push(self.params[i].clone());
        }
        let mut tags: Vec<String> = Vec::new();
        for i in 0..self.tags.len()
            invariant
                tags@.len() == i,
                forall|j: int| 0 <= j < i ==> (#[trigger] tags@[j])@ == self.tags@[j]@,
        {
            tags.push(self.tags[i].clone());
        }
        let r = ToolDef {
            name: self.name.clone(),
            description: self.description.clone(),
            params,
            tags,
        };
        assert(r@.params =~= self@.params);
        assert(r@.tags =~= self@.tags);
        r
    }
}

} // verus!
