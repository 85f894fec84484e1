//! A registry of tools keyed by tool name.
use vstd::prelude::*;
use crate::keyed::{
    KeyedView, Named, keys_of, strictly_sorted, keyed_map, lists_exactly, lemma_insert_at, lemma_update_at,
    lemma_remove_at, lemma_keyed_map_of_sorted, locate,
};
use crate::order::{compare_names, NameOrder, lemma_name_lt_irreflexive};
use crate::schema::{ToolSchema, is_schema_of};
use crate::tool::{ToolDef, ToolView};

verus! {

/// The models of a sequence of tools.
pub open spec fn tool_views(tools: Seq<ToolDef>) -> Seq<ToolView> {
    tools.map_values(|t: ToolDef| t@)
}

/// The tools of `s` that carry `tag`, in the order of `s`.
pub open spec fn tagged(s: Seq<ToolView>, tag: Seq<char>) -> Seq<ToolView>
    decreases s.len(),
{
    if s.len() == 0 {
        Seq::empty()
    } else {
        let earlier = tagged(s.drop_last(), tag);
        if s.last().tags.contains(tag) {
            earlier.push(s.last())
        } else {
            earlier
        }
    }
}

/// A registry of tools keyed by tool name.
///
/// Tool names are unique: registering a tool whose name is already present
/// replaces the previous definition.
pub struct ToolRegistry {
    tools: Vec<ToolDef>,
}

impl View for ToolRegistry {
    type V = Map<Seq<char>, ToolView>;

    /// The registered tools by name.
    closed spec fn view(&self) -> Map<Seq<char>, ToolView> {
        keyed_map(tool_views(self.tools@))
    }
}

proof fn lemma_tool_keys(tools: Seq<ToolDef>)
    ensures
        tools.map_values(|t: ToolDef| t.name_view()) == keys_of(tool_views(tools)),
{
    assert(tools.map_values(|t: ToolDef| t.name_view()) =~= keys_of(tool_views(tools)));
}

impl ToolRegistry {
    /// The registry is in order: its tools stand in strictly ascending order
    /// of name.
    #[verifier::type_invariant]
    pub closed spec fn wf(&self) -> bool {
        strictly_sorted(keys_of(tool_views(self.tools@)))
    }

    /// The registered tools in ascending order of name.
    pub closed spec fn listing(&self) -> Seq<ToolView> {
        tool_views(self.tools@)
    }

    /// The listing holds each registered tool once, in ascending order of
    /// name; the registry holds finitely many tools, as many as the listing.
    pub proof fn lemma_listing(&self)
        requires
            self.wf(),
        ensures
            lists_exactly(self.listing(), self@),
            self@.dom().finite(),
            self@.len() == self.listing().len(),
    {
        lemma_keyed_map_of_sorted(tool_views(self.tools@));
    }

    /// Creates an empty registry.
    pub fn new() -> (r: Self)
        ensures
            r@ == Map::<Seq<char>, ToolView>::empty(),
    {
        let r = ToolRegistry { tools: Vec::new() };
        assert(tool_views(r.tools@) =~= Seq::<ToolView>::empty());
        assert(keys_of(tool_views(r.tools@)) =~= Seq::<Seq<char>>::empty());
        r
    }

    /// Registers a tool under its name, replacing any tool of that name;
    /// returns the replaced tool, or `None` when the name was new.
    pub fn register(&mut self, tool: ToolDef) -> (prev: Option<ToolDef>)
        ensures
            final(self)@ == old(self)@.insert(tool@.name, tool@),
            match prev {
                Some(p) => old(self)@.contains_key(tool@.name) && p@ == old(self)@[tool@.name],
                None => !old(self)@.contains_key(tool@.name),
            },
    {
        proof {
            use_type_invariant(&*self);
        }
        let mut tools: Vec<ToolDef> = Vec::new();
        std::mem::swap(&mut tools, &mut self.tools);
        let ghost old_views = tool_views(tools@);
        let ghost old_tools = tools@;
        proof {
            lemma_keyed_map_of_sorted(old_views);
            lemma_tool_keys(tools@);
        }
        let (pos, found) = locate(&tools, tool.name.as_str());
        let ghost v = tool@;
        proof {
            assert forall|j: int| 0 <= j < old_views.len() implies #[trigger] old_views[j].name
                == tools@[j].name_view() by {}
        }
        if found {
            let p = tools.remove(pos);
            tools.insert(pos, tool);
            proof {
                assert(tool_views(tools@) =~= old_views.update(pos as int, v));
                lemma_update_at(old_views, pos as int, v);
                assert(old_views[pos as int] == p@);
                assert(old_tools[pos as int].name_view() == v.name);
                assert(keyed_map(old_views).contains_key(old_views[pos as int].key()));
            }
            self.tools = tools;
            Some(p)
        } else {
            tools.insert(pos, tool);
            proof {
                assert(tool_views(tools@) =~= old_views.insert(pos as int, v));
                lemma_insert_at(old_views, pos as int, v);
                if keyed_map(old_views).contains_key(v.name) {
                    let j = choose|j: int| 0 <= j < old_views.len() && old_views[j].name == v.name;
                    assert(old_views[j].name == old_tools[j].name_view());
                    lemma_name_lt_irreflexive(v.name);
                }
            }
            self.tools = tools;
            None
        }
    }

    /// The tool registered under `name`, if any.
    pub fn get(&self, name: &str) -> (r: Option<&ToolDef>)
        ensures
            match r {
                Some(t) => self@.contains_key(name@) && t@ == self@[name@],
                None => !self@.contains_key(name@),
            },
    {
        proof {
            use_type_invariant(self);
        }
        let ghost views = tool_views(self.tools@);
        proof {
            lemma_keyed_map_of_sorted(views);
            lemma_tool_keys(self.tools@);
        }
        let (pos, found) = locate(&self.tools, name);
        if found {
            proof {
                assert(views[pos as int].name == name@);
                assert(keyed_map(views).contains_key(views[pos as int].key()));
            }
            Some(&self.tools[pos])
        } else {
            proof {
                if keyed_map(views).contains_key(name@) {
                    let j = choose|j: int| 0 <= j < views.len() && views[j].name == name@;
                    assert(views[j].name == self.tools@[j].name_view());
                    lemma_name_lt_irreflexive(name@);
                }
            }
            None
        }
    }

    /// Whether a tool is registered under `name`.
    pub fn contains(&self, name: &str) -> (r: bool)
        ensures
            r == self@.contains_key(name@),
    {
        self.get(name).is_some()
    }

    /// Removes the tool registered under `name` and returns it, or `None`
    /// when there is none.
    pub fn remove(&mut self, name: &str) -> (r: Option<ToolDef>)
        ensures
            final(self)@ == old(self)@.remove(name@),
            match r {
                Some(t) => old(self)@.contains_key(name@) && t@ == old(self)@[name@],
                None => !old(self)@.contains_key(name@),
            },
    {
        proof {
            use_type_invariant(&*self);
        }
        let ghost old_views = tool_views(self.tools@);
        proof {
            lemma_keyed_map_of_sorted(old_views);
            lemma_tool_keys(self.tools@);
        }
        let (pos, found) = locate(&self.tools, name);
        if found {
            let mut tools: Vec<ToolDef> = Vec::new();
            std::mem::swap(&mut tools, &mut self.tools);
            let t = tools.remove(pos);
            proof {
                assert(old_views[pos as int].name == name@);
                assert(tool_views(tools@) =~= old_views.remove(pos as int));
                lemma_remove_at(old_views, pos as int);
            }
            self.tools = tools;
            Some(t)
        } else {
            proof {
                if keyed_map(old_views).contains_key(name@) {
                    let j = choose|j: int| 0 <= j < old_views.len() && old_views[j].name == name@;
                    assert(old_views[j].name == self.tools@[j].name_view());
                    lemma_name_lt_irreflexive(name@);
                }
                assert(keyed_map(old_views).remove(name@) =~= keyed_map(old_views));
            }
            None
        }
    }

    /// The number of registered tools.
    pub fn len(&self) -> (r: usize)
        ensures
            r == self@.len(),
    {
        proof {
            use_type_invariant(self);
        }
        proof {
            lemma_keyed_map_of_sorted(tool_views(self.tools@));
        }
        self.tools.len()
    }

    /// Whether no tool is registered.
    pub fn is_empty(&self) -> (r: bool)
        ensures
            r == (self@.len() == 0),
    {
        proof {
            use_type_invariant(self);
        }
        proof {
            lemma_keyed_map_of_sorted(tool_views(self.tools@));
        }
        self.tools.len() == 0
    }

    /// All tool names, in ascending order.
    pub fn names(&self) -> (r: Vec<&str>)
        ensures
            r@.map_values(|s: &str| s@) == keys_of(self.listing()),
    {
        proof {
            use_type_invariant(self);
        }
        let mut r: Vec<&str> = Vec::new();
        for i in 0..self.tools.len()
            invariant
                r@.len() == i,
                i <= self.tools@.len(),
                forall|j: int| 0 <= j < i ==> (#[trigger] r@[j])@ == self.tools@[j].name@,
        {
            r.push(self.tools[i].name.as_str());
        }
        assert(r@.map_values(|s: &str| s@) =~= keys_of(self.listing()));
        r
    }

    /// The registered tools, in ascending order of name.
    pub fn iter(&self) -> (it: std::slice::Iter<'_, ToolDef>)
        ensures
            tool_views(vstd::std_specs::slice::into_iter_elts(it)) == self.listing(),
    {
        proof {
            use_type_invariant(self);
        }
        self.tools.iter()
    }

    /// The schemas of all registered tools, in ascending order of name.
    pub fn schemas(&self) -> (r: Vec<ToolSchema>)
        ensures
            r@.len() == self.listing().len(),
            forall|i: int| 0 <= i < r@.len() ==> is_schema_of((#[trigger] r@[i])@, self.listing()[i]),
    {
        proof {
            use_type_invariant(self);
        }
        let mut r: Vec<ToolSchema> = Vec::new();
        for i in 0..self.tools.len()
            invariant
                r@.len() == i,
                i <= self.tools@.len(),
                forall|j: int| 0 <= j < i ==> is_schema_of((#[trigger] r@[j])@, self.tools@[j]@),
        {
            r.push(self.tools[i].to_schema());
        }
        r
    }

    /// All tools carrying `tag`, in ascending order of name.
    pub fn by_tag(&self, tag: &str) -> (r: Vec<&ToolDef>)
        ensures
            r@.map_values(|t: &ToolDef| t@) == tagged(self.listing(), tag@),
    {
        proof {
            use_type_invariant(self);
        }
        let ghost views = tool_views(self.tools@);
        let mut r: Vec<&ToolDef> = Vec::new();
        proof {
            assert(views.take(0) =~= Seq::<ToolView>::empty());
            assert(r@.map_values(|t: &ToolDef| t@) =~= Seq::<ToolView>::empty());
        }
        for i in 0..self.tools.len()
            invariant
                views == tool_views(self.tools@),
                i <= views.len(),
                r@.map_values(|t: &ToolDef| t@) == tagged(views.take(i as int), tag@),
        {
            let ghost before = r@.map_values(|t: &ToolDef| t@);
            let t = &self.tools[i];
            if has_tag(t, tag) {
                r.push(t);
                assert(r@.map_values(|t: &ToolDef| t@) =~= before.push(t@));
            }
            assert(views.take(i + 1).drop_last() =~= views.take(i as int));
            assert(views[i as int] == t@);
        }
        assert(views.take(views.len() as int) =~= views);
        r
    }
}

/// Whether `t` carries `tag`.
fn has_tag(t: &ToolDef, tag: &str) -> (r: bool)
    ensures
        r == t@.tags.contains(tag@),
{
    for i in 0..t.tags.len()
        invariant
            forall|j: int| 0 <= j < i ==> (#[trigger] t.tags@[j])@ != tag@,
    {
        match compare_names(t.tags[i].as_str(), tag) {
            NameOrder::Equal => {
                assert(t@.tags[i as int] == tag@);
                return true;
            },
            _ => {},
        }
    }
    proof {
        if t@.tags.contains(tag@) {
            let j = choose|j: int| 0 <= j < t@.tags.len() && t@.tags[j] == tag@;
            assert(t.tags@[j]@ == tag@);
        }
    }
    false
}

/// std's `core::fmt::Formatter`, carried opaquely through the `Debug` impls below.
#[verifier::external_type_specification]
#[verifier::external_body]
pub struct ExFormatter<'a>(core::fmt::Formatter<'a>);

/// std's `core::fmt::Error`, the error of a `Debug` impl.
#[verifier::external_type_specification]
#[verifier::external_body]
pub struct ExFmtError(core::fmt::Error);

/// The registered tools shown as a map from name to tool.
struct ToolsByName<'a>(&'a Vec<ToolDef>);

impl<'a> core::fmt::Debug for ToolsByName<'a> {
    /// Writes the tools as a map from name to tool, through std's
    /// `Formatter::debug_map`; nothing is claimed of the output.
    #[verifier::external_body]
    fn fmt(&self, f: &mut core::fmt::Formatter<'_>) -> core::fmt::Result {
        f.debug_map().entries(self.0.iter().map(|t| (&t.name, t))).finish()
    }
}

impl core::fmt::Debug for ToolRegistry {
    /// Writes `ToolRegistry { tools: {name: tool, ..} }`, as for a registry
    /// that keeps its tools in a map, through std's `Formatter::debug_struct`;
    /// nothing is claimed of the output.
    #[verifier::external_body]
    fn fmt(&self, f: &mut core::fmt::Formatter<'_>) -> core::fmt::Result {
        f.debug_struct("ToolRegistry").field("tools", &ToolsByName(&self.tools)).finish()
    }
}

impl Default for ToolRegistry {
    fn default() -> (r: Self)
        ensures
            r@ == Map::<Seq<char>, ToolView>::empty(),
    {
        ToolRegistry::new()
    }
}

impl Clone for ToolRegistry {
    fn clone(&self) -> (r: Self)
        ensures
            r.listing() == self.listing(),
            r@ == self@,
    {
        let mut tools: Vec<ToolDef> = Vec::new();
        for i in 0..self.tools.len()
            invariant
                tools@.len() == i,
                i <= self.tools@.len(),
                forall|j: int| 0 <= j < i ==> (#[trigger] tools@[j])@ == self.tools@[j]@,
        {
            tools.push(self.tools[i].clone());
        }
        proof {
            use_type_invariant(self);
            assert(tool_views(tools@) =~= tool_views(self.tools@));
        }
        ToolRegistry { tools }
    }
}

} // verus!
