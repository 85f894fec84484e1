//! Tests of single operations, and of the properties that the library keeps.

use llm_tool_registry::order::{compare_names, NameOrder};
use llm_tool_registry::{ToolDef, ToolRegistry};

#[test]
fn register_and_get() {
    let mut r = ToolRegistry::new();
    r.register(ToolDef::new("search", "Search the web"));
    assert!(r.get("search").is_some());
}

#[test]
fn register_returns_none_for_new_name() {
    let mut r = ToolRegistry::new();
    assert!(r.register(ToolDef::new("a", "A")).is_none());
}

#[test]
fn register_replaces_and_returns_previous() {
    let mut r = ToolRegistry::new();
    r.register(ToolDef::new("a", "first"));
    let prev = r.register(ToolDef::new("a", "second"));
    assert_eq!(prev.unwrap().description, "first");
    assert_eq!(r.get("a").unwrap().description, "second");
    // Re-registering the same name must not grow the registry.
    assert_eq!(r.len(), 1);
}

#[test]
fn contains() {
    let mut r = ToolRegistry::new();
    assert!(!r.contains("x"));
    r.register(ToolDef::new("x", "X"));
    assert!(r.contains("x"));
}

#[test]
fn iter_yields_all_tools() {
    let mut r = ToolRegistry::new();
    r.register(ToolDef::new("a", "A"));
    r.register(ToolDef::new("b", "B"));
    let mut names: Vec<&str> = r.iter().map(|t| t.name.as_str()).collect();
    names.sort();
    assert_eq!(names, vec!["a", "b"]);
}

#[test]
fn names_sorted() {
    let mut r = ToolRegistry::new();
    r.register(ToolDef::new("z_tool", "Z"));
    r.register(ToolDef::new("a_tool", "A"));
    assert_eq!(r.names()[0], "a_tool");
}

#[test]
fn schema_has_name_and_description() {
    let t = ToolDef::new("search", "Web search");
    let s = t.to_schema();
    assert_eq!(s.name, "search");
    assert_eq!(s.description, "Web search");
}

#[test]
fn schema_has_object_input_schema() {
    let t = ToolDef::new("search", "Web search");
    let s = t.to_schema();
    assert_eq!(s.input_schema.schema_type, "object");
}

#[test]
fn schema_has_required_params() {
    let t = ToolDef::new("search", "Search").param("query", "string", true);
    let s = t.to_schema();
    assert!(s.input_schema.required.contains(&"query".to_string()));
}

#[test]
fn optional_param_not_in_required() {
    let t = ToolDef::new("search", "Search").param("limit", "integer", false);
    let s = t.to_schema();
    let req = &s.input_schema.required;
    assert!(!req.contains(&"limit".to_string()));
}

#[test]
fn param_type_is_preserved_in_schema() {
    let t = ToolDef::new("fn", "Fn").param("count", "integer", false);
    let s = t.to_schema();
    assert_eq!(s.input_schema.property("count").unwrap().param_type, "integer");
}

#[test]
fn param_with_description() {
    let t = ToolDef::new("fn", "Fn").param_desc("q", "string", true, "search query");
    let s = t.to_schema();
    assert_eq!(
        s.input_schema.property("q").unwrap().description.as_deref(),
        Some("search query")
    );
}

#[test]
fn param_without_description_omits_description_key() {
    let t = ToolDef::new("fn", "Fn").param("q", "string", true);
    let s = t.to_schema();
    assert!(s.input_schema.property("q").unwrap().description.is_none());
}

#[test]
fn tool_with_no_params_has_empty_required() {
    let t = ToolDef::new("ping", "Ping");
    let s = t.to_schema();
    assert!(s.input_schema.required.is_empty());
    assert!(s.input_schema.properties.is_empty());
}

#[test]
fn schemas_returns_all() {
    let mut r = ToolRegistry::new();
    r.register(ToolDef::new("a", "A"));
    r.register(ToolDef::new("b", "B"));
    assert_eq!(r.schemas().len(), 2);
}

#[test]
fn schemas_are_sorted_by_name() {
    let mut r = ToolRegistry::new();
    r.register(ToolDef::new("zebra", "Z"));
    r.register(ToolDef::new("apple", "A"));
    let s = r.schemas();
    assert_eq!(s[0].name, "apple");
    assert_eq!(s[1].name, "zebra");
}

#[test]
fn by_tag() {
    let mut r = ToolRegistry::new();
    r.register(ToolDef::new("search", "Search").tag("read"));
    r.register(ToolDef::new("write", "Write").tag("write"));
    r.register(ToolDef::new("fetch", "Fetch").tag("read"));
    assert_eq!(r.by_tag("read").len(), 2);
    assert_eq!(r.by_tag("write").len(), 1);
}

#[test]
fn by_tag_results_are_sorted_by_name() {
    let mut r = ToolRegistry::new();
    r.register(ToolDef::new("zebra", "Z").tag("read"));
    r.register(ToolDef::new("apple", "A").tag("read"));
    let read = r.by_tag("read");
    assert_eq!(read[0].name, "apple");
    assert_eq!(read[1].name, "zebra");
}

#[test]
fn by_tag_unknown_tag_is_empty() {
    let mut r = ToolRegistry::new();
    r.register(ToolDef::new("search", "Search").tag("read"));
    assert!(r.by_tag("nope").is_empty());
}

#[test]
fn remove() {
    let mut r = ToolRegistry::new();
    r.register(ToolDef::new("x", "X"));
    assert!(r.remove("x").is_some());
    assert!(r.get("x").is_none());
}

#[test]
fn remove_absent_returns_none() {
    let mut r = ToolRegistry::new();
    assert!(r.remove("missing").is_none());
}

#[test]
fn len_and_empty() {
    let mut r = ToolRegistry::new();
    assert!(r.is_empty());
    r.register(ToolDef::new("x", "X"));
    assert_eq!(r.len(), 1);
}

#[test]
fn multiple_params() {
    let t = ToolDef::new("fn", "Fn")
        .param("q", "string", true)
        .param("limit", "integer", false);
    let s = t.to_schema();
    let props = &s.input_schema;
    assert!(props.property("q").is_some());
    assert!(props.property("limit").is_some());
}

#[test]
fn tag_chaining() {
    let t = ToolDef::new("x", "X").tag("a").tag("b");
    assert_eq!(t.tags.len(), 2);
}

// Further cases.

#[test]
fn names_follow_byte_order() {
    let mut r = ToolRegistry::new();
    r.register(ToolDef::new("beta", "B"));
    r.register(ToolDef::new("Zeta", "Z"));
    r.register(ToolDef::new("alpha", "A"));
    r.register(ToolDef::new("\u{e9}t\u{e9}", "E"));
    r.register(ToolDef::new("al", "Al"));
    assert_eq!(r.names(), vec!["Zeta", "al", "alpha", "beta", "\u{e9}t\u{e9}"]);
    let listed: Vec<&str> = r.iter().map(|t| t.name.as_str()).collect();
    assert_eq!(listed, r.names());
}

#[test]
fn compare_names_outcomes() {
    assert_eq!(compare_names("a", "b"), NameOrder::Less);
    assert_eq!(compare_names("b", "a"), NameOrder::Greater);
    assert_eq!(compare_names("same", "same"), NameOrder::Equal);
    assert_eq!(compare_names("ab", "abc"), NameOrder::Less);
    assert_eq!(compare_names("", ""), NameOrder::Equal);
    assert_eq!(compare_names("Z", "a"), NameOrder::Less);
    assert_eq!(compare_names("\u{e9}", "z"), NameOrder::Greater);
}

#[test]
fn register_then_get_finds_the_tool_and_leaves_others() {
    let mut r = ToolRegistry::new();
    r.register(ToolDef::new("keep", "kept").tag("t"));
    r.register(ToolDef::new("new", "added").param("p", "string", true));
    let got = r.get("new").unwrap();
    assert_eq!(got.description, "added");
    assert_eq!(got.params.len(), 1);
    assert_eq!(r.get("keep").unwrap().description, "kept");
    assert_eq!(r.len(), 2);
}

#[test]
fn register_then_remove_restores_the_registry() {
    let mut r = ToolRegistry::new();
    r.register(ToolDef::new("a", "A"));
    r.register(ToolDef::new("c", "C"));
    let before = r.names().iter().map(|s| s.to_string()).collect::<Vec<String>>();
    assert!(r.register(ToolDef::new("b", "B")).is_none());
    assert_eq!(r.names(), vec!["a", "b", "c"]);
    let removed = r.remove("b").unwrap();
    assert_eq!(removed.description, "B");
    assert_eq!(r.names(), before);
    assert!(r.get("b").is_none());
    assert_eq!(r.get("a").unwrap().description, "A");
}

#[test]
fn remove_leaves_other_tools() {
    let mut r = ToolRegistry::new();
    r.register(ToolDef::new("a", "A"));
    r.register(ToolDef::new("b", "B"));
    r.register(ToolDef::new("c", "C"));
    assert_eq!(r.remove("b").unwrap().name, "b");
    assert_eq!(r.names(), vec!["a", "c"]);
    assert!(r.remove("b").is_none());
    assert_eq!(r.len(), 2);
}

#[test]
fn re_registering_keeps_one_entry_in_every_listing() {
    let mut r = ToolRegistry::new();
    r.register(ToolDef::new("x", "first").tag("t"));
    r.register(ToolDef::new("y", "Y").tag("t"));
    r.register(ToolDef::new("x", "second").tag("t"));
    assert_eq!(r.len(), 2);
    assert_eq!(r.names(), vec!["x", "y"]);
    assert_eq!(r.schemas().len(), 2);
    let tagged = r.by_tag("t");
    assert_eq!(tagged.len(), 2);
    assert_eq!(tagged[0].description, "second");
}

#[test]
fn by_tag_with_several_tags() {
    let mut r = ToolRegistry::new();
    r.register(ToolDef::new("c", "C").tag("x").tag("read"));
    r.register(ToolDef::new("a", "A").tag("read").tag("read"));
    r.register(ToolDef::new("b", "B").tag("write"));
    let names: Vec<&str> = r.by_tag("read").iter().map(|t| t.name.as_str()).collect();
    assert_eq!(names, vec!["a", "c"]);
    assert!(r.by_tag("rea").is_empty());
    assert!(r.by_tag("").is_empty());
}

#[test]
fn duplicate_param_names_last_one_wins() {
    let t = ToolDef::new("f", "F")
        .param_desc("q", "string", true, "first")
        .param("a", "integer", false)
        .param("q", "boolean", false);
    let s = t.to_schema();
    let props = &s.input_schema.properties;
    assert_eq!(props.len(), 2);
    assert_eq!(props[0].name, "a");
    assert_eq!(props[1].name, "q");
    assert_eq!(props[1].param_type, "boolean");
    assert!(props[1].description.is_none());
    assert_eq!(s.input_schema.required, vec!["q".to_string()]);
}

#[test]
fn required_keeps_parameter_order_and_repeats() {
    let t = ToolDef::new("f", "F")
        .param("z", "string", true)
        .param("m", "string", false)
        .param("a", "string", true)
        .param("z", "string", true);
    let s = t.to_schema();
    assert_eq!(
        s.input_schema.required,
        vec!["z".to_string(), "a".to_string(), "z".to_string()]
    );
    let names: Vec<&str> = s.input_schema.properties.iter().map(|p| p.name.as_str()).collect();
    assert_eq!(names, vec!["a", "m", "z"]);
}

#[test]
fn property_lookup_absent_name() {
    let s = ToolDef::new("f", "F").param("q", "string", true).to_schema();
    assert!(s.input_schema.property("nope").is_none());
    assert!(s.input_schema.property("Q").is_none());
}

#[test]
fn builders_append_in_order() {
    let t = ToolDef::new("n", "d")
        .param("p1", "string", true)
        .param_desc("p2", "integer", false, "second")
        .tag("a")
        .tag("a");
    assert_eq!(t.name, "n");
    assert_eq!(t.description, "d");
    assert_eq!(t.params.len(), 2);
    assert_eq!(t.params[0].name, "p1");
    assert!(t.params[0].required);
    assert_eq!(t.params[1].description.as_deref(), Some("second"));
    assert!(!t.params[1].required);
    assert_eq!(t.tags, vec!["a".to_string(), "a".to_string()]);
}

#[test]
fn default_and_clone_registry() {
    let mut r = ToolRegistry::default();
    assert!(r.is_empty());
    assert_eq!(r.len(), 0);
    assert!(r.names().is_empty());
    r.register(ToolDef::new("b", "B"));
    r.register(ToolDef::new("a", "A"));
    let c = r.clone();
    assert_eq!(c.names(), r.names());
    assert_eq!(c.get("a").unwrap(), r.get("a").unwrap());
}

#[test]
fn schema_of_empty_names() {
    let s = ToolDef::new("", "").param("", "", true).to_schema();
    assert_eq!(s.name, "");
    assert_eq!(s.input_schema.properties.len(), 1);
    assert_eq!(s.input_schema.required, vec!["".to_string()]);
}

#[test]
fn get_follows_the_latest_register_since_any_remove() {
    let mut r = ToolRegistry::new();
    r.register(ToolDef::new("a", "one"));
    r.register(ToolDef::new("b", "bee"));
    r.register(ToolDef::new("a", "two"));
    assert_eq!(r.get("a").unwrap().description, "two");
    assert!(r.remove("a").is_some());
    assert!(r.get("a").is_none());
    assert!(r.remove("a").is_none());
    r.register(ToolDef::new("a", "three"));
    let got = r.get("a").unwrap();
    assert_eq!(got.description, "three");
    assert_eq!(got.name, "a");
    assert_eq!(r.get("b").unwrap().description, "bee");
    assert!(r.get("c").is_none());
}

#[test]
fn debug_shows_tools_by_name() {
    let mut r = ToolRegistry::new();
    assert_eq!(format!("{:?}", r), "ToolRegistry { tools: {} }");
    r.register(ToolDef::new("a", "A"));
    assert_eq!(
        format!("{:?}", r),
        "ToolRegistry { tools: {\"a\": ToolDef { name: \"a\", description: \"A\", params: [], tags: [] }} }"
    );
}
