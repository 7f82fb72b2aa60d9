//! JSON documents with the places things are written at.
use crate::text::same;
use vstd::prelude::*;

verus! {

/// `jsonc_parser::ast::Value`: a node of a parsed document.
#[verifier::external_type_specification]
#[verifier::external_body]
pub struct ExValue<'a>(jsonc_parser::ast::Value<'a>);

/// A value of a document, with byte offsets into its source.
#[derive(Debug)]
pub enum Json {
    /// A string, decoded, and where its literal starts.
    Text(String, usize),
    Flag(bool),
    Object(Vec<Property>),
    /// A number, a list or null: nothing that is read here.
    Other,
}

/// A property of an object.
#[derive(Debug)]
pub struct Property {
    pub name: String,
    /// Where the name is written, with its quotes where it has any.
    pub start: usize,
    pub end: usize,
    pub quoted: bool,
    pub value: Json,
}

/// What a [`Json`] says.
pub enum Tree {
    Text(Seq<char>, int),
    Flag(bool),
    Object(Seq<Entry>),
    Other,
}

/// What a [`Property`] says.
pub struct Entry {
    pub name: Seq<char>,
    pub start: int,
    pub end: int,
    pub quoted: bool,
    pub value: Tree,
}

/// What a value says.
pub open spec fn tree(json: Json) -> Tree
    decreases json,
{
    match json {
        Json::Text(s, at) => Tree::Text(s@, at as int),
        Json::Flag(b) => Tree::Flag(b),
        Json::Object(properties) => Tree::Object(
            Seq::new(
                properties@.len(),
                |i: int|
                    if 0 <= i < properties@.len() {
                        entry(properties@[i])
                    } else {
                        arbitrary()
                    },
            ),
        ),
        Json::Other => Tree::Other,
    }
}

/// What a property says.
pub open spec fn entry(p: Property) -> Entry
    decreases p,
{
    Entry {
        name: p.name@,
        start: p.start as int,
        end: p.end as int,
        quoted: p.quoted,
        value: tree(p.value),
    }
}

/// What a node of a parsed document says.
pub uninterp spec fn node_tree(value: jsonc_parser::ast::Value) -> Tree;

/// What `jsonc_parser::parse_to_ast` makes of a text with its default options:
/// the value of the document, or nothing where it is malformed or empty.
pub uninterp spec fn json_of(src: Seq<char>) -> Option<Tree>;

/// `jsonc_parser::parse_to_ast` with default options: the value of the
/// document, or nothing where it is malformed or empty.
#[verifier::external_body]
fn parse_ast<'a>(src: &'a str) -> (r: Option<jsonc_parser::ast::Value<'a>>)
    ensures
        match r {
            Some(value) => json_of(src@) == Some(node_tree(value)),
            None => json_of(src@) is None,
        },
{
    let collect = jsonc_parser::CollectOptions::default();
    let options = jsonc_parser::ParseOptions::default();
    jsonc_parser::parse_to_ast(src, &collect, &options).ok()?.value
}

/// `jsonc_parser::ast::Value::as_string_lit`: the decoded text of a string and
/// the byte its literal starts at, or nothing for any other value.
#[verifier::external_body]
fn text_of(value: &jsonc_parser::ast::Value<'_>) -> (r: Option<(String, usize)>)
    ensures
        match r {
            Some(t) => node_tree(*value) == Tree::Text(t.0@, t.1 as int),
            None => !(node_tree(*value) is Text),
        },
{
    value.as_string_lit().map(|s| (s.value.to_string(), s.range.start))
}

/// `jsonc_parser::ast::Value::as_boolean_lit`: a boolean, or nothing for any
/// other value.
#[verifier::external_body]
fn flag_of(value: &jsonc_parser::ast::Value<'_>) -> (r: Option<bool>)
    ensures
        match r {
            Some(b) => node_tree(*value) == Tree::Flag(b),
            None => !(node_tree(*value) is Flag),
        },
{
    value.as_boolean_lit().map(|b| b.value)
}

/// A property of a node, by its place in the object.
struct Member<'b, 'a> {
    name: String,
    start: usize,
    end: usize,
    quoted: bool,
    value: &'b jsonc_parser::ast::Value<'a>,
}

spec fn member_entry(m: Member) -> Entry {
    Entry {
        name: m.name@,
        start: m.start as int,
        end: m.end as int,
        quoted: m.quoted,
        value: node_tree(*m.value),
    }
}

/// `jsonc_parser::ast::Value::as_object`: the properties of an object in the
/// order they are written, each with the bytes its name is written in and
/// whether it is quoted, or nothing for any other value.
#[verifier::external_body]
fn members_of<'b, 'a>(value: &'b jsonc_parser::ast::Value<'a>) -> (r: Option<Vec<Member<'b, 'a>>>)
    ensures
        match r {
            Some(ms) => node_tree(*value) == Tree::Object(
                Seq::new(ms@.len(), |i: int| member_entry(ms@[i])),
            ),
            None => !(node_tree(*value) is Object),
        },
{
    let convert = |p: &'b jsonc_parser::ast::ObjectProp<'a>| {
        let (name, range, quoted) = match &p.name {
            jsonc_parser::ast::ObjectPropName::String(s) => (s.value.to_string(), s.range, true),
            jsonc_parser::ast::ObjectPropName::Word(w) => (w.value.to_string(), w.range, false),
        };
        Member { name, start: range.start, end: range.end, quoted, value: &p.value }
    };
    value.as_object().map(|o| o.properties.iter().map(convert).collect())
}

fn convert(value: &jsonc_parser::ast::Value<'_>) -> (r: Json)
    ensures
        tree(r) == node_tree(*value),
    decreases node_tree(*value),
{
    if let Some((s, at)) = text_of(value) {
        return Json::Text(s, at);
    }
    if let Some(b) = flag_of(value) {
        return Json::Flag(b);
    }
    match members_of(value) {
        Some(ms) => {
            let ghost es = Seq::new(ms@.len(), |i: int| member_entry(ms@[i]));
            let mut out: Vec<Property> = Vec::new();
            let mut i: usize = 0;
            while i < ms.len()
                invariant
                    i <= ms@.len(),
                    out@.len() == i,
                    es == Seq::new(ms@.len(), |i: int| member_entry(ms@[i])),
                    node_tree(*value) == Tree::Object(es),
                    forall|j: int| 0 <= j < i ==> entry(#[trigger] out@[j]) == es[j],
                decreases ms@.len() - i,
            {
                let m = &ms[i];
                proof {
                    assert(es[i as int] == member_entry(ms@[i as int]));
                    assert(decreases_to!(node_tree(*value) => node_tree(*value)->Object_0));
                    assert(decreases_to!(es => es[i as int]));
                    assert(decreases_to!(es[i as int] => es[i as int].value));
                }
                let child = convert(m.value);
                out.push(
                    Property {
                        name: m.name.clone(),
                        start: m.start,
                        end: m.end,
                        quoted: m.quoted,
                        value: child,
                    },
                );
                i += 1;
            }
            let r = Json::Object(out);
            proof {
                assert(tree(r)->Object_0 =~= es);
            }
            r
        },
        None => Json::Other,
    }
}

/// The value of a JSON document, or nothing where it is malformed or empty.
/// Comments and trailing commas are accepted.
pub fn parse(src: &str) -> (r: Option<Json>)
    ensures
        match r {
            Some(json) => json_of(src@) == Some(tree(json)),
            None => json_of(src@) is None,
        },
{
    match parse_ast(src) {
        Some(value) => Some(convert(&value)),
        None => None,
    }
}

/// The first property of a name.
pub open spec fn property_of(entries: Seq<Entry>, name: Seq<char>) -> Option<Tree>
    decreases entries.len(),
{
    if entries.len() == 0 {
        None
    } else if entries[0].name == name {
        Some(entries[0].value)
    } else {
        property_of(entries.skip(1), name)
    }
}

/// The entries of an object property, none where there is no such object.
pub open spec fn object_of(entries: Seq<Entry>, name: Seq<char>) -> Option<Seq<Entry>> {
    match property_of(entries, name) {
        Some(Tree::Object(es)) => Some(es),
        _ => None,
    }
}

/// The text of a string property.
pub open spec fn string_of(entries: Seq<Entry>, name: Seq<char>) -> Option<Seq<char>> {
    match property_of(entries, name) {
        Some(Tree::Text(s, _)) => Some(s),
        _ => None,
    }
}

/// Whether a property is the literal `true`.
pub open spec fn is_true(entries: Seq<Entry>, name: Seq<char>) -> bool {
    property_of(entries, name) == Some(Tree::Flag(true))
}

/// What some properties say.
pub open spec fn entries(properties: Seq<Property>) -> Seq<Entry> {
    Seq::new(properties.len(), |i: int| entry(properties[i]))
}

/// An object says what its properties say.
pub proof fn lemma_object(json: Json)
    ensures
        json matches Json::Object(ps) ==> tree(json) == Tree::Object(entries(ps@)),
{
    if let Json::Object(ps) = json {
        assert(tree(json)->Object_0 =~= entries(ps@));
    }
}

/// The first property of a name.
pub fn property<'a>(properties: &'a Vec<Property>, name: &str) -> (r: Option<&'a Json>)
    ensures
        match r {
            Some(json) => property_of(entries(properties@), name@) == Some(tree(*json))
                && decreases_to!(entries(properties@) => tree(*json)),
            None => property_of(entries(properties@), name@) is None,
        },
{
    let ghost all = entries(properties@);
    let mut i: usize = 0;
    proof {
        assert(all.skip(0) =~= all);
    }
    while i < properties.len()
        invariant
            i <= properties@.len(),
            all == entries(properties@),
            property_of(all, name@) == property_of(all.skip(i as int), name@),
        decreases properties@.len() - i,
    {
        proof {
            assert(all.skip(i as int)[0] == entry(properties@[i as int]));
            assert(all.skip(i as int).skip(1) =~= all.skip(i + 1));
        }
        if same(properties[i].name.as_str(), name) {
            proof {
                assert(decreases_to!(all => all[i as int]));
                assert(decreases_to!(all[i as int] => all[i as int].value));
            }
            return Some(&properties[i].value);
        }
        i += 1;
    }
    None
}

/// The properties of an object property.
pub fn object<'a>(properties: &'a Vec<Property>, name: &str) -> (r: Option<&'a Vec<Property>>)
    ensures
        match r {
            Some(ps) => object_of(entries(properties@), name@) == Some(entries(ps@))
                && decreases_to!(entries(properties@) => entries(ps@)),
            None => object_of(entries(properties@), name@) is None,
        },
{
    match property(properties, name) {
        Some(json) => {
            proof {
                lemma_object(*json);
            }
            match json {
                Json::Object(ps) => {
                    proof {
                        assert(decreases_to!(tree(*json) => entries(ps@)));
                    }
                    Some(ps)
                },
                _ => None,
            }
        },
        None => None,
    }
}

/// The text of a string property.
pub fn string<'a>(properties: &'a Vec<Property>, name: &str) -> (r: Option<&'a str>)
    ensures
        match r {
            Some(s) => string_of(entries(properties@), name@) == Some(s@),
            None => string_of(entries(properties@), name@) is None,
        },
{
    match property(properties, name) {
        Some(Json::Text(s, _)) => Some(s.as_str()),
        _ => None,
    }
}

/// Whether a property is the literal `true`.
pub fn flag(properties: &Vec<Property>, name: &str) -> (r: bool)
    ensures
        r == is_true(entries(properties@), name@),
{
    match property(properties, name) {
        Some(Json::Flag(b)) => *b,
        _ => false,
    }
}

} // verus!
