//! JSON text, read and written by serde_json.
//!
//! Between the bytes and a [`Json`] stands serde_json's own tree. It is opened and closed one
//! layer at a time; what walks it is verified.
use crate::json::{items_view, items_view_at, members_view, Json, JsonView, Member};
use vstd::prelude::*;
use vstd::utf8::encode_utf8;

verus! {

/// Trusted: `serde_json::Number`, carried as it is.
#[verifier::external_type_specification]
#[verifier::external_body]
pub struct ExNumber(serde_json::Number);

/// Trusted: `serde_json::Value`, serde_json's own tree.
#[verifier::external_type_specification]
#[verifier::external_body]
pub struct ExValue(serde_json::Value);

/// Trusted: `serde_json::Map`, the members of an object in that tree.
#[verifier::external_type_specification]
#[verifier::external_body]
#[verifier::reject_recursive_types(K)]
#[verifier::reject_recursive_types(V)]
pub struct ExMap<K, V>(serde_json::Map<K, V>);

/// Trusted: `serde_json::Error`, why a text is no JSON.
#[verifier::external_type_specification]
#[verifier::external_body]
pub struct ExError(serde_json::Error);

/// What a `serde_json::Value` holds.
pub uninterp spec fn value_view(value: serde_json::Value) -> JsonView;

/// What a `serde_json::Map` holds.
pub uninterp spec fn map_view(members: serde_json::Map<String, serde_json::Value>) -> Map<
    Seq<char>,
    JsonView,
>;

/// What `serde_json::from_slice` reads out of these bytes, where they are JSON.
pub uninterp spec fn parsed_json(bytes: Seq<u8>) -> Option<JsonView>;

/// The compact text that serde_json writes for a document.
pub uninterp spec fn json_text(document: JsonView) -> Seq<char>;

/// The number that `serde_json::Number::from` makes of an unsigned integer.
pub uninterp spec fn whole_number(n: u64) -> serde_json::Number;

/// One layer of a `serde_json::Value`: its variant and what that variant holds.
pub(crate) enum Layer {
    Null,
    Bool(bool),
    Number(serde_json::Number),
    Text(String),
    Array(Vec<serde_json::Value>),
    Object(serde_json::Map<String, serde_json::Value>),
}

/// What a layer says.
pub(crate) open spec fn layer_view(layer: Layer) -> JsonView {
    match layer {
        Layer::Null => JsonView::Null,
        Layer::Bool(b) => JsonView::Bool(b),
        Layer::Number(n) => JsonView::Number(n),
        Layer::Text(s) => JsonView::Text(s@),
        Layer::Array(items) => JsonView::Array(
            items@.map_values(|v: serde_json::Value| value_view(v)),
        ),
        Layer::Object(members) => JsonView::Object(map_view(members)),
    }
}

/// What an object with these members says: of two members with one name the later counts.
pub(crate) open spec fn pairs_view(pairs: Seq<(String, serde_json::Value)>) -> Map<
    Seq<char>,
    JsonView,
>
    decreases pairs.len(),
{
    if pairs.len() == 0 {
        map![]
    } else {
        pairs_view(pairs.drop_last()).insert(pairs.last().0@, value_view(pairs.last().1))
    }
}

/// Trusted: tells the variants of `serde_json::Value` apart and hands out what the variant holds.
#[verifier::external_body]
fn open_layer(value: serde_json::Value) -> (layer: Layer)
    ensures
        layer_view(layer) == value_view(value),
{
    match value {
        serde_json::Value::Null => Layer::Null,
        serde_json::Value::Bool(b) => Layer::Bool(b),
        serde_json::Value::Number(n) => Layer::Number(n),
        serde_json::Value::String(s) => Layer::Text(s),
        serde_json::Value::Array(items) => Layer::Array(items),
        serde_json::Value::Object(members) => Layer::Object(members),
    }
}

/// Trusted: builds the variant of `serde_json::Value` that a layer describes.
#[verifier::external_body]
fn close_layer(layer: Layer) -> (value: serde_json::Value)
    ensures
        value_view(value) == layer_view(layer),
{
    match layer {
        Layer::Null => serde_json::Value::Null,
        Layer::Bool(b) => serde_json::Value::Bool(b),
        Layer::Number(n) => serde_json::Value::Number(n),
        Layer::Text(s) => serde_json::Value::String(s),
        Layer::Array(items) => serde_json::Value::Array(items),
        Layer::Object(members) => serde_json::Value::Object(members),
    }
}

/// Trusted: iterating over a `serde_json::Map` hands out each of its members once.
#[verifier::external_body]
fn map_pairs(members: serde_json::Map<String, serde_json::Value>) -> (pairs: Vec<
    (String, serde_json::Value),
>)
    ensures
        pairs_view(pairs@) == map_view(members),
        forall|i: int, j: int| 0 <= i < j < pairs@.len() ==> pairs@[i].0@ != pairs@[j].0@,
{
    members.into_iter().collect()
}

/// Trusted: `serde_json::Map::new` makes a map without members.
#[verifier::external_body]
fn new_map() -> (members: serde_json::Map<String, serde_json::Value>)
    ensures
        map_view(members) == members_view(Seq::empty()),
{
    serde_json::Map::new()
}

/// Trusted: `serde_json::Map::insert` sets one member and leaves the others as they are.
#[verifier::external_body]
fn map_insert(
    members: &mut serde_json::Map<String, serde_json::Value>,
    name: String,
    value: serde_json::Value,
)
    ensures
        map_view(*final(members)) == map_view(*old(members)).insert(name@, value_view(value)),
{
    members.insert(name, value);
}

/// Trusted: the copy that `Number::clone` makes is the number itself.
#[verifier::external_body]
fn copy_number(n: &serde_json::Number) -> (copy: serde_json::Number)
    ensures
        copy == *n,
{
    n.clone()
}

/// Trusted: `Number::from` makes a number of an unsigned integer. Which number that is, is only
/// named.
#[verifier::external_body]
fn make_number(n: u64) -> (number: serde_json::Number)
    ensures
        number == whole_number(n),
{
    serde_json::Number::from(n)
}

/// Trusted: `serde_json::from_slice` reads a `Value` out of bytes. Which bytes are JSON and what
/// they say is only named.
#[verifier::external_body]
fn parse_value(bytes: &[u8]) -> (parsed: Result<serde_json::Value, serde_json::Error>)
    ensures
        match parsed {
            Ok(value) => parsed_json(bytes@) == Some(value_view(value)),
            Err(_) => parsed_json(bytes@) is None,
        },
{
    serde_json::from_slice::<serde_json::Value>(bytes)
}

/// Trusted: `Value::to_string` writes the compact text of a document. The text is only named.
#[verifier::external_body]
fn value_text(value: &serde_json::Value) -> (text: String)
    ensures
        text@ == json_text(value_view(*value)),
{
    value.to_string()
}

/// Trusted: `serde_json::to_vec` succeeds on every `Value` and writes the same compact text, as
/// UTF-8. That reading these bytes gives the document back is not claimed: serde_json may read a
/// fraction a little off, and it reads nothing that is nested too deeply.
#[verifier::external_body]
fn value_bytes(value: &serde_json::Value) -> (written: Result<Vec<u8>, serde_json::Error>)
    ensures
        written is Ok,
        written->Ok_0@ == encode_utf8(json_text(value_view(*value))),
{
    serde_json::to_vec(value)
}

/// A member of a map with one entry per name is found under its name.
proof fn pairs_view_at(pairs: Seq<(String, serde_json::Value)>, i: int)
    requires
        forall|i: int, j: int| 0 <= i < j < pairs.len() ==> pairs[i].0@ != pairs[j].0@,
        0 <= i < pairs.len(),
    ensures
        pairs_view(pairs).contains_key(pairs[i].0@),
        pairs_view(pairs)[pairs[i].0@] == value_view(pairs[i].1),
    decreases pairs.len(),
{
    if i < pairs.len() - 1 {
        pairs_view_at(pairs.drop_last(), i);
    }
}

/// A map of members has finitely many.
proof fn pairs_view_finite(pairs: Seq<(String, serde_json::Value)>)
    ensures
        pairs_view(pairs).dom().finite(),
    decreases pairs.len(),
{
    if pairs.len() > 0 {
        pairs_view_finite(pairs.drop_last());
    }
}

/// Reads serde_json's tree.
fn from_value(value: serde_json::Value) -> (document: Json)
    ensures
        document@ == value_view(value),
    decreases value_view(value),
{
    let ghost whole = value_view(value);
    match open_layer(value) {
        Layer::Null => Json::Null,
        Layer::Bool(b) => Json::Bool(b),
        Layer::Number(n) => Json::Number(n),
        Layer::Text(s) => Json::Text(s),
        Layer::Array(items) => {
            let ghost all = items@;
            let ghost views = items@.map_values(|v: serde_json::Value| value_view(v));
            let mut read: Vec<Json> = Vec::new();
            for item in it: items
                invariant
                    it.seq() == all,
                    views == all.map_values(|v: serde_json::Value| value_view(v)),
                    whole == value_view(value),
                    whole == JsonView::Array(views),
                    read@.len() == it.index(),
                    forall|i: int| 0 <= i < it.index() ==> (#[trigger] read@[i])@ == views[i],
            {
                proof {
                    assert(views[it.index() as int] == value_view(item));
                    assert(decreases_to!(whole => whole->Array_0));
                    assert(decreases_to!(views => views[it.index() as int]));
                }
                read.push(from_value(item));
            }
            proof {
                items_view_at(read@);
                assert(items_view(read@) =~= views);
            }
            Json::Array(read)
        },
        Layer::Object(members) => {
            let ghost map = map_view(members);
            let pairs = map_pairs(members);
            let ghost all = pairs@;
            proof {
                pairs_view_finite(all);
            }
            let mut read: Vec<Member> = Vec::new();
            proof {
                assert(all.take(0) =~= Seq::empty());
            }
            for pair in it: pairs
                invariant
                    it.seq() == all,
                    whole == value_view(value),
                    whole == JsonView::Object(map),
                    map == pairs_view(all),
                    map.dom().finite(),
                    forall|i: int, j: int| 0 <= i < j < all.len() ==> all[i].0@ != all[j].0@,
                    members_view(read@) == pairs_view(all.take(it.index() as int)),
            {
                proof {
                    let at = it.index() as int;
                    pairs_view_at(all, at);
                    assert(decreases_to!(whole => whole->Object_0));
                    assert(decreases_to!(map => map[pair.0@]));
                    assert(all.take(at + 1).drop_last() == all.take(at));
                }
                let ghost before = read@;
                let (name, content) = pair;
                read.push(Member { name, value: from_value(content) });
                proof {
                    assert(read@.drop_last() == before);
                }
            }
            proof {
                assert(all.take(all.len() as int) == all);
            }
            Json::Object(read)
        },
    }
}

/// Builds serde_json's tree.
fn to_value(document: &Json) -> (value: serde_json::Value)
    ensures
        value_view(value) == document@,
    decreases document,
{
    let layer = match document {
        Json::Null => Layer::Null,
        Json::Bool(b) => Layer::Bool(*b),
        Json::Number(n) => Layer::Number(copy_number(n)),
        Json::Text(s) => Layer::Text(s.clone()),
        Json::Array(items) => {
            let mut built: Vec<serde_json::Value> = Vec::new();
            let mut i: usize = 0;
            while i < items.len()
                invariant
                    i <= items@.len(),
                    *document == Json::Array(*items),
                    built@.len() == i,
                    forall|j: int| 0 <= j < i ==> value_view(#[trigger] built@[j]) == items@[j]@,
                decreases items@.len() - i,
            {
                proof {
                    assert(decreases_to!(document => document->Array_0));
                    assert(decreases_to!(items => items@));
                    assert(decreases_to!(items@ => items@[i as int]));
                }
                built.push(to_value(&items[i]));
                i = i + 1;
            }
            proof {
                items_view_at(items@);
                assert(built@.map_values(|v: serde_json::Value| value_view(v)) =~= items_view(items@));
            }
            Layer::Array(built)
        },
        Json::Object(members) => {
            let mut built = new_map();
            let mut i: usize = 0;
            proof {
                assert(members@.take(0) =~= Seq::empty());
            }
            while i < members.len()
                invariant
                    i <= members@.len(),
                    *document == Json::Object(*members),
                    map_view(built) == members_view(members@.take(i as int)),
                decreases members@.len() - i,
            {
                proof {
                    assert(decreases_to!(document => document->Object_0));
                    assert(decreases_to!(members => members@));
                    assert(decreases_to!(members@ => members@[i as int]));
                    assert(decreases_to!(members@[i as int] => members@[i as int].value));
                    assert(members@.take(i + 1).drop_last() == members@.take(i as int));
                }
                map_insert(&mut built, members[i].name.clone(), to_value(&members[i].value));
                i = i + 1;
            }
            proof {
                assert(members@.take(members@.len() as int) == members@);
            }
            Layer::Object(built)
        },
    };
    close_layer(layer)
}

/// Reads a JSON document.
pub fn parse(bytes: &[u8]) -> (parsed: Result<Json, serde_json::Error>)
    ensures
        match parsed {
            Ok(document) => parsed_json(bytes@) == Some(document@),
            Err(_) => parsed_json(bytes@) is None,
        },
{
    match parse_value(bytes) {
        Ok(value) => Ok(from_value(value)),
        Err(error) => Err(error),
    }
}

/// Writes a JSON document as compact text.
pub fn write_text(document: &Json) -> (text: String)
    ensures
        text@ == json_text(document@),
{
    let value = to_value(document);
    value_text(&value)
}

/// Writes a JSON document as the bytes of its compact text.
pub fn write_bytes(document: &Json) -> (bytes: Vec<u8>)
    ensures
        bytes@ == encode_utf8(json_text(document@)),
{
    let value = to_value(document);
    value_bytes(&value).unwrap()
}

/// An unsigned integer as a JSON document.
pub fn number(n: u64) -> (document: Json)
    ensures
        document@ == JsonView::Number(whole_number(n)),
{
    Json::Number(make_number(n))
}

} // verus!
