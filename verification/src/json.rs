//! JSON documents as plain values.
use crate::text::same_text;
use vstd::prelude::*;

verus! {

/// A JSON document.
///
/// A number is carried as serde_json holds it: the library never looks into one.
pub enum Json {
    Null,
    Bool(bool),
    Number(serde_json::Number),
    Text(String),
    Array(Vec<Json>),
    Object(Vec<Member>),
}

/// One named member of a JSON object.
pub struct Member {
    pub name: String,
    pub value: Json,
}

/// What a JSON document says: an object is the finite map from its names to its values.
#[verifier::ext_equal]
pub enum JsonView {
    Null,
    Bool(bool),
    Number(serde_json::Number),
    Text(Seq<char>),
    Array(Seq<JsonView>),
    Object(Map<Seq<char>, JsonView>),
}

/// What each of `items` says, in order.
pub open spec fn items_view(items: Seq<Json>) -> Seq<JsonView>
    decreases items,
{
    if items.len() == 0 {
        seq![]
    } else {
        items_view(items.drop_last()).push(items.last().view())
    }
}

/// What an object with these members says: of two members with one name the later counts.
pub open spec fn members_view(members: Seq<Member>) -> Map<Seq<char>, JsonView>
    decreases members,
{
    if members.len() == 0 {
        map![]
    } else {
        members_view(members.drop_last()).insert(members.last().name@, members.last().value.view())
    }
}

impl JsonView {
    /// The member called `name`, where the document is an object that has one.
    pub open spec fn member(self, name: Seq<char>) -> Option<JsonView> {
        match self {
            JsonView::Object(members) => if members.contains_key(name) {
                Some(members[name])
            } else {
                None
            },
            _ => None,
        }
    }

    /// The document with its member called `name` set to `value`, where it is an object.
    pub open spec fn with_member(self, name: Seq<char>, value: JsonView) -> JsonView {
        match self {
            JsonView::Object(members) => JsonView::Object(members.insert(name, value)),
            _ => self,
        }
    }
}

impl Json {
    /// What the document says.
    pub open spec fn view(&self) -> JsonView
        decreases self,
    {
        match self {
            Json::Null => JsonView::Null,
            Json::Bool(b) => JsonView::Bool(*b),
            Json::Number(n) => JsonView::Number(*n),
            Json::Text(s) => JsonView::Text(s@),
            Json::Array(items) => JsonView::Array(items_view(items@)),
            Json::Object(members) => JsonView::Object(members_view(members@)),
        }
    }

    /// The member called `name`, where the document is an object that has one.
    pub fn get(&self, name: &str) -> (found: Option<&Json>)
        ensures
            found is Some <==> self@.member(name@) is Some,
            found is Some ==> self@.member(name@) == Some(found->0@),
    {
        match self {
            Json::Object(members) => match member_index(members, name) {
                Some(i) => Some(&members[i].value),
                None => None,
            },
            _ => None,
        }
    }

    /// The text, where the document is one.
    pub fn as_text(&self) -> (text: Option<&str>)
        ensures
            match text {
                Some(s) => self@ == JsonView::Text(s@),
                None => !(self@ is Text),
            },
    {
        match self {
            Json::Text(s) => Some(s.as_str()),
            _ => None,
        }
    }

    /// The items, where the document is an array.
    pub fn as_array(&self) -> (items: Option<&Vec<Json>>)
        ensures
            match items {
                Some(a) => self@ == JsonView::Array(items_view(a@)),
                None => !(self@ is Array),
            },
    {
        match self {
            Json::Array(items) => Some(items),
            _ => None,
        }
    }

    /// Sets the member called `name`, where the document is an object; leaves any other document
    /// as it is.
    pub fn set(&mut self, name: String, value: Json)
        ensures
            final(self)@ == old(self)@.with_member(name@, value@),
    {
        match self {
            Json::Object(members) => {
                let ghost before = members@;
                members.push(Member { name, value });
                proof {
                    assert(members@.drop_last() == before);
                }
            },
            _ => {},
        }
    }
}

/// The index of the member called `name` that counts.
pub(crate) fn member_index(members: &Vec<Member>, name: &str) -> (found: Option<usize>)
    ensures
        match found {
            Some(i) => {
                &&& i < members@.len()
                &&& members@[i as int].name@ == name@
                &&& forall|j: int| i < j < members@.len() ==> (#[trigger] members@[j]).name@ != name@
                &&& members_view(members@).contains_key(name@)
                &&& members_view(members@)[name@] == members@[i as int].value@
            },
            None => !members_view(members@).contains_key(name@),
        },
{
    let mut i: usize = members.len();
    proof {
        assert(members@.take(i as int) == members@);
    }
    while i > 0
        invariant
            i <= members@.len(),
            forall|j: int| i <= j < members@.len() ==> (#[trigger] members@[j]).name@ != name@,
            members_view(members@).contains_key(name@) == members_view(
                members@.take(i as int),
            ).contains_key(name@),
            members_view(members@).contains_key(name@) ==> members_view(members@)[name@]
                == members_view(members@.take(i as int))[name@],
        decreases i,
    {
        proof {
            assert(members@.take(i as int).drop_last() == members@.take(i - 1));
            assert(members@.take(i as int).last() == members@[i - 1]);
        }
        i = i - 1;
        if same_text(members[i].name.as_str(), name) {
            return Some(i);
        }
    }
    None
}

/// Each item of an array says what the item itself says.
pub(crate) proof fn items_view_at(items: Seq<Json>)
    ensures
        items_view(items).len() == items.len(),
        forall|i: int| 0 <= i < items.len() ==> #[trigger] items_view(items)[i] == items[i]@,
    decreases items.len(),
{
    if items.len() > 0 {
        items_view_at(items.drop_last());
    }
}

} // verus!
