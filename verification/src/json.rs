//! JSON values as the proxy reads and writes them.
//!
//! [`Json`] holds a document as plain values. Parsing and printing are `serde_json`'s; what this
//! module adds is the correspondence between the two, node by node, and the handful of edits the
//! router makes.

use vstd::prelude::*;

use crate::text::same_text;

verus! {

/// A JSON number. `Float` holds the bits of the double.
#[derive(Clone, Copy, Debug)]
pub enum Number {
    Unsigned(u64),
    Negative(i64),
    Float(u64),
}

/// A JSON document. An object lists its members; where a name stands twice the later one counts.
#[derive(Debug)]
pub enum Json {
    Null,
    Bool(bool),
    Number(Number),
    Text(String),
    Array(Vec<Json>),
    Object(Vec<(String, Json)>),
}

/// What a document says: strings as characters, objects as maps.
#[verifier::ext_equal]
pub enum JsonView {
    Null,
    Bool(bool),
    Number(Number),
    Text(Seq<char>),
    Array(Seq<JsonView>),
    Object(Map<Seq<char>, JsonView>),
}

/// Whether the bits are those of a finite double.
pub open spec fn finite_bits(bits: u64) -> bool {
    (bits >> 52) & 0x7ff != 0x7ff
}

/// What a number says. A number that JSON cannot write (an infinity or a NaN) reads as null.
pub open spec fn number_view(n: Number) -> JsonView {
    match n {
        Number::Unsigned(u) => JsonView::Number(n),
        Number::Negative(i) => if i >= 0 {
            JsonView::Number(Number::Unsigned(i as u64))
        } else {
            JsonView::Number(n)
        },
        Number::Float(bits) => if finite_bits(bits) {
            JsonView::Number(n)
        } else {
            JsonView::Null
        },
    }
}

impl Json {
    /// What the document says.
    pub open spec fn view(self) -> JsonView
        decreases self,
    {
        match self {
            Json::Null => JsonView::Null,
            Json::Bool(b) => JsonView::Bool(b),
            Json::Number(n) => number_view(n),
            Json::Text(s) => JsonView::Text(s@),
            Json::Array(items) => JsonView::Array(items_view(items@)),
            Json::Object(members) => JsonView::Object(members_view(members@)),
        }
    }
}

/// What a list of documents says.
pub open spec fn items_view(items: Seq<Json>) -> Seq<JsonView>
    decreases items,
{
    if items.len() == 0 {
        Seq::empty()
    } else {
        items_view(items.drop_last()).push(items.last().view())
    }
}

/// What the members of an object say: the last one of a name counts.
pub open spec fn members_view(members: Seq<(String, Json)>) -> Map<Seq<char>, JsonView>
    decreases members,
{
    if members.len() == 0 {
        Map::empty()
    } else {
        members_view(members.drop_last()).insert(members.last().0@, members.last().1.view())
    }
}

impl JsonView {
    /// The member `key`, where this is an object that has one.
    pub open spec fn get(self, key: Seq<char>) -> Option<JsonView> {
        match self {
            JsonView::Object(members) => if members.contains_key(key) {
                Some(members[key])
            } else {
                None
            },
            _ => None,
        }
    }

    /// The item at `i`, where this is an array that long.
    pub open spec fn item(self, i: int) -> Option<JsonView> {
        match self {
            JsonView::Array(items) => if 0 <= i < items.len() {
                Some(items[i])
            } else {
                None
            },
            _ => None,
        }
    }

    /// The value, where this is a natural number that fits 64 bits.
    pub open spec fn natural(self) -> Option<u64> {
        match self {
            JsonView::Number(Number::Unsigned(u)) => Some(u),
            _ => None,
        }
    }

    /// The bits of the double, where this is a number.
    pub open spec fn double(self) -> Option<u64> {
        match self {
            JsonView::Number(Number::Float(bits)) => Some(bits),
            JsonView::Number(n) => Some(nearest_double(n)),
            _ => None,
        }
    }

    /// The text, where this is a string.
    pub open spec fn text(self) -> Option<Seq<char>> {
        match self {
            JsonView::Text(s) => Some(s),
            _ => None,
        }
    }
}

/// `serde_json`'s document type.
#[verifier::external_type_specification]
#[verifier::external_body]
pub struct ExSerdeValue(serde_json::Value);

/// What a `serde_json` document holds.
pub uninterp spec fn document(v: serde_json::Value) -> JsonView;

/// What `serde_json` reads from a byte string: nothing where it is not JSON.
pub uninterp spec fn json_read(bytes: Seq<u8>) -> Option<JsonView>;

/// The compact text that `serde_json` writes for a document.
pub uninterp spec fn json_text(v: JsonView) -> Seq<char>;

/// The indented text that `serde_json` writes for a document.
pub uninterp spec fn json_pretty_text(v: JsonView) -> Seq<char>;

/// The bits of the double nearest to a JSON number, as `serde_json` converts it.
pub uninterp spec fn nearest_double(n: Number) -> u64;

/// One level of a `serde_json` document.
pub enum Node {
    Null,
    Bool(bool),
    Number(Number),
    Text(String),
    Array(Vec<serde_json::Value>),
    Object(Vec<(String, serde_json::Value)>),
}

/// What one level says, given what the documents below it hold.
pub open spec fn node_view(n: Node) -> JsonView {
    match n {
        Node::Null => JsonView::Null,
        Node::Bool(b) => JsonView::Bool(b),
        Node::Number(n) => number_view(n),
        Node::Text(s) => JsonView::Text(s@),
        Node::Array(items) => JsonView::Array(items@.map_values(|v: serde_json::Value| document(v))),
        Node::Object(members) => JsonView::Object(node_members(members@)),
    }
}

/// What the members of an object node say: the last one of a name counts.
pub open spec fn node_members(members: Seq<(String, serde_json::Value)>) -> Map<
    Seq<char>,
    JsonView,
>
    decreases members.len(),
{
    if members.len() == 0 {
        Map::empty()
    } else {
        node_members(members.drop_last()).insert(
            members.last().0@,
            document(members.last().1),
        )
    }
}

/// Whether no two members have the same name.
pub open spec fn distinct_names<V>(members: Seq<(String, V)>) -> bool {
    forall|i: int, j: int|
        0 <= i < j < members.len() ==> (#[trigger] members[i]).0@ != (#[trigger] members[j]).0@
}

/// Each member of an object node without repeated names is what the object holds by that name.
proof fn lemma_node_member(members: Seq<(String, serde_json::Value)>, i: int)
    requires
        distinct_names(members),
        0 <= i < members.len(),
    ensures
        node_members(members).dom().finite(),
        node_members(members).contains_key(members[i].0@),
        node_members(members)[members[i].0@] == document(members[i].1),
    decreases members.len(),
{
    if i < members.len() - 1 {
        lemma_node_member(members.drop_last(), i);
        assert(members.drop_last()[i] == members[i]);
        assert(members[i].0@ != members[members.len() - 1].0@);
    } else if members.len() > 1 {
        lemma_node_member(members.drop_last(), 0);
    } else {
        assert(node_members(members.drop_last()) =~= Map::empty());
    }
}

/// Takes a `serde_json::Value` apart by its variant: each payload is moved out as it is, a
/// `serde_json::Number` as the kind of number it holds. The members come out of a
/// `serde_json::Map`, which holds one per name.
#[verifier::external_body]
fn open_value(v: serde_json::Value) -> (r: Node)
    ensures
        node_view(r) == document(v),
        r matches Node::Object(members) ==> distinct_names(members@),
{
    match v {
        serde_json::Value::Null => Node::Null,
        serde_json::Value::Bool(b) => Node::Bool(b),
        serde_json::Value::Number(n) => Node::Number(match (n.as_u64(), n.as_i64(), n.as_f64()) {
            (Some(u), _, _) => Number::Unsigned(u),
            (_, Some(i), _) => Number::Negative(i),
            (_, _, x) => Number::Float(x.unwrap_or_default().to_bits()),
        }),
        serde_json::Value::String(s) => Node::Text(s),
        serde_json::Value::Array(items) => Node::Array(items),
        serde_json::Value::Object(members) => Node::Object(members.into_iter().collect()),
    }
}

/// Builds a `serde_json::Value` from its variant. `serde_json::Value::from` turns a double that
/// JSON cannot write into null, and collecting members without repeated names into a
/// `serde_json::Map` keeps each of them.
#[verifier::external_body]
fn close_value(n: Node) -> (r: serde_json::Value)
    requires
        n matches Node::Object(members) ==> distinct_names(members@),
    ensures
        document(r) == node_view(n),
{
    match n {
        Node::Null => serde_json::Value::Null,
        Node::Bool(b) => serde_json::Value::Bool(b),
        Node::Number(Number::Unsigned(u)) => serde_json::Value::from(u),
        Node::Number(Number::Negative(i)) => serde_json::Value::from(i),
        Node::Number(Number::Float(b)) => serde_json::Value::from(bytes::Buf::get_f64(&mut &b.to_be_bytes()[..])),
        Node::Text(s) => serde_json::Value::String(s),
        Node::Array(items) => serde_json::Value::Array(items),
        Node::Object(members) => serde_json::Value::Object(members.into_iter().collect()),
    }
}

/// `serde_json::from_slice` into a `serde_json::Value`: whether the bytes are JSON, and what they
/// say, depends on the bytes alone.
#[verifier::external_body]
fn read_value(bytes: &[u8]) -> (r: Option<serde_json::Value>)
    ensures
        match r {
            Some(v) => json_read(bytes@) == Some(document(v)),
            None => json_read(bytes@) is None,
        },
{
    serde_json::from_slice(bytes).ok()
}

/// `serde_json::to_string` of a `serde_json::Value`. It fails only for maps whose keys are not
/// strings, which such a value cannot hold; its objects are ordered by name, so the text depends
/// on what the document holds alone.
#[verifier::external_body]
fn write_value(v: &serde_json::Value) -> (r: String)
    ensures
        r@ == json_text(document(*v)),
{
    serde_json::to_string(v).unwrap_or_default()
}

/// `serde_json::to_string_pretty` of a `serde_json::Value`, which succeeds as `to_string` does.
#[verifier::external_body]
fn write_value_pretty(v: &serde_json::Value) -> (r: String)
    ensures
        r@ == json_pretty_text(document(*v)),
{
    serde_json::to_string_pretty(v).unwrap_or_default()
}

/// `serde_json::Value::as_f64`, as bits: there is a double exactly where the value is a number,
/// and a number that already is a double is returned as it is.
#[verifier::external_body]
fn double_value(v: &serde_json::Value) -> (r: Option<u64>)
    ensures
        match document(*v) {
            JsonView::Number(n) => r == Some(nearest_double(n)) && (n matches Number::Float(bits)
                ==> r == Some(bits)),
            _ => r is None,
        },
{
    v.as_f64().map(|x| x.to_bits())
}

/// The document that a `serde_json` value holds.
fn json_of(v: serde_json::Value) -> (r: Json)
    ensures
        r@ == document(v),
    decreases document(v),
{
    match open_value(v) {
        Node::Null => Json::Null,
        Node::Bool(b) => Json::Bool(b),
        Node::Number(n) => Json::Number(n),
        Node::Text(s) => Json::Text(s),
        Node::Array(mut items) => {
            let ghost all = items@;
            let ghost views = all.map_values(|v: serde_json::Value| document(v));
            let mut rev: Vec<Json> = Vec::new();
            let mut out: Vec<Json> = Vec::new();
            proof {
                assert(items@ =~= all.take(items@.len() as int));
            }
            while items.len() > 0
                invariant
                    items@.len() <= all.len(),
                    items@ == all.take(items@.len() as int),
                    views == all.map_values(|v: serde_json::Value| document(v)),
                    document(v) == JsonView::Array(views),
                    rev@.len() == all.len() - items@.len(),
                    forall|j: int|
                        0 <= j < rev@.len() ==> (#[trigger] rev@[j])@ == views[all.len() - 1 - j],
                decreases items@.len(),
            {
                let ghost last = items@.len() - 1;
                if let Some(item) = items.pop() {
                    proof {
                        assert(item == all[last]);
                        assert(views[last] == document(item));
                        assert(decreases_to!(document(v) => document(v)->Array_0));
                        assert(decreases_to!(views => views[last]));
                        assert(items@ =~= all.take(last));
                    }
                    rev.push(json_of(item));
                }
            }
            while rev.len() > 0
                invariant
                    rev@.len() <= all.len(),
                    views.len() == all.len(),
                    out@.len() == all.len() - rev@.len(),
                    items_view(out@) == views.take(out@.len() as int),
                    forall|j: int|
                        0 <= j < rev@.len() ==> (#[trigger] rev@[j])@ == views[all.len() - 1 - j],
                decreases rev@.len(),
            {
                let ghost before = out@;
                let ghost last = rev@.len() - 1;
                if let Some(item) = rev.pop() {
                    proof {
                        assert(item@ == views[all.len() - 1 - last]);
                    }
                    out.push(item);
                    proof {
                        assert(out@.drop_last() =~= before);
                        assert(views.take(out@.len() as int) =~= views.take(
                            before.len() as int,
                        ).push(views[before.len() as int]));
                    }
                }
            }
            proof {
                assert(views.take(out@.len() as int) =~= views);
            }
            Json::Array(out)
        },
        Node::Object(mut members) => {
            let ghost all = members@;
            let mut rev: Vec<(String, Json)> = Vec::new();
            let mut out: Vec<(String, Json)> = Vec::new();
            proof {
                assert(members@ =~= all.take(members@.len() as int));
            }
            while members.len() > 0
                invariant
                    members@.len() <= all.len(),
                    members@ == all.take(members@.len() as int),
                    document(v) == JsonView::Object(node_members(all)),
                    distinct_names(all),
                    rev@.len() == all.len() - members@.len(),
                    forall|j: int|
                        0 <= j < rev@.len() ==> (#[trigger] rev@[j]).0@ == all[all.len() - 1 - j].0@
                            && rev@[j].1@ == document(all[all.len() - 1 - j].1),
                decreases members@.len(),
            {
                let ghost last = members@.len() - 1;
                if let Some(member) = members.pop() {
                    proof {
                        assert(member == all[last]);
                        assert(members@ =~= all.take(last));
                        lemma_node_member(all, last);
                        assert(decreases_to!(document(v) => document(v)->Object_0));
                        assert(decreases_to!(node_members(all) => node_members(all)[member.0@]));
                    }
                    rev.push((member.0, json_of(member.1)));
                }
            }
            while rev.len() > 0
                invariant
                    rev@.len() <= all.len(),
                    out@.len() == all.len() - rev@.len(),
                    members_view(out@) == node_members(all.take(out@.len() as int)),
                    forall|j: int|
                        0 <= j < rev@.len() ==> (#[trigger] rev@[j]).0@ == all[all.len() - 1 - j].0@
                            && rev@[j].1@ == document(all[all.len() - 1 - j].1),
                decreases rev@.len(),
            {
                let ghost before = out@;
                let ghost last = rev@.len() - 1;
                if let Some(member) = rev.pop() {
                    out.push(member);
                    proof {
                        assert(out@.drop_last() =~= before);
                        assert(all.take(out@.len() as int).drop_last() =~= all.take(
                            before.len() as int,
                        ));
                    }
                }
            }
            proof {
                assert(all.take(out@.len() as int) =~= all);
            }
            Json::Object(out)
        },
    }
}

/// Whether a member at or behind a position has this name.
pub open spec fn named_from(members: Seq<(String, Json)>, from: int, key: Seq<char>) -> bool {
    exists|k: int| from <= k < members.len() && (#[trigger] members[k]).0@ == key
}

/// Whether a member at or behind a position has this name.
fn is_named_from(members: &Vec<(String, Json)>, from: usize, key: &str) -> (r: bool)
    requires
        from <= members@.len(),
    ensures
        r == named_from(members@, from as int, key@),
{
    let mut i: usize = from;
    while i < members.len()
        invariant
            from <= i <= members@.len(),
            forall|k: int| from <= k < i ==> (#[trigger] members@[k]).0@ != key@,
        decreases members@.len() - i,
    {
        if same_text(members[i].0.as_str(), key) {
            return true;
        }
        i = i + 1;
    }
    false
}

/// The `serde_json` value that says what `j` says. Of several members of one name only the last is
/// handed on.
fn value_of(j: &Json) -> (r: serde_json::Value)
    ensures
        document(r) == j@,
    decreases j,
{
    match j {
        Json::Null => close_value(Node::Null),
        Json::Bool(b) => close_value(Node::Bool(*b)),
        Json::Number(n) => close_value(Node::Number(*n)),
        Json::Text(s) => close_value(Node::Text(s.clone())),
        Json::Array(items) => {
            let mut out: Vec<serde_json::Value> = Vec::new();
            let mut i: usize = 0;
            while i < items.len()
                invariant
                    i <= items@.len(),
                    *j == Json::Array(*items),
                    out@.map_values(|v: serde_json::Value| document(v)) == items_view(
                        items@.take(i as int),
                    ),
                decreases items@.len() - i,
            {
                let ghost before = out@;
                proof {
                    assert(decreases_to!(j => j->Array_0));
                    assert(decreases_to!(items => items@));
                    assert(decreases_to!(items@ => items@[i as int]));
                    assert(items@.take(i + 1).drop_last() =~= items@.take(i as int));
                }
                out.push(value_of(&items[i]));
                proof {
                    assert(out@.map_values(|v: serde_json::Value| document(v)) =~= before.map_values(
                        |v: serde_json::Value| document(v),
                    ).push(document(out@.last())));
                }
                i = i + 1;
            }
            proof {
                assert(items@.take(i as int) =~= items@);
            }
            close_value(Node::Array(out))
        },
        Json::Object(members) => {
            let mut out: Vec<(String, serde_json::Value)> = Vec::new();
            let mut i: usize = 0;
            while i < members.len()
                invariant
                    i <= members@.len(),
                    *j == Json::Object(*members),
                    distinct_names(out@),
                    forall|k: int|
                        0 <= k < out@.len() ==> !named_from(
                            members@,
                            i as int,
                            (#[trigger] out@[k]).0@,
                        ),
                    forall|key: Seq<char>| #[trigger]
                        node_members(out@).contains_key(key) <==> members_view(
                            members@.take(i as int),
                        ).contains_key(key) && !named_from(members@, i as int, key),
                    forall|key: Seq<char>| #[trigger]
                        node_members(out@).contains_key(key) ==> node_members(out@)[key]
                            == members_view(members@.take(i as int))[key],
                decreases members@.len() - i,
            {
                let ghost before = out@;
                let ghost name = members@[i as int].0@;
                proof {
                    assert(decreases_to!(j => j->Object_0));
                    assert(decreases_to!(members => members@));
                    assert(decreases_to!(members@ => members@[i as int]));
                    assert(decreases_to!(members@[i as int] => members@[i as int].1));
                    assert(members@.take(i + 1).drop_last() =~= members@.take(i as int));
                    assert forall|key: Seq<char>| named_from(members@, i as int, key) <==> key
                        == name || #[trigger] named_from(members@, i + 1, key) by {
                        if key == name {
                            assert(members@[i as int].0@ == key);
                        } else if named_from(members@, i as int, key) {
                            let k = choose|k: int|
                                i <= k < members@.len() && (#[trigger] members@[k]).0@ == key;
                            assert(members@[k].0@ == key);
                        }
                    }
                }
                if !is_named_from(members, i + 1, members[i].0.as_str()) {
                    out.push((members[i].0.clone(), value_of(&members[i].1)));
                    proof {
                        assert(out@.drop_last() =~= before);
                        assert forall|k: int| 0 <= k < out@.len() implies !named_from(
                            members@,
                            i + 1,
                            (#[trigger] out@[k]).0@,
                        ) by {
                            if k < before.len() {
                                assert(out@[k] == before[k]);
                            }
                        }
                        assert forall|a: int, b: int| 0 <= a < b < out@.len() implies (
                        #[trigger] out@[a]).0@ != (#[trigger] out@[b]).0@ by {
                            assert(out@[a] == before[a]);
                            if b < before.len() {
                                assert(out@[b] == before[b]);
                            } else {
                                assert(!named_from(members@, i as int, before[a].0@));
                                assert(named_from(members@, i as int, name));
                            }
                        }
                    }
                }
                proof {
                    let done = members_view(members@.take(i + 1));
                    assert(done == members_view(members@.take(i as int)).insert(
                        name,
                        members@[i as int].1@,
                    ));
                    assert forall|key: Seq<char>| #[trigger]
                        node_members(out@).contains_key(key) <==> done.contains_key(key)
                            && !named_from(members@, i + 1, key) by {
                        assert(named_from(members@, i as int, key) <==> key == name || named_from(
                            members@,
                            i + 1,
                            key,
                        ));
                        assert(node_members(before).contains_key(key) <==> members_view(
                            members@.take(i as int),
                        ).contains_key(key) && !named_from(members@, i as int, key));
                    }
                    assert forall|key: Seq<char>| #[trigger]
                        node_members(out@).contains_key(key) implies node_members(out@)[key]
                        == done[key] by {
                        if key != name {
                            assert(node_members(before).contains_key(key));
                        }
                    }
                }
                i = i + 1;
            }
            proof {
                assert(members@.take(i as int) =~= members@);
                assert(node_members(out@) =~= members_view(members@));
            }
            close_value(Node::Object(out))
        },
    }
}

/// The items of a list say, position by position, what its documents say.
pub proof fn lemma_items(items: Seq<Json>)
    ensures
        items_view(items).len() == items.len(),
        forall|i: int| 0 <= i < items.len() ==> #[trigger] items_view(items)[i] == items[i]@,
    decreases items.len(),
{
    if items.len() > 0 {
        lemma_items(items.drop_last());
        assert forall|i: int| 0 <= i < items.len() implies #[trigger] items_view(items)[i]
            == items[i]@ by {
            if i < items.len() - 1 {
                assert(items.drop_last()[i] == items[i]);
            }
        }
    }
}

/// A name that stands after position `from` only where shown, and last at `at`.
proof fn lemma_last_member(members: Seq<(String, Json)>, key: Seq<char>, at: int)
    requires
        -1 <= at < members.len(),
        at >= 0 ==> members[at].0@ == key,
        forall|i: int| at < i < members.len() ==> (#[trigger] members[i]).0@ != key,
    ensures
        members_view(members).contains_key(key) == (at >= 0),
        at >= 0 ==> members_view(members)[key] == members[at].1@,
    decreases members.len(),
{
    if members.len() > 0 && at < members.len() - 1 {
        assert(members[members.len() - 1].0@ != key);
        assert forall|i: int| at < i < members.drop_last().len() implies (
        #[trigger] members.drop_last()[i]).0@ != key by {
            assert(members.drop_last()[i] == members[i]);
        }
        lemma_last_member(members.drop_last(), key, at);
    }
}

/// Reads a JSON document.
pub fn parse(bytes: &[u8]) -> (r: Option<Json>)
    ensures
        match r {
            Some(j) => json_read(bytes@) == Some(j@),
            None => json_read(bytes@) is None,
        },
{
    match read_value(bytes) {
        Some(v) => Some(json_of(v)),
        None => None,
    }
}

impl Json {
    /// The document in compact form.
    pub fn to_text(&self) -> (r: String)
        ensures
            r@ == json_text(self@),
    {
        write_value(&value_of(self))
    }

    /// The document in compact form, as bytes.
    pub fn to_bytes(&self) -> (r: Vec<u8>)
        ensures
            r@ == vstd::utf8::encode_utf8(json_text(self@)),
    {
        let text: String = self.to_text();
        let mut out: Vec<u8> = Vec::new();
        out.extend_from_slice(text.as_str().as_bytes());
        out
    }

    /// The document indented.
    pub fn to_pretty_text(&self) -> (r: String)
        ensures
            r@ == json_pretty_text(self@),
    {
        write_value_pretty(&value_of(self))
    }

    /// The member `key`, where this is an object that has one.
    pub fn get(&self, key: &str) -> (r: Option<&Json>)
        ensures
            match r {
                Some(j) => self@.get(key@) == Some(j@),
                None => self@.get(key@) is None,
            },
    {
        match self {
            Json::Object(members) => {
                let mut i: usize = members.len();
                while i > 0
                    invariant
                        i <= members@.len(),
                        *self == Json::Object(*members),
                        forall|k: int| i <= k < members@.len() ==> (#[trigger] members@[k]).0@ != key@,
                    decreases i,
                {
                    i = i - 1;
                    if same_text(members[i].0.as_str(), key) {
                        proof {
                            lemma_last_member(members@, key@, i as int);
                        }
                        return Some(&members[i].1);
                    }
                }
                proof {
                    lemma_last_member(members@, key@, -1);
                }
                None
            },
            _ => None,
        }
    }

    /// The item at `i`, where this is an array that long.
    pub fn item(&self, i: usize) -> (r: Option<&Json>)
        ensures
            match r {
                Some(j) => self@.item(i as int) == Some(j@),
                None => self@.item(i as int) is None,
            },
    {
        match self {
            Json::Array(items) => {
                proof {
                    lemma_items(items@);
                }
                if i < items.len() {
                    Some(&items[i])
                } else {
                    None
                }
            },
            _ => None,
        }
    }

    /// The value, where this is a natural number that fits 64 bits.
    pub fn natural(&self) -> (r: Option<u64>)
        ensures
            r == self@.natural(),
    {
        match self {
            Json::Number(Number::Unsigned(u)) => Some(*u),
            Json::Number(Number::Negative(i)) => if *i >= 0 {
                Some(*i as u64)
            } else {
                None
            },
            _ => None,
        }
    }

    /// The bits of the double, where this is a number.
    pub fn double(&self) -> (r: Option<u64>)
        ensures
            r == self@.double(),
    {
        double_value(&value_of(self))
    }

    /// The text, where this is a string.
    pub fn text(&self) -> (r: Option<&str>)
        ensures
            match r {
                Some(s) => self@.text() == Some(s@),
                None => self@.text() is None,
            },
    {
        match self {
            Json::Text(s) => Some(s.as_str()),
            _ => None,
        }
    }

    /// Whether this is an object.
    pub fn is_object(&self) -> (r: bool)
        ensures
            r == (self@ is Object),
    {
        match self {
            Json::Object(_) => true,
            _ => false,
        }
    }

    /// Whether this is a string.
    pub fn is_text(&self) -> (r: bool)
        ensures
            r == (self@ is Text),
    {
        match self {
            Json::Text(_) => true,
            _ => false,
        }
    }

    /// A document that says the same.
    pub fn duplicate(&self) -> (r: Json)
        ensures
            r@ == self@,
    {
        json_of(value_of(self))
    }

    /// Sets the member `key` of an object; any other document stays as it is.
    pub fn insert(&mut self, key: &str, value: Json)
        ensures
            final(self)@ == (match old(self)@ {
                JsonView::Object(members) => JsonView::Object(members.insert(key@, value@)),
                other => other,
            }),
    {
        let ghost was = self@;
        self.remove(key);
        match self {
            Json::Object(members) => {
                let ghost before = members@;
                members.push((key.to_owned(), value));
                proof {
                    assert(members@.drop_last() =~= before);
                    assert(members_view(members@) =~= was->Object_0.insert(key@, value@));
                }
            },
            _ => {},
        }
    }

    /// Drops the member `key` of an object; any other document stays as it is.
    pub fn remove(&mut self, key: &str)
        ensures
            final(self)@ == (match old(self)@ {
                JsonView::Object(members) => JsonView::Object(members.remove(key@)),
                other => other,
            }),
    {
        match self {
            Json::Object(members) => {
                let ghost all = members@;
                let mut kept: Vec<(String, Json)> = Vec::new();
                let mut rest: Vec<(String, Json)> = Vec::new();
                rest.append(members);
                proof {
                    assert(rest@ =~= all);
                    assert(members_view(all.take(0)).remove(key@) =~= members_view(kept@));
                }
                let count: usize = rest.len();
                let mut i: usize = 0;
                while i < count
                    invariant
                        i <= count,
                        count == all.len(),
                        rest@ == all.skip(i as int),
                        members_view(kept@) == members_view(all.take(i as int)).remove(key@),
                    decreases count - i,
                {
                    let member = rest.remove(0);
                    let ghost before = kept@;
                    proof {
                        assert(member == all[i as int]);
                        assert(all.take(i + 1).drop_last() =~= all.take(i as int));
                        assert(rest@ =~= all.skip(i + 1));
                    }
                    if !same_text(member.0.as_str(), key) {
                        kept.push(member);
                        proof {
                            assert(kept@.drop_last() =~= before);
                            assert(members_view(kept@) =~= members_view(
                                all.take(i + 1),
                            ).remove(key@));
                        }
                    } else {
                        proof {
                            assert(members_view(kept@) =~= members_view(
                                all.take(i + 1),
                            ).remove(key@));
                        }
                    }
                    i = i + 1;
                }
                proof {
                    assert(all.take(i as int) =~= all);
                }
                *members = kept;
            },
            _ => {},
        }
    }
}

/// Of members with the same name the last one counts, and a name that no member has is not there.
pub proof fn lemma_last_member_counts(members: Seq<(String, Json)>, k: int, key: Seq<char>)
    requires
        0 <= k < members.len() ==> members[k].0@ == key && forall|j: int|
            k < j < members.len() ==> (#[trigger] members[j]).0@ != key,
    ensures
        0 <= k < members.len() ==> members_view(members).contains_key(key) && members_view(
            members,
        )[key] == members[k].1@,
        members_view(members).contains_key(key) ==> exists|j: int|
            0 <= j < members.len() && (#[trigger] members[j]).0@ == key,
    decreases members.len(),
{
    if members.len() > 0 {
        let rest = members.drop_last();
        let last = members.len() - 1;
        assert(members[last] == members.last());
        assert forall|j: int| 0 <= j < rest.len() implies rest[j] == #[trigger] members[j] by {}
        if members.last().0@ == key {
            assert(0 <= last < members.len() && members[last].0@ == key);
            if 0 <= k < last {
                assert(members[last].0@ != key);
            }
        } else {
            if 0 <= k < rest.len() {
                assert forall|j: int| k < j < rest.len() implies (#[trigger] rest[j]).0@ != key by {
                    assert(rest[j] == members[j]);
                }
                lemma_last_member_counts(rest, k, key);
            } else {
                lemma_last_member_counts(rest, rest.len() as int, key);
            }
            if members_view(rest).contains_key(key) {
                let j = choose|j: int| 0 <= j < rest.len() && (#[trigger] rest[j]).0@ == key;
                assert(members[j].0@ == key);
            }
        }
    }
}

/// What may be read from a document: a member of an object, an item of an array, a whole number that
/// is not negative, a text; and nothing of another kind.
pub proof fn lemma_reading_by_kind(v: JsonView, key: Seq<char>, i: int)
    ensures
        v.get(key) is Some ==> v is Object,
        v matches JsonView::Object(m) ==> (v.get(key) is Some <==> m.contains_key(key)) && (
        v.get(key) matches Some(x) ==> x == m[key]),
        v.item(i) is Some <==> (v matches JsonView::Array(items) && 0 <= i < items.len()),
        v.item(i) matches Some(x) ==> x == v->Array_0[i],
        v.natural() is Some <==> (v matches JsonView::Number(n) && n is Unsigned),
        v.natural() matches Some(u) ==> v == JsonView::Number(Number::Unsigned(u)),
        v.text() is Some <==> v is Text,
        v.text() matches Some(t) ==> v == JsonView::Text(t),
        v.double() is Some <==> v is Number,
{
}

/// A number reads as it is, but that one which is not negative counts as unsigned, and one that JSON
/// cannot write as none.
pub proof fn lemma_numbers_as_read(u: u64, i: i64, bits: u64)
    ensures
        number_view(Number::Unsigned(u)) == JsonView::Number(Number::Unsigned(u)),
        i >= 0 ==> number_view(Number::Negative(i)) == number_view(Number::Unsigned(i as u64)),
        i < 0 ==> number_view(Number::Negative(i)) == JsonView::Number(Number::Negative(i)),
        i < 0 ==> number_view(Number::Negative(i)).natural() is None,
        number_view(Number::Float(bits)) is Null || number_view(Number::Float(bits))
            == JsonView::Number(Number::Float(bits)),
        number_view(Number::Float(bits)) is Null <==> (bits >> 52) & 0x7ff == 0x7ff,
{
}

} // verus!
