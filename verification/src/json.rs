//! JSON documents, as parsed by `serde_json`.
use crate::text;
use vstd::prelude::*;
use vstd::string::*;

verus! {

/// A JSON document as a mathematical value.
///
/// A number is given three times: as an unsigned 64-bit integer, when it is
/// one; by the bits of the double that the parser gives; and by its text. The members
/// of an object are in the order of their names.
#[verifier::ext_equal]
pub enum JsonTree {
    Null,
    Bool(bool),
    Number(Option<u64>, Option<u64>, Seq<char>),
    Text(Seq<char>),
    Array(Seq<JsonTree>),
    Object(Seq<(Seq<char>, JsonTree)>),
}

/// A JSON document.
pub enum Json {
    Null,
    Bool(bool),
    /// The number as an unsigned integer, when it is one; the bits of the
    /// double that the parser gives; and its text.
    Number(Option<u64>, Option<u64>, String),
    Text(String),
    Array(Vec<Json>),
    /// Members, in the order of their names.
    Object(Vec<(String, Json)>),
}

impl Json {
    /// The document that this value holds.
    pub open spec fn tree(self) -> JsonTree
        decreases self,
    {
        match self {
            Json::Null => JsonTree::Null,
            Json::Bool(b) => JsonTree::Bool(b),
            Json::Number(n, bits, text) => JsonTree::Number(n, bits, text@),
            Json::Text(s) => JsonTree::Text(s@),
            Json::Array(items) => JsonTree::Array(
                Seq::new(
                    items@.len(),
                    |i: int|
                        if 0 <= i < items@.len() {
                            items@[i].tree()
                        } else {
                            JsonTree::Null
                        },
                ),
            ),
            Json::Object(members) => JsonTree::Object(
                Seq::new(
                    members@.len(),
                    |i: int|
                        if 0 <= i < members@.len() {
                            (members@[i].0@, members@[i].1.tree())
                        } else {
                            (Seq::empty(), JsonTree::Null)
                        },
                ),
            ),
        }
    }
}

/// The documents that a list of values holds.
pub open spec fn trees(items: Seq<Json>) -> Seq<JsonTree> {
    Seq::new(items.len(), |i: int| items[i].tree())
}

/// The names and documents that a list of members holds.
pub open spec fn member_trees(members: Seq<(String, Json)>) -> Seq<(Seq<char>, JsonTree)> {
    Seq::new(members.len(), |i: int| (members[i].0@, members[i].1.tree()))
}

/// An array holds the documents of its items.
pub broadcast proof fn array_tree(items: Vec<Json>)
    ensures
        #[trigger] Json::Array(items).tree() == JsonTree::Array(trees(items@)),
{
    assert(Json::Array(items).tree()->Array_0 =~= trees(items@));
}

/// An object holds the names and documents of its members.
pub broadcast proof fn object_tree(members: Vec<(String, Json)>)
    ensures
        #[trigger] Json::Object(members).tree() == JsonTree::Object(member_trees(members@)),
{
    assert(Json::Object(members).tree()->Object_0 =~= member_trees(members@));
}


/// `serde_json::Value`, a parsed document whose parts only `serde_json` reads.
#[verifier::external_type_specification]
#[verifier::external_body]
pub struct ExValue(serde_json::Value);

/// What a `serde_json::Value` holds.
pub uninterp spec fn value_tree(v: serde_json::Value) -> JsonTree;

/// What `serde_json::from_slice` makes of a text: the document, or the message
/// of the error.
pub uninterp spec fn json_document(raw: Seq<u8>) -> Result<JsonTree, Seq<char>>;

/// A hexadecimal digit, in lower case.
pub open spec fn hex_digit(d: int) -> char {
    if d < 10 {
        ('0' as int + d) as char
    } else {
        ('a' as int + d - 10) as char
    }
}

/// A character inside a JSON string literal: quotes, backslashes and control
/// characters are escaped, any other character stands for itself.
pub open spec fn json_char(c: char) -> Seq<char> {
    if c == '"' {
        seq!['\\', '"']
    } else if c == '\\' {
        seq!['\\', '\\']
    } else if c as int == 8 {
        seq!['\\', 'b']
    } else if c == '\t' {
        seq!['\\', 't']
    } else if c == '\n' {
        seq!['\\', 'n']
    } else if c as int == 12 {
        seq!['\\', 'f']
    } else if c == '\r' {
        seq!['\\', 'r']
    } else if (c as int) < 32 {
        seq!['\\', 'u', '0', '0', hex_digit(c as int / 16), hex_digit(c as int % 16)]
    } else {
        seq![c]
    }
}

/// The characters of a text inside a JSON string literal.
pub open spec fn json_chars(s: Seq<char>) -> Seq<char>
    decreases s.len(),
{
    if s.len() == 0 {
        Seq::empty()
    } else {
        json_chars(s.drop_last()) + json_char(s.last())
    }
}

/// The JSON string literal of a text.
pub open spec fn json_quoted(s: Seq<char>) -> Seq<char> {
    seq!['"'] + json_chars(s) + seq!['"']
}

/// One level of a `serde_json::Value`.
enum Node<'a> {
    Null,
    Bool(bool),
    Number(Option<u64>, Option<u64>, String),
    Text(&'a str),
    Array(&'a Vec<serde_json::Value>),
    Object(Vec<(&'a String, &'a serde_json::Value)>),
}

impl<'a> Node<'a> {
    spec fn tree(self) -> JsonTree {
        match self {
            Node::Null => JsonTree::Null,
            Node::Bool(b) => JsonTree::Bool(b),
            Node::Number(n, bits, text) => JsonTree::Number(n, bits, text@),
            Node::Text(s) => JsonTree::Text(s@),
            Node::Array(items) => JsonTree::Array(
                Seq::new(items@.len(), |i: int| value_tree(items@[i])),
            ),
            Node::Object(members) => JsonTree::Object(
                Seq::new(members@.len(), |i: int| (members@[i].0@, value_tree(*members@[i].1))),
            ),
        }
    }
}

/// The members stand in the strict order of their names, so no name comes twice.
pub open spec fn names_ascend(members: Seq<(Seq<char>, JsonTree)>) -> bool {
    forall|i: int, j: int|
        0 <= i < j < members.len() ==> text::str_before(
            #[trigger] members[i].0,
            #[trigger] members[j].0,
        )
}

/// In every object of the document the names ascend.
pub open spec fn well_ordered(t: JsonTree) -> bool
    decreases t,
{
    match t {
        JsonTree::Array(items) => forall|i: int|
            0 <= i < items.len() ==> well_ordered(#[trigger] items[i]),
        JsonTree::Object(members) => names_ascend(members) && forall|i: int|
            0 <= i < members.len() ==> well_ordered((#[trigger] members[i]).1),
        _ => true,
    }
}

/// Calls `serde_json::from_slice::<serde_json::Value>`. The result is a function
/// of the bytes: a value that holds `json_document(raw)`, or its error as text.
#[verifier::external_body]
fn parse_value(raw: &[u8]) -> (r: Result<serde_json::Value, String>)
    ensures
        json_document(raw@) == match r {
            Ok(v) => Ok(value_tree(v)),
            Err(message) => Err(message@),
        },
{
    serde_json::from_slice(raw).map_err(|e: serde_json::Error| e.to_string())
}

/// Takes a `serde_json::Value` apart by its variant, and a number by
/// `Number::as_u64`, `Number::as_f64` and `Display`. The parts hold what the
/// value holds. A `serde_json::Map` yields its members in the order of their
/// names, each name once.
#[verifier::external_body]
fn open_value<'a>(v: &'a serde_json::Value) -> (n: Node<'a>)
    ensures
        n.tree() == value_tree(*v),
        n is Object ==> names_ascend(n.tree()->Object_0),
{
    match v {
        serde_json::Value::Null => Node::Null,
        serde_json::Value::Bool(b) => Node::Bool(*b),
        serde_json::Value::Number(n) => {
            Node::Number(n.as_u64(), n.as_f64().map(|x| x.to_bits()), n.to_string())
        },
        serde_json::Value::String(s) => Node::Text(s),
        serde_json::Value::Array(a) => Node::Array(a),
        serde_json::Value::Object(m) => Node::Object(m.iter().collect()),
    }
}

/// Prints a `serde_json::Value::String` by `Display`: the text in quotes, with
/// quotes, backslashes and control characters escaped and no other character
/// changed.
#[verifier::external_body]
fn quoted(s: &str) -> (r: String)
    ensures
        r@ == json_quoted(s@),
{
    serde_json::Value::from(s).to_string()
}

fn lift(v: &serde_json::Value) -> (j: Json)
    ensures
        j.tree() == value_tree(*v),
        well_ordered(j.tree()),
    decreases value_tree(*v),
{
    broadcast use {array_tree, object_tree};

    match open_value(v) {
        Node::Null => Json::Null,
        Node::Bool(b) => Json::Bool(b),
        Node::Number(n, bits, text) => Json::Number(n, bits, text),
        Node::Text(s) => Json::Text(s.to_owned()),
        Node::Array(items) => {
            let mut out: Vec<Json> = Vec::new();
            let mut i: usize = 0;
            while i < items.len()
                invariant
                    i <= items.len(),
                    out.len() == i,
                    value_tree(*v) == (Node::Array(items)).tree(),
                    forall|k: int|
                        0 <= k < i ==> #[trigger] out[k].tree() == value_tree(items[k])
                            && well_ordered(out[k].tree()),
                decreases items.len() - i,
            {
                assert(value_tree(*v)->Array_0[i as int] == value_tree(items[i as int]));
                let item: Json = lift(&items[i]);
                out.push(item);
                i += 1;
            }
            assert(trees(out@) =~= value_tree(*v)->Array_0);
            Json::Array(out)
        },
        Node::Object(members) => {
            let mut out: Vec<(String, Json)> = Vec::new();
            let mut i: usize = 0;
            while i < members.len()
                invariant
                    i <= members.len(),
                    out.len() == i,
                    value_tree(*v) == (Node::Object(members)).tree(),
                    forall|k: int|
                        0 <= k < i ==> (#[trigger] out[k]).0@ == members[k].0@ && out[k].1.tree()
                            == value_tree(*members[k].1) && well_ordered(out[k].1.tree()),
                decreases members.len() - i,
            {
                assert(value_tree(*v)->Object_0[i as int].1 == value_tree(*members[i as int].1));
                let item: Json = lift(members[i].1);
                out.push((members[i].0.clone(), item));
                i += 1;
            }
            assert(member_trees(out@) =~= value_tree(*v)->Object_0);
            Json::Object(out)
        },
    }
}

/// Parses a JSON text.
pub fn parse(raw: &[u8]) -> (r: Result<Json, String>)
    ensures
        json_document(raw@) == match r {
            Ok(j) => Ok(j.tree()),
            Err(message) => Err(message@),
        },
        r is Ok ==> well_ordered(r->Ok_0.tree()),
{
    match parse_value(raw) {
        Ok(v) => Ok(lift(&v)),
        Err(message) => Err(message),
    }
}

/// The value of the first member with the given name.
pub open spec fn lookup(members: Seq<(Seq<char>, JsonTree)>, key: Seq<char>) -> Option<JsonTree>
    decreases members.len(),
{
    if members.len() == 0 {
        None
    } else if members[0].0 == key {
        Some(members[0].1)
    } else {
        lookup(members.subrange(1, members.len() as int), key)
    }
}

/// The value under `key`, when the document is an object that has one.
pub open spec fn member(t: JsonTree, key: Seq<char>) -> Option<JsonTree> {
    match t {
        JsonTree::Object(members) => lookup(members, key),
        _ => None,
    }
}

pub open spec fn member_text(t: JsonTree, key: Seq<char>) -> Option<Seq<char>> {
    match member(t, key) {
        Some(JsonTree::Text(s)) => Some(s),
        _ => None,
    }
}

pub open spec fn member_array(t: JsonTree, key: Seq<char>) -> Option<Seq<JsonTree>> {
    match member(t, key) {
        Some(JsonTree::Array(items)) => Some(items),
        _ => None,
    }
}

pub open spec fn unsigned(t: JsonTree) -> Option<u64> {
    match t {
        JsonTree::Number(n, _, _) => n,
        _ => None,
    }
}

pub open spec fn member_unsigned(t: JsonTree, key: Seq<char>) -> Option<u64> {
    match member(t, key) {
        Some(v) => unsigned(v),
        None => None,
    }
}

/// The bits of the double under `key`, when there is a number.
pub open spec fn member_double(t: JsonTree, key: Seq<char>) -> Option<u64> {
    match member(t, key) {
        Some(JsonTree::Number(_, bits, _)) => bits,
        _ => None,
    }
}

pub open spec fn member_bool(t: JsonTree, key: Seq<char>) -> Option<bool> {
    match member(t, key) {
        Some(JsonTree::Bool(b)) => Some(b),
        _ => None,
    }
}

impl Json {
    /// The value under `key`, when this is an object that has one.
    pub fn get(&self, key: &str) -> (r: Option<&Json>)
        ensures
            member(self.tree(), key@) == match r {
                Some(j) => Some(j.tree()),
                None => None,
            },
    {
        broadcast use {array_tree, object_tree};

        match self {
            Json::Object(members) => {
                let ghost all = member_trees(members@);
                let mut i: usize = 0;
                assert(all.subrange(0, all.len() as int) =~= all);
                while i < members.len()
                    invariant
                        i <= members.len(),
                        self.tree() == JsonTree::Object(all),
                        all == member_trees(members@),
                        lookup(all, key@) == lookup(
                            all.subrange(i as int, all.len() as int),
                            key@,
                        ),
                    decreases members.len() - i,
                {
                    let ghost rest = all.subrange(i as int, all.len() as int);
                    assert(rest[0] == (members[i as int].0@, members[i as int].1.tree()));
                    if text::str_eq(members[i].0.as_str(), key) {
                        return Some(&members[i].1);
                    }
                    assert(rest.subrange(1, rest.len() as int) =~= all.subrange(
                        i as int + 1,
                        all.len() as int,
                    ));
                    i += 1;
                }
                None
            },
            _ => None,
        }
    }

    /// The text, when this is a string.
    pub fn as_str(&self) -> (r: Option<&str>)
        ensures
            match r {
                Some(s) => self.tree() == JsonTree::Text(s@),
                None => !(self.tree() is Text),
            },
    {
        match self {
            Json::Text(s) => Some(s.as_str()),
            _ => None,
        }
    }

    /// The number, when this is an unsigned 64-bit integer.
    pub fn as_u64(&self) -> (r: Option<u64>)
        ensures
            r == unsigned(self.tree()),
    {
        match self {
            Json::Number(n, _, _) => *n,
            _ => None,
        }
    }

    /// The text under `key`.
    pub fn get_str(&self, key: &str) -> (r: Option<&str>)
        ensures
            member_text(self.tree(), key@) == match r {
                Some(s) => Some(s@),
                None => None,
            },
    {
        match self.get(key) {
            Some(j) => j.as_str(),
            None => None,
        }
    }

    /// The array under `key`.
    pub fn get_array(&self, key: &str) -> (r: Option<&Vec<Json>>)
        ensures
            member_array(self.tree(), key@) == match r {
                Some(items) => Some(trees(items@)),
                None => None,
            },
    {
        broadcast use {array_tree, object_tree};

        match self.get(key) {
            Some(Json::Array(items)) => Some(items),
            _ => None,
        }
    }

    /// The unsigned number under `key`.
    pub fn get_u64(&self, key: &str) -> (r: Option<u64>)
        ensures
            r == member_unsigned(self.tree(), key@),
    {
        match self.get(key) {
            Some(j) => j.as_u64(),
            None => None,
        }
    }

    /// The bits of the double under `key`.
    pub fn get_double(&self, key: &str) -> (r: Option<u64>)
        ensures
            r == member_double(self.tree(), key@),
    {
        match self.get(key) {
            Some(Json::Number(_, bits, _)) => *bits,
            _ => None,
        }
    }

    /// The truth value under `key`.
    pub fn get_bool(&self, key: &str) -> (r: Option<bool>)
        ensures
            r == member_bool(self.tree(), key@),
    {
        match self.get(key) {
            Some(Json::Bool(b)) => Some(*b),
            _ => None,
        }
    }

    /// Whether this is an object.
    pub fn is_object(&self) -> (r: bool)
        ensures
            r == (self.tree() is Object),
    {
        match self {
            Json::Object(_) => true,
            _ => false,
        }
    }
}

/// The compact text of the first `n` items, with commas between them.
pub open spec fn items_text(items: Seq<JsonTree>, n: nat) -> Seq<char>
    decreases items, n,
{
    if n == 0 || n > items.len() {
        Seq::empty()
    } else if n == 1 {
        tree_text(items[0])
    } else {
        items_text(items, (n - 1) as nat) + ","@ + tree_text(items[n - 1])
    }
}

/// The compact text of the first `n` members, with commas between them.
pub open spec fn members_text(members: Seq<(Seq<char>, JsonTree)>, n: nat) -> Seq<char>
    decreases members, n,
{
    if n == 0 || n > members.len() {
        Seq::empty()
    } else if n == 1 {
        json_quoted(members[0].0) + ":"@ + tree_text(members[0].1)
    } else {
        members_text(members, (n - 1) as nat) + ","@ + json_quoted(members[n - 1].0) + ":"@
            + tree_text(members[n - 1].1)
    }
}

/// The compact JSON text of a document.
pub open spec fn tree_text(t: JsonTree) -> Seq<char>
    decreases t, 0nat,
{
    match t {
        JsonTree::Null => "null"@,
        JsonTree::Bool(b) => if b {
            "true"@
        } else {
            "false"@
        },
        JsonTree::Number(_, _, text) => text,
        JsonTree::Text(s) => json_quoted(s),
        JsonTree::Array(items) => "["@ + items_text(items, items.len()) + "]"@,
        JsonTree::Object(members) => "{"@ + members_text(members, members.len()) + "}"@,
    }
}

impl Json {
    /// The compact JSON text.
    pub fn render(&self) -> (r: String)
        ensures
            r@ == tree_text(self.tree()),
        decreases self.tree(),
    {
        broadcast use {array_tree, object_tree};

        match self {
            Json::Null => "null".to_owned(),
            Json::Bool(b) => if *b {
                "true".to_owned()
            } else {
                "false".to_owned()
            },
            Json::Number(_, _, text) => text.clone(),
            Json::Text(s) => quoted(s.as_str()),
            Json::Array(items) => {
                let mut out: String = String::new();
                let ghost all = trees(items@);
                let mut i: usize = 0;
                while i < items.len()
                    invariant
                        i <= items.len(),
                        all == trees(items@),
                        self.tree() == JsonTree::Array(all),
                        out@ == items_text(all, i as nat),
                    decreases items.len() - i,
                {
                    assert(self.tree()->Array_0[i as int] == items[i as int].tree());
                    let piece: String = items[i].render();
                    if i > 0 {
                        out.append(",");
                    }
                    out.append(piece.as_str());
                    assert(out@ =~= items_text(all, (i + 1) as nat));
                    i += 1;
                }
                let mut whole: String = "[".to_owned();
                whole.append(out.as_str());
                whole.append("]");
                whole
            },
            Json::Object(members) => {
                let mut out: String = String::new();
                let ghost all = member_trees(members@);
                let mut i: usize = 0;
                while i < members.len()
                    invariant
                        i <= members.len(),
                        all == member_trees(members@),
                        self.tree() == JsonTree::Object(all),
                        out@ == members_text(all, i as nat),
                    decreases members.len() - i,
                {
                    assert(self.tree()->Object_0[i as int].1 == members[i as int].1.tree());
                    let name: String = quoted(members[i].0.as_str());
                    let piece: String = members[i].1.render();
                    if i > 0 {
                        out.append(",");
                    }
                    out.append(name.as_str());
                    out.append(":");
                    out.append(piece.as_str());
                    assert(out@ =~= members_text(all, (i + 1) as nat));
                    i += 1;
                }
                let mut whole: String = "{".to_owned();
                whole.append(out.as_str());
                whole.append("}");
                whole
            },
        }
    }
}

/// Looking up a name finds the first member that has it, and nothing exactly if none
/// has.
pub proof fn lookup_finds_the_first(members: Seq<(Seq<char>, JsonTree)>, key: Seq<char>)
    ensures
        match lookup(members, key) {
            Some(v) => exists|i: int|
                0 <= i < members.len() && (#[trigger] members[i]) == (key, v) && forall|j: int|
                    0 <= j < i ==> (#[trigger] members[j]).0 != key,
            None => forall|i: int| 0 <= i < members.len() ==> (#[trigger] members[i]).0 != key,
        },
    decreases members.len(),
{
    if members.len() > 0 {
        let rest = members.subrange(1, members.len() as int);
        if members[0].0 == key {
            assert(members[0] == (key, members[0].1));
        } else {
            lookup_finds_the_first(rest, key);
            match lookup(members, key) {
                Some(v) => {
                    let i = choose|i: int|
                        0 <= i < rest.len() && (#[trigger] rest[i]) == (key, v) && forall|j: int|
                            0 <= j < i ==> (#[trigger] rest[j]).0 != key;
                    assert(members[i + 1] == (key, v));
                    assert forall|j: int| 0 <= j < i + 1 implies (#[trigger] members[j]).0
                        != key by {
                        if j > 0 {
                            assert(rest[j - 1] == members[j]);
                        }
                    }
                },
                None => {
                    assert forall|i: int| 0 <= i < members.len() implies (#[trigger] members[i]).0
                        != key by {
                        if i > 0 {
                            assert(rest[i - 1] == members[i]);
                        }
                    }
                },
            }
        }
    }
}

/// In an object whose names ascend, every member is what looking up its name finds.
pub proof fn every_member_is_found(members: Seq<(Seq<char>, JsonTree)>, i: int)
    requires
        names_ascend(members),
        0 <= i < members.len(),
    ensures
        lookup(members, members[i].0) == Some(members[i].1),
        member(JsonTree::Object(members), members[i].0) == Some(members[i].1),
{
    let key = members[i].0;
    lookup_finds_the_first(members, key);
    match lookup(members, key) {
        Some(v) => {
            let k = choose|k: int|
                0 <= k < members.len() && (#[trigger] members[k]) == (key, v) && forall|j: int|
                    0 <= j < k ==> (#[trigger] members[j]).0 != key;
            if k != i {
                let (a, b) = if k < i {
                    (k, i)
                } else {
                    (i, k)
                };
                assert(text::str_before(members[a].0, members[b].0));
                text::str_before_is_total(members[a].0, members[b].0);
            }
        },
        None => {},
    }
}

/// The number that a hexadecimal digit in lower case stands for.
pub open spec fn hex_value(c: char) -> int {
    if '0' <= c <= '9' {
        c as int - 48
    } else {
        c as int - 87
    }
}

/// A character stands for itself in a literal, unless it is a quote, a backslash or a
/// control character: those stand behind a backslash, as a letter or as their number in
/// hexadecimal digits.
pub proof fn escapes_are_those_of_json(c: char)
    ensures
        json_char(c) == seq![c] <==> c as int >= 32 && c != '"' && c != '\\',
        json_char(c) != seq![c] ==> json_char(c)[0] == '\\',
        c == '"' || c == '\\' ==> json_char(c)[1] == c,
        forall|i: int| 0 <= i < json_char(c).len() ==> #[trigger] json_char(c)[i] as int >= 32,
        json_char(c).len() == 6 ==> json_char(c)[1] == 'u' && c as int == 4096 * hex_value(
            json_char(c)[2],
        ) + 256 * hex_value(json_char(c)[3]) + 16 * hex_value(json_char(c)[4]) + hex_value(
            json_char(c)[5],
        ),
{
    let r = json_char(c);
    if r.len() == 1 {
        assert(r[0] == c);
    }
    assert(seq![c].len() == 1 && seq![c][0] == c);
}

/// A literal has the characters of its text in their order.
pub proof fn literals_keep_the_order(a: Seq<char>, b: Seq<char>)
    ensures
        json_chars(a + b) == json_chars(a) + json_chars(b),
        forall|c: char| json_chars(seq![c]) == #[trigger] json_char(c),
    decreases b.len(),
{
    assert forall|c: char| json_chars(seq![c]) == #[trigger] json_char(c) by {
        assert(seq![c].drop_last() =~= Seq::empty());
        assert(json_chars(Seq::<char>::empty()) =~= Seq::empty());
        assert(json_chars(seq![c]) =~= json_char(c));
    }
    if b.len() == 0 {
        assert(a + b =~= a);
        assert(json_chars(a) + json_chars(b) =~= json_chars(a));
    } else {
        literals_keep_the_order(a, b.drop_last());
        assert((a + b).drop_last() =~= a + b.drop_last());
        assert(json_chars(a + b) =~= json_chars(a) + json_chars(b));
    }
}

proof fn items_ignore_the_rest(a: Seq<JsonTree>, b: Seq<JsonTree>, n: nat)
    requires
        n <= a.len(),
    ensures
        items_text(a + b, n) == items_text(a, n),
    decreases n,
{
    if n > 0 {
        assert((a + b)[n - 1] == a[n - 1]);
        assert((a + b)[0] == a[0]);
        items_ignore_the_rest(a, b, (n - 1) as nat);
    }
}

/// The items of a list are written in their order, with a comma between them.
pub proof fn items_are_written_in_order(a: Seq<JsonTree>, b: Seq<JsonTree>, n: nat)
    requires
        a.len() > 0,
        0 < n <= b.len(),
    ensures
        items_text(a + b, a.len() + n) == items_text(a, a.len()) + ","@ + items_text(b, n),
        items_text(seq![a[0]], 1) == tree_text(a[0]),
    decreases n,
{
    assert((a + b)[a.len() + n - 1] == b[n - 1]);
    if n == 1 {
        items_ignore_the_rest(a, b, a.len());
    } else {
        items_are_written_in_order(a, b, (n - 1) as nat);
        let front = items_text(a, a.len()) + ","@;
        assert(front + items_text(b, (n - 1) as nat) + ","@ + tree_text(b[n - 1]) =~= front + (
        items_text(b, (n - 1) as nat) + ","@ + tree_text(b[n - 1])));
    }
}

proof fn members_ignore_the_rest(
    a: Seq<(Seq<char>, JsonTree)>,
    b: Seq<(Seq<char>, JsonTree)>,
    n: nat,
)
    requires
        n <= a.len(),
    ensures
        members_text(a + b, n) == members_text(a, n),
    decreases n,
{
    if n > 0 {
        assert((a + b)[n - 1] == a[n - 1]);
        assert((a + b)[0] == a[0]);
        members_ignore_the_rest(a, b, (n - 1) as nat);
    }
}

/// The members of an object are written in their order, each as its name, a colon and its
/// value, with a comma between them.
pub proof fn members_are_written_in_order(
    a: Seq<(Seq<char>, JsonTree)>,
    b: Seq<(Seq<char>, JsonTree)>,
    n: nat,
)
    requires
        a.len() > 0,
        0 < n <= b.len(),
    ensures
        members_text(a + b, a.len() + n) == members_text(a, a.len()) + ","@ + members_text(b, n),
        members_text(seq![a[0]], 1) == json_quoted(a[0].0) + ":"@ + tree_text(a[0].1),
    decreases n,
{
    assert((a + b)[a.len() + n - 1] == b[n - 1]);
    if n == 1 {
        members_ignore_the_rest(a, b, a.len());
        let front = members_text(a, a.len()) + ","@;
        assert(front + json_quoted(b[0].0) + ":"@ + tree_text(b[0].1) =~= front + (json_quoted(
            b[0].0,
        ) + ":"@ + tree_text(b[0].1)));
    } else {
        members_are_written_in_order(a, b, (n - 1) as nat);
        let front = members_text(a, a.len()) + ","@;
        assert(front + members_text(b, (n - 1) as nat) + ","@ + json_quoted(b[n - 1].0) + ":"@
            + tree_text(b[n - 1].1) =~= front + (members_text(b, (n - 1) as nat) + ","@
            + json_quoted(b[n - 1].0) + ":"@ + tree_text(b[n - 1].1)));
    }
}

} // verus!
