//! A corpus for checking a tokenizer: its cases, what comparing one comes to, and
//! what an input exercises.
use crate::json;
use crate::json::{Json, JsonTree};
use crate::text;
use vstd::prelude::*;
use vstd::string::*;

verus! {

/// One case: a text, its token ids, and what they decode to.
pub struct CorpusCase {
    pub text: String,
    pub ids: Vec<u32>,
    pub decoded: String,
}

/// A case, as a mathematical value.
#[verifier::ext_equal]
pub struct CaseSpec {
    pub text: Seq<char>,
    pub ids: Seq<u32>,
    pub decoded: Seq<char>,
}

impl View for CorpusCase {
    type V = CaseSpec;

    open spec fn view(&self) -> CaseSpec {
        CaseSpec { text: self.text@, ids: self.ids@, decoded: self.decoded@ }
    }
}

/// A corpus: how its tokenizer was set up, and its cases.
pub struct Corpus {
    pub mode: String,
    pub cases: Vec<CorpusCase>,
}

/// The text under a key, or none.
pub open spec fn text_or_empty(t: JsonTree, key: Seq<char>) -> Seq<char> {
    match json::member_text(t, key) {
        Some(s) => s,
        None => Seq::empty(),
    }
}

/// The ids among JSON values: the lower 32 bits of those that are numbers.
pub open spec fn ids_of(items: Seq<JsonTree>) -> Seq<u32>
    decreases items.len(),
{
    if items.len() == 0 {
        Seq::empty()
    } else {
        let before = ids_of(items.drop_last());
        match json::unsigned(items.last()) {
            Some(n) => before.push((n as int % 0x1_0000_0000) as u32),
            None => before,
        }
    }
}

/// What a JSON value is as a case.
pub open spec fn case_of(t: JsonTree) -> CaseSpec {
    CaseSpec {
        text: text_or_empty(t, "text"@),
        ids: match json::member_array(t, "ids"@) {
            Some(items) => ids_of(items),
            None => Seq::empty(),
        },
        decoded: text_or_empty(t, "decoded"@),
    }
}

/// What JSON values are as cases.
pub open spec fn cases_of(items: Seq<JsonTree>) -> Seq<CaseSpec> {
    Seq::new(items.len(), |i: int| case_of(items[i]))
}

/// What a document is as a corpus: a list of cases, or an object that names its mode.
pub open spec fn corpus_of(t: JsonTree) -> Option<(Seq<char>, Seq<CaseSpec>)> {
    match t {
        JsonTree::Array(items) => Some(("(unlabelled)"@, cases_of(items))),
        JsonTree::Object(_) => Some(
            (
                match json::member_text(t, "mode"@) {
                    Some(s) => s,
                    None => "?"@,
                },
                match json::member_array(t, "cases"@) {
                    Some(items) => cases_of(items),
                    None => Seq::empty(),
                },
            ),
        ),
        _ => None,
    }
}

/// What becomes of the text of a corpus: `doc` is what it parses to.
pub open spec fn corpus_result(path: Seq<char>, doc: Result<JsonTree, Seq<char>>) -> Result<
    (Seq<char>, Seq<CaseSpec>),
    Seq<char>,
> {
    match doc {
        Err(m) => Err(path + ": "@ + m),
        Ok(t) => match corpus_of(t) {
            Some(c) => Ok(c),
            None => Err(path + ": not an array or object"@),
        },
    }
}

/// The views of cases.
pub open spec fn case_views(s: Seq<CorpusCase>) -> Seq<CaseSpec> {
    Seq::new(s.len(), |i: int| s[i]@)
}

fn read_ids(items: &Vec<Json>) -> (r: Vec<u32>)
    ensures
        r@ == ids_of(json::trees(items@)),
{
    let ghost all = json::trees(items@);
    let mut out: Vec<u32> = Vec::new();
    let mut i: usize = 0;
    assert(all.take(0) =~= Seq::empty());
    while i < items.len()
        invariant
            i <= items.len(),
            all == json::trees(items@),
            out@ == ids_of(all.take(i as int)),
        decreases items.len() - i,
    {
        proof {
            let next = all.take(i as int + 1);
            assert(next.drop_last() =~= all.take(i as int));
            assert(next.last() == items@[i as int].tree());
        }
        match items[i].as_u64() {
            Some(n) => {
                out.push((n % 0x1_0000_0000) as u32);
            },
            None => {},
        }
        i += 1;
    }
    assert(all.take(all.len() as int) =~= all);
    out
}

fn read_text(t: &Json, key: &str) -> (r: String)
    ensures
        r@ == text_or_empty(t.tree(), key@),
{
    match t.get_str(key) {
        Some(s) => s.to_owned(),
        None => String::new(),
    }
}

fn read_case(t: &Json) -> (r: CorpusCase)
    ensures
        r@ == case_of(t.tree()),
{
    let ids: Vec<u32> = match t.get_array("ids") {
        Some(items) => read_ids(items),
        None => Vec::new(),
    };
    CorpusCase { text: read_text(t, "text"), ids, decoded: read_text(t, "decoded") }
}

fn read_cases(items: &Vec<Json>) -> (r: Vec<CorpusCase>)
    ensures
        case_views(r@) == cases_of(json::trees(items@)),
{
    let mut out: Vec<CorpusCase> = Vec::new();
    let mut i: usize = 0;
    while i < items.len()
        invariant
            i <= items.len(),
            out@.len() == i,
            forall|k: int| 0 <= k < i ==> (#[trigger] out@[k])@ == case_of(items@[k].tree()),
        decreases items.len() - i,
    {
        out.push(read_case(&items[i]));
        i += 1;
    }
    assert(case_views(out@) =~= cases_of(json::trees(items@)));
    out
}

/// Takes a corpus out of a parsed document.
pub fn corpus_from(doc: &Json) -> (r: Option<Corpus>)
    ensures
        match corpus_of(doc.tree()) {
            Some(c) => r is Some && r->Some_0.mode@ == c.0 && case_views(r->Some_0.cases@) == c.1,
            None => r is None,
        },
{
    broadcast use {json::array_tree, json::object_tree};

    match doc {
        Json::Array(items) => Some(
            Corpus { mode: "(unlabelled)".to_owned(), cases: read_cases(items) },
        ),
        Json::Object(_) => {
            let mode: String = match doc.get_str("mode") {
                Some(s) => s.to_owned(),
                None => "?".to_owned(),
            };
            let cases: Vec<CorpusCase> = match doc.get_array("cases") {
                Some(items) => read_cases(items),
                None => Vec::new(),
            };
            proof {
                if json::member_array(doc.tree(), "cases"@) is None {
                    assert(case_views(cases@) =~= Seq::empty());
                }
            }
            Some(Corpus { mode, cases })
        },
        _ => None,
    }
}

/// Reads a corpus.
pub fn read_corpus(path: &str, raw: &[u8]) -> (r: Result<Corpus, String>)
    ensures
        match corpus_result(path@, json::json_document(raw@)) {
            Ok(c) => r is Ok && r->Ok_0.mode@ == c.0 && case_views(r->Ok_0.cases@) == c.1,
            Err(m) => r is Err && r->Err_0@ == m,
        },
{
    match json::parse(raw) {
        Ok(doc) => match corpus_from(&doc) {
            Some(c) => Ok(c),
            None => {
                let mut m: String = path.to_owned();
                m.append(": not an array or object");
                Err(m)
            },
        },
        Err(message) => {
            let mut m: String = path.to_owned();
            m.append(": ");
            m.append(message.as_str());
            Err(m)
        },
    }
}

/// Whether combining marks join letters in a corpus of this mode.
pub fn marks_join_letters(mode: &str) -> (r: bool)
    ensures
        r == !text::contains_text(mode@, "no-marks"@),
{
    !text::str_contains(mode, "no-marks")
}

/// What comparing a case comes to.
#[derive(Debug, Clone, Copy, PartialEq, Eq, Structural)]
pub enum Finding {
    Agrees,
    WrongIds,
    WrongText,
    Unstable,
}

fn same_ids(a: &[u32], b: &[u32]) -> (r: bool)
    ensures
        r == (a@ == b@),
{
    if a.len() != b.len() {
        return false;
    }
    let mut i: usize = 0;
    while i < a.len()
        invariant
            i <= a.len(),
            a.len() == b.len(),
            forall|k: int| 0 <= k < i ==> a@[k] == b@[k],
        decreases a.len() - i,
    {
        if a[i] != b[i] {
            return false;
        }
        i += 1;
    }
    assert(a@ =~= b@);
    true
}

/// Judges a case by the ids that encoding its text gives, what they decode to, and
/// the ids that encoding that gives: the first of these that is not as it should be.
pub fn judge(c: &CorpusCase, got: &[u32], back: &str, again: &[u32]) -> (r: Finding)
    ensures
        r == (if got@ != c.ids@ {
            Finding::WrongIds
        } else if back@ != c.decoded@ {
            Finding::WrongText
        } else if again@ != got@ {
            Finding::Unstable
        } else {
            Finding::Agrees
        }),
{
    if !same_ids(got, c.ids.as_slice()) {
        Finding::WrongIds
    } else if !text::str_eq(back, c.decoded.as_str()) {
        Finding::WrongText
    } else if !same_ids(again, got) {
        Finding::Unstable
    } else {
        Finding::Agrees
    }
}

/// What a character is, for describing a text.
#[derive(Clone, Copy, PartialEq, Eq, Structural)]
pub enum CharKind {
    OtherSpace,
    Digit,
    Apostrophe,
    NonAscii,
    High,
}

/// Whether a character is of a kind.
pub open spec fn is_kind(c: char, kind: CharKind) -> bool {
    match kind {
        CharKind::OtherSpace => text::white_space(c) && c != ' ',
        CharKind::Digit => text::is_digit(c),
        CharKind::Apostrophe => c == '\'',
        CharKind::NonAscii => c as int >= 0x80,
        CharKind::High => c as int > 0x2000,
    }
}

/// Whether a text has a character of a kind.
pub open spec fn has_kind(t: Seq<char>, kind: CharKind) -> bool {
    exists|i: int| 0 <= i < t.len() && is_kind(#[trigger] t[i], kind)
}

fn char_is(c: char, kind: CharKind) -> (r: bool)
    ensures
        r == is_kind(c, kind),
{
    match kind {
        CharKind::OtherSpace => c != ' ' && text::is_white_space(c),
        CharKind::Digit => c >= '0' && c <= '9',
        CharKind::Apostrophe => c == '\'',
        CharKind::NonAscii => c as u32 >= 0x80,
        CharKind::High => c as u32 > 0x2000,
    }
}

fn has_char(t: &[char], kind: CharKind) -> (r: bool)
    ensures
        r == has_kind(t@, kind),
{
    let mut i: usize = 0;
    while i < t.len()
        invariant
            i <= t.len(),
            forall|k: int| 0 <= k < i ==> !is_kind(#[trigger] t@[k], kind),
        decreases t.len() - i,
    {
        if char_is(t[i], kind) {
            assert(is_kind(t@[i as int], kind));
            return true;
        }
        i += 1;
    }
    false
}

/// The tag, if it applies.
pub open spec fn tag_if(applies: bool, tag: Seq<char>) -> Seq<Seq<char>> {
    if applies {
        seq![tag]
    } else {
        Seq::empty()
    }
}

/// The tags of a text: what is unusual about it.
pub open spec fn tags_of(t: Seq<char>) -> Seq<Seq<char>> {
    tag_if(has_kind(t, CharKind::OtherSpace), "non-space whitespace"@) + tag_if(
        text::contains_text(t, "  "@),
        "doubled space"@,
    ) + tag_if(
        text::starts_with(t, " "@) || text::ends_with(t, " "@),
        "leading/trailing space"@,
    ) + tag_if(has_kind(t, CharKind::Digit), "digits"@) + tag_if(
        has_kind(t, CharKind::Apostrophe),
        "apostrophe"@,
    ) + tag_if(has_kind(t, CharKind::NonAscii), "non-ascii"@) + tag_if(
        has_kind(t, CharKind::High),
        "high codepoint"@,
    )
}

/// What a text exercises, in words.
pub open spec fn description(t: Seq<char>) -> Seq<char> {
    let tags = tags_of(t);
    if t.len() == 0 {
        "empty"@
    } else if tags.len() == 0 {
        "plain ascii words"@
    } else {
        text::joined(tags, ", "@, tags.len())
    }
}

fn add_tag(tags: &mut Vec<String>, applies: bool, tag: &str)
    ensures
        text::views(final(tags)@) == text::views(old(tags)@) + tag_if(applies, tag@),
{
    let ghost before = text::views(tags@);
    if applies {
        tags.push(tag.to_owned());
        assert(text::views(tags@) =~= before + seq![tag@]);
    } else {
        assert(before + Seq::<Seq<char>>::empty() =~= before);
    }
}

/// A label for what a text exercises, to group failures by.
pub fn describe(t: &str) -> (r: String)
    ensures
        r@ == description(t@),
{
    let all: Vec<char> = text::chars_of(t);
    if all.len() == 0 {
        return "empty".to_owned();
    }
    let mut tags: Vec<String> = Vec::new();
    assert(text::views(tags@) =~= Seq::empty());
    add_tag(&mut tags, has_char(all.as_slice(), CharKind::OtherSpace), "non-space whitespace");
    add_tag(&mut tags, text::str_contains(t, "  "), "doubled space");
    add_tag(
        &mut tags,
        text::str_starts_with(t, " ") || text::str_ends_with(t, " "),
        "leading/trailing space",
    );
    add_tag(&mut tags, has_char(all.as_slice(), CharKind::Digit), "digits");
    add_tag(&mut tags, has_char(all.as_slice(), CharKind::Apostrophe), "apostrophe");
    add_tag(&mut tags, has_char(all.as_slice(), CharKind::NonAscii), "non-ascii");
    add_tag(&mut tags, has_char(all.as_slice(), CharKind::High), "high codepoint");
    assert(text::views(tags@) =~= tags_of(t@));
    assert(text::views(tags@).len() == tags@.len());
    if tags.len() == 0 {
        "plain ascii words".to_owned()
    } else {
        text::join(&tags, ", ")
    }
}

/// The ids of a case are the numbers of its list in their order, where all are numbers of
/// 32 bits.
pub proof fn ids_are_the_numbers(items: Seq<JsonTree>)
    requires
        forall|i: int|
            0 <= i < items.len() ==> (json::unsigned(#[trigger] items[i]) matches Some(n) && n
                <= u32::MAX),
    ensures
        ids_of(items).len() == items.len(),
        forall|i: int|
            0 <= i < items.len() ==> json::unsigned(#[trigger] items[i]) == Some(
                ids_of(items)[i] as u64,
            ),
    decreases items.len(),
{
    if items.len() > 0 {
        let d = items.drop_last();
        let last = items.len() - 1;
        assert forall|i: int| 0 <= i < d.len() implies (json::unsigned(
            #[trigger] d[i],
        ) matches Some(n) && n <= u32::MAX) by {
            assert(d[i] == items[i]);
        }
        ids_are_the_numbers(d);
        assert(items[last] == items.last());
        assert forall|i: int| 0 <= i < items.len() implies json::unsigned(#[trigger] items[i])
            == Some(ids_of(items)[i] as u64) by {
            if i < last {
                assert(d[i] == items[i]);
                assert(ids_of(items)[i] == ids_of(d)[i]);
            }
        }
    }
}

/// A corpus has a case for each item of its list, in their order, and a case has the
/// text, the ids and the decoded text that stand under these names.
pub proof fn cases_are_the_items(t: JsonTree, items: Seq<JsonTree>, i: int)
    requires
        t == JsonTree::Array(items) || json::member_array(t, "cases"@) == Some(items) && t is Object,
        0 <= i < items.len(),
    ensures
        ({
            let cases = corpus_of(t)->Some_0.1;
            &&& corpus_of(t) is Some
            &&& cases.len() == items.len()
            &&& json::member_text(items[i], "text"@) matches Some(s) ==> cases[i].text == s
            &&& json::member_text(items[i], "decoded"@) matches Some(s) ==> cases[i].decoded == s
            &&& json::member_array(items[i], "ids"@) matches Some(ids) ==> cases[i].ids == ids_of(
                ids,
            )
            &&& json::member_text(t, "mode"@) matches Some(s) ==> corpus_of(t)->Some_0.0 == s
        }),
{
}

/// A text is tagged with what it has, and with nothing that it has not.
pub proof fn tags_tell_what_a_text_has(t: Seq<char>)
    ensures
        tags_of(t).contains("digits"@) <==> exists|i: int|
            0 <= i < t.len() && '0' <= #[trigger] t[i] <= '9',
        tags_of(t).contains("apostrophe"@) <==> t.contains('\''),
        tags_of(t).contains("non-ascii"@) <==> exists|i: int|
            0 <= i < t.len() && (#[trigger] t[i]) as int >= 0x80,
        tags_of(t).contains("high codepoint"@) <==> exists|i: int|
            0 <= i < t.len() && (#[trigger] t[i]) as int > 0x2000,
        tags_of(t).contains("non-space whitespace"@) <==> exists|i: int|
            0 <= i < t.len() && #[trigger] t[i] != ' ' && text::white_space(t[i]),
        tags_of(t).contains("doubled space"@) <==> text::contains_text(t, "  "@),
        tags_of(t).contains("leading/trailing space"@) <==> t.len() > 0 && (t[0] == ' ' || t.last()
            == ' '),
{
    reveal_strlit("digits");
    reveal_strlit("apostrophe");
    reveal_strlit("non-ascii");
    reveal_strlit("high codepoint");
    reveal_strlit("non-space whitespace");
    reveal_strlit("doubled space");
    reveal_strlit("leading/trailing space");
    assert("digits"@.len() == 6 && "apostrophe"@.len() == 10 && "non-ascii"@.len() == 9
        && "high codepoint"@.len() == 14 && "non-space whitespace"@.len() == 20
        && "doubled space"@.len() == 13 && "leading/trailing space"@.len() == 22);
    let a = tag_if(has_kind(t, CharKind::OtherSpace), "non-space whitespace"@);
    let b = tag_if(text::contains_text(t, "  "@), "doubled space"@);
    let c = tag_if(
        text::starts_with(t, " "@) || text::ends_with(t, " "@),
        "leading/trailing space"@,
    );
    let d = tag_if(has_kind(t, CharKind::Digit), "digits"@);
    let e = tag_if(has_kind(t, CharKind::Apostrophe), "apostrophe"@);
    let f = tag_if(has_kind(t, CharKind::NonAscii), "non-ascii"@);
    let g = tag_if(has_kind(t, CharKind::High), "high codepoint"@);
    assert forall|x: Seq<char>| #[trigger] tags_of(t).contains(x) <==> (a.contains(x) || b.contains(
        x,
    ) || c.contains(x) || d.contains(x) || e.contains(x) || f.contains(x) || g.contains(x)) by {
        joined_contains(a, b, x);
        joined_contains(a + b, c, x);
        joined_contains(a + b + c, d, x);
        joined_contains(a + b + c + d, e, x);
        joined_contains(a + b + c + d + e, f, x);
        joined_contains(a + b + c + d + e + f, g, x);
    }
    tag_if_contains(has_kind(t, CharKind::OtherSpace), "non-space whitespace"@);
    tag_if_contains(text::contains_text(t, "  "@), "doubled space"@);
    tag_if_contains(
        text::starts_with(t, " "@) || text::ends_with(t, " "@),
        "leading/trailing space"@,
    );
    tag_if_contains(has_kind(t, CharKind::Digit), "digits"@);
    tag_if_contains(has_kind(t, CharKind::Apostrophe), "apostrophe"@);
    tag_if_contains(has_kind(t, CharKind::NonAscii), "non-ascii"@);
    tag_if_contains(has_kind(t, CharKind::High), "high codepoint"@);
    reveal_strlit(" ");
    if t.len() > 0 {
        assert(t.subrange(0, 1)[0] == t[0]);
        assert(t.subrange(t.len() - 1, t.len() as int)[0] == t.last());
        assert(t[0] == ' ' ==> t.subrange(0, 1) =~= " "@);
        assert(t.last() == ' ' ==> t.subrange(t.len() - 1, t.len() as int) =~= " "@);
    }
    if t.contains('\'') {
        let i = choose|i: int| 0 <= i < t.len() && t[i] == '\'';
        assert(is_kind(t[i], CharKind::Apostrophe));
    }
}

proof fn joined_contains(a: Seq<Seq<char>>, b: Seq<Seq<char>>, x: Seq<char>)
    ensures
        (a + b).contains(x) <==> a.contains(x) || b.contains(x),
{
    if a.contains(x) {
        let i = choose|i: int| 0 <= i < a.len() && a[i] == x;
        assert((a + b)[i] == x);
    }
    if b.contains(x) {
        let i = choose|i: int| 0 <= i < b.len() && b[i] == x;
        assert((a + b)[a.len() + i] == x);
    }
}

proof fn tag_if_contains(applies: bool, tag: Seq<char>)
    ensures
        forall|x: Seq<char>| #[trigger]
            tag_if(applies, tag).contains(x) <==> applies && x == tag,
{
    if applies {
        assert(tag_if(applies, tag)[0] == tag);
    }
}

} // verus!
