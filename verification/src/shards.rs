//! The files of a model: finding them, reading all headers, and comparing them
//! with the index file.
use crate::header;
use crate::header::{HeaderSpec, ShardHeader, TensorSpec};
use crate::json;
use crate::json::{Json, JsonTree};
use crate::names;
use crate::names::NameMap;
use crate::plan;
use crate::text;
use vstd::prelude::*;
use vstd::string::*;

verus! {

/// Whether a file of this name holds tensors: its extension is `safetensors`.
pub open spec fn is_shard(name: Seq<char>) -> bool {
    text::ends_with(name, ".safetensors"@) && name.len() > ".safetensors"@.len()
}

/// The names of the files that hold tensors.
pub open spec fn shard_names(all: Seq<Seq<char>>) -> Seq<Seq<char>>
    decreases all.len(),
{
    if all.len() == 0 {
        all
    } else if is_shard(all.last()) {
        shard_names(all.drop_last()).push(all.last())
    } else {
        shard_names(all.drop_last())
    }
}

/// The names stand in order.
pub open spec fn in_order(s: Seq<Seq<char>>) -> bool {
    forall|i: int, j: int|
        0 <= i < j < s.len() ==> !text::str_before(#[trigger] s[j], #[trigger] s[i])
}

fn insert_name(out: &mut Vec<String>, name: String)
    requires
        in_order(text::views(old(out)@)),
    ensures
        in_order(text::views(final(out)@)),
        text::views(final(out)@).to_multiset() == text::views(old(out)@).push(
            name@,
        ).to_multiset(),
{
    broadcast use vstd::seq_lib::group_to_multiset_ensures;

    let ghost before = text::views(out@);
    let mut at: usize = out.len();
    while at > 0 && text::str_lt(name.as_str(), out[at - 1].as_str())
        invariant
            at <= out.len(),
            before == text::views(out@),
            forall|k: int| at <= k < before.len() ==> text::str_before(name@, #[trigger] before[k]),
        decreases at,
    {
        at -= 1;
    }
    let ghost n = name@;
    assert(at > 0 ==> !text::str_before(n, before[at as int - 1]));
    out.insert(at, name);
    let ghost after = text::views(out@);
    proof {
        assert(after =~= before.insert(at as int, n));
        assert forall|i: int, j: int| 0 <= i < j < after.len() implies !text::str_before(
            #[trigger] after[j],
            #[trigger] after[i],
        ) by {
            let i0 = if i < at {
                i
            } else {
                i - 1
            };
            let j0 = if j < at {
                j
            } else {
                j - 1
            };
            if i != at {
                assert(after[i] == before[i0]);
            }
            if j != at {
                assert(after[j] == before[j0]);
            }
            if i == at {
                text::str_before_is_total(n, before[j0]);
            } else if j == at {
                if text::str_before(n, before[i0]) {
                    if i0 < at - 1 {
                        assert(!text::str_before(before[at as int - 1], before[i0]));
                        below_is_kept(n, before[i0], before[at as int - 1]);
                    }
                }
            }
        }
    }
}

proof fn below_is_kept(a: Seq<char>, b: Seq<char>, c: Seq<char>)
    requires
        text::str_before(a, b),
        !text::str_before(c, b),
    ensures
        text::str_before(a, c),
{
    text::str_before_is_total(b, c);
    if b != c {
        text::bytes_lt_is_transitive(
            vstd::utf8::encode_utf8(a),
            vstd::utf8::encode_utf8(b),
            vstd::utf8::encode_utf8(c),
        );
    }
}

/// The files of a directory that hold tensors, in the order of their names, or a
/// message if there are none. `all` are the names of its files.
pub fn discover_shards(dir: &str, all: &Vec<String>) -> (r: Result<Vec<String>, String>)
    ensures
        match r {
            Ok(found) => in_order(text::views(found@)) && text::views(found@).to_multiset()
                == shard_names(text::views(all@)).to_multiset() && found@.len() > 0,
            Err(m) => shard_names(text::views(all@)).len() == 0 && m@ == dir@
                + ": no .safetensors files"@,
        },
{
    broadcast use vstd::seq_lib::group_to_multiset_ensures;

    let ghost views = text::views(all@);
    let mut out: Vec<String> = Vec::new();
    let mut i: usize = 0;
    assert(views.take(0) =~= Seq::empty());
    assert(text::views(out@) =~= Seq::empty());
    let least: usize = ".safetensors".unicode_len();
    while i < all.len()
        invariant
            i <= all.len(),
            views == text::views(all@),
            least == ".safetensors"@.len(),
            in_order(text::views(out@)),
            text::views(out@).to_multiset() == shard_names(views.take(i as int)).to_multiset(),
        decreases all.len() - i,
    {
        proof {
            let next = views.take(i as int + 1);
            assert(next.drop_last() =~= views.take(i as int));
            assert(next.last() == all@[i as int]@);
        }
        let name: &str = all[i].as_str();
        if text::str_ends_with(name, ".safetensors") && name.unicode_len() > least {
            let ghost before = text::views(out@);
            insert_name(&mut out, name.to_owned());
            proof {
                let kept = shard_names(views.take(i as int));
                before.to_multiset_ensures();
                kept.to_multiset_ensures();
                assert(before.push(name@).to_multiset() =~= kept.push(name@).to_multiset());
            }
        }
        i += 1;
    }
    proof {
        assert(views.take(views.len() as int) =~= views);
        text::views(out@).to_multiset_ensures();
        shard_names(views).to_multiset_ensures();
        assert(text::views(out@).len() == shard_names(views).len());
    }
    if out.len() == 0 {
        let mut m: String = dir.to_owned();
        m.append(": no .safetensors files");
        return Err(m);
    }
    Ok(out)
}

/// What is read of a file to learn its header: its size, its first eight bytes, and
/// the bytes that they declare.
pub struct HeaderText {
    pub path: String,
    pub file_size: u64,
    pub prefix: Vec<u8>,
    pub raw: Vec<u8>,
}

impl HeaderText {
    /// The first eight bytes were read where the file has them, and all the bytes
    /// that they declare where these are a header's.
    pub open spec fn is_whole(&self) -> bool {
        &&& self.file_size >= 8 ==> self.prefix@.len() == 8
        &&& header::extent_result(self.path@, self.file_size, self.prefix@) matches Ok(n)
            ==> self.raw@.len() == n
    }
}

/// What becomes of what was read of a file.
pub open spec fn header_text_result(t: HeaderText) -> Result<HeaderSpec, Seq<char>> {
    match header::extent_result(t.path@, t.file_size, t.prefix@) {
        Err(m) => Err(m),
        Ok(n) => header::header_result(t.path@, t.file_size, n, json::json_document(t.raw@)),
    }
}

/// The headers of all files, or what is wrong with the first bad one.
pub open spec fn model_result(files: Seq<HeaderText>) -> Result<Seq<HeaderSpec>, Seq<char>>
    decreases files.len(),
{
    if files.len() == 0 {
        Ok(Seq::empty())
    } else {
        match model_result(files.drop_last()) {
            Err(m) => Err(m),
            Ok(before) => match header_text_result(files.last()) {
                Err(m) => Err(m),
                Ok(h) => Ok(before.push(h)),
            },
        }
    }
}

proof fn first_fault_stays(files: Seq<HeaderText>, n: int)
    requires
        0 <= n <= files.len(),
        model_result(files.take(n)) is Err,
    ensures
        model_result(files) == model_result(files.take(n)),
    decreases files.len(),
{
    if n < files.len() {
        assert(files.drop_last().take(n) =~= files.take(n));
        first_fault_stays(files.drop_last(), n);
    } else {
        assert(files.take(n) =~= files);
    }
}

/// Parses the headers of all files of a model.
pub fn read_model(files: &[HeaderText]) -> (r: Result<Vec<ShardHeader>, String>)
    requires
        forall|i: int| 0 <= i < files@.len() ==> (#[trigger] files@[i]).is_whole(),
    ensures
        match model_result(files@) {
            Ok(headers) => r is Ok && plan::header_specs(r->Ok_0@) == headers && plan::all_wf(
                r->Ok_0@,
            ),
            Err(m) => r is Err && r->Err_0@ == m,
        },
{
    let mut out: Vec<ShardHeader> = Vec::new();
    let mut i: usize = 0;
    assert(files@.take(0) =~= Seq::empty());
    assert(plan::header_specs(out@) =~= Seq::empty());
    while i < files.len()
        invariant
            i <= files.len(),
            forall|i: int| 0 <= i < files@.len() ==> (#[trigger] files@[i]).is_whole(),
            model_result(files@.take(i as int)) == Ok::<Seq<HeaderSpec>, Seq<char>>(
                plan::header_specs(out@),
            ),
            plan::all_wf(out@),
        decreases files.len() - i,
    {
        let t: &HeaderText = &files[i];
        proof {
            let next = files@.take(i as int + 1);
            assert(next.drop_last() =~= files@.take(i as int));
            assert(next.last() == *t);
        }
        match header::header_extent(t.path.as_str(), t.file_size, t.prefix.as_slice()) {
            Err(m) => {
                proof {
                    first_fault_stays(files@, i as int + 1);
                }
                return Err(m);
            },
            Ok(n) => {
                match header::parse_header(t.path.as_str(), t.file_size, n, t.raw.as_slice()) {
                    Err(m) => {
                        proof {
                            first_fault_stays(files@, i as int + 1);
                        }
                        return Err(m);
                    },
                    Ok(h) => {
                        let ghost before = plan::header_specs(out@);
                        out.push(h);
                        assert(plan::header_specs(out@) =~= before.push(h@));
                    },
                }
            },
        }
        i += 1;
    }
    assert(files@.take(files@.len() as int) =~= files@);
    Ok(out)
}

/// The members whose values are texts.
pub open spec fn text_members(members: Seq<(Seq<char>, JsonTree)>) -> Map<Seq<char>, Seq<char>>
    decreases members.len(),
{
    if members.len() == 0 {
        Map::empty()
    } else {
        let before = text_members(members.drop_last());
        match members.last().1 {
            JsonTree::Text(s) => before.insert(members.last().0, s),
            _ => before,
        }
    }
}

/// What an index file says: the file of each tensor, or nothing if it has no map.
/// `doc` is what its text parses to.
pub open spec fn index_result(path: Seq<char>, doc: Result<JsonTree, Seq<char>>) -> Result<
    Option<Map<Seq<char>, Seq<char>>>,
    Seq<char>,
> {
    match doc {
        Err(message) => Err(path + ": bad index json: "@ + message),
        Ok(t) => match json::member(t, "weight_map"@) {
            Some(JsonTree::Object(members)) => Ok(Some(text_members(members))),
            _ => Ok(None),
        },
    }
}

/// A map to texts.
pub open spec fn text_map(m: Map<Seq<char>, String>) -> Map<Seq<char>, Seq<char>> {
    m.map_values(|s: String| s@)
}

/// Takes the map of tensors to files out of a parsed index file.
pub fn index_of(doc: &Json) -> (r: Option<NameMap<String>>)
    ensures
        match json::member(doc.tree(), "weight_map"@) {
            Some(JsonTree::Object(members)) => r is Some && r->Some_0.wf() && text_map(
                r->Some_0@,
            ) == text_members(members),
            _ => r is None,
        },
{
    broadcast use {json::array_tree, json::object_tree};

    match doc.get("weight_map") {
        Some(Json::Object(members)) => {
            let ghost all = json::member_trees(members@);
            let mut out: NameMap<String> = NameMap::new();
            let mut i: usize = 0;
            assert(all.take(0) =~= Seq::empty());
            assert(text_map(out@) =~= Map::empty());
            while i < members.len()
                invariant
                    i <= members.len(),
                    all == json::member_trees(members@),
                    out.wf(),
                    text_map(out@) == text_members(all.take(i as int)),
                decreases members.len() - i,
            {
                proof {
                    let next = all.take(i as int + 1);
                    assert(next.drop_last() =~= all.take(i as int));
                    assert(next.last() == all[i as int]);
                }
                match &members[i].1 {
                    Json::Text(s) => {
                        let ghost before = out@;
                        let name: String = members[i].0.clone();
                        let value: String = s.clone();
                        let ghost v = value;
                        let ghost n = name@;
                        out.insert(name, value);
                        assert(text_map(out@) =~= text_map(before).insert(n, v@));
                    },
                    _ => {},
                }
                i += 1;
            }
            assert(all.take(all.len() as int) =~= all);
            Some(out)
        },
        _ => None,
    }
}

/// Reads an index file, if there is one: the file of each tensor.
pub fn read_index(path: &str, raw: Option<&[u8]>) -> (r: Result<Option<NameMap<String>>, String>)
    ensures
        match raw {
            None => r matches Ok(None),
            Some(bytes) => match index_result(path@, json::json_document(bytes@)) {
                Err(m) => r is Err && r->Err_0@ == m,
                Ok(None) => r matches Ok(None),
                Ok(Some(map)) => (r matches Ok(Some(index)) && index.wf() && text_map(index@)
                    == map),
            },
        },
{
    match raw {
        None => Ok(None),
        Some(bytes) => match json::parse(bytes) {
            Ok(doc) => Ok(index_of(&doc)),
            Err(message) => {
                let mut m: String = path.to_owned();
                m.append(": bad index json: ");
                m.append(message.as_str());
                Err(m)
            },
        },
    }
}

/// The names of tensors.
pub open spec fn tensor_names(s: Seq<TensorSpec>) -> Set<Seq<char>>
    decreases s.len(),
{
    if s.len() == 0 {
        Set::empty()
    } else {
        tensor_names(s.drop_last()).insert(s.last().name)
    }
}

/// The names of all tensors of all files.
pub open spec fn present_names(headers: Seq<HeaderSpec>) -> Set<Seq<char>>
    decreases headers.len(),
{
    if headers.len() == 0 {
        Set::empty()
    } else {
        present_names(headers.drop_last()).union(tensor_names(headers.last().tensors))
    }
}

fn collect_names(headers: &[ShardHeader]) -> (r: NameMap<()>)
    ensures
        r.wf(),
        r@.dom() == present_names(plan::header_specs(headers@)),
{
    let ghost all = plan::header_specs(headers@);
    let mut out: NameMap<()> = NameMap::new();
    let mut i: usize = 0;
    assert(all.take(0) =~= Seq::empty());
    assert(out@.dom() =~= Set::empty());
    while i < headers.len()
        invariant
            i <= headers.len(),
            all == plan::header_specs(headers@),
            out.wf(),
            out@.dom() == present_names(all.take(i as int)),
        decreases headers.len() - i,
    {
        let h: &ShardHeader = &headers[i];
        let ghost tensors = h@.tensors;
        let ghost before = present_names(all.take(i as int));
        let mut j: usize = 0;
        assert(tensors.take(0) =~= Seq::empty());
        assert(out@.dom() =~= before.union(tensor_names(tensors.take(0))));
        while j < h.tensors.len()
            invariant
                j <= h.tensors.len(),
                tensors == h@.tensors,
                out.wf(),
                out@.dom() == before.union(tensor_names(tensors.take(j as int))),
            decreases h.tensors.len() - j,
        {
            proof {
                let next = tensors.take(j as int + 1);
                assert(next.drop_last() =~= tensors.take(j as int));
                assert(next.last() == h.tensors[j as int]@);
            }
            let ghost had = out@.dom();
            let name: String = h.tensors[j].name.clone();
            let ghost n = name@;
            out.insert(name, ());
            assert(out@.dom() =~= had.insert(n));
            assert(out@.dom() =~= before.union(tensor_names(tensors.take(j as int + 1))));
            j += 1;
        }
        proof {
            assert(tensors.take(tensors.len() as int) =~= tensors);
            let next = all.take(i as int + 1);
            assert(next.drop_last() =~= all.take(i as int));
            assert(next.last() == h@);
        }
        i += 1;
    }
    assert(all.take(all.len() as int) =~= all);
    out
}

/// The names of one map that another lacks, in order.
fn names_without<A, B>(a: &NameMap<A>, b: &NameMap<B>) -> (r: Vec<String>)
    requires
        a.wf(),
        b.wf(),
    ensures
        names::ascending_names(r@),
        forall|name: Seq<char>|
            text::views(r@).contains(name) <==> #[trigger] a@.contains_key(name)
                && !b@.contains_key(name),
{
    let mut out: Vec<String> = Vec::new();
    let ghost mut from: Seq<int> = Seq::empty();
    let mut i: usize = 0;
    while i < a.entries.len()
        invariant
            i <= a.entries.len(),
            a.wf(),
            b.wf(),
            from.len() == out@.len(),
            forall|k: int|
                0 <= k < from.len() ==> 0 <= #[trigger] from[k] < i && out@[k]@
                    == a.entries@[from[k]].0@ && !b@.contains_key(out@[k]@),
            forall|k: int, l: int|
                0 <= k < l < from.len() ==> #[trigger] from[k] < #[trigger] from[l],
            forall|k: int|
                0 <= k < i && !b@.contains_key((#[trigger] a.entries@[k]).0@) ==> text::views(
                    out@,
                ).contains(a.entries@[k].0@),
        decreases a.entries.len() - i,
    {
        let name: &String = &a.entries[i].0;
        let ghost before = text::views(out@);
        if !b.contains(name.as_str()) {
            out.push(name.clone());
            proof {
                from = from.push(i as int);
                let after = text::views(out@);
                assert(after =~= before.push(name@));
                assert(after[before.len() as int] == name@);
                assert forall|x: Seq<char>| before.contains(x) implies after.contains(x) by {
                    let k = choose|k: int| 0 <= k < before.len() && before[k] == x;
                    assert(after[k] == x);
                }
            }
        }
        i += 1;
    }
    proof {
        assert forall|k: int, l: int| 0 <= k < l < out@.len() implies text::str_before(
            (#[trigger] out@[k])@,
            (#[trigger] out@[l])@,
        ) by {
            assert(from[k] < from[l]);
            assert(text::str_before(a.entries@[from[k]].0@, a.entries@[from[l]].0@));
        }
        assert forall|name: Seq<char>|
            text::views(out@).contains(name) <==> #[trigger] a@.contains_key(name)
                && !b@.contains_key(name) by {
            if text::views(out@).contains(name) {
                let k = choose|k: int| 0 <= k < out@.len() && text::views(out@)[k] == name;
                assert(out@[k]@ == a.entries@[from[k]].0@);
                names::pair_in_map(a.entries@, from[k]);
            }
            if a@.contains_key(name) && !b@.contains_key(name) {
                let k = choose|k: int| names::names_at(a.entries@, name, k);
                assert(a.entries@[k].0@ == name);
            }
        }
    }
    out
}

/// An index and the files have the same names exactly when neither lacks a name of
/// the other.
pub proof fn no_difference_means_same_names(listed: Set<Seq<char>>, present: Set<Seq<char>>)
    ensures
        (listed.difference(present) =~= Set::empty() && present.difference(listed) =~= Set::empty())
            <==> listed =~= present,
{
    if listed.difference(present) =~= Set::empty() && present.difference(listed) =~= Set::empty() {
        assert forall|name: Seq<char>| listed.contains(name) == present.contains(name) by {
            assert(!listed.difference(present).contains(name));
            assert(!present.difference(listed).contains(name));
        }
    }
}

/// Compares an index with the tensors that there are: how many names each has, the
/// names of the index that no file has, and the names that the index lacks.
pub fn cross_check_index(headers: &[ShardHeader], index: &NameMap<String>) -> (r: (
    usize,
    usize,
    Vec<String>,
    Vec<String>,
))
    requires
        index.wf(),
    ensures
        ({
            let listed = index@.dom();
            let present = present_names(plan::header_specs(headers@));
            &&& r.0 == listed.len()
            &&& r.1 == present.len()
            &&& names::ascending_names(r.2@)
            &&& names::ascending_names(r.3@)
            &&& text::views(r.2@).to_set() == listed.difference(present)
            &&& text::views(r.3@).to_set() == present.difference(listed)
        }),
{
    let present: NameMap<()> = collect_names(headers);
    let missing: Vec<String> = names_without(index, &present);
    let extra: Vec<String> = names_without(&present, index);
    proof {
        names::entries_are_distinct(index.entries@);
        names::entries_are_distinct(present.entries@);
        let a = index@.dom();
        let b = present@.dom();
        assert forall|name: Seq<char>| text::views(missing@).to_set().contains(name) == a.difference(
            b,
        ).contains(name) by {
            assert(a.contains(name) == index@.contains_key(name));
        }
        assert forall|name: Seq<char>| text::views(extra@).to_set().contains(name) == b.difference(
            a,
        ).contains(name) by {
            assert(b.contains(name) == present@.contains_key(name));
        }
        assert(text::views(missing@).to_set() =~= a.difference(b));
        assert(text::views(extra@).to_set() =~= b.difference(a));
    }
    (index.len(), present.len(), missing, extra)
}

/// The files that hold tensors are those whose names are some text and `.safetensors`;
/// they stay in their order, and no other is among them.
pub proof fn shards_are_the_files_with_the_extension(all: Seq<Seq<char>>)
    ensures
        shard_names(all) == all.filter(|name: Seq<char>| is_shard(name)),
        forall|stem: Seq<char>| #[trigger]
            is_shard(stem + ".safetensors"@) <==> stem.len() > 0,
        forall|name: Seq<char>| #[trigger]
            is_shard(name) ==> exists|stem: Seq<char>| name == #[trigger] (stem
                + ".safetensors"@),
    decreases all.len(),
{
    reveal(Seq::filter);
    if all.len() > 0 {
        shards_are_the_files_with_the_extension(all.drop_last());
    }
    let ext = ".safetensors"@;
    assert forall|stem: Seq<char>| #[trigger] is_shard(stem + ext) <==> stem.len() > 0 by {
        let name = stem + ext;
        assert(name.subrange(name.len() - ext.len(), name.len() as int) =~= ext);
    }
    assert forall|name: Seq<char>| #[trigger] is_shard(name) implies exists|stem: Seq<char>|
        name == #[trigger] (stem + ext) by {
        let stem = name.take(name.len() - ext.len());
        assert(name =~= stem + ext);
    }
}

/// A model has the header of each of its files, in their order; where one of them cannot
/// be had, what is told of the model is what is wrong with the first of those.
pub proof fn model_has_the_headers_of_its_files(files: Seq<HeaderText>)
    ensures
        model_result(files) matches Ok(headers) ==> has_headers(files, headers),
        model_result(files) matches Err(m) ==> fails_first_with(files, m),
    decreases files.len(),
{
    if files.len() > 0 {
        let before = files.drop_last();
        let n = files.len() - 1;
        model_has_the_headers_of_its_files(before);
        match model_result(before) {
            Err(m) => {
                let i = choose|i: int| is_first_bad(before, i, m);
                assert(before[i] == files[i]);
                assert forall|j: int| 0 <= j < i implies header_text_result(
                    #[trigger] files[j],
                ) is Ok by {
                    assert(before[j] == files[j]);
                }
                assert(is_first_bad(files, i, m));
                assert(fails_first_with(files, m));
            },
            Ok(headers) => {
                assert forall|j: int| 0 <= j < n implies header_text_result(#[trigger] files[j])
                    == Ok::<HeaderSpec, Seq<char>>(headers[j]) by {
                    assert(before[j] == files[j]);
                }
                match header_text_result(files[n]) {
                    Err(m) => {
                        assert(is_first_bad(files, n, m));
                        assert(fails_first_with(files, m));
                    },
                    Ok(h) => {
                        let all = headers.push(h);
                        assert(model_result(files) == Ok::<Seq<HeaderSpec>, Seq<char>>(all));
                        assert forall|j: int| 0 <= j < files.len() implies header_text_result(
                            #[trigger] files[j],
                        ) == Ok::<HeaderSpec, Seq<char>>(all[j]) by {
                            if j < n {
                                assert(all[j] == headers[j]);
                            }
                        }
                    },
                }
            },
        }
    }
}

/// The headers are those of the files, in their order.
pub open spec fn has_headers(files: Seq<HeaderText>, headers: Seq<HeaderSpec>) -> bool {
    &&& headers.len() == files.len()
    &&& forall|i: int|
        0 <= i < files.len() ==> header_text_result(#[trigger] files[i]) == Ok::<
            HeaderSpec,
            Seq<char>,
        >(headers[i])
}

/// The first file whose header cannot be had is told of like this.
pub open spec fn fails_first_with(files: Seq<HeaderText>, m: Seq<char>) -> bool {
    exists|i: int| #[trigger] is_first_bad(files, i, m)
}

/// The file at `i` is the first whose header cannot be had.
pub open spec fn is_first_bad(files: Seq<HeaderText>, i: int, m: Seq<char>) -> bool {
    &&& 0 <= i < files.len()
    &&& header_text_result(files[i]) == Err::<HeaderSpec, Seq<char>>(m)
    &&& forall|j: int| 0 <= j < i ==> header_text_result(#[trigger] files[j]) is Ok
}

/// The member at `i` gives the name this text, and no later one gives it another.
pub open spec fn names_last(
    members: Seq<(Seq<char>, JsonTree)>,
    name: Seq<char>,
    file: Seq<char>,
    i: int,
) -> bool {
    &&& 0 <= i < members.len()
    &&& members[i] == (name, JsonTree::Text(file))
    &&& forall|j: int|
        i < j < members.len() && (#[trigger] members[j]).0 == name ==> !(members[j].1 is Text)
}

/// An index gives a tensor the file that the last text under its name gives; a tensor
/// without a text has no file.
pub proof fn index_gives_each_tensor_its_file(
    members: Seq<(Seq<char>, JsonTree)>,
    name: Seq<char>,
)
    ensures
        text_members(members).contains_key(name) ==> exists|i: int| #[trigger]
            names_last(members, name, text_members(members)[name], i),
        forall|i: int|
            0 <= i < members.len() && (#[trigger] members[i]).0 == name && members[i].1 is Text
                ==> text_members(members).contains_key(name),
    decreases members.len(),
{
    if members.len() > 0 {
        let before = members.drop_last();
        let n = members.len() - 1;
        index_gives_each_tensor_its_file(before, name);
        assert forall|i: int|
            0 <= i < members.len() && (#[trigger] members[i]).0 == name
                && members[i].1 is Text implies text_members(members).contains_key(name) by {
            if i < n {
                assert(before[i] == members[i]);
            }
        }
        if text_members(members).contains_key(name) {
            let file = text_members(members)[name];
            if members[n].0 == name && members[n].1 is Text {
                assert(names_last(members, name, file, n));
            } else {
                assert(text_members(before).contains_key(name));
                let i = choose|i: int| names_last(before, name, file, i);
                assert(before[i] == members[i]);
                assert forall|j: int|
                    i < j < members.len() && (#[trigger] members[j]).0 == name implies !(
                members[j].1 is Text) by {
                    if j < n {
                        assert(before[j] == members[j]);
                    }
                }
                assert(names_last(members, name, file, i));
            }
        }
    }
}

proof fn names_of_tensors(s: Seq<TensorSpec>, name: Seq<char>)
    ensures
        tensor_names(s).contains(name) <==> exists|t: int|
            0 <= t < s.len() && (#[trigger] s[t]).name == name,
    decreases s.len(),
{
    if s.len() > 0 {
        let before = s.drop_last();
        names_of_tensors(before, name);
        if tensor_names(before).contains(name) {
            let t = choose|t: int| 0 <= t < before.len() && (#[trigger] before[t]).name == name;
            assert(s[t] == before[t]);
        }
        if s.last().name == name {
            assert(s[s.len() - 1].name == name);
        }
        if exists|t: int| 0 <= t < s.len() && (#[trigger] s[t]).name == name {
            let t = choose|t: int| 0 <= t < s.len() && (#[trigger] s[t]).name == name;
            if t < s.len() - 1 {
                assert(before[t] == s[t]);
            }
        }
    }
}

/// The file has a tensor of that name.
pub open spec fn has_tensor(h: HeaderSpec, name: Seq<char>) -> bool {
    exists|t: int| 0 <= t < h.tensors.len() && (#[trigger] h.tensors[t]).name == name
}

/// A name is present exactly if some file has a tensor of that name.
pub proof fn present_names_are_those_of_tensors(headers: Seq<HeaderSpec>, name: Seq<char>)
    ensures
        present_names(headers).contains(name) <==> exists|f: int|
            0 <= f < headers.len() && has_tensor(#[trigger] headers[f], name),
    decreases headers.len(),
{
    if headers.len() > 0 {
        let before = headers.drop_last();
        let n = headers.len() - 1;
        present_names_are_those_of_tensors(before, name);
        names_of_tensors(headers.last().tensors, name);
        if present_names(before).contains(name) {
            let f = choose|f: int| 0 <= f < before.len() && has_tensor(#[trigger] before[f], name);
            assert(headers[f] == before[f]);
        }
        if has_tensor(headers[n], name) {
            assert(has_tensor(headers[n], name));
        }
        if exists|f: int| 0 <= f < headers.len() && has_tensor(#[trigger] headers[f], name) {
            let f = choose|f: int|
                0 <= f < headers.len() && has_tensor(#[trigger] headers[f], name);
            if f < n {
                assert(before[f] == headers[f]);
            }
        }
    }
}

/// An index file gives files to tensors exactly if it parses and its weight map is an
/// object; then it gives those of that map alone.
pub proof fn index_is_the_weight_map(path: Seq<char>, t: JsonTree, m: Seq<char>)
    ensures
        index_result(path, Err(m)) is Err,
        json::member(t, "weight_map"@) matches Some(JsonTree::Object(members)) ==> index_result(
            path,
            Ok(t),
        ) == Ok::<Option<Map<Seq<char>, Seq<char>>>, Seq<char>>(Some(text_members(members))),
        !(json::member(t, "weight_map"@) matches Some(JsonTree::Object(_))) ==> index_result(
            path,
            Ok(t),
        ) == Ok::<Option<Map<Seq<char>, Seq<char>>>, Seq<char>>(None),
{
}

/// What becomes of what was read of a file is what becomes of its header: the length that
/// its first eight bytes give, and the document that the bytes behind them are.
pub proof fn header_text_is_read_as_framed(t: HeaderText)
    requires
        t.prefix@.len() == 8,
    ensures
        header::extent_result(t.path@, t.file_size, t.prefix@) is Err ==> header_text_result(
            t,
        ) is Err,
        header_text_result(t) matches Ok(h) ==> {
            &&& h.file_size == t.file_size
            &&& h.header_len == crate::bytes::le_value(t.prefix@)
            &&& h.data_start == 8 + h.header_len
        },
{
    crate::bytes::le_value_is_bounded(t.prefix@);
    reveal_with_fuel(crate::bytes::byte_power, 9);
}

} // verus!
