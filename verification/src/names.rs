//! Maps from names, kept in the order of the names.
use crate::text;
use vstd::prelude::*;
use vstd::utf8::*;

verus! {

/// The names stand in strict order, so no name comes twice.
pub open spec fn ascending<V>(s: Seq<(String, V)>) -> bool {
    forall|i: int, j: int|
        0 <= i < j < s.len() ==> text::str_before((#[trigger] s[i]).0@, (#[trigger] s[j]).0@)
}

/// The names of a list stand in strict order, so no name comes twice.
pub open spec fn ascending_names(s: Seq<String>) -> bool {
    forall|i: int, j: int|
        0 <= i < j < s.len() ==> text::str_before((#[trigger] s[i])@, (#[trigger] s[j])@)
}

pub open spec fn names_at<V>(s: Seq<(String, V)>, name: Seq<char>, i: int) -> bool {
    0 <= i < s.len() && s[i].0@ == name
}

/// What a list of pairs maps each name to.
pub open spec fn pairs_map<V>(s: Seq<(String, V)>) -> Map<Seq<char>, V> {
    Map::new(
        |name: Seq<char>| exists|i: int| names_at(s, name, i),
        |name: Seq<char>| s[choose|i: int| names_at(s, name, i)].1,
    )
}

proof fn before_is_transitive(a: Seq<char>, b: Seq<char>, c: Seq<char>)
    requires
        text::str_before(a, b),
        text::str_before(b, c),
    ensures
        text::str_before(a, c),
{
    text::bytes_lt_is_transitive(encode_utf8(a), encode_utf8(b), encode_utf8(c));
}

/// In an ascending list the pair at `i` is what its name maps to.
pub proof fn pair_in_map<V>(s: Seq<(String, V)>, i: int)
    requires
        ascending(s),
        0 <= i < s.len(),
    ensures
        pairs_map(s).contains_key(s[i].0@),
        pairs_map(s)[s[i].0@] == s[i].1,
{
    let name = s[i].0@;
    assert(names_at(s, name, i));
    let k = choose|k: int| names_at(s, name, k);
    text::str_before_is_total(name, name);
}

/// A map from names to values, in the order of the names.
pub struct NameMap<V> {
    pub entries: Vec<(String, V)>,
}

impl<V> NameMap<V> {
    pub open spec fn view(&self) -> Map<Seq<char>, V> {
        pairs_map(self.entries@)
    }

    pub open spec fn wf(&self) -> bool {
        ascending(self.entries@)
    }

    pub fn new() -> (r: NameMap<V>)
        ensures
            r.wf(),
            r@ == Map::<Seq<char>, V>::empty(),
            r.entries@ == Seq::<(String, V)>::empty(),
    {
        let r = NameMap { entries: Vec::new() };
        assert(r@ =~= Map::<Seq<char>, V>::empty());
        r
    }

    /// The number of names.
    pub fn len(&self) -> (r: usize)
        ensures
            r == self.entries@.len(),
    {
        self.entries.len()
    }

    /// How many names come before `name`.
    fn slot(&self, name: &str) -> (r: usize)
        requires
            self.wf(),
        ensures
            r <= self.entries.len(),
            forall|k: int|
                0 <= k < r ==> text::str_before((#[trigger] self.entries[k]).0@, name@),
            forall|k: int|
                r <= k < self.entries.len() ==> !text::str_before(
                    (#[trigger] self.entries[k]).0@,
                    name@,
                ),
    {
        let mut lo: usize = 0;
        let mut hi: usize = self.entries.len();
        while lo < hi
            invariant
                self.wf(),
                lo <= hi <= self.entries.len(),
                forall|k: int|
                    0 <= k < lo ==> text::str_before((#[trigger] self.entries[k]).0@, name@),
                forall|k: int|
                    hi <= k < self.entries.len() ==> !text::str_before(
                        (#[trigger] self.entries[k]).0@,
                        name@,
                    ),
            decreases hi - lo,
        {
            let mid: usize = lo + (hi - lo) / 2;
            if text::str_lt(self.entries[mid].0.as_str(), name) {
                assert forall|k: int| 0 <= k < mid + 1 implies text::str_before(
                    (#[trigger] self.entries[k]).0@,
                    name@,
                ) by {
                    if k < mid {
                        before_is_transitive(
                            self.entries[k].0@,
                            self.entries[mid as int].0@,
                            name@,
                        );
                    }
                }
                lo = mid + 1;
            } else {
                assert forall|k: int| mid <= k < self.entries.len() implies !text::str_before(
                    (#[trigger] self.entries[k]).0@,
                    name@,
                ) by {
                    if k > mid && text::str_before(self.entries[k].0@, name@) {
                        before_is_transitive(
                            self.entries[mid as int].0@,
                            self.entries[k].0@,
                            name@,
                        );
                    }
                }
                hi = mid;
            }
        }
        lo
    }

    /// The position of a name.
    pub fn position(&self, name: &str) -> (r: Option<usize>)
        requires
            self.wf(),
        ensures
            match r {
                Some(i) => names_at(self.entries@, name@, i as int) && self@.contains_key(name@)
                    && self@[name@] == self.entries@[i as int].1,
                None => !self@.contains_key(name@),
            },
    {
        let at: usize = self.slot(name);
        if at < self.entries.len() && text::str_eq(self.entries[at].0.as_str(), name) {
            proof {
                pair_in_map(self.entries@, at as int);
            }
            return Some(at);
        }
        proof {
            if self@.contains_key(name@) {
                let i = choose|i: int| names_at(self.entries@, name@, i);
                text::str_before_is_total(name@, name@);
                if at < self.entries.len() && at < i {
                    text::str_before_is_total(self.entries@[at as int].0@, name@);
                }
                assert(false);
            }
        }
        None
    }

    /// The value of a name.
    pub fn get(&self, name: &str) -> (r: Option<&V>)
        requires
            self.wf(),
        ensures
            match r {
                Some(v) => self@.contains_key(name@) && self@[name@] == *v,
                None => !self@.contains_key(name@),
            },
    {
        match self.position(name) {
            Some(i) => Some(&self.entries[i].1),
            None => None,
        }
    }

    /// Whether there is such a name.
    pub fn contains(&self, name: &str) -> (r: bool)
        requires
            self.wf(),
        ensures
            r == self@.contains_key(name@),
    {
        self.position(name).is_some()
    }

    /// Gives `name` the value `v`, in place of any that it had.
    pub fn insert(&mut self, name: String, v: V)
        requires
            old(self).wf(),
        ensures
            final(self).wf(),
            final(self)@ == old(self)@.insert(name@, v),
            final(self).entries@.len() == old(self).entries@.len() + (if old(self)@.contains_key(
                name@,
            ) {
                0int
            } else {
                1
            }),
    {
        let ghost before = self.entries@;
        match self.position(name.as_str()) {
            Some(i) => {
                let kept: String = self.entries[i].0.clone();
                self.entries.set(i, (kept, v));
                proof {
                    let after = self.entries@;
                    assert forall|a: int, b: int| 0 <= a < b < after.len() implies text::str_before(
                        (#[trigger] after[a]).0@,
                        (#[trigger] after[b]).0@,
                    ) by {
                        assert(after[a].0@ == before[a].0@ && after[b].0@ == before[b].0@);
                    }
                    insert_maps(before, after, name@, v, i as int, true);
                }
            },
            None => {
                let at: usize = self.slot(name.as_str());
                proof {
                    assert forall|k: int| at <= k < before.len() implies text::str_before(
                        name@,
                        (#[trigger] before[k]).0@,
                    ) by {
                        assert(names_at(before, before[k].0@, k));
                        text::str_before_is_total(before[k].0@, name@);
                    }
                }
                let ghost n = name@;
                self.entries.insert(at, (name, v));
                proof {
                    let after = self.entries@;
                    assert forall|a: int, b: int| 0 <= a < b < after.len() implies text::str_before(
                        (#[trigger] after[a]).0@,
                        (#[trigger] after[b]).0@,
                    ) by {
                        let a0 = if a < at { a } else { a - 1 };
                        let b0 = if b < at { b } else { b - 1 };
                        if a != at {
                            assert(after[a] == before[a0]);
                        }
                        if b != at {
                            assert(after[b] == before[b0]);
                        }
                    }
                    insert_maps(before, after, n, v, at as int, false);
                }
            },
        }
    }
}

/// Every entry has its own name: there are as many names as entries.
pub proof fn entries_are_distinct<V>(s: Seq<(String, V)>)
    requires
        ascending(s),
    ensures
        pairs_map(s).dom().finite(),
        pairs_map(s).dom().len() == s.len(),
    decreases s.len(),
{
    let names = pairs_map(s).dom();
    if s.len() == 0 {
        assert(names =~= Set::empty());
    } else {
        let d = s.drop_last();
        let name = s.last().0@;
        assert(ascending(d)) by {
            assert forall|i: int, j: int| 0 <= i < j < d.len() implies text::str_before(
                (#[trigger] d[i]).0@,
                (#[trigger] d[j]).0@,
            ) by {
                assert(d[i] == s[i] && d[j] == s[j]);
            }
        }
        entries_are_distinct(d);
        let before = pairs_map(d).dom();
        assert(!before.contains(name)) by {
            if before.contains(name) {
                let i = choose|i: int| names_at(d, name, i);
                assert(text::str_before(s[i].0@, s[s.len() - 1].0@));
                text::str_before_is_total(name, name);
            }
        }
        assert forall|key: Seq<char>| names.contains(key) == before.insert(name).contains(key) by {
            if names.contains(key) && key != name {
                let i = choose|i: int| names_at(s, key, i);
                assert(names_at(d, key, i));
            }
            if before.contains(key) {
                let i = choose|i: int| names_at(d, key, i);
                assert(names_at(s, key, i));
            }
            assert(names_at(s, name, s.len() - 1));
        }
        assert(names =~= before.insert(name));
    }
}

proof fn insert_maps<V>(
    before: Seq<(String, V)>,
    after: Seq<(String, V)>,
    name: Seq<char>,
    v: V,
    at: int,
    replaced: bool,
)
    requires
        ascending(before),
        ascending(after),
        0 <= at < after.len(),
        after[at].0@ == name,
        after[at].1 == v,
        replaced ==> {
            &&& after.len() == before.len()
            &&& forall|k: int| 0 <= k < before.len() && k != at ==> after[k] == before[k]
            &&& before[at].0@ == name
        },
        !replaced ==> {
            &&& after.len() == before.len() + 1
            &&& forall|k: int| 0 <= k < at ==> after[k] == before[k]
            &&& forall|k: int| at <= k < before.len() ==> after[k + 1] == before[k]
        },
    ensures
        pairs_map(after) == pairs_map(before).insert(name, v),
{
    let m = pairs_map(before).insert(name, v);
    pair_in_map(after, at);
    assert forall|key: Seq<char>|
        #![trigger pairs_map(after).dom().contains(key)]
        #![trigger pairs_map(after)[key]]
        pairs_map(after).dom().contains(key) == m.dom().contains(key) && (m.dom().contains(key)
            ==> pairs_map(after)[key] == m[key]) by {
        if key != name && pairs_map(before).contains_key(key) {
            let k = choose|k: int| names_at(before, key, k);
            let k1 = if replaced || k < at {
                k
            } else {
                k + 1
            };
            assert(after[k1] == before[k]);
            assert(names_at(after, key, k1));
            pair_in_map(after, k1);
            pair_in_map(before, k);
        }
        if pairs_map(after).contains_key(key) {
            let k = choose|k: int| names_at(after, key, k);
            if k != at {
                let k0 = if replaced || k < at {
                    k
                } else {
                    k - 1
                };
                assert(after[k] == before[k0]);
                assert(names_at(before, key, k0));
            }
        }
    }
    assert(pairs_map(after) =~= m);
}

} // verus!
