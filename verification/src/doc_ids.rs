//! The names of a collection's documents: each document ID maps to the
//! internal ID its vector is indexed under, and each internal ID back to
//! the document ID.
//!
//! The two directions are kept as two maps, each updated on its own, as
//! a collection updates them.

use vstd::prelude::*;
use vstd::string::StringExecFns;
use crate::config::{after_next, DocIdCounter};

verus! {

/// The decimal digits of `n`, without sign or leading zeros.
pub open spec fn decimal(n: nat) -> Seq<char>
    decreases n,
{
    if n < 10 {
        seq![digit(n)]
    } else {
        decimal(n / 10).push(digit(n % 10))
    }
}

/// The digit character for `d` below 10.
pub open spec fn digit(d: nat) -> char {
    (48 + d) as char
}

/// The digit character for `d` below 10, as text.
fn digit_str(d: u64) -> (r: &'static str)
    requires
        d < 10,
    ensures
        r@ == seq![digit(d as nat)],
{
    match d {
        0 => {
            proof {
                reveal_strlit("0");
            }
            "0"
        },
        1 => {
            proof {
                reveal_strlit("1");
            }
            "1"
        },
        2 => {
            proof {
                reveal_strlit("2");
            }
            "2"
        },
        3 => {
            proof {
                reveal_strlit("3");
            }
            "3"
        },
        4 => {
            proof {
                reveal_strlit("4");
            }
            "4"
        },
        5 => {
            proof {
                reveal_strlit("5");
            }
            "5"
        },
        6 => {
            proof {
                reveal_strlit("6");
            }
            "6"
        },
        7 => {
            proof {
                reveal_strlit("7");
            }
            "7"
        },
        8 => {
            proof {
                reveal_strlit("8");
            }
            "8"
        },
        _ => {
            proof {
                reveal_strlit("9");
            }
            "9"
        },
    }
}

/// The decimal digits of `n`, as `ToString` writes them.
pub(crate) fn decimal_string(n: u64) -> (r: String)
    ensures
        r@ == decimal(n as nat),
{
    let mut cur: u64 = n;
    let mut acc = String::new();
    while cur >= 10
        invariant
            decimal(n as nat) == decimal(cur as nat) + acc@,
        decreases cur,
    {
        let ghost a0 = acc@;
        let d = cur % 10;
        acc = String::from_str(digit_str(d)).concat(acc.as_str());
        assert(decimal(cur as nat) == decimal((cur / 10) as nat).push(digit(d as nat)));
        assert(decimal((cur / 10) as nat).push(digit(d as nat)) + a0 =~= decimal((cur / 10) as nat) + acc@);
        cur = cur / 10;
    }
    let last = String::from_str(digit_str(cur)).concat(acc.as_str());
    assert(last@ =~= decimal(n as nat));
    last
}

/// The name given to a document inserted without an ID.
pub fn generated_doc_id(n: u64) -> (r: String)
    ensures
        r@ == "doc_"@ + decimal(n as nat),
{
    String::from_str("doc_").concat(decimal_string(n).as_str())
}

/// The name shown for a search result whose internal ID has no document.
pub fn unknown_doc_id(n: u64) -> (r: String)
    ensures
        r@ == "unknown_"@ + decimal(n as nat),
{
    String::from_str("unknown_").concat(decimal_string(n).as_str())
}

/// The value under `key` in an association list, from position `i` on.
pub open spec fn lookup_from<K, V>(s: Seq<(K, V)>, key: K, i: int) -> Option<V>
    decreases s.len() - i,
{
    if i < 0 || i >= s.len() {
        None
    } else if s[i].0 == key {
        Some(s[i].1)
    } else {
        lookup_from(s, key, i + 1)
    }
}

/// The value under `key` in an association list.
pub open spec fn lookup<K, V>(s: Seq<(K, V)>, key: K) -> Option<V> {
    lookup_from(s, key, 0)
}

/// No key occurs twice.
pub open spec fn keys_distinct<K, V>(s: Seq<(K, V)>) -> bool {
    forall|i: int, j: int| 0 <= i < j < s.len() ==> s[i].0 != s[j].0
}

/// An association list with distinct keys, seen as a map.
pub open spec fn as_map<K, V>(s: Seq<(K, V)>) -> Map<K, V> {
    Map::new(|k: K| lookup(s, k) is Some, |k: K| lookup(s, k)->0)
}

proof fn lemma_lookup_from<K, V>(s: Seq<(K, V)>, key: K, i: int)
    requires
        0 <= i <= s.len(),
    ensures
        match lookup_from(s, key, i) {
            Some(v) => exists|p: int| i <= p < s.len() && s[p].0 == key && s[p].1 == v && forall|
                j: int,
            | i <= j < p ==> s[j].0 != key,
            None => forall|j: int| i <= j < s.len() ==> s[j].0 != key,
        },
    decreases s.len() - i,
{
    if i < s.len() && s[i].0 != key {
        lemma_lookup_from(s, key, i + 1);
    }
}

/// In a list with distinct keys, the value under the key at `p` is the
/// value there.
proof fn lemma_lookup_at<K, V>(s: Seq<(K, V)>, p: int)
    requires
        keys_distinct(s),
        0 <= p < s.len(),
    ensures
        lookup(s, s[p].0) == Some(s[p].1),
{
    lemma_lookup_from(s, s[p].0, 0);
    match lookup(s, s[p].0) {
        Some(v) => {
            let q = choose|q: int| 0 <= q < s.len() && s[q].0 == s[p].0 && s[q].1 == v && forall|
                j: int,
            | 0 <= j < q ==> s[j].0 != s[p].0;
            if q != p {
                if q < p {
                    assert(s[q].0 != s[p].0);
                } else {
                    assert(s[p].0 != s[q].0);
                }
            }
        },
        None => {},
    }
}

/// A key absent from a list stays absent, and the others keep their
/// values, when the entry at `p` is dropped.
proof fn lemma_lookup_remove<K, V>(s: Seq<(K, V)>, p: int, key: K)
    requires
        keys_distinct(s),
        0 <= p < s.len(),
    ensures
        keys_distinct(s.remove(p)),
        lookup(s.remove(p), key) == if key == s[p].0 {
            None
        } else {
            lookup(s, key)
        },
{
    let t = s.remove(p);
    assert forall|i: int, j: int| 0 <= i < j < t.len() implies t[i].0 != t[j].0 by {
        let i2 = if i >= p { i + 1 } else { i };
        let j2 = if j >= p { j + 1 } else { j };
        assert(t[i] == s[i2] && t[j] == s[j2]);
    }
    lemma_lookup_from(t, key, 0);
    lemma_lookup_from(s, key, 0);
    match lookup(t, key) {
        Some(v) => {
            let q = choose|q: int| 0 <= q < t.len() && t[q].0 == key && t[q].1 == v && forall|
                j: int,
            | 0 <= j < q ==> t[j].0 != key;
            let q2 = if q >= p { q + 1 } else { q };
            assert(s[q2] == t[q]);
            if key == s[p].0 {
                assert(q2 != p);
                if q2 < p {
                    assert(s[q2].0 != s[p].0);
                } else {
                    assert(s[p].0 != s[q2].0);
                }
            } else {
                lemma_lookup_at(s, q2);
            }
        },
        None => {
            if key != s[p].0 {
                match lookup(s, key) {
                    Some(v) => {
                        let q = choose|q: int| 0 <= q < s.len() && s[q].0 == key && s[q].1 == v && forall|
                            j: int,
                        | 0 <= j < q ==> s[j].0 != key;
                        assert(q != p);
                        let q3 = if q > p { q - 1 } else { q };
                        assert(t[q3] == s[q]);
                    },
                    None => {},
                }
            }
        },
    }
}

/// Setting the value at the position of `k` sets the value under `k`.
proof fn lemma_lookup_update<K, V>(s: Seq<(K, V)>, p: int, v: V, key: K)
    requires
        keys_distinct(s),
        0 <= p < s.len(),
    ensures
        keys_distinct(s.update(p, (s[p].0, v))),
        lookup(s.update(p, (s[p].0, v)), key) == if key == s[p].0 {
            Some(v)
        } else {
            lookup(s, key)
        },
{
    let t = s.update(p, (s[p].0, v));
    assert forall|i: int, j: int| 0 <= i < j < t.len() implies t[i].0 != t[j].0 by {
        assert(t[i].0 == s[i].0 && t[j].0 == s[j].0);
    }
    if key == s[p].0 {
        lemma_lookup_at(t, p);
    } else {
        lemma_lookup_from(t, key, 0);
        lemma_lookup_from(s, key, 0);
        match lookup(t, key) {
            Some(w) => {
                let q = choose|q: int| 0 <= q < t.len() && t[q].0 == key && t[q].1 == w && forall|
                    j: int,
                | 0 <= j < q ==> t[j].0 != key;
                assert(q != p);
                lemma_lookup_at(s, q);
            },
            None => {
                match lookup(s, key) {
                    Some(w) => {
                        let q = choose|q: int| 0 <= q < s.len() && s[q].0 == key && s[q].1 == w && forall|
                            j: int,
                        | 0 <= j < q ==> s[j].0 != key;
                        assert(t[q].0 == key);
                    },
                    None => {},
                }
            },
        }
    }
}

/// Appending a new key adds it with its value.
proof fn lemma_lookup_push<K, V>(s: Seq<(K, V)>, k: K, v: V, key: K)
    requires
        keys_distinct(s),
        lookup(s, k) is None,
    ensures
        keys_distinct(s.push((k, v))),
        lookup(s.push((k, v)), key) == if key == k {
            Some(v)
        } else {
            lookup(s, key)
        },
{
    let t = s.push((k, v));
    lemma_lookup_from(s, k, 0);
    assert forall|i: int, j: int| 0 <= i < j < t.len() implies t[i].0 != t[j].0 by {
        if j == s.len() {
            assert(t[i] == s[i]);
        } else {
            assert(t[i] == s[i] && t[j] == s[j]);
        }
    }
    if key == k {
        lemma_lookup_at(t, s.len() as int);
    } else {
        lemma_lookup_from(t, key, 0);
        lemma_lookup_from(s, key, 0);
        match lookup(t, key) {
            Some(w) => {
                let q = choose|q: int| 0 <= q < t.len() && t[q].0 == key && t[q].1 == w && forall|
                    j: int,
                | 0 <= j < q ==> t[j].0 != key;
                assert(q < s.len());
                assert(t[q] == s[q]);
                lemma_lookup_at(s, q);
            },
            None => {
                match lookup(s, key) {
                    Some(w) => {
                        let q = choose|q: int| 0 <= q < s.len() && s[q].0 == key && s[q].1 == w && forall|
                            j: int,
                        | 0 <= j < q ==> s[j].0 != key;
                        assert(t[q] == s[q]);
                    },
                    None => {},
                }
            },
        }
    }
}

/// A document just recorded is found under its name, and its internal ID
/// names it; a document just forgotten is found no more.
pub proof fn lemma_recorded_then_found(
    ids: Map<Seq<char>, u64>,
    names: Map<u64, Seq<char>>,
    doc_id: Seq<char>,
    internal: u64,
)
    ensures
        ids.insert(doc_id, internal).contains_key(doc_id),
        ids.insert(doc_id, internal)[doc_id] == internal,
        names.insert(internal, doc_id).contains_key(internal),
        names.insert(internal, doc_id)[internal] == doc_id,
        !ids.remove(doc_id).contains_key(doc_id),
        !names.remove(internal).contains_key(internal),
{
}

/// Each document's internal ID, and each internal ID's document.
pub struct DocIds {
    forward: Vec<(String, u64)>,
    backward: Vec<(u64, String)>,
}

/// The texts of the document IDs of a list.
pub open spec fn forward_view(v: Seq<(String, u64)>) -> Seq<(Seq<char>, u64)> {
    v.map_values(|e: (String, u64)| (e.0@, e.1))
}

/// The texts of the document IDs of a list.
pub open spec fn backward_view(v: Seq<(u64, String)>) -> Seq<(u64, Seq<char>)> {
    v.map_values(|e: (u64, String)| (e.0, e.1@))
}

impl DocIds {
    /// The internal ID of each document.
    pub closed spec fn internal_ids(&self) -> Map<Seq<char>, u64> {
        as_map(forward_view(self.forward@))
    }

    /// The document of each internal ID.
    pub closed spec fn doc_names(&self) -> Map<u64, Seq<char>> {
        as_map(backward_view(self.backward@))
    }

    /// Both lists have distinct keys.
    pub closed spec fn wf(&self) -> bool {
        keys_distinct(forward_view(self.forward@)) && keys_distinct(backward_view(self.backward@))
    }

    /// No documents.
    pub fn new() -> (r: Self)
        ensures
            r.wf(),
            r.internal_ids() == Map::<Seq<char>, u64>::empty(),
            r.doc_names() == Map::<u64, Seq<char>>::empty(),
    {
        let r = DocIds { forward: Vec::new(), backward: Vec::new() };
        assert(r.internal_ids() =~= Map::<Seq<char>, u64>::empty());
        assert(r.doc_names() =~= Map::<u64, Seq<char>>::empty());
        r
    }

    fn find_doc(&self, doc_id: &str) -> (r: Option<usize>)
        requires
            self.wf(),
        ensures
            r matches Some(p) ==> p < self.forward@.len() && forward_view(self.forward@)[p as int].0
                == doc_id@,
            r is None ==> !self.internal_ids().contains_key(doc_id@),
    {
        let ghost f = forward_view(self.forward@);
        let key = doc_id.to_owned();
        let mut i: usize = 0;
        while i < self.forward.len()
            invariant
                i <= self.forward@.len(),
                f == forward_view(self.forward@),
                key@ == doc_id@,
                forall|j: int| 0 <= j < i ==> f[j].0 != doc_id@,
            decreases self.forward@.len() - i,
        {
            let eq = self.forward[i].0 == key;
            assert(f[i as int] == (self.forward@[i as int].0@, self.forward@[i as int].1));
            if eq {
                return Some(i);
            }
            i += 1;
        }
        proof {
            lemma_lookup_from(f, doc_id@, 0);
        }
        None
    }

    fn find_internal(&self, internal: u64) -> (r: Option<usize>)
        requires
            self.wf(),
        ensures
            r matches Some(p) ==> p < self.backward@.len() && self.backward@[p as int].0 == internal,
            r is None ==> !self.doc_names().contains_key(internal),
    {
        let ghost b = backward_view(self.backward@);
        let mut i: usize = 0;
        while i < self.backward.len()
            invariant
                i <= self.backward@.len(),
                b == backward_view(self.backward@),
                forall|j: int| 0 <= j < i ==> b[j].0 != internal,
            decreases self.backward@.len() - i,
        {
            if self.backward[i].0 == internal {
                return Some(i);
            }
            i += 1;
        }
        proof {
            lemma_lookup_from(b, internal, 0);
        }
        None
    }

    /// The internal ID of a document.
    pub fn internal_id(&self, doc_id: &str) -> (r: Option<u64>)
        requires
            self.wf(),
        ensures
            self.internal_ids().contains_key(doc_id@) ==> r == Some(self.internal_ids()[doc_id@]),
            !self.internal_ids().contains_key(doc_id@) ==> r is None,
    {
        match self.find_doc(doc_id) {
            Some(p) => {
                proof {
                    lemma_lookup_at(forward_view(self.forward@), p as int);
                }
                Some(self.forward[p].1)
            },
            None => None,
        }
    }

    /// The document of an internal ID.
    pub fn doc_name(&self, internal: u64) -> (r: Option<String>)
        requires
            self.wf(),
        ensures
            self.doc_names().contains_key(internal) ==> (r matches Some(name) && name@
                == self.doc_names()[internal]),
            !self.doc_names().contains_key(internal) ==> r is None,
    {
        match self.find_internal(internal) {
            Some(p) => {
                proof {
                    lemma_lookup_at(backward_view(self.backward@), p as int);
                }
                Some(self.backward[p].1.clone())
            },
            None => None,
        }
    }

    /// Records that `doc_id` is indexed under `internal`, in both maps; each
    /// replaces what its map held under its key.
    pub fn insert(&mut self, doc_id: &str, internal: u64)
        requires
            old(self).wf(),
        ensures
            final(self).wf(),
            final(self).internal_ids() == old(self).internal_ids().insert(doc_id@, internal),
            final(self).doc_names() == old(self).doc_names().insert(internal, doc_id@),
    {
        let ghost f0 = forward_view(self.forward@);
        let ghost b0 = backward_view(self.backward@);
        match self.find_doc(doc_id) {
            Some(p) => {
                self.forward.set(p, (doc_id.to_owned(), internal));
                proof {
                    assert(forward_view(self.forward@) =~= f0.update(p as int, (f0[p as int].0, internal)));
                    assert forall|key: Seq<char>| true implies lookup(forward_view(self.forward@), key)
                        == if key == doc_id@ { Some(internal) } else { lookup(f0, key) } by {
                        lemma_lookup_update(f0, p as int, internal, key);
                    }
                    lemma_lookup_update(f0, p as int, internal, doc_id@);
                }
            },
            None => {
                self.forward.push((doc_id.to_owned(), internal));
                proof {
                    assert(forward_view(self.forward@) =~= f0.push((doc_id@, internal)));
                    lemma_lookup_from(f0, doc_id@, 0);
                    assert forall|key: Seq<char>| true implies lookup(forward_view(self.forward@), key)
                        == if key == doc_id@ { Some(internal) } else { lookup(f0, key) } by {
                        lemma_lookup_push(f0, doc_id@, internal, key);
                    }
                    lemma_lookup_push(f0, doc_id@, internal, doc_id@);
                }
            },
        }
        assert(self.internal_ids() =~= as_map(f0).insert(doc_id@, internal));
        match self.find_internal(internal) {
            Some(p) => {
                self.backward.set(p, (internal, doc_id.to_owned()));
                proof {
                    assert(backward_view(self.backward@) =~= b0.update(p as int, (b0[p as int].0, doc_id@)));
                    assert forall|key: u64| true implies lookup(backward_view(self.backward@), key)
                        == if key == internal { Some(doc_id@) } else { lookup(b0, key) } by {
                        lemma_lookup_update(b0, p as int, doc_id@, key);
                    }
                    lemma_lookup_update(b0, p as int, doc_id@, internal);
                }
            },
            None => {
                self.backward.push((internal, doc_id.to_owned()));
                proof {
                    assert(backward_view(self.backward@) =~= b0.push((internal, doc_id@)));
                    lemma_lookup_from(b0, internal, 0);
                    assert forall|key: u64| true implies lookup(backward_view(self.backward@), key)
                        == if key == internal { Some(doc_id@) } else { lookup(b0, key) } by {
                        lemma_lookup_push(b0, internal, doc_id@, key);
                    }
                    lemma_lookup_push(b0, internal, doc_id@, internal);
                }
            },
        }
        assert(self.doc_names() =~= as_map(b0).insert(internal, doc_id@));
    }

    /// Forgets a document: its entry in the document map, and the entry of
    /// its internal ID in the other. Returns the internal ID it had.
    pub fn remove(&mut self, doc_id: &str) -> (r: Option<u64>)
        requires
            old(self).wf(),
        ensures
            final(self).wf(),
            old(self).internal_ids().contains_key(doc_id@) ==> r == Some(
                old(self).internal_ids()[doc_id@],
            ),
            !old(self).internal_ids().contains_key(doc_id@) ==> r is None,
            final(self).internal_ids() == old(self).internal_ids().remove(doc_id@),
            final(self).doc_names() == match r {
                Some(i) => old(self).doc_names().remove(i),
                None => old(self).doc_names(),
            },
    {
        let ghost f0 = forward_view(self.forward@);
        let ghost b0 = backward_view(self.backward@);
        let r = self.internal_id(doc_id);
        match self.find_doc(doc_id) {
            Some(p) => {
                self.forward.remove(p);
                proof {
                    assert(forward_view(self.forward@) =~= f0.remove(p as int));
                    assert forall|key: Seq<char>| true implies lookup(forward_view(self.forward@), key)
                        == if key == doc_id@ { None } else { lookup(f0, key) } by {
                        lemma_lookup_remove(f0, p as int, key);
                    }
                    lemma_lookup_remove(f0, p as int, doc_id@);
                }
                assert(self.internal_ids() =~= as_map(f0).remove(doc_id@));
            },
            None => {
                assert(self.internal_ids() =~= as_map(f0).remove(doc_id@));
            },
        }
        if let Some(internal) = r {
            match self.find_internal(internal) {
                Some(p) => {
                    self.backward.remove(p);
                    proof {
                        assert(backward_view(self.backward@) =~= b0.remove(p as int));
                        assert forall|key: u64| true implies lookup(backward_view(self.backward@), key)
                            == if key == internal { None } else { lookup(b0, key) } by {
                            lemma_lookup_remove(b0, p as int, key);
                        }
                        lemma_lookup_remove(b0, p as int, internal);
                    }
                    assert(self.doc_names() =~= as_map(b0).remove(internal));
                },
                None => {
                    assert(self.doc_names() =~= as_map(b0).remove(internal));
                },
            }
        }
        r
    }

    /// Names a document being inserted and finds its internal ID: the
    /// given name, or `doc_<n>` with the counter's next number; the
    /// internal ID already recorded for the name, or else the counter's
    /// next number, recorded both ways.
    pub fn assign(&mut self, counter: &mut DocIdCounter, id: Option<&str>) -> (r: (String, u64))
        requires
            old(self).wf(),
        ensures
            final(self).wf(),
            ({
                let (name, c1) = match id {
                    Some(s) => (s@, old(counter).next),
                    None => ("doc_"@ + decimal(old(counter).next as nat), after_next(old(counter).next)),
                };
                &&& r.0@ == name
                &&& old(self).internal_ids().contains_key(name) ==> {
                    &&& r.1 == old(self).internal_ids()[name]
                    &&& final(counter).next == c1
                    &&& final(self).internal_ids() == old(self).internal_ids()
                    &&& final(self).doc_names() == old(self).doc_names()
                }
                &&& !old(self).internal_ids().contains_key(name) ==> {
                    &&& r.1 == c1
                    &&& final(counter).next == after_next(c1)
                    &&& final(self).internal_ids() == old(self).internal_ids().insert(name, c1)
                    &&& final(self).doc_names() == old(self).doc_names().insert(c1, name)
                }
            }),
    {
        let name = match id {
            Some(s) => s.to_owned(),
            None => generated_doc_id(counter.next_doc_id()),
        };
        match self.internal_id(name.as_str()) {
            Some(existing) => (name, existing),
            None => {
                let fresh = counter.next_doc_id();
                self.insert(name.as_str(), fresh);
                (name, fresh)
            },
        }
    }
}

} // verus!
