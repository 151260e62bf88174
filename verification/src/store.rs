//! The annotation store: a mapping from relative path to description text.
//!
//! Entries are held sorted by path, so iteration and rendering are
//! deterministic whatever order entries were added in. Keys are unique,
//! keys and descriptions are never empty: setting an empty description
//! removes the entry instead.
use vstd::prelude::*;
use vstd::string::StrSliceExecFns;
use vstd::string::StringExecFns;
use crate::codec;
use crate::codec::pairs_view;
use crate::order::Cmp;
use crate::order::lex_lt;
use crate::order::lemma_lex_ne;
use crate::order::lemma_lex_trans;
use crate::order::str_compare;
use crate::Error;

verus! {

/// The mapping that a sequence of entries denotes; on a duplicate key the
/// earliest entry wins.
pub open spec fn map_of(es: Seq<(Seq<char>, Seq<char>)>) -> Map<Seq<char>, Seq<char>>
    decreases es.len(),
{
    if es.len() == 0 {
        Map::empty()
    } else {
        map_of(es.skip(1)).insert(es[0].0, es[0].1)
    }
}

/// Whether some entry has the key `k`.
pub open spec fn has_key(es: Seq<(Seq<char>, Seq<char>)>, k: Seq<char>) -> bool {
    exists|i: int| 0 <= i < es.len() && es[i].0 == k
}

/// Whether the keys are strictly sorted, which also makes them unique.
pub open spec fn sorted_keys(es: Seq<(Seq<char>, Seq<char>)>) -> bool {
    forall|i: int, j: int| 0 <= i < j < es.len() ==> lex_lt(es[i].0, es[j].0)
}

/// Whether no two entries share a key.
pub open spec fn distinct_keys(es: Seq<(Seq<char>, Seq<char>)>) -> bool {
    forall|i: int, j: int| 0 <= i < j < es.len() ==> es[i].0 != es[j].0
}

/// What `set` does to the mapping: an empty description removes the key,
/// any other inserts or overwrites it.
pub open spec fn store_set(
    m: Map<Seq<char>, Seq<char>>,
    k: Seq<char>,
    v: Seq<char>,
) -> Map<Seq<char>, Seq<char>> {
    if v.len() == 0 {
        m.remove(k)
    } else {
        m.insert(k, v)
    }
}

/// Strictly sorted keys are distinct.
pub proof fn lemma_sorted_distinct(es: Seq<(Seq<char>, Seq<char>)>)
    requires
        sorted_keys(es),
    ensures
        distinct_keys(es),
{
    assert forall|i: int, j: int| 0 <= i < j < es.len() implies es[i].0 != es[j].0 by {
        lemma_lex_ne(es[i].0, es[j].0);
    }
}

/// The mapping's domain is exactly the set of keys of the entries.
pub proof fn lemma_map_of_contains(es: Seq<(Seq<char>, Seq<char>)>, k: Seq<char>)
    ensures
        map_of(es).dom().contains(k) == has_key(es, k),
    decreases es.len(),
{
    if es.len() == 0 {
    } else {
        lemma_map_of_contains(es.skip(1), k);
        if es[0].0 == k {
            assert(has_key(es, k)) by {
                assert(0 <= 0 < es.len() && es[0].0 == k);
            }
        } else {
            if has_key(es.skip(1), k) {
                let i = choose|i: int| 0 <= i < es.skip(1).len() && es.skip(1)[i].0 == k;
                assert(es.skip(1)[i] == es[i + 1]);
                assert(has_key(es, k));
            }
            if has_key(es, k) {
                let i = choose|i: int| 0 <= i < es.len() && es[i].0 == k;
                assert(i != 0);
                assert(es.skip(1)[i - 1] == es[i]);
                assert(has_key(es.skip(1), k));
            }
        }
    }
}

/// An entry whose key no earlier entry shares gives the mapping's value at it.
pub proof fn lemma_map_of_index(es: Seq<(Seq<char>, Seq<char>)>, i: int)
    requires
        0 <= i < es.len(),
        forall|j: int| 0 <= j < i ==> (#[trigger] es[j]).0 != es[i].0,
    ensures
        map_of(es).dom().contains(es[i].0),
        map_of(es)[es[i].0] == es[i].1,
    decreases es.len(),
{
    if i == 0 {
    } else {
        assert forall|j: int| 0 <= j < i - 1 implies (#[trigger] es.skip(1)[j]).0 != es.skip(
            1,
        )[i - 1].0 by {
            assert(es.skip(1)[j] == es[j + 1]);
            assert(es.skip(1)[i - 1] == es[i]);
            assert(es[j + 1].0 != es[i].0);
        }
        lemma_map_of_index(es.skip(1), i - 1);
        assert(es.skip(1)[i - 1] == es[i]);
        assert(es[0].0 != es[i].0);
    }
}

/// Inserting a fresh key anywhere in the entries inserts it in the mapping.
pub proof fn lemma_map_of_insert(es: Seq<(Seq<char>, Seq<char>)>, i: int, k: Seq<char>, v: Seq<char>)
    requires
        0 <= i <= es.len(),
        forall|j: int| 0 <= j < es.len() ==> (#[trigger] es[j]).0 != k,
    ensures
        map_of(es.insert(i, (k, v))) == map_of(es).insert(k, v),
    decreases i,
{
    let t = es.insert(i, (k, v));
    es.insert_ensures(i, (k, v));
    if i == 0 {
        assert(t[0] == (k, v));
        assert(t.skip(1) =~= es) by {
            assert forall|j: int| 0 <= j < es.len() implies t.skip(1)[j] == es[j] by {
                assert(t.skip(1)[j] == t[j + 1]);
                assert(t[j + 1] == es[j]);
            }
        }
        assert(map_of(t) == map_of(es).insert(k, v));
    } else {
        let s1 = es.skip(1);
        s1.insert_ensures(i - 1, (k, v));
        assert(t[0] == es[0]);
        assert(t.skip(1) =~= s1.insert(i - 1, (k, v))) by {
            assert forall|j: int| 0 <= j < t.skip(1).len() implies t.skip(1)[j] == s1.insert(
                i - 1,
                (k, v),
            )[j] by {
                assert(t.skip(1)[j] == t[j + 1]);
                if j + 1 < i {
                    assert(t[j + 1] == es[j + 1]);
                    assert(s1[j] == es[j + 1]);
                    assert(s1.insert(i - 1, (k, v))[j] == s1[j]);
                } else if j + 1 == i {
                    assert(t[i] == (k, v));
                    assert(s1.insert(i - 1, (k, v))[i - 1] == (k, v));
                } else {
                    assert(t[j + 1] == es[j]);
                    assert(s1.insert(i - 1, (k, v))[(j - 1) + 1] == s1[j - 1]);
                    assert(s1[j - 1] == es[j]);
                }
            }
        }
        assert forall|j: int| 0 <= j < s1.len() implies (#[trigger] s1[j]).0 != k by {
            assert(s1[j] == es[j + 1]);
        }
        lemma_map_of_insert(s1, i - 1, k, v);
        assert(map_of(t) == map_of(s1.insert(i - 1, (k, v))).insert(es[0].0, es[0].1));
        assert(map_of(s1).insert(k, v).insert(es[0].0, es[0].1) =~= map_of(s1).insert(
            es[0].0,
            es[0].1,
        ).insert(k, v)) by {
            assert(es[0].0 != k);
        }
    }
}

/// Overwriting the value of an entry whose key no earlier entry shares
/// overwrites it in the mapping.
pub proof fn lemma_map_of_update(es: Seq<(Seq<char>, Seq<char>)>, i: int, v: Seq<char>)
    requires
        0 <= i < es.len(),
        forall|j: int| 0 <= j < i ==> (#[trigger] es[j]).0 != es[i].0,
    ensures
        map_of(es.update(i, (es[i].0, v))) == map_of(es).insert(es[i].0, v),
    decreases i,
{
    let k = es[i].0;
    let t = es.update(i, (k, v));
    if i == 0 {
        assert(t[0] == (k, v));
        assert(t.skip(1) =~= es.skip(1)) by {
            assert forall|j: int| 0 <= j < es.skip(1).len() implies t.skip(1)[j] == es.skip(
                1,
            )[j] by {
                assert(t.skip(1)[j] == t[j + 1]);
                assert(es.skip(1)[j] == es[j + 1]);
            }
        }
        assert(map_of(t) == map_of(es.skip(1)).insert(k, v));
        assert(map_of(es) == map_of(es.skip(1)).insert(k, es[0].1));
        assert(map_of(es.skip(1)).insert(k, es[0].1).insert(k, v) =~= map_of(es.skip(1)).insert(
            k,
            v,
        ));
    } else {
        let s1 = es.skip(1);
        assert(t[0] == es[0]);
        assert(s1[i - 1] == es[i]);
        assert(t.skip(1) =~= s1.update(i - 1, (k, v))) by {
            assert forall|j: int| 0 <= j < s1.len() implies t.skip(1)[j] == s1.update(
                i - 1,
                (k, v),
            )[j] by {
                assert(t.skip(1)[j] == t[j + 1]);
                assert(s1[j] == es[j + 1]);
            }
        }
        assert forall|j: int| 0 <= j < i - 1 implies (#[trigger] s1[j]).0 != s1[i - 1].0 by {
            assert(s1[j] == es[j + 1]);
        }
        lemma_map_of_update(s1, i - 1, v);
        assert(map_of(t) == map_of(s1.update(i - 1, (k, v))).insert(es[0].0, es[0].1));
        assert(map_of(s1).insert(k, v).insert(es[0].0, es[0].1) =~= map_of(s1).insert(
            es[0].0,
            es[0].1,
        ).insert(k, v)) by {
            assert(es[0].0 != k);
        }
    }
}

/// Removing the only entry with a key removes it from the mapping.
pub proof fn lemma_map_of_remove(es: Seq<(Seq<char>, Seq<char>)>, i: int)
    requires
        0 <= i < es.len(),
        forall|j: int| 0 <= j < es.len() && j != i ==> (#[trigger] es[j]).0 != es[i].0,
    ensures
        map_of(es.remove(i)) == map_of(es).remove(es[i].0),
    decreases i,
{
    let k = es[i].0;
    let t = es.remove(i);
    es.remove_ensures(i);
    if i == 0 {
        assert(t =~= es.skip(1)) by {
            assert forall|j: int| 0 <= j < t.len() implies t[j] == es.skip(1)[j] by {
                assert(t[j] == es[j + 1]);
                assert(es.skip(1)[j] == es[j + 1]);
            }
        }
        assert forall|j: int| 0 <= j < es.skip(1).len() implies (#[trigger] es.skip(1)[j]).0
            != k by {
            assert(es.skip(1)[j] == es[j + 1]);
        }
        lemma_map_of_contains(es.skip(1), k);
        assert(!map_of(es.skip(1)).dom().contains(k));
        assert(map_of(es) == map_of(es.skip(1)).insert(k, es[0].1));
        assert(map_of(es.skip(1)).insert(k, es[0].1).remove(k) =~= map_of(es.skip(1)));
    } else {
        let s1 = es.skip(1);
        s1.remove_ensures(i - 1);
        assert(t[0] == es[0]);
        assert(s1[i - 1] == es[i]);
        assert(t.skip(1) =~= s1.remove(i - 1)) by {
            assert forall|j: int| 0 <= j < t.skip(1).len() implies t.skip(1)[j] == s1.remove(
                i - 1,
            )[j] by {
                assert(t.skip(1)[j] == t[j + 1]);
                if j + 1 < i {
                    assert(t[j + 1] == es[j + 1]);
                    assert(s1.remove(i - 1)[j] == s1[j]);
                    assert(s1[j] == es[j + 1]);
                } else {
                    assert(t[j + 1] == es[j + 2]);
                    assert(s1.remove(i - 1)[j] == s1[j + 1]);
                    assert(s1[j + 1] == es[j + 2]);
                }
            }
        }
        assert forall|j: int| 0 <= j < s1.len() && j != i - 1 implies (#[trigger] s1[j]).0 != s1[i
            - 1].0 by {
            assert(s1[j] == es[j + 1]);
        }
        lemma_map_of_remove(s1, i - 1);
        assert(map_of(t) == map_of(s1.remove(i - 1)).insert(es[0].0, es[0].1));
        assert(map_of(s1).remove(k).insert(es[0].0, es[0].1) =~= map_of(s1).insert(
            es[0].0,
            es[0].1,
        ).remove(k)) by {
            assert(es[0].0 != k);
        }
    }
}

/// Appending an entry with a fresh key inserts it in the mapping.
pub proof fn lemma_map_of_push(es: Seq<(Seq<char>, Seq<char>)>, k: Seq<char>, v: Seq<char>)
    requires
        forall|j: int| 0 <= j < es.len() ==> (#[trigger] es[j]).0 != k,
    ensures
        map_of(es.push((k, v))) == map_of(es).insert(k, v),
    decreases es.len(),
{
    let t = es.push((k, v));
    if es.len() == 0 {
        assert(t[0] == (k, v));
        assert(t.skip(1) =~= Seq::<(Seq<char>, Seq<char>)>::empty());
        assert(map_of(t.skip(1)) == Map::<Seq<char>, Seq<char>>::empty());
        assert(map_of(t) == map_of(t.skip(1)).insert(k, v));
        assert(map_of(es) == Map::<Seq<char>, Seq<char>>::empty());
    } else {
        assert(t[0] == es[0]);
        assert(t.skip(1) =~= es.skip(1).push((k, v))) by {
            assert forall|j: int| 0 <= j < t.skip(1).len() implies t.skip(1)[j] == es.skip(1).push(
                (k, v),
            )[j] by {
                assert(t.skip(1)[j] == t[j + 1]);
                if j + 1 < es.len() {
                    assert(es.skip(1)[j] == es[j + 1]);
                }
            }
        }
        assert forall|j: int| 0 <= j < es.skip(1).len() implies (#[trigger] es.skip(1)[j]).0
            != k by {
            assert(es.skip(1)[j] == es[j + 1]);
        }
        lemma_map_of_push(es.skip(1), k, v);
        assert(map_of(t) == map_of(es.skip(1).push((k, v))).insert(es[0].0, es[0].1));
        assert(map_of(es.skip(1)).insert(k, v).insert(es[0].0, es[0].1) =~= map_of(
            es.skip(1),
        ).insert(es[0].0, es[0].1).insert(k, v)) by {
            assert(es[0].0 != k);
        }
    }
}

/// If every key sorts before `k` up to `i` and `k` sorts before the key at
/// `i` (or `i` is the end), then `k` is no entry's key.
proof fn lemma_key_absent(es: Seq<(Seq<char>, Seq<char>)>, k: Seq<char>, i: int)
    requires
        sorted_keys(es),
        0 <= i <= es.len(),
        forall|j: int| 0 <= j < i ==> lex_lt((#[trigger] es[j]).0, k),
        i == es.len() || lex_lt(k, es[i].0),
    ensures
        forall|j: int| 0 <= j < es.len() ==> (#[trigger] es[j]).0 != k,
{
    assert forall|j: int| 0 <= j < es.len() implies (#[trigger] es[j]).0 != k by {
        if j < i {
            lemma_lex_ne(es[j].0, k);
        } else if j == i {
            lemma_lex_ne(k, es[j].0);
        } else {
            lemma_lex_trans(k, es[i as int].0, es[j].0);
            lemma_lex_ne(k, es[j].0);
        }
    }
}

/// The persisted path-to-description mapping of one project tree.
///
/// The backing file's reading and writing belong to the caller; the store
/// itself is the mapping, kept sorted by path.
pub struct Store {
    entries: Vec<(String, String)>,
}

impl View for Store {
    type V = Map<Seq<char>, Seq<char>>;

    open spec fn view(&self) -> Map<Seq<char>, Seq<char>> {
        map_of(self.entries_view())
    }
}

impl Store {
    /// The entries as pairs of character sequences, in storage order.
    pub closed spec fn entries_view(&self) -> Seq<(Seq<char>, Seq<char>)> {
        pairs_view(self.entries@)
    }

    /// Well-formedness: paths strictly sorted (hence unique), no empty path,
    /// no empty description.
    pub open spec fn wf(&self) -> bool {
        &&& sorted_keys(self.entries_view())
        &&& forall|i: int|
            0 <= i < self.entries_view().len() ==> (#[trigger] self.entries_view()[i]).0.len() > 0
                && self.entries_view()[i].1.len() > 0
    }

    /// An empty store.
    pub fn new() -> (r: Store)
        ensures
            r.wf(),
            r@ == Map::<Seq<char>, Seq<char>>::empty(),
            r.entries_view() == Seq::<(Seq<char>, Seq<char>)>::empty(),
    {
        let r = Store { entries: Vec::new() };
        proof {
            assert(r.entries_view() =~= Seq::<(Seq<char>, Seq<char>)>::empty());
            assert(map_of(r.entries_view()) == Map::<Seq<char>, Seq<char>>::empty());
        }
        r
    }

    /// Where `path` is or would be among the sorted entries: the first index
    /// whose key does not sort before `path`, and whether it carries `path`.
    fn find_slot(&self, path: &str) -> (r: (usize, bool))
        requires
            self.wf(),
        ensures
            r.0 <= self.entries_view().len(),
            forall|j: int| 0 <= j < r.0 ==> lex_lt((#[trigger] self.entries_view()[j]).0, path@),
            r.1 ==> r.0 < self.entries_view().len() && self.entries_view()[r.0 as int].0 == path@,
            !r.1 ==> r.0 == self.entries_view().len() || lex_lt(
                path@,
                self.entries_view()[r.0 as int].0,
            ),
    {
        let n = self.entries.len();
        let mut i: usize = 0;
        while i < n
            invariant
                i <= n,
                n == self.entries@.len(),
                self.wf(),
                forall|j: int| 0 <= j < i ==> lex_lt((#[trigger] self.entries_view()[j]).0, path@),
            decreases n - i,
        {
            let c = str_compare(path, self.entries[i].0.as_str());
            proof {
                assert(self.entries_view()[i as int].0 == self.entries@[i as int].0@);
            }
            if c == Cmp::Eq {
                return (i, true);
            }
            if c == Cmp::Lt {
                return (i, false);
            }
            i = i + 1;
        }
        (n, false)
    }

    /// The description recorded for `path`, if any.
    pub fn get<'a>(&'a self, path: &str) -> (r: Option<&'a String>)
        requires
            self.wf(),
        ensures
            match r {
                Some(d) => self@.dom().contains(path@) && d@ == self@[path@],
                None => !self@.dom().contains(path@),
            },
    {
        let (i, found) = self.find_slot(path);
        if found {
            proof {
                let ev = self.entries_view();
                assert forall|j: int| 0 <= j < i implies (#[trigger] ev[j]).0 != ev[i as int].0 by {
                    lemma_lex_ne(ev[j].0, path@);
                }
                lemma_map_of_index(ev, i as int);
                assert(ev[i as int].1 == self.entries@[i as int].1@);
            }
            Some(&self.entries[i].1)
        } else {
            proof {
                let ev = self.entries_view();
                lemma_key_absent(ev, path@, i as int);
                lemma_map_of_contains(ev, path@);
            }
            None
        }
    }

    /// Records `text` as the description of `path`; an empty `text` removes
    /// the entry instead, so an empty description is never stored.
    pub fn set(&mut self, path: &str, text: &str)
        requires
            old(self).wf(),
            path@.len() > 0,
        ensures
            final(self).wf(),
            final(self)@ == store_set(old(self)@, path@, text@),
    {
        if text.unicode_len() == 0 {
            self.remove(path);
        } else {
            self.insert_described(path, text);
        }
    }

    /// Inserts or overwrites the entry for `path` with the non-empty `text`.
    fn insert_described(&mut self, path: &str, text: &str)
        requires
            old(self).wf(),
            path@.len() > 0,
            text@.len() > 0,
        ensures
            final(self).wf(),
            final(self)@ == old(self)@.insert(path@, text@),
    {
        let ghost ev = old(self).entries_view();
        let (i, found) = self.find_slot(path);
        if found {
            let pair = self.entries.remove(i);
            let kept_key = pair.0;
            self.entries.insert(i, (kept_key, String::from_str(text)));
            proof {
                let t = self.entries_view();
                ev.remove_ensures(i as int);
                old(self).entries@.remove(i as int).insert_ensures(
                    i as int,
                    self.entries@[i as int],
                );
                assert(t =~= ev.update(i as int, (path@, text@))) by {
                    assert forall|j: int| 0 <= j < t.len() implies t[j] == ev.update(
                        i as int,
                        (path@, text@),
                    )[j] by {
                        assert(t[j] == (self.entries@[j].0@, self.entries@[j].1@));
                        assert(ev[j] == (old(self).entries@[j].0@, old(self).entries@[j].1@));
                        if j < i {
                            assert(self.entries@[j] == old(self).entries@.remove(i as int)[j]);
                            assert(old(self).entries@.remove(i as int)[j] == old(
                                self,
                            ).entries@[j]);
                        } else if j == i {
                            assert(self.entries@[j].1@ == text@);
                            assert(self.entries@[j].0 == old(self).entries@[i as int].0);
                        } else {
                            assert(self.entries@[j] == old(self).entries@.remove(i as int)[j - 1]);
                            assert(old(self).entries@.remove(i as int)[j - 1] == old(
                                self,
                            ).entries@[j]);
                        }
                    }
                }
                assert forall|j: int| 0 <= j < i implies (#[trigger] ev[j]).0 != ev[i as int].0 by {
                    lemma_lex_ne(ev[j].0, path@);
                }
                lemma_map_of_update(ev, i as int, text@);
                assert(ev[i as int].0 == path@);
                let u = ev.update(i as int, (path@, text@));
                assert forall|a: int, b: int| 0 <= a < b < u.len() implies lex_lt(
                    (#[trigger] u[a]).0,
                    (#[trigger] u[b]).0,
                ) by {
                    assert(u[a].0 == ev[a].0);
                    assert(u[b].0 == ev[b].0);
                }
                assert(final(self).wf());
            }
        } else {
            self.entries.insert(i, (String::from_str(path), String::from_str(text)));
            proof {
                let t = self.entries_view();
                ev.insert_ensures(i as int, (path@, text@));
                old(self).entries@.insert_ensures(i as int, self.entries@[i as int]);
                assert(t =~= ev.insert(i as int, (path@, text@))) by {
                    assert forall|j: int| 0 <= j < t.len() implies t[j] == ev.insert(
                        i as int,
                        (path@, text@),
                    )[j] by {
                        assert(t[j] == (self.entries@[j].0@, self.entries@[j].1@));
                        if j < i {
                            assert(self.entries@[j] == old(self).entries@[j]);
                            assert(ev[j] == (old(self).entries@[j].0@, old(self).entries@[j].1@));
                        } else if j == i {
                            assert(self.entries@[i as int].0@ == path@);
                        } else {
                            assert(self.entries@[(j - 1) + 1] == old(self).entries@[j - 1]);
                            assert(ev[j - 1] == (
                                old(self).entries@[j - 1].0@,
                                old(self).entries@[j - 1].1@,
                            ));
                        }
                    }
                }
                lemma_key_absent(ev, path@, i as int);
                lemma_map_of_insert(ev, i as int, path@, text@);
                let u = ev.insert(i as int, (path@, text@));
                assert forall|a: int, b: int| 0 <= a < b < u.len() implies lex_lt(
                    (#[trigger] u[a]).0,
                    (#[trigger] u[b]).0,
                ) by {
                    if b < i {
                        assert(u[a].0 == ev[a].0);
                        assert(u[b].0 == ev[b].0);
                    } else if b == i {
                        assert(u[a].0 == ev[a].0);
                        assert(u[b].0 == path@);
                    } else if a < i {
                        assert(u[a].0 == ev[a].0);
                        assert(u[b].0 == ev[b - 1].0);
                        if b - 1 == i {
                            if i < ev.len() {
                                lemma_lex_trans(ev[a].0, path@, ev[i as int].0);
                            }
                        } else {
                            assert(a < b - 1);
                        }
                    } else if a == i {
                        assert(u[a].0 == path@);
                        assert(u[b].0 == ev[b - 1].0);
                        if b - 1 == i {
                            assert(lex_lt(path@, ev[i as int].0));
                        } else {
                            lemma_lex_trans(path@, ev[i as int].0, ev[b - 1].0);
                        }
                    } else {
                        assert(u[a].0 == ev[a - 1].0);
                        assert(u[b].0 == ev[b - 1].0);
                    }
                }
                assert(final(self).wf());
            }
        }
    }

    /// Removes the entry for `path`, if there is one; removing an absent
    /// path leaves the store as it is, so removal is idempotent.
    pub fn remove(&mut self, path: &str)
        requires
            old(self).wf(),
        ensures
            final(self).wf(),
            final(self)@ == old(self)@.remove(path@),
    {
        let ghost ev = old(self).entries_view();
        let (i, found) = self.find_slot(path);
        if found {
            self.entries.remove(i);
            proof {
                let t = self.entries_view();
                ev.remove_ensures(i as int);
                old(self).entries@.remove_ensures(i as int);
                assert(t =~= ev.remove(i as int)) by {
                    assert forall|j: int| 0 <= j < t.len() implies t[j] == ev.remove(
                        i as int,
                    )[j] by {
                        assert(t[j] == (self.entries@[j].0@, self.entries@[j].1@));
                        if j < i {
                            assert(self.entries@[j] == old(self).entries@[j]);
                            assert(ev[j] == (old(self).entries@[j].0@, old(self).entries@[j].1@));
                        } else {
                            assert(self.entries@[j] == old(self).entries@[j + 1]);
                            assert(ev[j + 1] == (
                                old(self).entries@[j + 1].0@,
                                old(self).entries@[j + 1].1@,
                            ));
                        }
                    }
                }
                assert forall|j: int| 0 <= j < ev.len() && j != i implies (#[trigger] ev[j]).0
                    != ev[i as int].0 by {
                    if j < i {
                        lemma_lex_ne(ev[j].0, path@);
                    } else {
                        lemma_lex_ne(ev[i as int].0, ev[j].0);
                    }
                }
                lemma_map_of_remove(ev, i as int);
                assert(ev[i as int].0 == path@);
                let u = ev.remove(i as int);
                assert forall|a: int, b: int| 0 <= a < b < u.len() implies lex_lt(
                    (#[trigger] u[a]).0,
                    (#[trigger] u[b]).0,
                ) by {
                    if b < i {
                    } else if a < i {
                        assert(u[a].0 == ev[a].0);
                        assert(u[b].0 == ev[b + 1].0);
                    } else {
                        assert(u[a].0 == ev[a + 1].0);
                        assert(u[b].0 == ev[b + 1].0);
                    }
                }
                assert(final(self).wf());
            }
        } else {
            proof {
                lemma_key_absent(ev, path@, i as int);
                lemma_map_of_contains(ev, path@);
                assert(map_of(ev).remove(path@) =~= map_of(ev));
            }
        }
    }

    /// All annotated paths, in sorted order: a snapshot that iteration over
    /// the live store cannot perturb.
    pub fn known_paths(&self) -> (r: Vec<String>)
        requires
            self.wf(),
        ensures
            r@.len() == self.entries_view().len(),
            forall|i: int| 0 <= i < r@.len() ==> (#[trigger] r@[i])@ == self.entries_view()[i].0,
            forall|i: int, j: int| 0 <= i < j < r@.len() ==> lex_lt(r@[i]@, r@[j]@),
            forall|i: int| 0 <= i < r@.len() ==> self@.dom().contains(#[trigger] r@[i]@),
            forall|k: Seq<char>| self@.dom().contains(k) ==> has_key(self.entries_view(), k),
    {
        let n = self.entries.len();
        let mut r: Vec<String> = Vec::new();
        let mut i: usize = 0;
        while i < n
            invariant
                i <= n,
                n == self.entries@.len(),
                r@.len() == i,
                forall|j: int| 0 <= j < i ==> (#[trigger] r@[j])@ == self.entries_view()[j].0,
            decreases n - i,
        {
            let k = self.entries[i].0.clone();
            r.push(k);
            i = i + 1;
        }
        proof {
            let ev = self.entries_view();
            lemma_sorted_distinct(ev);
            assert forall|i: int| 0 <= i < r@.len() implies self@.dom().contains(
                #[trigger] r@[i]@,
            ) by {
                assert forall|j: int| 0 <= j < i implies (#[trigger] ev[j]).0 != ev[i].0 by {
                    lemma_lex_ne(ev[j].0, ev[i].0);
                }
                lemma_map_of_index(ev, i);
            }
            assert forall|k: Seq<char>| self@.dom().contains(k) implies has_key(ev, k) by {
                lemma_map_of_contains(ev, k);
            }
        }
        r
    }

    /// The backing file's text for this store.
    pub fn encode(&self) -> (r: String)
        ensures
            r@ == codec::encode_entries(self.entries_view()),
    {
        codec::encode_pairs(&self.entries)
    }

    /// Loads a store from a backing file's text. Text that is not in the
    /// format, repeats a path, or holds an empty path or description is
    /// rejected as malformed.
    pub fn load(text: &str) -> (r: Result<Store, Error>)
        ensures
            r is Ok <==> loadable(text@),
            r is Ok ==> r->Ok_0.wf() && r->Ok_0@ == map_of(codec::parse(text@)->Some_0),
            r is Err ==> r->Err_0 == Error::Malformed,
    {
        let pairs = match codec::decode(text) {
            Some(p) => p,
            None => {
                return Err(Error::Malformed);
            },
        };
        let ghost pv = pairs_view(pairs@);
        let mut st = Store::new();
        let n = pairs.len();
        let mut i: usize = 0;
        proof {
            assert(pv.take(0) =~= Seq::<(Seq<char>, Seq<char>)>::empty());
            assert(st@ == map_of(pv.take(0)));
        }
        while i < n
            invariant
                i <= n,
                n == pairs@.len(),
                codec::parse(text@) == Some(pv),
                pv == pairs_view(pairs@),
                st.wf(),
                st@ == map_of(pv.take(i as int)),
                forall|a: int, b: int| 0 <= a < b < i ==> (#[trigger] pv[a]).0 != (
                #[trigger] pv[b]).0,
                forall|j: int| 0 <= j < i ==> (#[trigger] pv[j]).0.len() > 0 && pv[j].1.len() > 0,
            decreases n - i,
        {
            let key = &pairs[i].0;
            let val = &pairs[i].1;
            proof {
                assert(pv[i as int] == (key@, val@));
            }
            if key.as_str().unicode_len() == 0 || val.as_str().unicode_len() == 0 {
                proof {
                    assert(!loadable(text@)) by {
                        assert(pv[i as int].0.len() == 0 || pv[i as int].1.len() == 0);
                    }
                }
                return Err(Error::Malformed);
            }
            let already = st.get(key.as_str()).is_some();
            proof {
                lemma_map_of_contains(pv.take(i as int), key@);
                assert forall|j: int| 0 <= j < i implies pv.take(i as int)[j] == pv[j] by {}
            }
            if already {
                proof {
                    let j = choose|j: int|
                        0 <= j < pv.take(i as int).len() && pv.take(i as int)[j].0 == key@;
                    assert(pv[j].0 == pv[i as int].0);
                    assert(!distinct_keys(pv));
                }
                return Err(Error::Malformed);
            }
            st.set(key.as_str(), val.as_str());
            proof {
                assert forall|j: int| 0 <= j < pv.take(i as int).len() implies (#[trigger] pv.take(
                    i as int,
                )[j]).0 != key@ by {
                    assert(!has_key(pv.take(i as int), key@));
                }
                lemma_map_of_push(pv.take(i as int), key@, val@);
                assert(pv.take(i as int).push((key@, val@)) =~= pv.take(i + 1));
            }
            i = i + 1;
        }
        proof {
            assert(pv.take(n as int) =~= pv);
            assert(distinct_keys(pv));
            assert(loadable(text@));
        }
        Ok(st)
    }
}

/// Whether a backing file's text decodes to a well-formed mapping: it is in
/// the format, and its entries have unique keys and no empty path or
/// description.
pub open spec fn loadable(s: Seq<char>) -> bool {
    match codec::parse(s) {
        Some(es) => distinct_keys(es) && (forall|i: int|
            0 <= i < es.len() ==> (#[trigger] es[i]).0.len() > 0 && es[i].1.len() > 0),
        None => false,
    }
}

/// Setting a non-empty description and then reading the path gives it back.
pub proof fn lemma_set_then_get(m: Map<Seq<char>, Seq<char>>, p: Seq<char>, d: Seq<char>)
    requires
        d.len() > 0,
    ensures
        store_set(m, p, d).dom().contains(p),
        store_set(m, p, d)[p] == d,
{
}

/// After removing a path, it has no description.
pub proof fn lemma_remove_then_get(m: Map<Seq<char>, Seq<char>>, p: Seq<char>)
    ensures
        !m.remove(p).dom().contains(p),
{
}

/// Setting an empty description is exactly removal, so an empty description
/// is never stored.
pub proof fn lemma_set_empty_is_remove(m: Map<Seq<char>, Seq<char>>, p: Seq<char>, d: Seq<char>)
    requires
        d.len() == 0,
    ensures
        store_set(m, p, d) == m.remove(p),
{
}

/// Removing a path twice leaves the store as removing it once does.
pub proof fn lemma_remove_idempotent(m: Map<Seq<char>, Seq<char>>, p: Seq<char>)
    ensures
        m.remove(p).remove(p) == m.remove(p),
{
    assert(m.remove(p).remove(p) =~= m.remove(p));
}

/// A well-formed store maps no path to an empty description, and has no
/// empty path.
pub proof fn lemma_wf_no_empty(st: Store)
    requires
        st.wf(),
    ensures
        forall|k: Seq<char>| #[trigger] st@.dom().contains(k) ==> st@[k].len() > 0 && k.len() > 0,
{
    let ev = st.entries_view();
    lemma_sorted_distinct(ev);
    assert forall|k: Seq<char>| #[trigger] st@.dom().contains(k) implies st@[k].len() > 0 && k.len()
        > 0 by {
        lemma_map_of_contains(ev, k);
        let i = choose|i: int| 0 <= i < ev.len() && ev[i].0 == k;
        assert forall|j: int| 0 <= j < i implies (#[trigger] ev[j]).0 != ev[i].0 by {}
        lemma_map_of_index(ev, i);
    }
}

/// Entry sequences with strictly sorted keys are determined by their
/// mapping: sorting makes the stored form canonical.
pub proof fn lemma_map_of_injective(a: Seq<(Seq<char>, Seq<char>)>, b: Seq<(Seq<char>, Seq<char>)>)
    requires
        sorted_keys(a),
        sorted_keys(b),
        map_of(a) == map_of(b),
    ensures
        a == b,
    decreases a.len(),
{
    if a.len() == 0 && b.len() == 0 {
        assert(a =~= b);
    } else if a.len() == 0 {
        lemma_map_of_contains(a, b[0].0);
        lemma_map_of_contains(b, b[0].0);
        assert(has_key(b, b[0].0)) by {
            assert(0 <= 0 < b.len() && b[0].0 == b[0].0);
        }
        assert(false);
    } else if b.len() == 0 {
        lemma_map_of_contains(a, a[0].0);
        lemma_map_of_contains(b, a[0].0);
        assert(has_key(a, a[0].0)) by {
            assert(0 <= 0 < a.len() && a[0].0 == a[0].0);
        }
        assert(false);
    } else {
        // The head keys agree: each is the other's minimum.
        lemma_map_of_contains(a, b[0].0);
        lemma_map_of_contains(b, a[0].0);
        assert(has_key(a, a[0].0)) by {
            assert(0 <= 0 < a.len() && a[0].0 == a[0].0);
        }
        assert(has_key(b, b[0].0)) by {
            assert(0 <= 0 < b.len() && b[0].0 == b[0].0);
        }
        lemma_map_of_contains(a, a[0].0);
        lemma_map_of_contains(b, b[0].0);
        let i = choose|i: int| 0 <= i < a.len() && a[i].0 == b[0].0;
        let j = choose|j: int| 0 <= j < b.len() && b[j].0 == a[0].0;
        if i > 0 && j > 0 {
            assert(lex_lt(a[0].0, a[i].0));
            assert(lex_lt(b[0].0, b[j].0));
            crate::order::lemma_lex_asym(a[0].0, b[0].0);
            assert(false);
        }
        assert(a[0].0 == b[0].0);
        // The head values agree: both are the mapping's value at that key.
        assert forall|m: int| 0 <= m < 0 implies (#[trigger] a[m]).0 != a[0].0 by {}
        lemma_map_of_index(a, 0);
        lemma_map_of_index(b, 0);
        assert(a[0].1 == b[0].1);
        // The tails carry the mapping without the head key, and recurse.
        lemma_sorted_distinct(a);
        lemma_sorted_distinct(b);
        a.remove_ensures(0);
        b.remove_ensures(0);
        assert(a.remove(0) =~= a.skip(1));
        assert(b.remove(0) =~= b.skip(1));
        lemma_map_of_remove(a, 0);
        lemma_map_of_remove(b, 0);
        assert forall|x: int, y: int| 0 <= x < y < a.skip(1).len() implies lex_lt(
            (#[trigger] a.skip(1)[x]).0,
            (#[trigger] a.skip(1)[y]).0,
        ) by {
            assert(a.skip(1)[x] == a[x + 1]);
            assert(a.skip(1)[y] == a[y + 1]);
        }
        assert forall|x: int, y: int| 0 <= x < y < b.skip(1).len() implies lex_lt(
            (#[trigger] b.skip(1)[x]).0,
            (#[trigger] b.skip(1)[y]).0,
        ) by {
            assert(b.skip(1)[x] == b[x + 1]);
            assert(b.skip(1)[y] == b[y + 1]);
        }
        lemma_map_of_injective(a.skip(1), b.skip(1));
        assert(a =~= b) by {
            assert forall|m: int| 0 <= m < a.len() implies a[m] == b[m] by {
                if m > 0 {
                    assert(a.skip(1)[m - 1] == a[m]);
                    assert(b.skip(1)[m - 1] == b[m]);
                }
            }
        }
    }
}

/// Two well-formed stores with the same mapping hold the same entries and
/// write the same backing text: persistence is canonical.
pub proof fn lemma_encode_deterministic(s1: Store, s2: Store)
    requires
        s1.wf(),
        s2.wf(),
        s1@ == s2@,
    ensures
        s1.entries_view() == s2.entries_view(),
        codec::encode_entries(s1.entries_view()) == codec::encode_entries(s2.entries_view()),
{
    lemma_map_of_injective(s1.entries_view(), s2.entries_view());
}

/// Encoding a well-formed store and decoding the text reproduces its entries
/// and so its mapping: the backing file loses nothing.
pub proof fn lemma_store_round_trip(st: Store)
    requires
        st.wf(),
    ensures
        codec::parse(codec::encode_entries(st.entries_view())) == Some(st.entries_view()),
        loadable(codec::encode_entries(st.entries_view())),
        map_of(codec::parse(codec::encode_entries(st.entries_view()))->Some_0) == st@,
{
    codec::lemma_parse_encode(st.entries_view());
    lemma_sorted_distinct(st.entries_view());
}

} // verus!
