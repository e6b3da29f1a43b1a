//! A verified association map from `String` keys to values, and a set of
//! strings. Keys are compared by their character sequences; entries keep
//! insertion order, and keys are unique. The map's view takes each value to
//! its own view.

use vstd::prelude::*;

use crate::text::str_eq;

verus! {

/// The keys of a ghost entry sequence, in order.
pub open spec fn keys_of<B>(s: Seq<(Seq<char>, B)>) -> Seq<Seq<char>> {
    s.map_values(|e: (Seq<char>, B)| e.0)
}

/// No two entries share a key.
pub open spec fn keys_unique<B>(s: Seq<(Seq<char>, B)>) -> bool {
    forall|i: int, j: int| 0 <= i < j < s.len() ==> keys_of(s)[i] != keys_of(s)[j]
}

/// Some entry of `s` carries the key `k`.
pub open spec fn has_key<B>(s: Seq<(Seq<char>, B)>, k: Seq<char>) -> bool {
    exists|i: int| 0 <= i < s.len() && keys_of(s)[i] == k
}

/// The values of a ghost entry sequence, in order.
pub open spec fn vals_of<B>(s: Seq<(Seq<char>, B)>) -> Seq<B> {
    s.map_values(|e: (Seq<char>, B)| e.1)
}

/// The map that an entry sequence denotes; later entries win.
pub open spec fn map_of<B>(s: Seq<(Seq<char>, B)>) -> Map<Seq<char>, B>
    decreases s.len(),
{
    if s.len() == 0 {
        Map::empty()
    } else {
        map_of(s.drop_last()).insert(s.last().0, s.last().1)
    }
}

/// Unique keys stay unique when the last entry goes.
proof fn lemma_unique_drop_last<B>(s: Seq<(Seq<char>, B)>)
    requires
        keys_unique(s),
        s.len() > 0,
    ensures
        keys_unique(s.drop_last()),
{
    assert forall|p: int, q: int|
        0 <= p < q < s.drop_last().len() implies keys_of(s.drop_last())[p] != keys_of(
        s.drop_last(),
    )[q] by {
        assert(keys_of(s)[p] != keys_of(s)[q]);
    }
}

/// A key is in the denoted map exactly when some entry carries it.
pub proof fn lemma_map_of_dom<B>(s: Seq<(Seq<char>, B)>)
    ensures
        forall|k: Seq<char>| map_of(s).dom().contains(k) <==> has_key(s, k),
        map_of(s).dom().finite(),
    decreases s.len(),
{
    if s.len() == 0 {
    } else {
        lemma_map_of_dom(s.drop_last());
        assert forall|k: Seq<char>| map_of(s).dom().contains(k) implies has_key(s, k) by {
            if k == s.last().0 {
                assert(keys_of(s)[s.len() - 1] == k);
            } else {
                assert(map_of(s) == map_of(s.drop_last()).insert(s.last().0, s.last().1));
                assert(map_of(s.drop_last()).dom().contains(k));
                assert(has_key(s.drop_last(), k));
                let i = choose|i: int| 0 <= i < s.drop_last().len() && keys_of(s.drop_last())[i] == k;
                assert(keys_of(s.drop_last())[i] == s.drop_last()[i].0);
                assert(keys_of(s)[i] == k);
            }
        }
        assert forall|k: Seq<char>| has_key(s, k) implies map_of(s).dom().contains(k) by {
            let i = choose|i: int| 0 <= i < s.len() && keys_of(s)[i] == k;
            if i < s.len() - 1 {
                assert(keys_of(s)[i] == s[i].0);
                assert(keys_of(s.drop_last())[i] == k);
                assert(has_key(s.drop_last(), k));
                assert(map_of(s.drop_last()).dom().contains(k));
            } else {
                assert(k == s.last().0);
            }
        }
    }
}

/// With unique keys, each entry is in the denoted map at its key.
pub proof fn lemma_map_of_index<B>(s: Seq<(Seq<char>, B)>, i: int)
    requires
        keys_unique(s),
        0 <= i < s.len(),
    ensures
        map_of(s).dom().contains(keys_of(s)[i]),
        map_of(s)[keys_of(s)[i]] == s[i].1,
    decreases s.len(),
{
    if i == s.len() - 1 {
    } else {
        lemma_unique_drop_last(s);
        assert(keys_of(s.drop_last())[i] == keys_of(s)[i]);
        lemma_map_of_index(s.drop_last(), i);
        assert(keys_of(s)[i] != keys_of(s)[s.len() - 1]);
    }
}

/// With unique keys, the denoted map has one element per entry.
pub proof fn lemma_map_of_len<B>(s: Seq<(Seq<char>, B)>)
    requires
        keys_unique(s),
    ensures
        map_of(s).dom().finite(),
        map_of(s).dom().len() == s.len(),
    decreases s.len(),
{
    lemma_map_of_dom(s);
    if s.len() == 0 {
        assert(map_of(s).dom() =~= Set::<Seq<char>>::empty());
    } else {
        lemma_unique_drop_last(s);
        lemma_map_of_len(s.drop_last());
        lemma_map_of_dom(s.drop_last());
        let last_key = s.last().0;
        assert(!map_of(s.drop_last()).dom().contains(last_key)) by {
            if map_of(s.drop_last()).dom().contains(last_key) {
                assert(has_key(s.drop_last(), last_key));
                let i = choose|i: int|
                    0 <= i < s.drop_last().len() && keys_of(s.drop_last())[i] == last_key;
                assert(keys_of(s.drop_last())[i] == s.drop_last()[i].0);
                assert(keys_of(s)[i] == keys_of(s)[s.len() - 1]);
            }
        }
    }
}

/// Updating an entry in place with an equal key updates the denoted map.
proof fn lemma_map_of_update<B>(s: Seq<(Seq<char>, B)>, i: int, e: (Seq<char>, B))
    requires
        keys_unique(s),
        0 <= i < s.len(),
        e.0 == keys_of(s)[i],
    ensures
        map_of(s.update(i, e)) =~= map_of(s).insert(e.0, e.1),
    decreases s.len(),
{
    lemma_unique_drop_last(s);
    if i == s.len() - 1 {
        assert(s.update(i, e).drop_last() =~= s.drop_last());
    } else {
        assert(s.update(i, e).drop_last() =~= s.drop_last().update(i, e));
        assert(keys_of(s.drop_last())[i] == keys_of(s)[i]);
        lemma_map_of_update(s.drop_last(), i, e);
        assert(keys_of(s)[s.len() - 1] != e.0);
    }
}

/// Removing the entry at `i` removes its key from the denoted map.
proof fn lemma_map_of_remove<B>(s: Seq<(Seq<char>, B)>, i: int)
    requires
        keys_unique(s),
        0 <= i < s.len(),
    ensures
        map_of(s.remove(i)) =~= map_of(s).remove(keys_of(s)[i]),
    decreases s.len(),
{
    lemma_unique_drop_last(s);
    lemma_map_of_dom(s.drop_last());
    if i == s.len() - 1 {
        assert(s.remove(i) =~= s.drop_last());
        assert(!map_of(s.drop_last()).dom().contains(keys_of(s)[i])) by {
            if map_of(s.drop_last()).dom().contains(keys_of(s)[i]) {
                assert(has_key(s.drop_last(), keys_of(s)[i]));
                let j = choose|j: int|
                    0 <= j < s.drop_last().len() && keys_of(s.drop_last())[j] == keys_of(s)[i];
                assert(keys_of(s.drop_last())[j] == s.drop_last()[j].0);
                assert(keys_of(s)[j] == keys_of(s)[i]);
            }
        }
        assert(map_of(s.drop_last()).remove(keys_of(s)[i]) =~= map_of(s.drop_last()));
    } else {
        assert(s.remove(i).drop_last() =~= s.drop_last().remove(i));
        assert(s.remove(i).last() == s.last());
        assert(keys_of(s.drop_last())[i] == keys_of(s)[i]);
        lemma_map_of_remove(s.drop_last(), i);
        assert(keys_of(s)[s.len() - 1] != keys_of(s)[i]);
    }
}

/// Well-formedness rests on the keys alone: a map whose keys read the same
/// as a well-formed map's is well formed. Useful after an in-place value
/// update, which keeps the keys.
pub proof fn lemma_wf_from_keys<V: View>(m1: &StrMap<V>, m2: &StrMap<V>)
    requires
        m1.wf(),
        m2.keys_seq() == m1.keys_seq(),
    ensures
        m2.wf(),
{
    assert(keys_of(m2.eview()).len() == m2.eview().len());
    assert(keys_of(m1.eview()).len() == m1.eview().len());
    assert forall|i: int, j: int|
        0 <= i < j < m2.eview().len() implies keys_of(m2.eview())[i] != keys_of(
        m2.eview(),
    )[j] by {
        assert(keys_of(m1.eview())[i] != keys_of(m1.eview())[j]);
    }
}

/// An association map from `String` keys to values. Entries keep insertion
/// order; `wf` says the keys are unique. The view takes each value to its
/// view.
#[derive(Debug)]
pub struct StrMap<V> {
    pub entries: Vec<(String, V)>,
}

impl<V: View> StrMap<V> {
    /// The entries as (key view, value view) pairs, in insertion order.
    pub open spec fn eview(&self) -> Seq<(Seq<char>, V::V)> {
        self.entries@.map_values(|e: (String, V)| (e.0@, e.1@))
    }

    /// The keys are unique.
    pub open spec fn wf(&self) -> bool {
        keys_unique(self.eview())
    }

    /// The key views in insertion order.
    pub open spec fn keys_seq(&self) -> Seq<Seq<char>> {
        keys_of(self.eview())
    }
}

impl<V: View> View for StrMap<V> {
    type V = Map<Seq<char>, V::V>;

    open spec fn view(&self) -> Map<Seq<char>, V::V> {
        map_of(self.eview())
    }
}

impl<V: View> StrMap<V> {
    pub fn new() -> (r: Self)
        ensures
            r.wf(),
            r@ == Map::<Seq<char>, V::V>::empty(),
            r.eview().len() == 0,
    {
        StrMap { entries: Vec::new() }
    }

    pub fn len(&self) -> (n: usize)
        requires
            self.wf(),
        ensures
            n == self.eview().len(),
            n == self@.dom().len(),
    {
        proof {
            lemma_map_of_len(self.eview());
        }
        self.entries.len()
    }

    pub fn is_empty(&self) -> (r: bool)
        requires
            self.wf(),
        ensures
            r == (self.eview().len() == 0),
            r == (self@.dom() =~= Set::<Seq<char>>::empty()),
    {
        proof {
            lemma_map_of_dom(self.eview());
            if self.eview().len() > 0 {
                assert(has_key(self.eview(), keys_of(self.eview())[0]));
                assert(self@.dom().contains(keys_of(self.eview())[0]));
            }
        }
        self.entries.is_empty()
    }

    /// The index of the entry that carries `k`, if any.
    fn index_of(&self, k: &str) -> (r: Option<usize>)
        ensures
            match r {
                Some(i) => i < self.eview().len() && self.keys_seq()[i as int] == k@ && has_key(
                    self.eview(),
                    k@,
                ),
                None => !has_key(self.eview(), k@),
            },
    {
        let n = self.entries.len();
        let mut i: usize = 0;
        while i < n
            invariant
                n == self.eview().len(),
                i <= n,
                forall|j: int| 0 <= j < i ==> keys_of(self.eview())[j] != k@,
            decreases n - i,
        {
            proof {
                assert(self.eview()[i as int] == (self.entries@[i as int].0@, self.entries@[i as int].1@));
            }
            if str_eq(self.entries[i].0.as_str(), k) {
                proof {
                    assert(keys_of(self.eview())[i as int] == k@);
                }
                return Some(i);
            }
            proof {
                assert(keys_of(self.eview())[i as int] == self.entries@[i as int].0@);
            }
            i = i + 1;
        }
        proof {
            if has_key(self.eview(), k@) {
                let j = choose|j: int| 0 <= j < self.eview().len() && keys_of(self.eview())[j] == k@;
                assert(false);
            }
        }
        None
    }

    pub fn contains_key(&self, k: &str) -> (r: bool)
        requires
            self.wf(),
        ensures
            r == self@.dom().contains(k@),
    {
        proof {
            lemma_map_of_dom(self.eview());
        }
        match self.index_of(k) {
            Some(_) => true,
            None => false,
        }
    }

    pub fn get(&self, k: &str) -> (r: Option<&V>)
        requires
            self.wf(),
        ensures
            match r {
                Some(v) => self@.dom().contains(k@) && v@ == self@[k@],
                None => !self@.dom().contains(k@),
            },
    {
        proof {
            lemma_map_of_dom(self.eview());
        }
        match self.index_of(k) {
            Some(i) => {
                proof {
                    lemma_map_of_index(self.eview(), i as int);
                    assert(self.eview()[i as int]
                        == (self.entries@[i as int].0@, self.entries@[i as int].1@));
                }
                Some(&self.entries[i].1)
            },
            None => None,
        }
    }

    /// Insert or replace; a present key keeps its position, a new key goes
    /// to the end.
    pub fn insert(&mut self, k: &str, v: V)
        requires
            old(self).wf(),
        ensures
            final(self).wf(),
            final(self)@ == old(self)@.insert(k@, v@),
            final(self).keys_seq() == if old(self)@.dom().contains(k@) {
                old(self).keys_seq()
            } else {
                old(self).keys_seq().push(k@)
            },
            !old(self)@.dom().contains(k@) ==> final(self).eview() == old(self).eview().push(
                (k@, v@),
            ),
    {
        proof {
            lemma_map_of_dom(self.eview());
        }
        let key = k.to_owned();
        let ghost vv = v@;
        match self.index_of(k) {
            Some(i) => {
                proof {
                    lemma_map_of_index(self.eview(), i as int);
                }
                let ghost old_eview = self.eview();
                self.entries[i] = (key, v);
                proof {
                    assert(self.eview() =~= old_eview.update(i as int, (k@, vv)));
                    assert(keys_of(self.eview()) =~= keys_of(old_eview));
                    lemma_map_of_update(old_eview, i as int, (k@, vv));
                    assert(map_of(self.eview()) =~= map_of(old_eview).insert(k@, vv));
                }
            },
            None => {
                let ghost old_eview = self.eview();
                self.entries.push((key, v));
                proof {
                    assert(self.eview() =~= old_eview.push((k@, vv)));
                    assert(self.eview().drop_last() =~= old_eview);
                    assert(keys_of(self.eview()) =~= keys_of(old_eview).push(k@));
                    assert forall|p: int, q: int|
                        0 <= p < q < self.eview().len() implies keys_of(self.eview())[p]
                        != keys_of(self.eview())[q] by {
                        if q < self.eview().len() - 1 {
                            assert(keys_of(old_eview)[p] != keys_of(old_eview)[q]);
                        } else {
                            assert(keys_of(self.eview())[q] == k@);
                            if keys_of(old_eview)[p] == k@ {
                                assert(has_key(old_eview, k@));
                            }
                        }
                    }
                    assert(map_of(self.eview()) =~= map_of(old_eview).insert(k@, vv));
                }
            },
        }
    }

    /// Remove the entry carrying `k`, if any, and hand its value back.
    pub fn remove(&mut self, k: &str) -> (r: Option<V>)
        requires
            old(self).wf(),
        ensures
            final(self).wf(),
            final(self)@ == old(self)@.remove(k@),
            r is Some <==> old(self)@.dom().contains(k@),
            r is Some ==> r->0@ == old(self)@[k@],
            !(r is Some) ==> *final(self) == *old(self),
    {
        proof {
            lemma_map_of_dom(self.eview());
        }
        match self.index_of(k) {
            Some(i) => {
                proof {
                    lemma_map_of_index(self.eview(), i as int);
                    assert(self.eview()[i as int]
                        == (self.entries@[i as int].0@, self.entries@[i as int].1@));
                }
                let ghost old_eview = self.eview();
                let (_, v) = self.entries.remove(i);
                proof {
                    assert(self.eview() =~= old_eview.remove(i as int));
                    lemma_map_of_remove(old_eview, i as int);
                    assert forall|p: int, q: int|
                        0 <= p < q < self.eview().len() implies keys_of(self.eview())[p]
                        != keys_of(self.eview())[q] by {
                        let p0: int = if p < i {
                            p
                        } else {
                            p + 1
                        };
                        let q0: int = if q < i {
                            q
                        } else {
                            q + 1
                        };
                        assert(keys_of(old_eview)[p0] != keys_of(old_eview)[q0]);
                    }
                }
                Some(v)
            },
            None => {
                proof {
                    assert(!old(self)@.dom().contains(k@));
                    assert(old(self)@.remove(k@) =~= old(self)@);
                }
                None
            },
        }
    }

    /// The value under `k`, for in-place update: present exactly when the
    /// key is. What the caller writes through it replaces that key's
    /// value; the keys themselves stay as they were.
    pub fn get_mut(&mut self, k: &str) -> (r: Option<&mut V>)
        requires
            old(self).wf(),
        ensures
            (r is Some) <==> old(self)@.dom().contains(k@),
            r is None ==> *final(self) == *old(self),
            final(self).entries@.len() == old(self).entries@.len(),
            final(self).keys_seq() == old(self).keys_seq(),
    {
        proof {
            lemma_map_of_dom(self.eview());
        }
        match self.index_of(k) {
            Some(i) => {
                proof {
                    lemma_map_of_index(self.eview(), i as int);
                }
                Some(&mut self.entries[i].1)
            },
            None => None,
        }
    }

    /// The keys in insertion order, as owned strings.
    pub fn keys(&self) -> (r: Vec<String>)
        ensures
            r@.map_values(|s: String| s@) == self.keys_seq(),
    {
        let n = self.entries.len();
        let mut out: Vec<String> = Vec::new();
        let mut i: usize = 0;
        while i < n
            invariant
                n == self.eview().len(),
                i <= n,
                out@.len() == i,
                out@.map_values(|s: String| s@) =~= keys_of(self.eview()).subrange(0, i as int),
            decreases n - i,
        {
            let ghost prev = out@;
            out.push(self.entries[i].0.clone());
            proof {
                assert(out@ == prev.push(self.entries@[i as int].0));
                prev.lemma_push_map_commute(|s: String| s@, self.entries@[i as int].0);
                assert(self.eview()[i as int]
                    == (self.entries@[i as int].0@, self.entries@[i as int].1@));
                assert(out@.map_values(|s: String| s@) =~= keys_of(self.eview()).subrange(
                    0,
                    i + 1,
                ));
            }
            i = i + 1;
        }
        proof {
            assert(keys_of(self.eview()).subrange(0, n as int) =~= keys_of(self.eview()));
        }
        out
    }

    /// How many entries there are, without the uniqueness premise.
    pub fn entry_count(&self) -> (n: usize)
        ensures
            n == self.eview().len(),
    {
        self.entries.len()
    }

    /// The key of the entry at position `i`.
    pub fn key_at(&self, i: usize) -> (r: &String)
        requires
            i < self.eview().len(),
        ensures
            r@ == self.keys_seq()[i as int],
    {
        proof {
            assert(self.eview()[i as int] == (self.entries@[i as int].0@, self.entries@[i as int].1@));
        }
        &self.entries[i].0
    }

    /// The value of the entry at position `i`.
    pub fn val_at(&self, i: usize) -> (r: &V)
        requires
            i < self.eview().len(),
        ensures
            r@ == self.eview()[i as int].1,
            self.wf() ==> self@.dom().contains(self.keys_seq()[i as int]) && r@
                == self@[self.keys_seq()[i as int]],
    {
        proof {
            assert(self.eview()[i as int] == (self.entries@[i as int].0@, self.entries@[i as int].1@));
            if self.wf() {
                lemma_map_of_index(self.eview(), i as int);
            }
        }
        &self.entries[i].1
    }
}

/// A set of strings, compared by their character sequences. Items keep
/// insertion order; `wf` says they are distinct.
#[derive(Debug)]
pub struct StrSet {
    pub items: Vec<String>,
}

/// The item views of a string sequence, in order.
pub open spec fn item_views(items: Seq<String>) -> Seq<Seq<char>> {
    items.map_values(|s: String| s@)
}

/// Some item of `items` carries the view `k`.
pub open spec fn has_item(items: Seq<String>, k: Seq<char>) -> bool {
    exists|i: int| 0 <= i < items.len() && item_views(items)[i] == k
}

/// The set that a string sequence denotes.
pub open spec fn set_of(items: Seq<String>) -> Set<Seq<char>>
    decreases items.len(),
{
    if items.len() == 0 {
        Set::empty()
    } else {
        set_of(items.drop_last()).insert(items.last()@)
    }
}

/// A view is in the denoted set exactly when some item carries it.
pub proof fn lemma_set_of_contains(items: Seq<String>)
    ensures
        forall|k: Seq<char>| set_of(items).contains(k) <==> has_item(items, k),
        set_of(items).finite(),
    decreases items.len(),
{
    if items.len() == 0 {
    } else {
        lemma_set_of_contains(items.drop_last());
        assert forall|k: Seq<char>| set_of(items).contains(k) implies has_item(items, k) by {
            if k == items.last()@ {
                assert(item_views(items)[items.len() - 1] == k);
            } else {
                assert(set_of(items) == set_of(items.drop_last()).insert(items.last()@));
                assert(set_of(items.drop_last()).contains(k));
                assert(has_item(items.drop_last(), k));
                let i = choose|i: int|
                    0 <= i < items.drop_last().len() && item_views(items.drop_last())[i] == k;
                assert(item_views(items.drop_last())[i] == items.drop_last()[i]@);
                assert(item_views(items)[i] == k);
            }
        }
        assert forall|k: Seq<char>| has_item(items, k) implies set_of(items).contains(k) by {
            let i = choose|i: int| 0 <= i < items.len() && item_views(items)[i] == k;
            if i < items.len() - 1 {
                assert(item_views(items)[i] == items[i]@);
                assert(item_views(items.drop_last())[i] == k);
                assert(has_item(items.drop_last(), k));
                assert(set_of(items.drop_last()).contains(k));
            } else {
                assert(k == items.last()@);
            }
        }
    }
}

impl View for StrSet {
    type V = Set<Seq<char>>;

    open spec fn view(&self) -> Set<Seq<char>> {
        set_of(self.items@)
    }
}

impl StrSet {
    /// The items are distinct.
    pub open spec fn wf(&self) -> bool {
        forall|i: int, j: int|
            0 <= i < j < self.items@.len() ==> item_views(self.items@)[i] != item_views(
                self.items@,
            )[j]
    }

    pub fn new() -> (r: Self)
        ensures
            r.wf(),
            r@ == Set::<Seq<char>>::empty(),
            r.items@.len() == 0,
    {
        StrSet { items: Vec::new() }
    }

    pub fn contains(&self, k: &str) -> (r: bool)
        ensures
            r == self@.contains(k@),
    {
        let n = self.items.len();
        let mut i: usize = 0;
        while i < n
            invariant
                n == self.items@.len(),
                i <= n,
                forall|j: int| 0 <= j < i ==> item_views(self.items@)[j] != k@,
            decreases n - i,
        {
            if str_eq(self.items[i].as_str(), k) {
                proof {
                    lemma_set_of_contains(self.items@);
                    assert(item_views(self.items@)[i as int] == k@);
                    assert(has_item(self.items@, k@));
                    assert(set_of(self.items@).contains(k@));
                }
                return true;
            }
            proof {
                assert(item_views(self.items@)[i as int] == self.items@[i as int]@);
            }
            i = i + 1;
        }
        proof {
            lemma_set_of_contains(self.items@);
            if has_item(self.items@, k@) {
                let j = choose|j: int|
                    0 <= j < self.items@.len() && item_views(self.items@)[j] == k@;
                assert(false);
            }
        }
        false
    }

    /// Insert; a present item is left as it stands.
    pub fn insert(&mut self, k: &str)
        requires
            old(self).wf(),
        ensures
            final(self).wf(),
            final(self)@ == old(self)@.insert(k@),
    {
        proof {
            lemma_set_of_contains(self.items@);
        }
        if !self.contains(k) {
            let ghost old_items = self.items@;
            self.items.push(k.to_owned());
            proof {
                assert(self.items@.drop_last() =~= old_items);
                lemma_set_of_contains(old_items);
                assert forall|p: int, q: int|
                    0 <= p < q < self.items@.len() implies item_views(self.items@)[p] != item_views(
                    self.items@,
                )[q] by {
                    if q < self.items@.len() - 1 {
                        assert(item_views(old_items)[p] != item_views(old_items)[q]);
                    } else {
                        assert(item_views(self.items@)[q] == k@);
                        if item_views(old_items)[p] == k@ {
                            assert(has_item(old_items, k@));
                        }
                    }
                }
            }
        } else {
            proof {
                assert(old(self)@.insert(k@) =~= old(self)@);
            }
        }
    }

    pub fn len(&self) -> (n: usize)
        ensures
            n == self.items@.len(),
    {
        self.items.len()
    }

    /// The item at position `i`.
    pub fn item_at(&self, i: usize) -> (r: &String)
        requires
            i < self.items@.len(),
        ensures
            r@ == item_views(self.items@)[i as int],
            self@.contains(r@),
    {
        proof {
            lemma_set_of_contains(self.items@);
            assert(item_views(self.items@)[i as int] == self.items@[i as int]@);
            assert(has_item(self.items@, item_views(self.items@)[i as int]));
        }
        &self.items[i]
    }
}

} // verus!
