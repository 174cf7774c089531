//! Tables from names to values, in the order the names were added.
use vstd::prelude::*;
use crate::text::str_eq;
use crate::types::Type;

verus! {

/// The value of the first entry named `name`.
pub open spec fn find<W>(s: Seq<(Seq<char>, W)>, name: Seq<char>) -> Option<W>
    decreases s.len(),
{
    if s.len() == 0 {
        None
    } else if s[0].0 == name {
        Some(s[0].1)
    } else {
        find(s.drop_first(), name)
    }
}

/// A table from names to values, in the order the names were added.
///
/// A name may occur in more than one entry: `push` adds an entry whatever the table holds, and
/// the lookups (`get`, `contains_key`, `find`) see the first entry with the name, so an entry
/// pushed later under a name already present is never found (`lemma_find_push`). The callers
/// that must keep names unique test `contains_key` before they push; `insert` replaces the value
/// of the first entry in place.
#[derive(Debug)]
pub struct Table<V> {
    entries: Vec<(String, V)>,
}

impl<V: View> View for Table<V> {
    type V = Seq<(Seq<char>, V::V)>;

    closed spec fn view(&self) -> Seq<(Seq<char>, V::V)> {
        self.entries@.map_values(|e: (String, V)| (e.0@, e.1@))
    }
}

impl<V: View> Table<V> {
    /// An empty table.
    pub fn new() -> (r: Self)
        ensures
            r@ == Seq::<(Seq<char>, V::V)>::empty(),
    {
        let r = Table { entries: Vec::new() };
        assert(r@ =~= Seq::<(Seq<char>, V::V)>::empty());
        r
    }

    /// The number of entries.
    pub fn len(&self) -> (r: usize)
        ensures
            r == self@.len(),
    {
        self.entries.len()
    }

    /// The entries, in order.
    pub fn entries(&self) -> (r: &Vec<(String, V)>)
        ensures
            r@.len() == self@.len(),
            forall|k: int|
                0 <= k < r@.len() ==> (#[trigger] r@[k]).0@ == self@[k].0 && r@[k].1@ == self@[k].1,
    {
        &self.entries
    }

    /// The position of the first entry named `name`, if there is one.
    fn position(&self, name: &str) -> (r: Option<usize>)
        ensures
            match find(self@, name@) {
                Some(w) => r matches Some(k) && k < self@.len() && self@[k as int].1 == w,
                None => r is None,
            },
            r matches Some(k) ==> self@[k as int].0 == name@ && forall|j: int|
                0 <= j < k ==> #[trigger] self@[j].0 != name@,
    {
        let mut k: usize = 0;
        assert(self@.skip(0) =~= self@);
        while k < self.entries.len()
            invariant
                k <= self@.len(),
                self@.len() == self.entries@.len(),
                find(self@, name@) == find(self@.skip(k as int), name@),
                forall|j: int| 0 <= j < k ==> #[trigger] self@[j].0 != name@,
            decreases self@.len() - k,
        {
            let ghost rest = self@.skip(k as int);
            assert(rest[0] == self@[k as int]);
            assert(self@[k as int] == (self.entries@[k as int].0@, self.entries@[k as int].1@));
            if str_eq(self.entries[k].0.as_str(), name) {
                return Some(k);
            }
            assert(rest.drop_first() =~= self@.skip(k + 1));
            k = k + 1;
        }
        None
    }

    /// Whether some entry is named `name`.
    pub fn contains_key(&self, name: &str) -> (r: bool)
        ensures
            r == find(self@, name@) is Some,
    {
        self.position(name).is_some()
    }

    /// The value of the entry named `name`, if there is one.
    pub fn get(&self, name: &str) -> (r: Option<&V>)
        ensures
            match find(self@, name@) {
                Some(w) => r matches Some(v) && v@ == w,
                None => r is None,
            },
    {
        match self.position(name) {
            Some(k) => Some(&self.entries[k].1),
            None => None,
        }
    }

    /// Adds an entry at the end, whether or not the name is in the table already; an entry
    /// already there under the name keeps answering the lookups.
    pub fn push(&mut self, name: String, value: V)
        ensures
            final(self)@ == old(self)@.push((name@, value@)),
    {
        self.entries.push((name, value));
        assert(self@ =~= old(self)@.push((name@, value@)));
    }

    /// Removes every entry.
    pub fn clear(&mut self)
        ensures
            final(self)@ == Seq::<(Seq<char>, V::V)>::empty(),
    {
        self.entries.clear();
        assert(self@ =~= Seq::<(Seq<char>, V::V)>::empty());
    }
}

impl Clone for Table<Type> {
    fn clone(&self) -> (r: Self)
        ensures
            r@ == self@,
    {
        let mut entries: Vec<(String, Type)> = Vec::new();
        let mut k: usize = 0;
        while k < self.entries.len()
            invariant
                k <= self.entries@.len(),
                entries@.len() == k,
                forall|j: int|
                    0 <= j < k ==> (#[trigger] entries@[j]).0@ == self.entries@[j].0@ && entries@[j].1@
                        == self.entries@[j].1@,
            decreases self.entries@.len() - k,
        {
            let name = self.entries[k].0.clone();
            let value = self.entries[k].1.clone();
            entries.push((name, value));
            k = k + 1;
        }
        let r = Table { entries };
        assert(r@ =~= self@);
        r
    }
}

impl Clone for Table<String> {
    fn clone(&self) -> (r: Self)
        ensures
            r@ == self@,
    {
        let mut entries: Vec<(String, String)> = Vec::new();
        let mut k: usize = 0;
        while k < self.entries.len()
            invariant
                k <= self.entries@.len(),
                entries@.len() == k,
                forall|j: int|
                    0 <= j < k ==> (#[trigger] entries@[j]).0@ == self.entries@[j].0@ && entries@[j].1@
                        == self.entries@[j].1@,
            decreases self.entries@.len() - k,
        {
            let name = self.entries[k].0.clone();
            let value = self.entries[k].1.clone();
            entries.push((name, value));
            k = k + 1;
        }
        let r = Table { entries };
        assert(r@ =~= self@);
        r
    }
}

/// `s` with the entry `name` set to `w`: replaced where the name is, added at the end otherwise.
pub open spec fn upsert<W>(s: Seq<(Seq<char>, W)>, name: Seq<char>, w: W) -> Seq<(Seq<char>, W)>
    decreases s.len(),
{
    if s.len() == 0 {
        seq![(name, w)]
    } else if s[0].0 == name {
        s.update(0, (name, w))
    } else {
        seq![s[0]] + upsert(s.drop_first(), name, w)
    }
}

impl<V: View> Table<V> {
    /// Sets the entry named `name` to `value`: replaced where the name is, added otherwise.
    pub fn insert(&mut self, name: String, value: V)
        ensures
            final(self)@ == upsert(old(self)@, name@, value@),
    {
        match self.position(name.as_str()) {
            Some(k) => {
                let ghost n = name@;
                let ghost w = value@;
                proof {
                    lemma_upsert_at(old(self)@, n, w, k as int);
                }
                self.entries.set(k, (name, value));
                assert(self@ =~= old(self)@.update(k as int, (n, w)));
            },
            None => {
                proof {
                    lemma_upsert_absent(old(self)@, name@, value@);
                }
                self.push(name, value);
            },
        }
    }
}

/// Where `name` first occurs at `k`, setting it replaces the entry at `k`.
pub proof fn lemma_upsert_at<W>(s: Seq<(Seq<char>, W)>, name: Seq<char>, w: W, k: int)
    requires
        0 <= k < s.len(),
        s[k].0 == name,
        forall|j: int| 0 <= j < k ==> s[j].0 != name,
    ensures
        upsert(s, name, w) == s.update(k, (name, w)),
    decreases s.len(),
{
    if k > 0 {
        lemma_upsert_at(s.drop_first(), name, w, k - 1);
        assert(seq![s[0]] + s.drop_first().update(k - 1, (name, w)) =~= s.update(k, (name, w)));
    }
}

/// Where `name` does not occur, setting it adds an entry at the end.
pub proof fn lemma_upsert_absent<W>(s: Seq<(Seq<char>, W)>, name: Seq<char>, w: W)
    requires
        find(s, name) is None,
    ensures
        upsert(s, name, w) == s.push((name, w)),
    decreases s.len(),
{
    if s.len() > 0 {
        lemma_upsert_absent(s.drop_first(), name, w);
        assert(seq![s[0]] + s.drop_first().push((name, w)) =~= s.push((name, w)));
    }
}


/// Looking a name up in a sequence with one more entry at the end: as before where the name
/// was there, else the new entry's value where it carries the name.
pub proof fn lemma_find_push<W>(s: Seq<(Seq<char>, W)>, e: (Seq<char>, W), name: Seq<char>)
    ensures
        find(s.push(e), name) == match find(s, name) {
            Some(w) => Some(w),
            None => if e.0 == name { Some(e.1) } else { None },
        },
    decreases s.len(),
{
    assert(s.push(e)[0] == if s.len() > 0 { s[0] } else { e });
    if s.len() > 0 {
        lemma_find_push(s.drop_first(), e, name);
        assert(s.push(e).drop_first() =~= s.drop_first().push(e));
    } else {
        assert(s.push(e).drop_first() =~= Seq::<(Seq<char>, W)>::empty());
        assert(find(Seq::<(Seq<char>, W)>::empty(), name) is None);
    }
}

/// Where `upsert` puts the entry it sets: it replaces the entry at a position `p` of `s`, or,
/// with `p` the length of `s`, it comes at the end.
pub(crate) proof fn lemma_upsert_index<W>(s: Seq<(Seq<char>, W)>, name: Seq<char>, w: W) -> (p: int)
    ensures
        0 <= p <= s.len(),
        p < s.len() ==> upsert(s, name, w) == s.update(p, (name, w)),
        p == s.len() ==> upsert(s, name, w) == s.push((name, w)),
    decreases s.len(),
{
    if s.len() == 0 {
        assert(upsert(s, name, w) =~= s.push((name, w)));
        0
    } else if s[0].0 == name {
        0
    } else {
        let rest = s.drop_first();
        let q = lemma_upsert_index(rest, name, w);
        if q < rest.len() {
            assert(seq![s[0]] + rest.update(q, (name, w)) =~= s.update(q + 1, (name, w)));
        } else {
            assert(seq![s[0]] + rest.push((name, w)) =~= s.push((name, w)));
        }
        q + 1
    }
}

/// A name set in a table is then found with the value it was set to.
pub proof fn law_find_after_upsert<W>(s: Seq<(Seq<char>, W)>, name: Seq<char>, w: W)
    ensures
        find(upsert(s, name, w), name) == Some(w),
    decreases s.len(),
{
    if s.len() > 0 && s[0].0 != name {
        law_find_after_upsert(s.drop_first(), name, w);
        assert((seq![s[0]] + upsert(s.drop_first(), name, w)).drop_first() =~= upsert(s.drop_first(), name, w));
    }
}

/// Setting a name leaves every other name as it was.
pub proof fn law_upsert_keeps_others<W>(s: Seq<(Seq<char>, W)>, name: Seq<char>, w: W, other: Seq<char>)
    requires
        other != name,
    ensures
        find(upsert(s, name, w), other) == find(s, other),
    decreases s.len(),
{
    if s.len() == 0 {
        let u = seq![(name, w)];
        assert(u.drop_first() =~= Seq::<(Seq<char>, W)>::empty());
        assert(find(u.drop_first(), other) is None);
    } else if s[0].0 == name {
        let u = s.update(0, (name, w));
        assert(u[0] == (name, w));
        assert(u.drop_first() =~= s.drop_first());
        assert(find(u, other) == find(u.drop_first(), other));
    } else {
        law_upsert_keeps_others(s.drop_first(), name, w, other);
        let u = seq![s[0]] + upsert(s.drop_first(), name, w);
        assert(u[0] == s[0]);
        assert(u.drop_first() =~= upsert(s.drop_first(), name, w));
    }
}

/// Setting a name that is already there keeps the number of entries; setting a new one adds one.
pub proof fn law_upsert_len<W>(s: Seq<(Seq<char>, W)>, name: Seq<char>, w: W)
    ensures
        upsert(s, name, w).len() == if find(s, name) is Some { s.len() } else { s.len() + 1 },
    decreases s.len(),
{
    if s.len() > 0 && s[0].0 != name {
        law_upsert_len(s.drop_first(), name, w);
    }
}

} // verus!
