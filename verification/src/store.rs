//! The shared key-value store: one logical map from keys to values, modelled
//! as an association list in insertion order with pairwise-distinct keys.
//!
//! The view of a store is that list of `(key, value)` pairs; `as_map` reads
//! it as the map it denotes. Keeping the list, not only the map, lets the
//! `list` command's reply — the keys in insertion order — be specified too.

use vstd::prelude::*;
use vstd::pervasive::VecAdditionalExecFns;

verus! {

/// The keys of an association list, in order.
pub open spec fn keys_of(s: Seq<(Seq<char>, Seq<char>)>) -> Seq<Seq<char>> {
    s.map_values(|p: (Seq<char>, Seq<char>)| p.0)
}

/// No key occurs twice.
pub open spec fn distinct_keys(s: Seq<(Seq<char>, Seq<char>)>) -> bool {
    forall|i: int, j: int| 0 <= i < j < s.len() ==> s[i].0 != s[j].0
}

/// The map an association list denotes; a later pair for the same key wins.
pub open spec fn as_map(s: Seq<(Seq<char>, Seq<char>)>) -> Map<Seq<char>, Seq<char>>
    decreases s.len(),
{
    if s.len() == 0 {
        Map::empty()
    } else {
        as_map(s.drop_last()).insert(s.last().0, s.last().1)
    }
}

/// Binding a key: replace the value in place if the key is present, else
/// append the new pair.
pub open spec fn put_entry(
    s: Seq<(Seq<char>, Seq<char>)>,
    k: Seq<char>,
    v: Seq<char>,
) -> Seq<(Seq<char>, Seq<char>)>
    decreases s.len(),
{
    if s.len() == 0 {
        seq![(k, v)]
    } else if s[0].0 == k {
        seq![(k, v)] + s.drop_first()
    } else {
        seq![s[0]] + put_entry(s.drop_first(), k, v)
    }
}

/// A key is in the denoted map exactly when it is among the list's keys.
pub proof fn lemma_as_map_contains(s: Seq<(Seq<char>, Seq<char>)>, k: Seq<char>)
    ensures
        as_map(s).contains_key(k) <==> keys_of(s).contains(k),
    decreases s.len(),
{
    if s.len() > 0 {
        lemma_as_map_contains(s.drop_last(), k);
        assert(keys_of(s.drop_last()) =~= keys_of(s).drop_last());
        if keys_of(s).contains(k) {
            let i = choose|i: int| 0 <= i < keys_of(s).len() && keys_of(s)[i] == k;
            if i < s.len() - 1 {
                assert(keys_of(s).drop_last()[i] == k);
            }
            assert(as_map(s).contains_key(k));
        }
        if as_map(s).contains_key(k) {
            if k == s.last().0 {
                assert(keys_of(s)[s.len() - 1] == k);
            } else {
                let i = choose|i: int|
                    0 <= i < keys_of(s.drop_last()).len() && keys_of(s.drop_last())[i] == k;
                assert(keys_of(s)[i] == k);
            }
        }
    }
}

/// With distinct keys, the pair at any index is what the map holds.
pub proof fn lemma_as_map_index(s: Seq<(Seq<char>, Seq<char>)>, i: int)
    requires
        distinct_keys(s),
        0 <= i < s.len(),
    ensures
        as_map(s).contains_key(s[i].0),
        as_map(s)[s[i].0] == s[i].1,
    decreases s.len(),
{
    if i < s.len() - 1 {
        assert(distinct_keys(s.drop_last()));
        lemma_as_map_index(s.drop_last(), i);
        assert(s[i].0 != s.last().0);
    }
}

/// Replacing the value at the key's own index denotes insertion into the map.
proof fn lemma_as_map_update(s: Seq<(Seq<char>, Seq<char>)>, i: int, k: Seq<char>, v: Seq<char>)
    requires
        distinct_keys(s),
        0 <= i < s.len(),
        s[i].0 == k,
    ensures
        as_map(s.update(i, (k, v))) == as_map(s).insert(k, v),
    decreases s.len(),
{
    let t = s.update(i, (k, v));
    if i == s.len() - 1 {
        assert(t.drop_last() =~= s.drop_last());
        assert(as_map(t) == as_map(s.drop_last()).insert(k, v));
        assert(as_map(s).insert(k, v) =~= as_map(s.drop_last()).insert(k, v));
    } else {
        assert(distinct_keys(s.drop_last()));
        lemma_as_map_update(s.drop_last(), i, k, v);
        assert(t.drop_last() =~= s.drop_last().update(i, (k, v)));
        assert(t.last() == s.last());
        assert(as_map(t) == as_map(s.drop_last()).insert(k, v).insert(s.last().0, s.last().1));
        assert(s.last().0 != k);
        assert(as_map(s.drop_last()).insert(k, v).insert(s.last().0, s.last().1) =~= as_map(
            s.drop_last(),
        ).insert(s.last().0, s.last().1).insert(k, v));
    }
}

/// When the key sits at index `i`, binding it is exactly an update in place.
pub proof fn lemma_put_entry_found(
    s: Seq<(Seq<char>, Seq<char>)>,
    i: int,
    k: Seq<char>,
    v: Seq<char>,
)
    requires
        0 <= i < s.len(),
        s[i].0 == k,
        forall|j: int| 0 <= j < i ==> s[j].0 != k,
    ensures
        put_entry(s, k, v) == s.update(i, (k, v)),
    decreases s.len(),
{
    if i == 0 {
        assert(put_entry(s, k, v) =~= s.update(0, (k, v)));
    } else {
        let d = s.drop_first();
        lemma_put_entry_found(d, i - 1, k, v);
        assert(put_entry(s, k, v) =~= s.update(i, (k, v)));
    }
}

/// When the key is absent, binding it appends the new pair.
pub proof fn lemma_put_entry_absent(s: Seq<(Seq<char>, Seq<char>)>, k: Seq<char>, v: Seq<char>)
    requires
        forall|j: int| 0 <= j < s.len() ==> s[j].0 != k,
    ensures
        put_entry(s, k, v) == s.push((k, v)),
    decreases s.len(),
{
    if s.len() == 0 {
        assert(put_entry(s, k, v) =~= s.push((k, v)));
    } else {
        lemma_put_entry_absent(s.drop_first(), k, v);
        assert(put_entry(s, k, v) =~= s.push((k, v)));
    }
}

/// Binding a key denotes insertion into the map, keeps keys distinct, and
/// extends the key order only when the key is new.
pub proof fn lemma_put_entry_map(s: Seq<(Seq<char>, Seq<char>)>, k: Seq<char>, v: Seq<char>)
    requires
        distinct_keys(s),
    ensures
        as_map(put_entry(s, k, v)) == as_map(s).insert(k, v),
        distinct_keys(put_entry(s, k, v)),
        keys_of(put_entry(s, k, v)) == if keys_of(s).contains(k) {
            keys_of(s)
        } else {
            keys_of(s).push(k)
        },
{
    if keys_of(s).contains(k) {
        let i = choose|i: int| 0 <= i < keys_of(s).len() && keys_of(s)[i] == k;
        assert(s[i].0 == k);
        assert forall|j: int| 0 <= j < i implies s[j].0 != k by {}
        lemma_put_entry_found(s, i, k, v);
        lemma_as_map_update(s, i, k, v);
        let t = s.update(i, (k, v));
        assert(keys_of(t) =~= keys_of(s));
        assert(distinct_keys(t));
    } else {
        assert forall|j: int| 0 <= j < s.len() implies s[j].0 != k by {
            assert(keys_of(s)[j] == s[j].0);
        }
        lemma_put_entry_absent(s, k, v);
        let t = s.push((k, v));
        assert(t.drop_last() =~= s);
        assert(as_map(t) == as_map(s).insert(k, v));
        assert(keys_of(t) =~= keys_of(s).push(k));
        assert forall|i: int, j: int| 0 <= i < j < t.len() implies t[i].0 != t[j].0 by {
            if j == t.len() - 1 {
                assert(t[i].0 == s[i].0);
            }
        }
    }
}

/// The shared store: a map from keys to values, held as an association list
/// in insertion order.
pub struct KvStore {
    entries: Vec<(String, String)>,
}

impl View for KvStore {
    type V = Seq<(Seq<char>, Seq<char>)>;

    closed spec fn view(&self) -> Seq<(Seq<char>, Seq<char>)> {
        self.entries.deep_view()
    }
}

impl KvStore {
    /// Well-formed: no key occurs twice. Constructors establish this and
    /// every method preserves it.
    pub open spec fn wf(&self) -> bool {
        distinct_keys(self@)
    }

    /// An empty store.
    pub fn new() -> (s: Self)
        ensures
            s@ == Seq::<(Seq<char>, Seq<char>)>::empty(),
            s.wf(),
    {
        let s = KvStore { entries: Vec::new() };
        proof {
            assert(s@ =~~= Seq::<(Seq<char>, Seq<char>)>::empty());
        }
        s
    }

    /// Looks a key up; `Some` exactly when the key is bound, with its value.
    pub fn get(&self, key: &str) -> (r: Option<String>)
        requires
            self.wf(),
        ensures
            match r {
                Some(v) => as_map(self@).contains_key(key@) && v@ == as_map(self@)[key@],
                None => !as_map(self@).contains_key(key@),
            },
    {
        let k = key.to_owned();
        let n = self.entries.len();
        let mut i: usize = 0;
        while i < n
            invariant
                n == self.entries.len(),
                0 <= i <= n,
                k@ == key@,
                self.wf(),
                self@.len() == n,
                forall|j: int| 0 <= j < i ==> self@[j].0 != key@,
            decreases n - i,
        {
            assert(self@[i as int] == (self.entries@[i as int].0@, self.entries@[i as int].1@));
            if self.entries[i].0 == k {
                let v = self.entries[i].1.clone();
                proof {
                    lemma_as_map_index(self@, i as int);
                }
                return Some(v);
            }
            i = i + 1;
        }
        proof {
            lemma_as_map_contains(self@, key@);
            if keys_of(self@).contains(key@) {
                let j = choose|j: int| 0 <= j < keys_of(self@).len() && keys_of(self@)[j] == key@;
                assert(self@[j].0 == key@);
            }
        }
        None
    }

    /// Binds a key to a value, replacing any earlier binding.
    pub fn put(&mut self, key: &str, value: &str)
        requires
            old(self).wf(),
        ensures
            final(self)@ == put_entry(old(self)@, key@, value@),
            as_map(final(self)@) == as_map(old(self)@).insert(key@, value@),
            final(self).wf(),
    {
        proof {
            lemma_put_entry_map(old(self)@, key@, value@);
        }
        let k = key.to_owned();
        let v = value.to_owned();
        let n = self.entries.len();
        let mut i: usize = 0;
        while i < n
            invariant
                self == old(self),
                n == self.entries.len(),
                0 <= i <= n,
                k@ == key@,
                v@ == value@,
                old(self).wf(),
                forall|j: int| 0 <= j < i ==> self@[j].0 != key@,
            decreases n - i,
        {
            assert(self@[i as int] == (self.entries@[i as int].0@, self.entries@[i as int].1@));
            if self.entries[i].0 == k {
                proof {
                    lemma_put_entry_found(self@, i as int, key@, value@);
                    lemma_put_entry_map(old(self)@, key@, value@);
                }
                self.entries.set(i, (k, v));
                proof {
                    assert(self@ =~~= old(self)@.update(i as int, (key@, value@)));
                }
                return ;
            }
            i = i + 1;
        }
        self.entries.push((k, v));
        proof {
            lemma_put_entry_absent(old(self)@, key@, value@);
            assert(self@ =~~= old(self)@.push((key@, value@)));
        }
    }

    /// All bound keys, in insertion order.
    pub fn list_keys(&self) -> (r: Vec<String>)
        ensures
            r.deep_view() == keys_of(self@),
    {
        let mut r: Vec<String> = Vec::new();
        let n = self.entries.len();
        let mut i: usize = 0;
        while i < n
            invariant
                n == self.entries.len(),
                0 <= i <= n,
                self@.len() == n,
                r@.len() == i,
                forall|j: int| 0 <= j < i ==> r@[j]@ == self@[j].0,
            decreases n - i,
        {
            assert(self@[i as int] == (self.entries@[i as int].0@, self.entries@[i as int].1@));
            r.push(self.entries[i].0.clone());
            i = i + 1;
        }
        proof {
            assert(r.deep_view() =~~= keys_of(self@));
        }
        r
    }
}

} // verus!
