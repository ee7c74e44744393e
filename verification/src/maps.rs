//! Maps kept sorted by a byte string derived from each key.
//!
//! For string keys the sort bytes are the UTF-8 encoding, which is the order `BTreeMap<String, _>`
//! iterates in and the order the canonical encodings list named entries in, so a map's entries can
//! be written out directly.
use vstd::prelude::*;
use vstd::utf8::encode_utf8;

use crate::bytes::{
    bytes_equal, bytes_less, bytes_lt, lemma_bytes_lt_irreflexive, lemma_bytes_lt_total,
    lemma_bytes_lt_transitive, lemma_encode_utf8_injective,
};

verus! {

/// A key type with an injective byte string that orders the keys.
pub trait SortKey: View + Sized {
    /// The bytes a key sorts by.
    spec fn sort_bytes(k: Self::V) -> Seq<u8>;

    /// Distinct keys have distinct sort bytes.
    proof fn lemma_sort_bytes_injective(a: Self::V, b: Self::V)
        requires
            Self::sort_bytes(a) == Self::sort_bytes(b),
        ensures
            a == b,
    ;

    /// The bytes this key sorts by.
    fn sort_bytes_of(&self) -> (r: Vec<u8>)
        ensures
            r@ == Self::sort_bytes(self@),
    ;
}

impl SortKey for String {
    open spec fn sort_bytes(k: Seq<char>) -> Seq<u8> {
        encode_utf8(k)
    }

    proof fn lemma_sort_bytes_injective(a: Seq<char>, b: Seq<char>) {
        lemma_encode_utf8_injective(a, b);
    }

    fn sort_bytes_of(&self) -> (r: Vec<u8>) {
        crate::bytes::slice_to_vec(self.as_str().as_bytes())
    }
}

/// Whether the keys of `s` are strictly increasing.
pub open spec fn keys_sorted<K: SortKey, A>(s: Seq<(K::V, A)>) -> bool {
    forall|i: int, j: int|
        0 <= i < j < s.len() ==> bytes_lt(#[trigger] K::sort_bytes(s[i].0), #[trigger] K::sort_bytes(s[j].0))
}

/// Two entries of a sorted map, in order.
pub proof fn lemma_keys_sorted_at<K: SortKey, A>(s: Seq<(K::V, A)>, i: int, j: int)
    requires
        keys_sorted::<K, A>(s),
        0 <= i < j < s.len(),
    ensures
        bytes_lt(K::sort_bytes(s[i].0), K::sort_bytes(s[j].0)),
{
}

/// Two maps sorted by key that hold the same entries are the same sequence: a sorted map's
/// order is determined by its contents.
pub proof fn lemma_sorted_same_entries<K: SortKey, A>(a: Seq<(K::V, A)>, b: Seq<(K::V, A)>)
    requires
        keys_sorted::<K, A>(a),
        keys_sorted::<K, A>(b),
        forall|x: (K::V, A)| a.contains(x) <==> b.contains(x),
    ensures
        a == b,
    decreases a.len() + b.len(),
{
    if a.len() == 0 || b.len() == 0 {
        if a.len() > 0 {
            assert(a.contains(a[0]));
        }
        if b.len() > 0 {
            assert(b.contains(b[0]));
        }
        assert(a =~= b);
    } else {
        assert(a.contains(a[0]));
        assert(b.contains(b[0]));
        let j = choose|j: int| 0 <= j < b.len() && b[j] == a[0];
        let i = choose|i: int| 0 <= i < a.len() && a[i] == b[0];
        if j > 0 {
            lemma_keys_sorted_at::<K, A>(b, 0, j);
            if i > 0 {
                lemma_keys_sorted_at::<K, A>(a, 0, i);
                crate::bytes::lemma_bytes_lt_transitive(K::sort_bytes(a[0].0), K::sort_bytes(b[0].0), K::sort_bytes(a[0].0));
            }
            crate::bytes::lemma_bytes_lt_irreflexive(K::sort_bytes(a[0].0));
        }
        assert(a[0] == b[0]);
        let a1 = a.drop_first();
        let b1 = b.drop_first();
        assert forall|x: (K::V, A)| a1.contains(x) <==> b1.contains(x) by {
            if a1.contains(x) {
                let k = choose|k: int| 0 <= k < a1.len() && a1[k] == x;
                lemma_keys_sorted_at::<K, A>(a, 0, k + 1);
                assert(b.contains(x));
                let m = choose|m: int| 0 <= m < b.len() && b[m] == x;
                if m == 0 {
                    crate::bytes::lemma_bytes_lt_irreflexive(K::sort_bytes(a[0].0));
                }
                assert(b1[m - 1] == x);
            }
            if b1.contains(x) {
                let k = choose|k: int| 0 <= k < b1.len() && b1[k] == x;
                lemma_keys_sorted_at::<K, A>(b, 0, k + 1);
                assert(a.contains(x));
                let m = choose|m: int| 0 <= m < a.len() && a[m] == x;
                if m == 0 {
                    crate::bytes::lemma_bytes_lt_irreflexive(K::sort_bytes(b[0].0));
                }
                assert(a1[m - 1] == x);
            }
        }
        assert forall|p: int, q: int| 0 <= p < q < a1.len() implies crate::bytes::bytes_lt(
            #[trigger] K::sort_bytes(a1[p].0),
            #[trigger] K::sort_bytes(a1[q].0),
        ) by {
            lemma_keys_sorted_at::<K, A>(a, p + 1, q + 1);
        }
        assert forall|p: int, q: int| 0 <= p < q < b1.len() implies crate::bytes::bytes_lt(
            #[trigger] K::sort_bytes(b1[p].0),
            #[trigger] K::sort_bytes(b1[q].0),
        ) by {
            lemma_keys_sorted_at::<K, A>(b, p + 1, q + 1);
        }
        lemma_sorted_same_entries::<K, A>(a1, b1);
        assert(a =~= b) by {
            assert forall|k: int| 0 <= k < a.len() implies a[k] == b[k] by {
                if k > 0 {
                    assert(a[k] == a1[k - 1]);
                    assert(b[k] == b1[k - 1]);
                }
            }
        }
    }
}

/// The value of the first entry of `s` whose key is `k`.
pub open spec fn lookup<KV, A>(s: Seq<(KV, A)>, k: KV) -> Option<A>
    decreases s.len(),
{
    if s.len() == 0 {
        None
    } else if s[0].0 == k {
        Some(s[0].1)
    } else {
        lookup(s.drop_first(), k)
    }
}

/// Looking up in a concatenation looks in the first part, then in the second.
pub proof fn lemma_lookup_concat<KV, A>(a: Seq<(KV, A)>, b: Seq<(KV, A)>, k: KV)
    ensures
        lookup(a + b, k) == (match lookup(a, k) {
            Some(v) => Some(v),
            None => lookup(b, k),
        }),
    decreases a.len(),
{
    if a.len() > 0 {
        assert((a + b).drop_first() =~= a.drop_first() + b);
        lemma_lookup_concat(a.drop_first(), b, k);
    } else {
        assert(a + b =~= b);
    }
}

/// A key is found exactly when some entry has it, and then at that entry's value.
pub proof fn lemma_lookup_index<K: SortKey, A>(s: Seq<(K::V, A)>, k: K::V, i: int)
    requires
        keys_sorted::<K, A>(s),
        0 <= i < s.len(),
        s[i].0 == k,
    ensures
        lookup(s, k) == Some(s[i].1),
    decreases s.len(),
{
    if i > 0 {
        if s[0].0 == k {
            lemma_bytes_lt_irreflexive(K::sort_bytes(k));
            assert(bytes_lt(K::sort_bytes(s[0].0), K::sort_bytes(s[i].0)));
        }
        lemma_lookup_index::<K, A>(s.drop_first(), k, i - 1);
    }
}

/// A key that no entry has is not found.
pub proof fn lemma_lookup_absent<KV, A>(s: Seq<(KV, A)>, k: KV)
    requires
        forall|i: int| 0 <= i < s.len() ==> s[i].0 != k,
    ensures
        lookup(s, k) is None,
    decreases s.len(),
{
    if s.len() > 0 {
        lemma_lookup_absent(s.drop_first(), k);
    }
}

/// The view of a list of entries.
pub open spec fn entries_view<K: View, V: View>(e: Seq<(K, V)>) -> Seq<(K::V, V::V)> {
    Seq::new(e.len(), |i: int| (e[i].0@, e[i].1@))
}

/// Replacing the value at a position of an absent-before key changes exactly that key's binding.
proof fn lemma_lookup_splice<KV, A>(
    s: Seq<(KV, A)>,
    p: int,
    drop: int,
    key: KV,
    val: A,
    k: KV,
)
    requires
        0 <= p <= s.len(),
        0 <= drop <= 1,
        p + drop <= s.len(),
        forall|j: int| 0 <= j < p ==> s[j].0 != key,
        drop == 1 ==> s[p].0 == key,
        drop == 0 ==> forall|j: int| p <= j < s.len() ==> s[j].0 != key,
    ensures
        lookup(s.take(p) + seq![(key, val)] + s.skip(p + drop), k) == if k == key {
            Some(val)
        } else {
            lookup(s, k)
        },
{
    reveal_with_fuel(lookup, 2);
    let pre = s.take(p);
    let one = seq![(key, val)];
    let rest = s.skip(p + drop);
    lemma_lookup_concat(pre + one, rest, k);
    lemma_lookup_concat(pre, one, k);
    assert(one.drop_first() =~= Seq::<(KV, A)>::empty());
    if drop == 1 {
        assert(s =~= pre + seq![s[p]] + rest);
        lemma_lookup_concat(pre + seq![s[p]], rest, k);
        lemma_lookup_concat(pre, seq![s[p]], k);
        assert(seq![s[p]].drop_first() =~= Seq::<(KV, A)>::empty());
    } else {
        assert(s =~= pre + rest);
        lemma_lookup_concat(pre, rest, k);
    }
    if k == key {
        lemma_lookup_absent(pre, k);
    }
}

/// A map whose entries are kept strictly sorted by their keys' sort bytes.
#[derive(Debug, PartialEq, Eq)]
pub struct SortedMap<K: SortKey, V: View> {
    entries: Vec<(K, V)>,
}

/// A map keyed by strings.
pub type NameMap<V> = SortedMap<String, V>;

impl<K: SortKey, V: View> View for SortedMap<K, V> {
    type V = Seq<(K::V, V::V)>;

    closed spec fn view(&self) -> Seq<(K::V, V::V)> {
        entries_view(self.entries@)
    }
}

impl<K: SortKey, V: View> SortedMap<K, V> {
    #[verifier::type_invariant]
    spec fn inv(self) -> bool {
        keys_sorted::<K, V::V>(self@)
    }

    /// The entries, in key order.
    pub closed spec fn entries_spec(&self) -> Seq<(K, V)> {
        self.entries@
    }

    /// The view lists the entries.
    pub broadcast proof fn lemma_view_entries(&self)
        ensures
            #[trigger] self@.len() == self.entries_spec().len(),
            forall|i: int|
                0 <= i < self@.len() ==> #[trigger] self@[i] == (
                    self.entries_spec()[i].0@,
                    self.entries_spec()[i].1@,
                ),
    {
    }

    /// The empty map.
    pub fn new() -> (r: Self)
        ensures
            r@ == Seq::<(K::V, V::V)>::empty(),
    {
        let r = SortedMap { entries: Vec::new() };
        assert(r@ =~= Seq::<(K::V, V::V)>::empty());
        r
    }

    /// The number of entries.
    pub fn len(&self) -> (r: usize)
        ensures
            r == self@.len(),
    {
        self.entries.len()
    }

    /// Whether the map has no entries.
    pub fn is_empty(&self) -> (r: bool)
        ensures
            r == (self@.len() == 0),
    {
        self.entries.len() == 0
    }

    /// The entries, in key order.
    pub fn entries(&self) -> (r: &Vec<(K, V)>)
        ensures
            r@ == self.entries_spec(),
            keys_sorted::<K, V::V>(self@),
    {
        proof {
            use_type_invariant(self);
        }
        &self.entries
    }

    /// The value bound to `key`, if any.
    pub fn find(&self, key: &K) -> (r: Option<&V>)
        ensures
            match lookup(self@, key@) {
                Some(v) => r matches Some(x) && x@ == v,
                None => r is None,
            },
    {
        let kb = key.sort_bytes_of();
        let mut i: usize = 0;
        assert(self@.skip(0) =~= self@);
        while i < self.entries.len()
            invariant
                i <= self.entries@.len(),
                kb@ == K::sort_bytes(key@),
                lookup(self@, key@) == lookup(self@.skip(i as int), key@),
            decreases self.entries@.len() - i,
        {
            assert(self@.skip(i as int).drop_first() =~= self@.skip(i + 1));
            let eb = self.entries[i].0.sort_bytes_of();
            if bytes_equal(eb.as_slice(), kb.as_slice()) {
                proof {
                    K::lemma_sort_bytes_injective(self.entries@[i as int].0@, key@);
                }
                return Some(&self.entries[i].1);
            }
            i = i + 1;
        }
        None
    }

    /// Whether `key` is bound.
    pub fn contains(&self, key: &K) -> (r: bool)
        ensures
            r == lookup(self@, key@) is Some,
    {
        self.find(key).is_some()
    }

    /// Bind `key` to `value`, replacing an earlier binding of `key`.
    pub fn insert(&mut self, key: K, value: V)
        ensures
            forall|k: K::V| #[trigger]
                lookup(final(self)@, k) == if k == key@ {
                    Some(value@)
                } else {
                    lookup(old(self)@, k)
                },
            final(self)@.len() == old(self)@.len() + if lookup(old(self)@, key@) is Some {
                0int
            } else {
                1int
            },
    {
        proof {
            use_type_invariant(&*self);
        }
        let ghost old_view = self@;
        let ghost kb = K::sort_bytes(key@);
        let key_sb = key.sort_bytes_of();
        let mut i: usize = 0;
        while i < self.entries.len()
            invariant
                i <= self.entries@.len(),
                self@ == old_view,
                keys_sorted::<K, V::V>(old_view),
                kb == K::sort_bytes(key@),
                key_sb@ == kb,
                forall|j: int| 0 <= j < i ==> bytes_lt(#[trigger] K::sort_bytes(old_view[j].0), kb),
            ensures
                i <= self.entries@.len(),
                forall|j: int| 0 <= j < i ==> bytes_lt(#[trigger] K::sort_bytes(old_view[j].0), kb),
                i == self.entries@.len() || !bytes_lt(K::sort_bytes(old_view[i as int].0), kb),
            decreases self.entries@.len() - i,
        {
            let entry_bytes = self.entries[i].0.sort_bytes_of();
            assert(old_view[i as int].0 == self.entries@[i as int].0@);
            if !bytes_less(entry_bytes.as_slice(), key_sb.as_slice()) {
                break;
            }
            i = i + 1;
        }
        let ghost p = i as int;
        proof {
            assert forall|j: int| 0 <= j < p implies old_view[j].0 != key@ by {
                if old_view[j].0 == key@ {
                    lemma_bytes_lt_irreflexive(kb);
                }
            }
            lemma_lookup_absent(old_view.take(p), key@);
            assert(old_view =~= old_view.take(p) + old_view.skip(p));
            lemma_lookup_concat(old_view.take(p), old_view.skip(p), key@);
        }
        let found = if i < self.entries.len() {
            let eb = self.entries[i].0.sort_bytes_of();
            bytes_equal(eb.as_slice(), key_sb.as_slice())
        } else {
            false
        };
        if found {
            let ghost after = old_view.update(p, (key@, value@));
            proof {
                assert(old_view[p].0 == self.entries@[p].0@);
                K::lemma_sort_bytes_injective(old_view[p].0, key@);
                assert(old_view[p].0 == key@);
                lemma_lookup_index::<K, V::V>(old_view, key@, p);
                assert(after =~= old_view.take(p) + seq![(key@, value@)] + old_view.skip(p + 1));
                assert forall|k: K::V| #[trigger]
                    lookup(after, k) == if k == key@ {
                        Some(value@)
                    } else {
                        lookup(old_view, k)
                    } by {
                    lemma_lookup_splice(old_view, p, 1, key@, value@, k);
                }
                assert(keys_sorted::<K, V::V>(after));
            }
            let mut e: Vec<(K, V)> = Vec::new();
            std::mem::swap(&mut e, &mut self.entries);
            e.set(i, (key, value));
            assert(entries_view(e@) =~= after);
            self.entries = e;
            assert(self@ =~= after);
        } else {
            let ghost after = old_view.insert(p, (key@, value@));
            proof {
                if p < old_view.len() {
                    assert(old_view[p].0 == self.entries@[p].0@);
                    lemma_bytes_lt_total(K::sort_bytes(old_view[p].0), kb);
                    if K::sort_bytes(old_view[p].0) == kb {
                        K::lemma_sort_bytes_injective(old_view[p].0, key@);
                    }
                }
                assert forall|i1: int, j1: int| 0 <= i1 < j1 < after.len() implies bytes_lt(
                    #[trigger] K::sort_bytes(after[i1].0),
                    #[trigger] K::sort_bytes(after[j1].0),
                ) by {
                    if j1 == p {
                    } else if i1 == p {
                        if j1 - 1 > p {
                            assert(bytes_lt(K::sort_bytes(old_view[p].0), K::sort_bytes(old_view[j1 - 1].0)));
                            lemma_bytes_lt_transitive(kb, K::sort_bytes(old_view[p].0), K::sort_bytes(old_view[j1 - 1].0));
                        }
                    } else if i1 < p && j1 > p {
                        assert(bytes_lt(K::sort_bytes(old_view[i1].0), kb));
                        if j1 - 1 > p {
                            assert(bytes_lt(K::sort_bytes(old_view[p].0), K::sort_bytes(old_view[j1 - 1].0)));
                            lemma_bytes_lt_transitive(kb, K::sort_bytes(old_view[p].0), K::sort_bytes(old_view[j1 - 1].0));
                        }
                        lemma_bytes_lt_transitive(K::sort_bytes(old_view[i1].0), kb, K::sort_bytes(old_view[j1 - 1].0));
                    } else if i1 > p {
                        assert(bytes_lt(K::sort_bytes(old_view[i1 - 1].0), K::sort_bytes(old_view[j1 - 1].0)));
                    }
                }
                if p < old_view.len() {
                    assert(old_view[p].0 != key@);
                }
                assert forall|j: int| p <= j < old_view.len() implies old_view[j].0 != key@ by {
                    if j > p {
                        assert(bytes_lt(K::sort_bytes(old_view[p].0), K::sort_bytes(old_view[j].0)));
                        lemma_bytes_lt_transitive(kb, K::sort_bytes(old_view[p].0), K::sort_bytes(old_view[j].0));
                        lemma_bytes_lt_irreflexive(kb);
                    }
                }
                lemma_lookup_absent(old_view, key@);
                assert(after =~= old_view.take(p) + seq![(key@, value@)] + old_view.skip(p));
                assert forall|k: K::V| #[trigger]
                    lookup(after, k) == if k == key@ {
                        Some(value@)
                    } else {
                        lookup(old_view, k)
                    } by {
                    lemma_lookup_splice(old_view, p, 0, key@, value@, k);
                }
            }
            let mut e: Vec<(K, V)> = Vec::new();
            std::mem::swap(&mut e, &mut self.entries);
            e.insert(i, (key, value));
            assert(entries_view(e@) =~= after);
            self.entries = e;
            assert(self@ =~= after);
        }
    }

    /// Append an entry whose key sorts after every key already present.
    pub fn push_last(&mut self, key: K, value: V)
        requires
            forall|i: int|
                0 <= i < old(self)@.len() ==> bytes_lt(
                    #[trigger] K::sort_bytes(old(self)@[i].0),
                    K::sort_bytes(key@),
                ),
        ensures
            final(self)@ == old(self)@.push((key@, value@)),
    {
        proof {
            use_type_invariant(&*self);
        }
        let ghost after = self@.push((key@, value@));
        let mut e: Vec<(K, V)> = Vec::new();
        std::mem::swap(&mut e, &mut self.entries);
        e.push((key, value));
        assert(entries_view(e@) =~= after);
        self.entries = e;
        assert(self@ =~= after);
    }
}

impl<V: View> SortedMap<String, V> {
    /// The value bound to the name `key`, if any.
    pub fn get(&self, key: &str) -> (r: Option<&V>)
        ensures
            match lookup(self@, key@) {
                Some(v) => r matches Some(x) && x@ == v,
                None => r is None,
            },
    {
        let k = key.to_owned();
        self.find(&k)
    }

    /// Whether the name `key` is bound.
    pub fn contains_key(&self, key: &str) -> (r: bool)
        ensures
            r == lookup(self@, key@) is Some,
    {
        self.get(key).is_some()
    }
}

} // verus!
