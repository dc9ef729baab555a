//! Maps and sets keyed by text, kept in the order of their keys.

use vstd::prelude::*;

use crate::text;

verus! {

/// A value that can be copied and compared by what it stands for.
pub trait Value: View + Sized {
    /// A copy of the value.
    fn dup(&self) -> (r: Self)
        ensures
            r@ == self@,
    ;

    /// Whether both values stand for the same thing.
    fn same_as(&self, other: &Self) -> (r: bool)
        ensures
            r == (self@ == other@),
    ;
}

impl Value for String {
    fn dup(&self) -> (r: Self) {
        self.clone()
    }

    fn same_as(&self, other: &Self) -> (r: bool) {
        *self == *other
    }
}

impl Value for usize {
    fn dup(&self) -> (r: Self) {
        *self
    }

    fn same_as(&self, other: &Self) -> (r: bool) {
        *self == *other
    }
}

impl Value for Vec<u8> {
    fn dup(&self) -> (r: Self) {
        let mut out: Vec<u8> = Vec::new();
        let mut i: usize = 0;
        while i < self.len()
            invariant
                i <= self.len(),
                out@ == self@.take(i as int),
            decreases self.len() - i,
        {
            out.push(self[i]);
            i = i + 1;
        }
        assert(self@.take(i as int) =~= self@);
        out
    }

    fn same_as(&self, other: &Self) -> (r: bool) {
        if self.len() != other.len() {
            return false;
        }
        let mut i: usize = 0;
        while i < self.len()
            invariant
                i <= self.len(),
                self.len() == other.len(),
                forall|j: int| 0 <= j < i ==> self@[j] == other@[j],
            decreases self.len() - i,
        {
            if self[i] != other[i] {
                return false;
            }
            i = i + 1;
        }
        assert(self@ =~= other@);
        true
    }
}

/// A copy of a list of values.
pub fn copy<T: Value>(list: &Vec<T>) -> (r: Vec<T>)
    ensures
        text::views(r@) == text::views(list@),
{
    let mut out: Vec<T> = Vec::new();
    let mut i: usize = 0;
    while i < list.len()
        invariant
            i <= list.len(),
            text::views(out@) =~= text::views(list@.take(i as int)),
        decreases list.len() - i,
    {
        let value = list[i].dup();
        proof {
            text::views_push(out@, value);
            text::views_push(list@.take(i as int), list@[i as int]);
        }
        out.push(value);
        assert(list@.take(i + 1) =~= list@.take(i as int).push(list@[i as int]));
        i = i + 1;
    }
    assert(list@.take(i as int) =~= list@);
    out
}

/// Whether two lists hold the same values.
pub fn alike<T: Value>(a: &Vec<T>, b: &Vec<T>) -> (r: bool)
    ensures
        r == (text::views(a@) == text::views(b@)),
{
    if a.len() != b.len() {
        assert(text::views(a@).len() != text::views(b@).len());
        return false;
    }
    let mut i: usize = 0;
    while i < a.len()
        invariant
            i <= a.len(),
            a.len() == b.len(),
            forall|j: int| 0 <= j < i ==> #[trigger] text::views(a@)[j] == text::views(b@)[j],
        decreases a.len() - i,
    {
        if !a[i].same_as(&b[i]) {
            assert(text::views(a@)[i as int] != text::views(b@)[i as int]);
            return false;
        }
        i = i + 1;
    }
    assert(text::views(a@) =~= text::views(b@));
    true
}

/// Whether the strings are in order, without repetition.
pub open spec fn ascending(s: Seq<Seq<char>>) -> bool {
    forall|i: int, j: int| 0 <= i < j < s.len() ==> text::precedes(#[trigger] s[i], #[trigger] s[j])
}

/// The elements of a finite set of strings, in order.
pub open spec fn listing(set: Set<Seq<char>>) -> Seq<Seq<char>> {
    choose|s: Seq<Seq<char>>| #[trigger] ascending(s) && s.to_set() == set
}

proof fn ascending_unique(a: Seq<Seq<char>>, b: Seq<Seq<char>>)
    requires
        ascending(a),
        ascending(b),
        a.to_set() == b.to_set(),
    ensures
        a == b,
    decreases a.len(),
{
    broadcast use vstd::seq_lib::group_seq_properties;

    if a.len() == 0 {
        if b.len() > 0 {
            assert(b.to_set().contains(b[0]));
            assert(a.to_set().contains(b[0]));
        }
        assert(a =~= b);
    } else {
        assert(a.to_set().contains(a.last()));
        assert(b.contains(a.last()));
        let j = choose|j: int| 0 <= j < b.len() && b[j] == a.last();
        assert(b.to_set().contains(b.last()));
        assert(a.contains(b.last()));
        let i = choose|i: int| 0 <= i < a.len() && a[i] == b.last();
        if j < b.len() - 1 {
            text::precedes_asymmetric(b[j], b.last());
            if i < a.len() - 1 {
                text::precedes_asymmetric(a[i], a.last());
            }
        }
        assert(a.last() == b.last());
        let x = a.drop_last();
        let y = b.drop_last();
        assert forall|e: Seq<char>| x.to_set().contains(e) <==> y.to_set().contains(e) by {
            text::precedes_irreflexive(e);
            if x.contains(e) {
                let k = choose|k: int| 0 <= k < x.len() && x[k] == e;
                assert(text::precedes(a[k], a.last()));
                assert(a.contains(a[k]));
                assert(a.to_set().contains(e));
                assert(b.contains(e));
                let l = choose|l: int| 0 <= l < b.len() && b[l] == e;
                assert(l < b.len() - 1);
                assert(y[l] == e);
            }
            if y.contains(e) {
                let k = choose|k: int| 0 <= k < y.len() && y[k] == e;
                assert(text::precedes(b[k], b.last()));
                assert(b.contains(b[k]));
                assert(b.to_set().contains(e));
                assert(a.contains(e));
                let l = choose|l: int| 0 <= l < a.len() && a[l] == e;
                assert(l < a.len() - 1);
                assert(x[l] == e);
            }
        }
        assert(x.to_set() =~= y.to_set());
        ascending_unique(x, y);
        assert(a =~= x.push(a.last()));
        assert(b =~= y.push(b.last()));
    }
}

/// A sequence that is in order and holds exactly the elements of `set` is its listing.
pub proof fn listing_is(s: Seq<Seq<char>>, set: Set<Seq<char>>)
    requires
        ascending(s),
        s.to_set() == set,
    ensures
        listing(set) == s,
{
    ascending_unique(listing(set), s);
}

/// A finite set of strings that is not empty has a last element.
proof fn last_exists(set: Set<Seq<char>>)
    requires
        set.finite(),
        set.len() > 0,
    ensures
        exists|m: Seq<char>| #[trigger]
            set.contains(m) && forall|x: Seq<char>|
                set.contains(x) ==> x == m || text::precedes(x, m),
    decreases set.len(),
{
    let a = set.choose();
    let rest = set.remove(a);
    if rest.len() == 0 {
        assert forall|x: Seq<char>| set.contains(x) implies x == a || text::precedes(x, a) by {
            if x != a {
                assert(rest.contains(x));
            }
        }
        assert(set.contains(a));
    } else {
        last_exists(rest);
        let m = choose|m: Seq<char>| #[trigger]
            rest.contains(m) && forall|x: Seq<char>|
                rest.contains(x) ==> x == m || text::precedes(x, m);
        text::precedes_total(a, m);
        let n = if text::precedes(a, m) { m } else { a };
        assert(set.contains(n));
        assert forall|x: Seq<char>| set.contains(x) implies x == n || text::precedes(x, n) by {
            if x != a {
                assert(rest.contains(x));
                if n == a && x != m {
                    text::precedes_transitive(x, m, a);
                }
            }
        }
    }
}

/// Every finite set of strings has a listing.
pub proof fn listing_exists(set: Set<Seq<char>>)
    requires
        set.finite(),
    ensures
        ascending(listing(set)),
        listing(set).to_set() == set,
    decreases set.len(),
{
    broadcast use vstd::seq_lib::group_seq_properties;

    if set.len() == 0 {
        let s = Seq::<Seq<char>>::empty();
        assert(s.to_set() =~= set);
        assert(ascending(s));
    } else {
        last_exists(set);
        let m = choose|m: Seq<char>| #[trigger]
            set.contains(m) && forall|x: Seq<char>|
                set.contains(x) ==> x == m || text::precedes(x, m);
        let rest = set.remove(m);
        listing_exists(rest);
        let s = listing(rest);
        let t = s.push(m);
        assert forall|i: int, j: int| 0 <= i < j < t.len() implies text::precedes(
            #[trigger] t[i],
            #[trigger] t[j],
        ) by {
            if j == s.len() {
                assert(s.to_set().contains(s[i]));
                assert(rest.contains(s[i]));
            } else {
                assert(text::precedes(s[i], s[j]));
            }
        }
        assert forall|x: Seq<char>| t.to_set().contains(x) <==> set.contains(x) by {
            if t.contains(x) && x != m {
                assert(s.contains(x));
                assert(s.to_set().contains(x));
            }
            if set.contains(x) && x != m {
                assert(s.to_set().contains(x));
                assert(s.contains(x));
                let i = choose|i: int| 0 <= i < s.len() && s[i] == x;
                assert(t[i] == x);
            }
            assert(t[s.len() as int] == m);
        }
        assert(t.to_set() =~= set);
        assert(ascending(t));
    }
}

/// What is left of strings in order is in order.
pub proof fn filter_ascending(s: Seq<Seq<char>>, p: spec_fn(Seq<char>) -> bool)
    requires
        ascending(s),
    ensures
        ascending(s.filter(p)),
        forall|i: int| 0 <= i < s.filter(p).len() ==> s.contains(#[trigger] s.filter(p)[i]),
    decreases s.len(),
{
    reveal(Seq::filter);
    if s.len() > 0 {
        let t = s.drop_last();
        filter_ascending(t, p);
        assert forall|i: int| 0 <= i < t.filter(p).len() implies s.contains(#[trigger] t.filter(p)[i])
            && text::precedes(t.filter(p)[i], s.last()) by {
            let j = choose|j: int| 0 <= j < t.len() && t[j] == t.filter(p)[i];
            assert(s[j] == t.filter(p)[i]);
        }
        assert(s.contains(s[s.len() - 1]));
    }
}

/// The first `i + 1` elements are the first `i` and one more.
pub proof fn take_one_more(s: Seq<Seq<char>>, i: int, e: Seq<char>)
    requires
        0 <= i < s.len(),
    ensures
        s.take(i + 1).contains(e) <==> s.take(i).contains(e) || e == s[i],
{
    if s.take(i).contains(e) {
        let j = choose|j: int| 0 <= j < i && s.take(i)[j] == e;
        assert(s.take(i + 1)[j] == e);
    }
    if s.take(i + 1).contains(e) {
        let t = s.take(i + 1);
        let j = choose|j: int| 0 <= j < t.len() && t[j] == e;
        if j < i {
            assert(s.take(i)[j] == e);
        }
    }
    assert(s.take(i + 1)[i] == s[i]);
}

/// A listing has as many elements as the set.
pub proof fn listing_len(set: Set<Seq<char>>)
    requires
        set.finite(),
    ensures
        listing(set).len() == set.len(),
{
    listing_exists(set);
    let s = listing(set);
    assert forall|i: int, j: int| 0 <= i < s.len() && 0 <= j < s.len() && i != j implies s[i] != s[j] by {
        text::precedes_irreflexive(s[i]);
        if i < j {
            assert(text::precedes(s[i], s[j]));
        } else {
            assert(text::precedes(s[j], s[i]));
        }
    }
    assert(s.no_duplicates());
    s.unique_seq_to_set();
}

/// A map from text to values, kept in the order of the keys.
#[derive(Debug)]
pub struct StrMap<V> {
    entries: Vec<(String, V)>,
}

spec fn keys_of<V>(e: Seq<(String, V)>) -> Seq<Seq<char>> {
    e.map_values(|p: (String, V)| p.0@)
}

spec fn map_of<V: View>(e: Seq<(String, V)>) -> Map<Seq<char>, V::V> {
    Map::new(
        |k: Seq<char>| keys_of(e).contains(k),
        |k: Seq<char>| e[keys_of(e).index_of(k)].1@,
    )
}

impl<V: View> View for StrMap<V> {
    type V = Map<Seq<char>, V::V>;

    closed spec fn view(&self) -> Map<Seq<char>, V::V> {
        map_of(self.entries@)
    }
}

proof fn at_index<V: View>(e: Seq<(String, V)>, i: int)
    requires
        ascending(keys_of(e)),
        0 <= i < e.len(),
    ensures
        map_of(e).dom().contains(e[i].0@),
        map_of(e)[e[i].0@] == e[i].1@,
        keys_of(e).index_of(e[i].0@) == i,
{
    let k = keys_of(e);
    assert(k[i] == e[i].0@);
    assert(k.contains(k[i]));
    let j = k.index_of(k[i]);
    assert(0 <= j < k.len() && k[j] == k[i]);
    if i < j {
        text::precedes_asymmetric(k[i], k[j]);
    }
    if j < i {
        text::precedes_asymmetric(k[j], k[i]);
    }
}

impl<V> StrMap<V> {
    #[verifier::type_invariant]
    spec fn in_order(self) -> bool {
        ascending(keys_of(self.entries@))
    }
}

impl<V: View> StrMap<V> {
    /// The empty map.
    pub fn new() -> (r: Self)
        ensures
            r@ == Map::<Seq<char>, V::V>::empty(),
    {
        let r = StrMap { entries: Vec::new() };
        assert(r@ =~= Map::<Seq<char>, V::V>::empty());
        r
    }

    /// Number of entries.
    pub fn len(&self) -> (r: usize)
        ensures
            r == listing(self@.dom()).len(),
            ascending(listing(self@.dom())),
            listing(self@.dom()).to_set() == self@.dom(),
            self@.dom().finite(),
    {
        proof {
            vstd::seq_lib::seq_to_set_is_finite(keys_of(self.entries@));
            use_type_invariant(self);
            let k = keys_of(self.entries@);
            assert(k.to_set() =~= self@.dom());
            listing_is(k, self@.dom());
        }
        self.entries.len()
    }

    /// The key at position `i` of the order.
    pub fn key(&self, i: usize) -> (r: &String)
        requires
            i < listing(self@.dom()).len(),
        ensures
            r@ == listing(self@.dom())[i as int],
            self@.dom().contains(r@),
    {
        proof {
            use_type_invariant(self);
            let k = keys_of(self.entries@);
            assert(k.to_set() =~= self@.dom());
            listing_is(k, self@.dom());
            at_index(self.entries@, i as int);
        }
        &self.entries[i].0
    }

    /// The value at position `i` of the order.
    pub fn value(&self, i: usize) -> (r: &V)
        requires
            i < listing(self@.dom()).len(),
        ensures
            r@ == self@[listing(self@.dom())[i as int]],
            self@.dom().contains(listing(self@.dom())[i as int]),
    {
        proof {
            use_type_invariant(self);
            let k = keys_of(self.entries@);
            assert(k.to_set() =~= self@.dom());
            listing_is(k, self@.dom());
            at_index(self.entries@, i as int);
        }
        &self.entries[i].1
    }

    /// The position of the first key that does not precede `key`.
    fn position(&self, key: &str) -> (r: usize)
        ensures
            r <= self.entries@.len(),
            forall|i: int| 0 <= i < r ==> text::precedes(#[trigger] self.entries@[i].0@, key@),
            forall|i: int|
                r <= i < self.entries@.len() ==> !text::precedes(#[trigger] self.entries@[i].0@, key@),
    {
        proof {
            use_type_invariant(self);
        }
        let mut i: usize = 0;
        while i < self.entries.len()
            invariant
                i <= self.entries@.len(),
                ascending(keys_of(self.entries@)),
                forall|j: int| 0 <= j < i ==> text::precedes(#[trigger] self.entries@[j].0@, key@),
            decreases self.entries.len() - i,
        {
            if !text::before(self.entries[i].0.as_str(), key) {
                assert forall|j: int| i <= j < self.entries@.len() implies !text::precedes(
                    #[trigger] self.entries@[j].0@,
                    key@,
                ) by {
                    let k = keys_of(self.entries@);
                    if i < j && text::precedes(k[j], key@) {
                        text::precedes_transitive(k[i as int], k[j], key@);
                    }
                }
                return i;
            }
            i = i + 1;
        }
        i
    }

    /// The value of `key`.
    pub fn get(&self, key: &str) -> (r: Option<&V>)
        ensures
            r is Some <==> self@.dom().contains(key@),
            r matches Some(v) ==> v@ == self@[key@],
    {
        proof {
            use_type_invariant(self);
        }
        let i = self.position(key);
        if i < self.entries.len() && text::same(self.entries[i].0.as_str(), key) {
            proof {
                at_index(self.entries@, i as int);
            }
            return Some(&self.entries[i].1);
        }
        proof {
            let k = keys_of(self.entries@);
            if k.contains(key@) {
                let j = choose|j: int| 0 <= j < k.len() && k[j] == key@;
                text::precedes_irreflexive(key@);
                assert(self.entries@[j].0@ == key@);
                assert(i <= j);
                if i < j {
                    assert(text::precedes(k[i as int], k[j]));
                    assert(!text::precedes(self.entries@[i as int].0@, key@));
                }
            }
        }
        None
    }

    /// Whether `key` has a value.
    pub fn contains(&self, key: &str) -> (r: bool)
        ensures
            r == self@.dom().contains(key@),
    {
        self.get(key).is_some()
    }

    /// Sets the value of `key`.
    pub fn insert(&mut self, key: String, value: V)
        ensures
            final(self)@ == old(self)@.insert(key@, value@),
    {
        proof {
            use_type_invariant(&*self);
        }
        let i = self.position(key.as_str());
        let found = i < self.entries.len() && self.entries[i].0 == key;
        let mut entries: Vec<(String, V)> = Vec::new();
        std::mem::swap(&mut entries, &mut self.entries);
        let ghost before = entries@;
        if found {
            entries.remove(i);
        }
        let ghost ks = keys_of(before);
        let ghost kk = key@;
        proof {
            text::precedes_irreflexive(kk);
            assert forall|j: int| i < j < before.len() implies text::precedes(kk, #[trigger] before[j].0@) by {
                assert(text::precedes(ks[i as int], ks[j]));
                if !found {
                    assert(before[i as int].0@ != kk);
                    text::precedes_total(before[i as int].0@, kk);
                    text::precedes_transitive(kk, ks[i as int], ks[j]);
                }
            }
            if !found && i < before.len() {
                text::precedes_total(before[i as int].0@, kk);
            }
        }
        entries.insert(i, (key, value));
        proof {
            let after = entries@;
            let ka = keys_of(after);
            assert forall|a: int, b: int| 0 <= a < b < ka.len() implies text::precedes(
                #[trigger] ka[a],
                #[trigger] ka[b],
            ) by {
                let d: int = if found { 0 } else { 1 };
                let a0 = if a > i { a - d } else { a };
                let b0 = if b > i { b - d } else { b };
                if a != i {
                    assert(ka[a] == ks[a0]);
                }
                if b != i {
                    assert(ka[b] == ks[b0]);
                }
                if a != i && b != i {
                    assert(text::precedes(ks[a0], ks[b0]));
                } else if a == i {
                    assert(before[b0].0@ == ks[b0]);
                } else {
                    assert(before[a].0@ == ks[a]);
                }
            }
            assert forall|k: Seq<char>| ka.contains(k) <==> (ks.contains(k) || k == kk) by {
                if ka.contains(k) && k != kk {
                    let j = choose|j: int| 0 <= j < ka.len() && ka[j] == k;
                    let d: int = if found { 0 } else { 1 };
                    let j0 = if j > i { j - d } else { j };
                    assert(j != i);
                    assert(ks[j0] == k);
                }
                if ks.contains(k) {
                    let j = choose|j: int| 0 <= j < ks.len() && ks[j] == k;
                    let j1 = if found || j < i { j } else { j + 1 };
                    if found && j == i {
                        assert(ka[i as int] == kk);
                    }
                    assert(ka[j1] == k);
                }
                if k == kk {
                    assert(ka[i as int] == kk);
                }
            }
            assert forall|k: Seq<char>| ka.contains(k) implies map_of(after)[k] == map_of(
                before,
            ).insert(kk, value@)[k] by {
                let j = choose|j: int| 0 <= j < ka.len() && ka[j] == k;
                at_index(after, j);
                if k != kk {
                    let d: int = if found { 0 } else { 1 };
                    let j0 = if j > i { j - d } else { j };
                    assert(j != i);
                    assert(before[j0] == after[j]);
                    at_index(before, j0);
                } else {
                    if j != i {
                        if j < i {
                            text::precedes_asymmetric(ka[j], ka[i as int]);
                        } else {
                            text::precedes_asymmetric(ka[i as int], ka[j]);
                        }
                    }
                }
            }
            assert(map_of(after) =~= map_of(before).insert(kk, value@));
        }
        self.entries = entries;
    }

    /// Removes `key`.
    pub fn remove(&mut self, key: &str)
        ensures
            final(self)@ == old(self)@.remove(key@),
    {
        proof {
            use_type_invariant(&*self);
        }
        let i = self.position(key);
        let found = i < self.entries.len() && text::same(self.entries[i].0.as_str(), key);
        let mut entries: Vec<(String, V)> = Vec::new();
        std::mem::swap(&mut entries, &mut self.entries);
        let ghost before = entries@;
        let ghost ks = keys_of(before);
        if found {
            entries.remove(i);
        }
        proof {
            let after = entries@;
            let ka = keys_of(after);
            text::precedes_irreflexive(key@);
            if found {
                assert forall|a: int, b: int| 0 <= a < b < ka.len() implies text::precedes(
                    #[trigger] ka[a],
                    #[trigger] ka[b],
                ) by {
                    let a0 = if a >= i { a + 1 } else { a };
                    let b0 = if b >= i { b + 1 } else { b };
                    assert(ka[a] == ks[a0]);
                    assert(ka[b] == ks[b0]);
                }
                assert forall|k: Seq<char>| ka.contains(k) <==> (ks.contains(k) && k != key@) by {
                    if ka.contains(k) {
                        let j = choose|j: int| 0 <= j < ka.len() && ka[j] == k;
                        let j0 = if j >= i { j + 1 } else { j };
                        assert(ks[j0] == k);
                        if j0 < i {
                            text::precedes_asymmetric(ks[j0], ks[i as int]);
                        } else {
                            text::precedes_asymmetric(ks[i as int], ks[j0]);
                        }
                        assert(ks[i as int] == key@);
                    }
                    if ks.contains(k) && k != key@ {
                        let j = choose|j: int| 0 <= j < ks.len() && ks[j] == k;
                        assert(ks[i as int] == key@);
                        let j1 = if j > i { j - 1 } else { j };
                        assert(ka[j1] == k);
                    }
                }
                assert forall|k: Seq<char>| ka.contains(k) implies map_of(after)[k] == map_of(
                    before,
                )[k] by {
                    let j = choose|j: int| 0 <= j < ka.len() && ka[j] == k;
                    let j0 = if j >= i { j + 1 } else { j };
                    at_index(after, j);
                    at_index(before, j0);
                    assert(before[j0] == after[j]);
                }
            } else if ks.contains(key@) {
                let j = choose|j: int| 0 <= j < ks.len() && ks[j] == key@;
                assert(before[j].0@ == key@);
                assert(i <= j);
                if i < j {
                    assert(text::precedes(ks[i as int], ks[j]));
                    assert(before[i as int].0@ == ks[i as int]);
                }
            }
            assert(map_of(after) =~= map_of(before).remove(key@));
        }
        self.entries = entries;
    }
}

impl<V: Value> Value for StrMap<V> {
    fn dup(&self) -> (r: Self) {
        let n = self.len();
        let mut out: StrMap<V> = StrMap::new();
        let ghost keys = listing(self@.dom());
        let mut i: usize = 0;
        while i < n
            invariant
                i <= n,
                n == keys.len(),
                keys == listing(self@.dom()),
                forall|k: Seq<char>| #[trigger]
                    out@.dom().contains(k) <==> keys.take(i as int).contains(k),
                forall|k: Seq<char>| #[trigger] out@.dom().contains(k) ==> out@[k] == self@[k],
            decreases n - i,
        {
            out.insert(self.key(i).clone(), self.value(i).dup());
            proof {
                let a = keys.take(i as int);
                let b = keys.take(i + 1);
                assert(b =~= a.push(keys[i as int]));
                assert forall|k: Seq<char>| b.contains(k) <==> (a.contains(k) || k == keys[i as int]) by {
                    if a.contains(k) {
                        let j = choose|j: int| 0 <= j < a.len() && a[j] == k;
                        assert(b[j] == k);
                    }
                    assert(b[i as int] == keys[i as int]);
                }
            }
            i = i + 1;
        }
        proof {
            assert(keys.take(i as int) =~= keys);
            assert forall|k: Seq<char>| out@.dom().contains(k) <==> self@.dom().contains(k) by {
                assert(keys.to_set().contains(k) <==> self@.dom().contains(k));
            }
            assert(out@ =~= self@);
        }
        out
    }

    fn same_as(&self, other: &Self) -> (r: bool) {
        let n = self.len();
        let ghost keys = listing(self@.dom());
        if n != other.len() {
            return false;
        }
        let mut i: usize = 0;
        while i < n
            invariant
                i <= n,
                n == keys.len(),
                n == listing(other@.dom()).len(),
                keys == listing(self@.dom()),
                keys.to_set() == self@.dom(),
                forall|j: int| 0 <= j < i ==> #[trigger] keys[j] == listing(other@.dom())[j],
                forall|j: int| 0 <= j < i ==> self@[#[trigger] keys[j]] == other@[keys[j]],
            decreases n - i,
        {
            if *self.key(i) != *other.key(i) {
                return false;
            }
            if !self.value(i).same_as(other.value(i)) {
                assert(self@[keys[i as int]] != other@[keys[i as int]]);
                return false;
            }
            i = i + 1;
        }
        proof {
            assert(keys =~= listing(other@.dom()));
            assert forall|k: Seq<char>| self@.dom().contains(k) implies self@[k] == other@[k] by {
                assert(keys.to_set().contains(k));
                let j = choose|j: int| 0 <= j < keys.len() && keys[j] == k;
                assert(keys[j] == k);
            }
            assert(self@ =~= other@);
        }
        true
    }
}

/// The map that has the pairs as its entries, a later pair replacing an earlier one.
pub open spec fn pairs_map<V: View>(v: Seq<(String, V)>) -> Map<Seq<char>, V::V>
    decreases v.len(),
{
    if v.len() == 0 {
        Map::empty()
    } else {
        pairs_map(v.drop_last()).insert(v.last().0@, v.last().1@)
    }
}

/// Whether no name occurs twice.
pub open spec fn distinct_names<V>(v: Seq<(String, V)>) -> bool {
    forall|i: int, j: int| 0 <= i < j < v.len() ==> (#[trigger] v[i]).0@ != (#[trigger] v[j]).0@
}

pub proof fn pairs_map_push<V: View>(v: Seq<(String, V)>, pair: (String, V))
    ensures
        pairs_map(v.push(pair)) == pairs_map(v).insert(pair.0@, pair.1@),
{
    assert(v.push(pair).drop_last() =~= v);
}

/// The map that has the pairs as its entries.
pub fn collect<V: Value>(pairs: &Vec<(String, V)>) -> (r: StrMap<V>)
    ensures
        r@ == pairs_map(pairs@),
{
    let mut out: StrMap<V> = StrMap::new();
    let mut i: usize = 0;
    while i < pairs.len()
        invariant
            i <= pairs.len(),
            out@ == pairs_map(pairs@.take(i as int)),
        decreases pairs.len() - i,
    {
        out.insert(pairs[i].0.clone(), pairs[i].1.dup());
        assert(pairs@.take(i + 1).drop_last() =~= pairs@.take(i as int));
        i = i + 1;
    }
    assert(pairs@.take(i as int) =~= pairs@);
    out
}

impl<V: Value> StrMap<V> {
    /// The entries in order.
    pub fn to_pairs(&self) -> (r: Vec<(String, V)>)
        ensures
            pairs_map(r@) == self@,
            distinct_names(r@),
            r@.len() == listing(self@.dom()).len(),
            forall|i: int| 0 <= i < r@.len() ==> (#[trigger] r@[i]).0@ == listing(self@.dom())[i],
    {
        let n = self.len();
        let mut out: Vec<(String, V)> = Vec::new();
        let ghost keys = listing(self@.dom());
        let mut i: usize = 0;
        while i < n
            invariant
                i <= n,
                n == keys.len(),
                keys == listing(self@.dom()),
                out@.len() == i,
                forall|j: int| 0 <= j < i ==> (#[trigger] out@[j]).0@ == keys[j],
                forall|k: Seq<char>| #[trigger]
                    pairs_map(out@).dom().contains(k) <==> keys.take(i as int).contains(k),
                forall|k: Seq<char>| #[trigger]
                    pairs_map(out@).dom().contains(k) ==> pairs_map(out@)[k] == self@[k],
            decreases n - i,
        {
            let ghost before = out@;
            let pair = (self.key(i).clone(), self.value(i).dup());
            out.push(pair);
            proof {
                pairs_map_push(before, pair);
                let a = keys.take(i as int);
                let b = keys.take(i + 1);
                assert(b =~= a.push(keys[i as int]));
                assert forall|k: Seq<char>| b.contains(k) <==> (a.contains(k) || k == keys[i as int]) by {
                    if a.contains(k) {
                        let j = choose|j: int| 0 <= j < a.len() && a[j] == k;
                        assert(b[j] == k);
                    }
                    assert(b[i as int] == keys[i as int]);
                }
            }
            i = i + 1;
        }
        proof {
            assert(keys.take(i as int) =~= keys);
            assert forall|k: Seq<char>| pairs_map(out@).dom().contains(k) <==> self@.dom().contains(k) by {
                assert(keys.to_set().contains(k) <==> self@.dom().contains(k));
            }
            assert(pairs_map(out@) =~= self@);
            listing_exists(self@.dom());
            assert forall|i: int, j: int| 0 <= i < j < out@.len() implies (#[trigger] out@[i]).0@
                != (#[trigger] out@[j]).0@ by {
                assert(text::precedes(keys[i], keys[j]));
                text::precedes_irreflexive(keys[i]);
            }
        }
        out
    }
}

/// A set of texts, kept in order.
#[derive(Debug)]
pub struct StrSet {
    items: StrMap<usize>,
}

impl View for StrSet {
    type V = Set<Seq<char>>;

    closed spec fn view(&self) -> Set<Seq<char>> {
        self.items@.dom()
    }
}

impl StrSet {
    /// The empty set.
    pub fn new() -> (r: Self)
        ensures
            r@ == Set::<Seq<char>>::empty(),
    {
        let r = StrSet { items: StrMap::new() };
        assert(r@ =~= Set::<Seq<char>>::empty());
        r
    }

    /// Number of elements.
    pub fn len(&self) -> (r: usize)
        ensures
            r == listing(self@).len(),
            ascending(listing(self@)),
            listing(self@).to_set() == self@,
            self@.finite(),
    {
        self.items.len()
    }

    /// The element at position `i` of the order.
    pub fn item(&self, i: usize) -> (r: &String)
        requires
            i < listing(self@).len(),
        ensures
            r@ == listing(self@)[i as int],
            self@.contains(r@),
    {
        self.items.key(i)
    }

    /// Whether `item` is in the set.
    pub fn contains(&self, item: &str) -> (r: bool)
        ensures
            r == self@.contains(item@),
    {
        self.items.contains(item)
    }

    /// Adds `item`.
    pub fn insert(&mut self, item: String)
        ensures
            final(self)@ == old(self)@.insert(item@),
    {
        self.items.insert(item, 0);
        assert(self@ =~= old(self)@.insert(item@));
    }

    /// The set of the texts in `items`.
    pub fn from_vec(items: &Vec<String>) -> (r: Self)
        ensures
            r@ == text::views(items@).to_set(),
    {
        let mut out = StrSet::new();
        let mut i: usize = 0;
        assert(text::views(items@).take(0).to_set() =~= Set::<Seq<char>>::empty());
        while i < items.len()
            invariant
                i <= items.len(),
                out@ == text::views(items@).take(i as int).to_set(),
            decreases items.len() - i,
        {
            out.insert(items[i].clone());
            proof {
                let a = text::views(items@).take(i as int);
                let b = text::views(items@).take(i + 1);
                assert(b =~= a.push(items@[i as int]@));
                assert forall|k: Seq<char>| b.contains(k) <==> (a.contains(k) || k == items@[i as int]@) by {
                    if a.contains(k) {
                        let j = choose|j: int| 0 <= j < a.len() && a[j] == k;
                        assert(b[j] == k);
                    }
                    assert(b[i as int] == items@[i as int]@);
                }
                assert(out@ =~= b.to_set());
            }
            i = i + 1;
        }
        assert(text::views(items@).take(i as int) =~= text::views(items@));
        out
    }

    /// The elements in order.
    pub fn to_vec(&self) -> (r: Vec<String>)
        ensures
            text::views(r@) == listing(self@),
            listing(self@).to_set() == self@,
            ascending(listing(self@)),
    {
        let n = self.len();
        let mut out: Vec<String> = Vec::new();
        let mut i: usize = 0;
        while i < n
            invariant
                i <= n,
                n == listing(self@).len(),
                text::views(out@) == listing(self@).take(i as int),
            decreases n - i,
        {
            broadcast use crate::text::views_push;

            out.push(self.item(i).clone());
            assert(text::views(out@) =~= listing(self@).take(i + 1));
            i = i + 1;
        }
        assert(text::views(out@) =~= listing(self@));
        out
    }
}

impl Value for StrSet {
    fn dup(&self) -> (r: Self) {
        StrSet { items: self.items.dup() }
    }

    fn same_as(&self, other: &Self) -> (r: bool) {
        let n = self.len();
        if n != other.len() {
            return false;
        }
        let mut i: usize = 0;
        while i < n
            invariant
                i <= n,
                n == listing(self@).len(),
                n == listing(other@).len(),
                forall|j: int| 0 <= j < i ==> #[trigger] listing(self@)[j] == listing(other@)[j],
            decreases n - i,
        {
            if *self.item(i) != *other.item(i) {
                return false;
            }
            i = i + 1;
        }
        assert(listing(self@) =~= listing(other@));
        true
    }
}

impl StrSet {
    /// The elements that are not in `other`.
    pub fn minus(&self, other: &StrSet) -> (r: StrSet)
        ensures
            r@ == self@.difference(other@),
    {
        let n = self.len();
        let ghost all = listing(self@);
        let mut out = StrSet::new();
        let mut i: usize = 0;
        while i < n
            invariant
                i <= n,
                n == all.len(),
                all == listing(self@),
                all.to_set() == self@,
                forall|e: Seq<char>| #[trigger]
                    out@.contains(e) <==> all.take(i as int).contains(e) && !other@.contains(e),
            decreases n - i,
        {
            let item = self.item(i);
            if !other.contains(item.as_str()) {
                out.insert(item.clone());
            }
            assert forall|e: Seq<char>| #[trigger] out@.contains(e) <==> all.take(i + 1).contains(e)
                && !other@.contains(e) by {
                take_one_more(all, i as int, e);
            }
            i = i + 1;
        }
        proof {
            assert(all.take(i as int) =~= all);
            assert forall|e: Seq<char>| out@.contains(e) <==> self@.difference(other@).contains(e) by {
                assert(all.to_set().contains(e) <==> all.contains(e));
            }
            assert(out@ =~= self@.difference(other@));
        }
        out
    }
}

impl<V: View> StrMap<V> {
    /// Adds the keys to `set`.
    pub fn add_keys(&self, set: &mut StrSet)
        ensures
            final(set)@ == old(set)@.union(self@.dom()),
    {
        let n = self.len();
        let ghost start = set@;
        let ghost all = listing(self@.dom());
        let mut i: usize = 0;
        while i < n
            invariant
                i <= n,
                n == all.len(),
                all == listing(self@.dom()),
                all.to_set() == self@.dom(),
                forall|e: Seq<char>| #[trigger]
                    set@.contains(e) <==> start.contains(e) || all.take(i as int).contains(e),
            decreases n - i,
        {
            let key = self.key(i);
            set.insert(key.clone());
            assert forall|e: Seq<char>| #[trigger] set@.contains(e) <==> start.contains(e)
                || all.take(i + 1).contains(e) by {
                take_one_more(all, i as int, e);
            }
            i = i + 1;
        }
        proof {
            assert(all.take(i as int) =~= all);
            assert forall|e: Seq<char>| set@.contains(e) <==> start.union(self@.dom()).contains(e) by {
                assert(all.to_set().contains(e) <==> all.contains(e));
            }
            assert(set@ =~= start.union(self@.dom()));
        }
    }
}

} // verus!
