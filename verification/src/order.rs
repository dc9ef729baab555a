//! Putting lists in order.

use vstd::prelude::*;

use crate::keys::{KeyView, PublicKey, Signature, SignatureView};
use crate::strmap::Value;
use crate::text;

verus! {

broadcast use crate::text::views_push;

/// A value that has a place in an order.
pub trait Ordered: Value {
    /// Whether `a` comes strictly before `b`.
    spec fn before(a: Self::V, b: Self::V) -> bool;

    /// Whether this value comes strictly before `other`.
    fn goes_before(&self, other: &Self) -> (r: bool)
        ensures
            r == Self::before(self@, other@),
    ;
}

/// `s` with `x` inserted behind everything that it does not come before, seen from the end.
pub open spec fn inserted<T: Ordered>(s: Seq<T::V>, x: T::V) -> Seq<T::V>
    decreases s.len(),
{
    if s.len() > 0 && T::before(x, s.last()) {
        inserted::<T>(s.drop_last(), x).push(s.last())
    } else {
        s.push(x)
    }
}

/// The elements of `s` in order, equals staying as they were.
pub open spec fn sorted<T: Ordered>(s: Seq<T::V>) -> Seq<T::V>
    decreases s.len(),
{
    if s.len() == 0 {
        s
    } else {
        inserted::<T>(sorted::<T>(s.drop_last()), s.last())
    }
}

/// Inserting adds exactly the new element.
pub proof fn inserted_holds<T: Ordered>(s: Seq<T::V>, x: T::V, e: T::V)
    ensures
        inserted::<T>(s, x).contains(e) <==> s.contains(e) || e == x,
    decreases s.len(),
{
    if s.len() > 0 && T::before(x, s.last()) {
        let t = inserted::<T>(s.drop_last(), x);
        inserted_holds::<T>(s.drop_last(), x, e);
        push_holds(t, s.last(), e);
        push_holds(s.drop_last(), s.last(), e);
        assert(s.drop_last().push(s.last()) =~= s);
    } else {
        push_holds(s, x, e);
    }
}

/// Appending adds exactly the new element.
pub proof fn push_holds<A>(s: Seq<A>, x: A, e: A)
    ensures
        s.push(x).contains(e) <==> s.contains(e) || e == x,
{
    if s.contains(e) {
        let i = choose|i: int| 0 <= i < s.len() && s[i] == e;
        assert(s.push(x)[i] == e);
    }
    assert(s.push(x)[s.len() as int] == x);
}

/// Putting a list in order neither adds nor drops an element.
pub proof fn sorted_holds<T: Ordered>(s: Seq<T::V>, e: T::V)
    ensures
        sorted::<T>(s).contains(e) <==> s.contains(e),
    decreases s.len(),
{
    if s.len() > 0 {
        sorted_holds::<T>(s.drop_last(), e);
        inserted_holds::<T>(sorted::<T>(s.drop_last()), s.last(), e);
        push_holds(s.drop_last(), s.last(), e);
        assert(s.drop_last().push(s.last()) =~= s);
    }
}

/// Whether no two elements have the same label.
pub open spec fn distinct<A>(s: Seq<A>, label: spec_fn(A) -> Seq<char>) -> bool {
    forall|i: int, j: int| 0 <= i < j < s.len() ==> label(#[trigger] s[i]) != label(#[trigger] s[j])
}

/// Inserting an element with a new label leaves all labels distinct.
proof fn inserted_distinct<T: Ordered>(s: Seq<T::V>, x: T::V, label: spec_fn(T::V) -> Seq<char>)
    requires
        distinct(s, label),
        forall|i: int| 0 <= i < s.len() ==> label(#[trigger] s[i]) != label(x),
    ensures
        distinct(inserted::<T>(s, x), label),
    decreases s.len(),
{
    if s.len() > 0 && T::before(x, s.last()) {
        let t = s.drop_last();
        let u = inserted::<T>(t, x);
        assert forall|i: int| 0 <= i < t.len() implies label(#[trigger] t[i]) != label(x) by {
            assert(t[i] == s[i]);
        }
        assert(distinct(t, label)) by {
            assert forall|i: int, j: int| 0 <= i < j < t.len() implies label(#[trigger] t[i]) != label(
                #[trigger] t[j],
            ) by {
                assert(t[i] == s[i] && t[j] == s[j]);
            }
        }
        inserted_distinct::<T>(t, x, label);
        assert forall|i: int| 0 <= i < u.len() implies label(#[trigger] u[i]) != label(s.last()) by {
            assert(u.contains(u[i]));
            inserted_holds::<T>(t, x, u[i]);
            if u[i] != x {
                let j = choose|j: int| 0 <= j < t.len() && t[j] == u[i];
                assert(s[j] == u[i]);
                assert(s[s.len() - 1] == s.last());
            } else {
                assert(s[s.len() - 1] == s.last());
            }
        }
    }
}

/// Putting a list in order leaves all labels distinct.
pub proof fn sorted_distinct<T: Ordered>(s: Seq<T::V>, label: spec_fn(T::V) -> Seq<char>)
    requires
        distinct(s, label),
    ensures
        distinct(sorted::<T>(s), label),
    decreases s.len(),
{
    if s.len() > 0 {
        let t = s.drop_last();
        let u = sorted::<T>(t);
        assert(distinct(t, label)) by {
            assert forall|i: int, j: int| 0 <= i < j < t.len() implies label(#[trigger] t[i]) != label(
                #[trigger] t[j],
            ) by {
                assert(t[i] == s[i] && t[j] == s[j]);
            }
        }
        sorted_distinct::<T>(t, label);
        assert forall|i: int| 0 <= i < u.len() implies label(#[trigger] u[i]) != label(s.last()) by {
            assert(u.contains(u[i]));
            sorted_holds::<T>(t, u[i]);
            let j = choose|j: int| 0 <= j < t.len() && t[j] == u[i];
            assert(s[j] == u[i]);
            assert(s[s.len() - 1] == s.last());
        }
        inserted_distinct::<T>(u, s.last(), label);
    }
}

fn insert<T: Ordered>(v: &mut Vec<T>, x: T)
    ensures
        text::views(final(v)@) == inserted::<T>(text::views(old(v)@), x@),
{
    let ghost s = text::views(v@);
    let mut p: usize = v.len();
    assert(s.take(p as int) =~= s);
    while p > 0 && x.goes_before(&v[p - 1])
        invariant
            p <= v.len(),
            s == text::views(v@),
            inserted::<T>(s, x@) == inserted::<T>(s.take(p as int), x@) + s.skip(p as int),
        decreases p,
    {
        proof {
            let t = s.take(p as int);
            assert(t.last() == v@[p - 1]@);
            assert(t.drop_last() =~= s.take(p - 1));
            assert(inserted::<T>(t, x@) + s.skip(p as int) =~= inserted::<T>(s.take(p - 1), x@)
                + s.skip(p - 1));
        }
        p = p - 1;
    }
    proof {
        let t = s.take(p as int);
        if p > 0 {
            assert(t.last() == v@[p - 1]@);
        }
        assert(inserted::<T>(t, x@) == t.push(x@));
    }
    let ghost before = v@;
    v.insert(p, x);
    assert(text::views(v@) =~= s.take(p as int).push(x@) + s.skip(p as int));
}

/// The values in order, equals staying as they were.
pub fn sort<T: Ordered>(v: &Vec<T>) -> (r: Vec<T>)
    ensures
        text::views(r@) == sorted::<T>(text::views(v@)),
{
    let mut out: Vec<T> = Vec::new();
    let ghost s = text::views(v@);
    let mut i: usize = 0;
    assert(text::views(out@) =~= s.take(0));
    while i < v.len()
        invariant
            i <= v.len(),
            s == text::views(v@),
            text::views(out@) == sorted::<T>(s.take(i as int)),
        decreases v.len() - i,
    {
        assert(s.take(i + 1).drop_last() =~= s.take(i as int));
        assert(s.take(i + 1).last() == v@[i as int]@);
        insert(&mut out, v[i].dup());
        i = i + 1;
    }
    assert(s.take(i as int) =~= s);
    out
}

impl Ordered for PublicKey {
    open spec fn before(a: KeyView, b: KeyView) -> bool {
        text::precedes(a.id, b.id)
    }

    fn goes_before(&self, other: &Self) -> (r: bool) {
        text::before(self.id.as_str(), other.id.as_str())
    }
}

/// The order of byte strings: by the first byte that differs, a proper prefix coming first.
pub open spec fn bytes_precede(a: Seq<u8>, b: Seq<u8>) -> bool
    decreases a.len(),
{
    if b.len() == 0 {
        false
    } else if a.len() == 0 {
        true
    } else if a[0] == b[0] {
        bytes_precede(a.skip(1), b.skip(1))
    } else {
        a[0] < b[0]
    }
}

fn bytes_before(a: &Vec<u8>, b: &Vec<u8>) -> (r: bool)
    ensures
        r == bytes_precede(a@, b@),
{
    let mut i: usize = 0;
    assert(a@.skip(0) =~= a@);
    assert(b@.skip(0) =~= b@);
    while i < a.len() && i < b.len()
        invariant
            i <= a.len(),
            i <= b.len(),
            bytes_precede(a@, b@) == bytes_precede(a@.skip(i as int), b@.skip(i as int)),
        decreases a.len() - i,
    {
        if a[i] != b[i] {
            return a[i] < b[i];
        }
        assert(a@.skip(i as int).skip(1) =~= a@.skip(i + 1));
        assert(b@.skip(i as int).skip(1) =~= b@.skip(i + 1));
        i = i + 1;
    }
    i < b.len()
}

impl Ordered for Signature {
    open spec fn before(a: SignatureView, b: SignatureView) -> bool {
        text::precedes(a.key_id, b.key_id) || (a.key_id == b.key_id && bytes_precede(
            a.value,
            b.value,
        ))
    }

    fn goes_before(&self, other: &Self) -> (r: bool) {
        text::before(self.key_id.as_str(), other.key_id.as_str()) || (self.key_id == other.key_id
            && bytes_before(&self.value, &other.value))
    }
}

} // verus!
