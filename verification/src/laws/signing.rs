//! What signing promises, and what is said of who has signed.

use vstd::prelude::*;

use vstd::utf8::{decode_utf8, valid_utf8};

use crate::config;
use crate::documents;
use crate::documents::RoleKeysView;
use crate::error::Fault;
use crate::keys;
use crate::keys::{KeyView, SignatureView};
use crate::laws::terms;
use crate::order;
use crate::order::Ordered;
use crate::publish;
use crate::repo;
use crate::repo::Files;
use crate::strmap;
use crate::text;

verus! {

/// Who must sign a role is what root or the delegation says: there is a threshold and a list of keys
/// exactly where there is one of these, and they are its threshold and its keys.
pub proof fn keys_come_from_root_or_delegation(
    files: Files,
    role: Seq<char>,
    k: RoleKeysView,
    keys: Map<Seq<char>, KeyView>,
    key: KeyView,
)
    requires
        terms::must_sign(files, role, k, keys),
        k.key_ids.finite(),
    ensures
        repo::role_keys_of(files, role) matches Ok(need) && need == repo::picked(k, keys) && need.0
            == k.threshold && (need.1.contains(key) <==> terms::authorized(k, keys, key)),
{
    config::different_top_level();
    terms::picked_holds(k, keys, key);
    if !terms::is_top_level(role) {
        let t = (documents::targets_in(terms::bytes_of(files, "targets"@))->0).1;
        let i = choose|i: int| #[trigger]
            terms::first_delegation(t, role, i) && k == (RoleKeysView {
                threshold: t.delegations.roles[i].threshold,
                key_ids: t.delegations.roles[i].key_ids,
            });
        repo::first_delegation(t, role, i);
    }
}

/// Where it can be told who must sign a role, root or a delegation says it.
pub proof fn somebody_must_sign(files: Files, role: Seq<char>)
    requires
        repo::role_keys_of(files, role) is Ok,
    ensures
        exists|k: RoleKeysView, keys: Map<Seq<char>, KeyView>| #[trigger]
            terms::must_sign(files, role, k, keys) && repo::role_keys_of(files, role) == Ok::<
                (int, Seq<KeyView>),
                Fault,
            >(repo::picked(k, keys)),
{
    config::different_top_level();
    if terms::is_top_level(role) {
        let r = (documents::root_in(terms::bytes_of(files, "root"@))->0).1;
        assert(terms::must_sign(files, role, terms::given_by_root(r, role), r.keys));
    } else {
        let t = (documents::targets_in(terms::bytes_of(files, "targets"@))->0).1;
        publish::delegation_found(t, role);
        let i = repo::delegation_to(t, role)->0;
        assert(terms::first_delegation(t, role, i));
        let k = RoleKeysView {
            threshold: t.delegations.roles[i].threshold,
            key_ids: t.delegations.roles[i].key_ids,
        };
        assert(terms::must_sign(files, role, k, t.delegations.keys));
    }
}

/// Each must reach its own threshold, and a new root also that of the root before it: whenever there is
/// a root in `base` and the bytes of root differ from it, the keys of that root must sign as well.
pub proof fn a_new_root_is_signed_by_the_old_one_too(files: Files, base: Files, role: Seq<char>)
    requires
        repo::requirements_of(files, base, role) is Ok,
    ensures
        ({
            let needs = repo::requirements_of(files, base, role)->Ok_0;
            let new_root = role == "root"@ && terms::has(base, "root"@) && !(terms::has(
                files,
                "root"@,
            ) && terms::bytes_of(base, "root"@) == terms::bytes_of(files, "root"@));
            &&& needs.len() == if new_root {
                2nat
            } else {
                1nat
            }
            &&& repo::role_keys_of(files, role) == Ok::<(int, Seq<KeyView>), Fault>(needs[0])
            &&& new_root ==> repo::role_keys_of(base, "root"@) == Ok::<(int, Seq<KeyView>), Fault>(
                needs[1],
            )
        }),
{
}

/// Those who count as having signed a role are the keys, of those asked about, whose valid signature
/// its file bears.
pub proof fn signers_have_signed(files: Files, role: Seq<char>, keys: Seq<KeyView>, key: KeyView)
    requires
        repo::signed_by_of(files, role, keys) is Ok,
    ensures
        terms::has(files, role),
        repo::signed_by_of(files, role, keys)->Ok_0.contains(key) <==> keys.contains(key)
            && terms::bears(terms::bytes_of(files, role), key),
{
    let part = repo::signed_part(files, role)->Ok_0;
    repo::filter_holds(keys, |k: KeyView| repo::signed(part.0, part.1, k), key);
}

/// Whether the file bears a valid signature of a key.
pub open spec fn bearer(file: Seq<u8>) -> spec_fn(KeyView) -> bool {
    |k: KeyView| terms::bears(file, k)
}

/// How many of the keys have signed the file.
pub open spec fn signed_count(file: Seq<u8>, keys: Seq<KeyView>) -> nat {
    keys.filter(bearer(file)).len()
}

/// A key is missing exactly where a threshold it counts for is not reached and it has not signed:
/// of each requirement that fewer of its keys have signed than it asks for, all keys that have not.
pub proof fn missing_keys_are_those_still_needed(
    files: Files,
    base: Files,
    role: Seq<char>,
    key: KeyView,
)
    requires
        repo::missing_keys_of(files, base, role) is Ok,
    ensures
        ({
            let needs = repo::requirements_of(files, base, role)->Ok_0;
            let file = terms::bytes_of(files, role);
            repo::missing_keys_of(files, base, role)->Ok_0.contains(key) <==> exists|i: int|
                0 <= i < needs.len() && signed_count(file, (#[trigger] needs[i]).1) < needs[i].0
                    && needs[i].1.contains(key) && !terms::bears(file, key)
        }),
{
    missing_hold(files, role, repo::requirements_of(files, base, role)->Ok_0, key);
}

/// Of several needs, the keys that are missing.
proof fn missing_hold(
    files: Files,
    role: Seq<char>,
    needs: Seq<(int, Seq<KeyView>)>,
    key: KeyView,
)
    requires
        repo::missing_for_all(files, role, needs) is Ok,
    ensures
        ({
            let file = terms::bytes_of(files, role);
            repo::missing_for_all(files, role, needs)->Ok_0.contains(key) <==> exists|i: int|
                0 <= i < needs.len() && signed_count(file, (#[trigger] needs[i]).1) < needs[i].0
                    && needs[i].1.contains(key) && !terms::bears(file, key)
        }),
    decreases needs.len(),
{
    let file = terms::bytes_of(files, role);
    if needs.len() > 0 {
        let rest = needs.drop_last();
        let last = needs.last();
        let n = needs.len() - 1;
        missing_hold(files, role, rest, key);
        assert(needs[n] == last);
        let earlier = repo::missing_for_all(files, role, rest)->Ok_0;
        let more = repo::missing_for(files, role, last)->Ok_0;
        let all = repo::missing_for_all(files, role, needs)->Ok_0;
        let done = repo::signed_by_of(files, role, last.1)->Ok_0;
        let part = repo::signed_part(files, role)->Ok_0;
        let p = |k: KeyView| repo::signed(part.0, part.1, k);
        let q = bearer(file);
        assert forall|k: KeyView| last.1.contains(k) implies #[trigger] q(k) == p(k) by {}
        repo::filter_alike(last.1, p, q);
        assert(done.len() == signed_count(file, last.1));
        signers_have_signed(files, role, last.1, key);
        repo::filter_holds(last.1, |k: KeyView| !done.contains(k), key);
        assert(all == earlier + more);
        joined_holds(earlier, more, key);
        if exists|i: int|
            0 <= i < rest.len() && signed_count(file, (#[trigger] rest[i]).1) < rest[i].0
                && rest[i].1.contains(key) && !terms::bears(file, key) {
            let i = choose|i: int|
                0 <= i < rest.len() && signed_count(file, (#[trigger] rest[i]).1) < rest[i].0
                    && rest[i].1.contains(key) && !terms::bears(file, key);
            assert(needs[i] == rest[i]);
        }
        if exists|i: int|
            0 <= i < needs.len() && signed_count(file, (#[trigger] needs[i]).1) < needs[i].0
                && needs[i].1.contains(key) && !terms::bears(file, key) {
            let i = choose|i: int|
                0 <= i < needs.len() && signed_count(file, (#[trigger] needs[i]).1) < needs[i].0
                    && needs[i].1.contains(key) && !terms::bears(file, key);
            if i < n {
                assert(rest[i] == needs[i]);
            }
        }
    }
}

/// What is in one list or the other is in both together.
pub proof fn joined_holds<A>(a: Seq<A>, b: Seq<A>, e: A)
    ensures
        (a + b).contains(e) <==> a.contains(e) || b.contains(e),
{
    if a.contains(e) {
        let i = choose|i: int| 0 <= i < a.len() && a[i] == e;
        assert((a + b)[i] == e);
    }
    if b.contains(e) {
        let i = choose|i: int| 0 <= i < b.len() && b[i] == e;
        assert((a + b)[a.len() + i] == e);
    }
    if (a + b).contains(e) {
        let i = choose|i: int| 0 <= i < (a + b).len() && (a + b)[i] == e;
        if i < a.len() {
            assert(a[i] == e);
        } else {
            assert(b[i - a.len()] == e);
        }
    }
}

/// A threshold is reached by count exactly where it is reached: no key counts twice.
pub proof fn counting_signers(file: Seq<u8>, k: RoleKeysView, keys: Map<Seq<char>, KeyView>)
    requires
        k.key_ids.finite(),
        documents::keys_sound(keys),
        k.threshold >= 1,
    ensures
        signed_count(file, repo::picked(k, keys).1) >= k.threshold <==> terms::well_signed(
            file,
            k,
            keys,
        ),
{
    let need = repo::picked(k, keys).1;
    let ids = strmap::listing(k.key_ids);
    let label = |k: KeyView| k.id;
    let p = bearer(file);
    let done = need.filter(p);
    strmap::listing_exists(k.key_ids);
    publish::chosen_distinct(ids, keys);
    order::sorted_distinct::<keys::PublicKey>(repo::chosen(ids, keys), label);
    repo::filter_distinct(need, p, label);
    if done.len() >= k.threshold {
        assert forall|i: int| 0 <= i < done.len() implies terms::authorized(
            k,
            keys,
            #[trigger] done[i],
        ) && terms::bears(file, done[i]) by {
            assert(done.contains(done[i]));
            repo::filter_holds(need, p, done[i]);
            terms::picked_holds(k, keys, done[i]);
        }
        assert(terms::different(done)) by {
            assert forall|i: int, j: int| 0 <= i < j < done.len() implies (#[trigger] done[i]).id != (
            #[trigger] done[j]).id by {
                assert(label(done[i]) != label(done[j]));
            }
        }
        assert(terms::reach(file, k, keys, done));
    }
    if terms::well_signed(file, k, keys) {
        let signers = choose|signers: Seq<KeyView>| #[trigger] terms::reach(file, k, keys, signers);
        assert(signers.no_duplicates()) by {
            assert forall|i: int, j: int|
                0 <= i < signers.len() && 0 <= j < signers.len() && i != j implies signers[i]
                != signers[j] by {
                if i < j {
                    assert(signers[i].id != signers[j].id);
                } else {
                    assert(signers[j].id != signers[i].id);
                }
            }
        }
        assert forall|key: KeyView| signers.to_set().contains(key) implies #[trigger]
            done.to_set().contains(key) by {
            let i = choose|i: int| 0 <= i < signers.len() && signers[i] == key;
            assert(terms::authorized(k, keys, signers[i]));
            terms::picked_holds(k, keys, key);
            repo::filter_holds(need, p, key);
        }
        signers.unique_seq_to_set();
        done.lemma_cardinality_of_set();
        vstd::seq_lib::seq_to_set_is_finite(done);
        vstd::set_lib::lemma_len_subset(signers.to_set(), done.to_set());
    }
}

/// Only a valid signature is ever added: where signing succeeds, the key accepts the signature of what
/// the file says.
pub proof fn only_valid_signatures_are_added(
    files: Files,
    role: Seq<char>,
    key: KeyView,
    value: Seq<u8>,
)
    requires
        repo::sign_of(files, role, key, value) is Ok,
    ensures
        terms::has(files, role),
        documents::signing_input(terms::bytes_of(files, role)) matches Some(input) && keys::accepts(
            key,
            input,
            value,
        ),
{
}

/// A key made of a PEM text accepts exactly the signatures that the public key in it accepts.
pub proof fn keys_accept_what_their_pem_accepts(
    key: KeyView,
    pem: Seq<char>,
    message: Seq<u8>,
    sig: Seq<u8>,
)
    requires
        keys::pem_of(key.definition) == Some(pem),
    ensures
        keys::accepts(key, message, sig) <==> (keys::pem_key(pem) matches Some(k) && k.algorithm
            == "1.2.840.10045.2.1"@ && k.parameter == "1.2.840.10045.3.1.7"@ && keys::p256_accepts(
            k.point,
            message,
            sig,
        )),
{
}

/// A key is an ECDSA key on P-256 where its definition says so, and its value is then a PEM text. What
/// any other key accepts is what its own scheme does.
pub proof fn other_keys_accept_what_their_scheme_accepts(
    key: KeyView,
    message: Seq<u8>,
    sig: Seq<u8>,
)
    ensures
        ({
            let ecdsa = keys::key_parts(key.definition) matches Some(p) && p.key_type == "ecdsa"@
                && p.scheme == "ecdsa-sha2-nistp256"@ && valid_utf8(p.public);
            &&& ecdsa ==> keys::pem_of(key.definition) == Some(
                decode_utf8(keys::key_parts(key.definition)->0.public),
            )
            &&& !ecdsa ==> (keys::accepts(key, message, sig) <==> keys::known_scheme_accepts(
                key.definition,
                message,
                sig,
            ))
        }),
{
}

/// Whether the elements stand in the order of their labels.
pub open spec fn in_label_order<A>(s: Seq<A>, label: spec_fn(A) -> Seq<char>) -> bool {
    forall|i: int, j: int|
        0 <= i < j < s.len() ==> !text::precedes(label(#[trigger] s[j]), label(#[trigger] s[i]))
}

/// Whether an order goes by labels first.
spec fn goes_by<T: Ordered>(label: spec_fn(T::V) -> Seq<char>) -> bool {
    forall|a: T::V, b: T::V|
        #![trigger T::before(a, b)]
        (text::precedes(label(a), label(b)) ==> T::before(a, b)) && (T::before(a, b)
            ==> !text::precedes(label(b), label(a)))
}

/// An element is inserted where its label belongs.
proof fn inserted_in_order<T: Ordered>(s: Seq<T::V>, x: T::V, label: spec_fn(T::V) -> Seq<char>)
    requires
        goes_by::<T>(label),
        in_label_order(s, label),
    ensures
        in_label_order(order::inserted::<T>(s, x), label),
    decreases s.len(),
{
    let all = order::inserted::<T>(s, x);
    if s.len() > 0 {
        let n = s.len() - 1;
        let last = s[n];
        assert(s.last() == last);
        if T::before(x, last) {
            let rest = s.drop_last();
            let earlier = order::inserted::<T>(rest, x);
            assert forall|i: int, j: int| 0 <= i < j < rest.len() implies !text::precedes(
                label(#[trigger] rest[j]),
                label(#[trigger] rest[i]),
            ) by {
                assert(!text::precedes(label(s[j]), label(s[i])));
            }
            inserted_in_order::<T>(rest, x, label);
            assert forall|i: int, j: int| 0 <= i < j < all.len() implies !text::precedes(
                label(#[trigger] all[j]),
                label(#[trigger] all[i]),
            ) by {
                if j < earlier.len() {
                    assert(!text::precedes(label(earlier[j]), label(earlier[i])));
                } else {
                    assert(earlier.contains(earlier[i]));
                    order::inserted_holds::<T>(rest, x, earlier[i]);
                    if earlier[i] != x {
                        let k = choose|k: int| 0 <= k < rest.len() && rest[k] == earlier[i];
                        assert(!text::precedes(label(s[n]), label(s[k])));
                    }
                }
            }
        } else {
            assert forall|i: int, j: int| 0 <= i < j < all.len() implies !text::precedes(
                label(#[trigger] all[j]),
                label(#[trigger] all[i]),
            ) by {
                if j < s.len() {
                    assert(!text::precedes(label(s[j]), label(s[i])));
                } else if i < n {
                    assert(!text::precedes(label(s[n]), label(s[i])));
                    if text::precedes(label(x), label(s[i])) && label(s[i]) != label(last) {
                        text::precedes_total(label(s[i]), label(last));
                        text::precedes_transitive(label(x), label(s[i]), label(last));
                    }
                }
            }
        }
    }
}

/// What is put in order stands in the order of labels.
proof fn sorted_in_order<T: Ordered>(s: Seq<T::V>, label: spec_fn(T::V) -> Seq<char>)
    requires
        goes_by::<T>(label),
    ensures
        in_label_order(order::sorted::<T>(s), label),
    decreases s.len(),
{
    if s.len() > 0 {
        sorted_in_order::<T>(s.drop_last(), label);
        inserted_in_order::<T>(order::sorted::<T>(s.drop_last()), s.last(), label);
    }
}

/// The keys of a role stand in the order of their ids.
pub proof fn keys_stand_in_order(k: RoleKeysView, keys: Map<Seq<char>, KeyView>)
    ensures
        in_label_order(repo::picked(k, keys).1, |key: KeyView| key.id),
{
    let label = |key: KeyView| key.id;
    assert forall|a: KeyView, b: KeyView|
        #![trigger keys::PublicKey::before(a, b)]
        (text::precedes(label(a), label(b)) ==> keys::PublicKey::before(a, b)) && (
        keys::PublicKey::before(a, b) ==> !text::precedes(label(b), label(a))) by {
        if text::precedes(label(a), label(b)) {
            text::precedes_asymmetric(label(a), label(b));
        }
    }
    sorted_in_order::<keys::PublicKey>(repo::chosen(strmap::listing(k.key_ids), keys), label);
}

/// The signatures of a file that was signed stand in the order of the ids of their keys.
pub proof fn signatures_stand_in_order(sigs: Seq<SignatureView>, sig: SignatureView)
    ensures
        in_label_order(repo::with_signature(sigs, sig), |s: SignatureView| s.key_id),
{
    let label = |s: SignatureView| s.key_id;
    assert forall|a: SignatureView, b: SignatureView|
        #![trigger keys::Signature::before(a, b)]
        (text::precedes(label(a), label(b)) ==> keys::Signature::before(a, b)) && (
        keys::Signature::before(a, b) ==> !text::precedes(label(b), label(a))) by {
        if text::precedes(label(a), label(b)) {
            text::precedes_asymmetric(label(a), label(b));
        } else {
            text::precedes_irreflexive(label(a));
        }
    }
    sorted_in_order::<keys::Signature>(
        sigs.filter(|s: SignatureView| s.key_id != sig.key_id).push(sig),
        label,
    );
}

} // verus!
