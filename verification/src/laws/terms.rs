//! The words that the laws are stated in.

use vstd::prelude::*;

use crate::documents;
use crate::documents::{RoleKeysView, RootView, TargetsView};
use crate::keys;
use crate::keys::KeyView;
use crate::order;
use crate::repo;
use crate::repo::Files;
use crate::strmap;

verus! {

/// Whether there is metadata of `role`.
pub open spec fn has(files: Files, role: Seq<char>) -> bool {
    files.dom().contains(role + ".json"@)
}

/// The bytes of the metadata of `role`.
pub open spec fn bytes_of(files: Files, role: Seq<char>) -> Seq<u8> {
    files[role + ".json"@]
}

/// Whether `role` is one of the four that every repository has.
pub open spec fn is_top_level(role: Seq<char>) -> bool {
    role == "root"@ || role == "targets"@ || role == "snapshot"@ || role == "timestamp"@
}

/// Whether there is metadata of `role` that lists targets: that of `targets`, or of another role that
/// is none of the four. A role has no slash in its name.
pub open spec fn lists(files: Files, role: Seq<char>) -> bool {
    has(files, role) && !role.contains('/') && (role == "targets"@ || !is_top_level(role))
}

/// Whether `key` is one of the keys that the ids stand for.
pub open spec fn authorized(k: RoleKeysView, keys: Map<Seq<char>, KeyView>, key: KeyView) -> bool {
    exists|id: Seq<char>| #[trigger]
        k.key_ids.contains(id) && keys.dom().contains(id) && keys[id] == key
}

/// Whether the file bears a valid signature of the key.
pub open spec fn bears(file: Seq<u8>, key: KeyView) -> bool {
    match (documents::signatures_in(file), documents::signing_input(file)) {
        (Some(sigs), Some(input)) => exists|i: int|
            0 <= i < sigs.len() && (#[trigger] sigs[i]).key_id == key.id && keys::accepts(
                key,
                input,
                sigs[i].value,
            ),
        _ => false,
    }
}

/// Whether no two of the keys have the same id.
pub open spec fn different(keys: Seq<KeyView>) -> bool {
    forall|i: int, j: int|
        0 <= i < j < keys.len() ==> (#[trigger] keys[i]).id != (#[trigger] keys[j]).id
}

/// Whether the signers reach the threshold: they are as many different authorized keys as it asks for,
/// at least one, and the file bears a signature of each.
pub open spec fn reach(
    file: Seq<u8>,
    k: RoleKeysView,
    keys: Map<Seq<char>, KeyView>,
    signers: Seq<KeyView>,
) -> bool {
    &&& 1 <= k.threshold <= signers.len()
    &&& different(signers)
    &&& forall|i: int|
        0 <= i < signers.len() ==> authorized(k, keys, #[trigger] signers[i]) && bears(
            file,
            signers[i],
        )
}

/// Whether enough of the keys have signed the file.
pub open spec fn well_signed(file: Seq<u8>, k: RoleKeysView, keys: Map<Seq<char>, KeyView>) -> bool {
    exists|signers: Seq<KeyView>| #[trigger] reach(file, k, keys, signers)
}

/// Whether root names finitely many keys for each role.
pub open spec fn root_finite(r: RootView) -> bool {
    r.root.key_ids.finite() && r.targets.key_ids.finite() && r.snapshot.key_ids.finite()
        && r.timestamp.key_ids.finite()
}

/// Whether each delegation names finitely many keys and paths.
pub open spec fn delegations_finite(t: TargetsView) -> bool {
    forall|i: int|
        0 <= i < t.delegations.roles.len() ==> (#[trigger] t.delegations.roles[i]).key_ids.finite()
            && t.delegations.roles[i].paths.finite()
}

/// Whether there are finitely many files, each lists finitely many targets and names finitely many
/// keys, and versions count from one, as they do in all files.
pub open spec fn proper(files: Files) -> bool {
    &&& files.dom().finite()
    &&& forall|name: Seq<char>| #[trigger]
        files.dom().contains(name) ==> {
            &&& documents::root_in(files[name]) matches Some((h, r)) ==> h.version >= 1
                && root_finite(r)
            &&& documents::targets_in(files[name]) matches Some((h, t)) ==> h.version >= 1
                && delegations_finite(t) && t.targets.dom().finite()
            &&& documents::snapshot_in(files[name]) matches Some((h, _)) ==> h.version >= 1
        }
}

/// The keys that are picked by their ids are those that the ids stand for.
pub proof fn chosen_holds(ids: Seq<Seq<char>>, keys: Map<Seq<char>, KeyView>, key: KeyView)
    ensures
        repo::chosen(ids, keys).contains(key) <==> exists|id: Seq<char>| #[trigger]
            ids.contains(id) && keys.dom().contains(id) && keys[id] == key,
    decreases ids.len(),
{
    if ids.len() > 0 {
        let rest = ids.drop_last();
        let last = ids.last();
        chosen_holds(rest, keys, key);
        assert(rest.push(last) =~= ids);
        assert forall|id: Seq<char>| #[trigger] ids.contains(id) <==> rest.contains(id) || id == last by {
            order::push_holds(rest, last, id);
        }
        if keys.dom().contains(last) {
            order::push_holds(repo::chosen(rest, keys), keys[last], key);
        }
        if repo::chosen(ids, keys).contains(key) {
            if repo::chosen(rest, keys).contains(key) {
                let id = choose|id: Seq<char>| #[trigger]
                    rest.contains(id) && keys.dom().contains(id) && keys[id] == key;
                assert(ids.contains(id));
            } else {
                assert(ids.contains(last));
            }
        }
        if exists|id: Seq<char>| #[trigger]
            ids.contains(id) && keys.dom().contains(id) && keys[id] == key {
            let id = choose|id: Seq<char>| #[trigger]
                ids.contains(id) && keys.dom().contains(id) && keys[id] == key;
            if id != last {
                assert(rest.contains(id));
            }
        }
    }
}

/// A role's keys are those that its key ids stand for, and its threshold is the one given.
pub proof fn picked_holds(k: RoleKeysView, keys: Map<Seq<char>, KeyView>, key: KeyView)
    requires
        k.key_ids.finite(),
    ensures
        repo::picked(k, keys).0 == k.threshold,
        repo::picked(k, keys).1.contains(key) <==> authorized(k, keys, key),
{
    let ids = strmap::listing(k.key_ids);
    strmap::listing_exists(k.key_ids);
    chosen_holds(ids, keys, key);
    order::sorted_holds::<keys::PublicKey>(repo::chosen(ids, keys), key);
    assert forall|id: Seq<char>| #[trigger] ids.contains(id) <==> k.key_ids.contains(id) by {
        assert(ids.to_set().contains(id) <==> ids.contains(id));
    }
    if authorized(k, keys, key) {
        let id = choose|id: Seq<char>| #[trigger]
            k.key_ids.contains(id) && keys.dom().contains(id) && keys[id] == key;
        assert(ids.contains(id));
    }
    if repo::chosen(ids, keys).contains(key) {
        let id = choose|id: Seq<char>| #[trigger]
            ids.contains(id) && keys.dom().contains(id) && keys[id] == key;
        assert(k.key_ids.contains(id));
    }
}

/// The keys that root gives a top-level role.
pub open spec fn given_by_root(r: RootView, role: Seq<char>) -> RoleKeysView {
    if role == "root"@ {
        r.root
    } else if role == "targets"@ {
        r.targets
    } else if role == "snapshot"@ {
        r.snapshot
    } else {
        r.timestamp
    }
}

/// The delegation to `role` that counts: the first.
pub open spec fn first_delegation(t: TargetsView, role: Seq<char>, i: int) -> bool {
    &&& 0 <= i < t.delegations.roles.len()
    &&& t.delegations.roles[i].name == role
    &&& forall|j: int| 0 <= j < i ==> (#[trigger] t.delegations.roles[j]).name != role
}

/// Whether these are the threshold and keys that `role` must be signed with: root gives them to a
/// top-level role, and the first delegation of `targets` to any other.
pub open spec fn must_sign(
    files: Files,
    role: Seq<char>,
    k: RoleKeysView,
    keys: Map<Seq<char>, KeyView>,
) -> bool {
    if is_top_level(role) {
        has(files, "root"@) && (documents::root_in(bytes_of(files, "root"@)) matches Some((_, r)) && k
            == given_by_root(r, role) && keys == r.keys)
    } else {
        has(files, "targets"@) && (documents::targets_in(bytes_of(files, "targets"@)) matches Some(
            (_, t),
        ) && keys == t.delegations.keys && exists|i: int| #[trigger]
            first_delegation(t, role, i) && k == (RoleKeysView {
                threshold: t.delegations.roles[i].threshold,
                key_ids: t.delegations.roles[i].key_ids,
            }))
    }
}

} // verus!
