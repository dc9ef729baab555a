//! What the status of a signing event promises: that it names everybody who still has to sign.

use vstd::prelude::*;

use crate::config;
use crate::config::ConfigView;
use crate::documents;
use crate::documents::{HeaderView, RoleKeysView};
use crate::error::Fault;
use crate::keys;
use crate::keys::KeyView;
use crate::laws::signing;
use crate::laws::terms;
use crate::repo;
use crate::repo::Files;
use crate::status;
use crate::status::{Index, RequirementView, RoleStatusView, SignerView};
use crate::strmap;
use crate::text;

verus! {

/// Whether the status looks at `role`: there is metadata of it, and it is root, `targets` or a role
/// delegated from it.
pub open spec fn looked_at(head: Files, role: Seq<char>) -> bool {
    terms::lists(head, role) || (role == "root"@ && terms::has(head, "root"@))
}

/// Whether the metadata of `role` is not the same on both sides.
pub open spec fn touched(base: Files, head: Files, role: Seq<char>) -> bool {
    terms::has(base, role) != terms::has(head, role) || (terms::has(base, role) && terms::bytes_of(
        base,
        role,
    ) != terms::bytes_of(head, role))
}

/// Whether `role` must reach this threshold with these keys: its own, or for a root that replaces
/// another one those of the root that it replaces.
pub open spec fn demanded(
    base: Files,
    head: Files,
    role: Seq<char>,
    k: RoleKeysView,
    keys: Map<Seq<char>, KeyView>,
) -> bool {
    ||| terms::must_sign(head, role, k, keys)
    ||| role == "root"@ && terms::has(base, "root"@) && touched(base, head, "root"@)
        && terms::must_sign(base, "root"@, k, keys)
}

/// Whether fewer of the keys have signed `role` than the threshold asks for.
pub open spec fn short_of(
    head: Files,
    role: Seq<char>,
    k: RoleKeysView,
    keys: Map<Seq<char>, KeyView>,
) -> bool {
    signing::signed_count(terms::bytes_of(head, role), repo::picked(k, keys).1) < k.threshold
}

/// Whether `e` speaks of the key as the config does: by its owner, by its name where it is online, and
/// as unknown where the config has no key with its id.
pub open spec fn named(c: ConfigView, key: KeyView, e: SignerView) -> bool {
    e.id == key.id && called(c, key.id, e.name, e.online)
}

/// Whether the config calls the key with the given id so, and says whether it is online.
pub open spec fn called(c: ConfigView, id: Seq<char>, label: Seq<char>, online: bool) -> bool {
    if exists|name: Seq<char>| #[trigger] has_id(c, name, id) {
        exists|name: Seq<char>| #[trigger]
            last_with_id(c, name, id) && online == (c.keys[name].online is Some) && label == (
            match c.keys[name].owner {
                Some(owner) => owner,
                None => name + " (online)"@,
            })
    } else {
        label == "unknown key"@ && !online
    }
}

/// Whether the config has a key of the given name and id.
pub open spec fn has_id(c: ConfigView, name: Seq<char>, id: Seq<char>) -> bool {
    c.keys.dom().contains(name) && (keys::key_from_pem(c.keys[name].public_key)->0).id == id
}

/// Whether the name is the one under which the config has a key with the id, the last one where it has
/// the key under several.
pub open spec fn last_with_id(c: ConfigView, name: Seq<char>, id: Seq<char>) -> bool {
    has_id(c, name, id) && forall|other: Seq<char>| #[trigger]
        has_id(c, other, id) ==> other == name || text::precedes(other, name)
}

/// A key is called in one way.
pub proof fn called_in_one_way(
    c: ConfigView,
    id: Seq<char>,
    label: Seq<char>,
    online: bool,
    other_label: Seq<char>,
    other_online: bool,
)
    requires
        called(c, id, label, online),
        called(c, id, other_label, other_online),
    ensures
        label == other_label,
        online == other_online,
{
    if exists|name: Seq<char>| #[trigger] has_id(c, name, id) {
        let a = choose|name: Seq<char>| #[trigger]
            last_with_id(c, name, id) && online == (c.keys[name].online is Some) && label == (
            match c.keys[name].owner {
                Some(owner) => owner,
                None => name + " (online)"@,
            });
        let b = choose|name: Seq<char>| #[trigger]
            last_with_id(c, name, id) && other_online == (c.keys[name].online is Some) && other_label
                == (match c.keys[name].owner {
                Some(owner) => owner,
                None => name + " (online)"@,
            });
        if a != b {
            assert(has_id(c, a, id) && has_id(c, b, id));
            text::precedes_asymmetric(a, b);
        }
    }
}

/// The name that is found under an id is the last one that has it.
proof fn names_found(c: ConfigView, names: Seq<Seq<char>>, id: Seq<char>)
    ensures
        config::names_by_id(c, names).dom().contains(id) <==> exists|i: int|
            0 <= i < names.len() && (keys::key_from_pem(c.keys[#[trigger] names[i]].public_key)->0).id
                == id,
        config::names_by_id(c, names).dom().contains(id) ==> exists|i: int|
            0 <= i < names.len() && #[trigger] names[i] == config::names_by_id(c, names)[id] && (
            keys::key_from_pem(c.keys[names[i]].public_key)->0).id == id && forall|j: int|
                i < j < names.len() ==> (keys::key_from_pem(
                    c.keys[#[trigger] names[j]].public_key,
                )->0).id != id,
    decreases names.len(),
{
    if names.len() > 0 {
        let rest = names.drop_last();
        let n = names.len() - 1;
        names_found(c, rest, id);
        assert(names[n] == names.last());
        if exists|i: int|
            0 <= i < rest.len() && (keys::key_from_pem(c.keys[#[trigger] rest[i]].public_key)->0).id
                == id {
            let i = choose|i: int|
                0 <= i < rest.len() && #[trigger] rest[i] == config::names_by_id(c, rest)[id] && (
                keys::key_from_pem(c.keys[rest[i]].public_key)->0).id == id && forall|j: int|
                    i < j < rest.len() ==> (keys::key_from_pem(
                        c.keys[#[trigger] rest[j]].public_key,
                    )->0).id != id;
            assert(names[i] == rest[i]);
            assert forall|j: int| i < j < n implies (keys::key_from_pem(
                c.keys[#[trigger] names[j]].public_key,
            )->0).id != id by {
                assert(rest[j] == names[j]);
            }
        }
        if exists|i: int|
            0 <= i < names.len() && (keys::key_from_pem(c.keys[#[trigger] names[i]].public_key)->0).id
                == id {
            let i = choose|i: int|
                0 <= i < names.len() && (keys::key_from_pem(
                    c.keys[#[trigger] names[i]].public_key,
                )->0).id == id;
            if i < n {
                assert(rest[i] == names[i]);
            }
        }
    }
}

/// What is found under an id is the last name that has it, and there is one where the config has the key.
pub proof fn holders_are_last(c: ConfigView, id: Seq<char>)
    requires
        config::valid(c),
    ensures
        config::holders(c).dom().contains(id) <==> exists|name: Seq<char>| #[trigger]
            has_id(c, name, id),
        config::holders(c).dom().contains(id) ==> last_with_id(c, config::holders(c)[id], id),
{
    let names = config::key_names(c);
    strmap::listing_exists(c.keys.dom());
    names_found(c, names, id);
    if config::holders(c).dom().contains(id) {
        let i = choose|i: int|
            0 <= i < names.len() && #[trigger] names[i] == config::holders(c)[id] && (
            keys::key_from_pem(c.keys[names[i]].public_key)->0).id == id && forall|j: int|
                i < j < names.len() ==> (keys::key_from_pem(
                    c.keys[#[trigger] names[j]].public_key,
                )->0).id != id;
        assert(names.to_set().contains(names[i]));
        assert(has_id(c, names[i], id));
        assert forall|other: Seq<char>| #[trigger] has_id(c, other, id) implies other == names[i]
            || text::precedes(other, names[i]) by {
            assert(names.to_set().contains(other));
            let j = choose|j: int| 0 <= j < names.len() && names[j] == other;
            assert((keys::key_from_pem(c.keys[names[j]].public_key)->0).id == id);
            if j < i {
                assert(text::precedes(names[j], names[i]));
            }
        }
        assert(last_with_id(c, names[i], id));
    }
    if exists|name: Seq<char>| #[trigger] has_id(c, name, id) {
        let name = choose|name: Seq<char>| #[trigger] has_id(c, name, id);
        assert(names.to_set().contains(name));
        let i = choose|i: int| 0 <= i < names.len() && names[i] == name;
        assert((keys::key_from_pem(c.keys[names[i]].public_key)->0).id == id);
    }
}

/// Keys are named as the config names them.
pub proof fn keys_are_named_as_configured(c: ConfigView, key: KeyView)
    requires
        config::valid(c),
    ensures
        named(c, key, status::signer(c, key)),
        called(c, key.id, config::key_label(c, key.id), config::online(c, key.id)),
{
    holders_are_last(c, key.id);
}

/// Whether the requirement tells the threshold, how many of the keys have signed the file, and of each
/// key, once, whether it has.
pub open spec fn tells_signers(
    c: ConfigView,
    file: Seq<u8>,
    k: RoleKeysView,
    keys: Map<Seq<char>, KeyView>,
    r: RequirementView,
) -> bool {
    &&& r.threshold == k.threshold
    &&& r.signed.len() == signing::signed_count(file, repo::picked(k, keys).1)
    &&& r.signed.len() + r.unsigned.len() == repo::picked(k, keys).1.len()
    &&& forall|key: KeyView| #[trigger]
        terms::authorized(k, keys, key) ==> if terms::bears(file, key) {
            tells_of(c, r.signed, key)
        } else {
            tells_of(c, r.unsigned, key)
        }
    &&& forall|i: int|
        0 <= i < r.signed.len() ==> #[trigger] stands_for(c, file, k, keys, r.signed[i], true)
    &&& forall|i: int|
        0 <= i < r.unsigned.len() ==> #[trigger] stands_for(c, file, k, keys, r.unsigned[i], false)
}

/// Whether `e` stands for one of the keys that have signed the file, or of those that have not.
pub open spec fn stands_for(
    c: ConfigView,
    file: Seq<u8>,
    k: RoleKeysView,
    keys: Map<Seq<char>, KeyView>,
    e: SignerView,
    signed: bool,
) -> bool {
    exists|key: KeyView| #[trigger]
        terms::authorized(k, keys, key) && terms::bears(file, key) == signed && named(c, key, e)
}

/// Whether the list tells of the key.
pub open spec fn tells_of(c: ConfigView, list: Seq<SignerView>, key: KeyView) -> bool {
    exists|i: int| 0 <= i < list.len() && named(c, key, #[trigger] list[i])
}

/// Each is kept by one of two filters of which one keeps what the other does not.
proof fn either_way(keys: Seq<KeyView>, p: spec_fn(KeyView) -> bool, q: spec_fn(KeyView) -> bool)
    requires
        forall|k: KeyView| #[trigger] p(k) == !q(k),
    ensures
        keys.filter(p).len() + keys.filter(q).len() == keys.len(),
    decreases keys.len(),
{
    reveal(Seq::filter);
    if keys.len() > 0 {
        either_way(keys.drop_last(), p, q);
        assert(p(keys.last()) == !q(keys.last()));
    }
}

/// A requirement tells who has signed.
proof fn requirement_tells(
    c: ConfigView,
    files: Files,
    role: Seq<char>,
    k: RoleKeysView,
    keys: Map<Seq<char>, KeyView>,
    previous: bool,
)
    requires
        config::valid(c),
        k.key_ids.finite(),
        status::requirement_of(c, files, role, repo::picked(k, keys), previous) is Ok,
    ensures
        tells_signers(
            c,
            terms::bytes_of(files, role),
            k,
            keys,
            status::requirement_of(c, files, role, repo::picked(k, keys), previous)->Ok_0,
        ),
{
    let need = repo::picked(k, keys);
    let file = terms::bytes_of(files, role);
    let r = status::requirement_of(c, files, role, need, previous)->Ok_0;
    let done = repo::signed_by_of(files, role, need.1)->Ok_0;
    let p = |x: KeyView| done.contains(x);
    let q = |x: KeyView| !done.contains(x);
    let b = signing::bearer(file);
    let f = |x: KeyView| status::signer(c, x);
    let yes = need.1.filter(p);
    let no = need.1.filter(q);
    assert(r.signed == yes.map_values(f));
    assert(r.unsigned == no.map_values(f));
    assert forall|x: KeyView| need.1.contains(x) implies #[trigger] p(x) == b(x) by {
        signing::signers_have_signed(files, role, need.1, x);
    }
    repo::filter_alike(need.1, b, p);
    terms::picked_holds(k, keys, arbitrary());
    assert(r.threshold == k.threshold);
    assert(yes.len() == signing::signed_count(file, need.1));
    assert(r.signed.len() == yes.len());
    either_way(need.1, p, q);
    assert forall|key: KeyView| #[trigger] terms::authorized(k, keys, key) implies if terms::bears(
        file,
        key,
    ) {
        tells_of(c, r.signed, key)
    } else {
        tells_of(c, r.unsigned, key)
    } by {
        terms::picked_holds(k, keys, key);
        keys_are_named_as_configured(c, key);
        repo::filter_holds(need.1, p, key);
        repo::filter_holds(need.1, q, key);
        assert(p(key) == b(key));
        if terms::bears(file, key) {
            let i = choose|i: int| 0 <= i < yes.len() && yes[i] == key;
            assert(named(c, key, r.signed[i]));
        } else {
            let i = choose|i: int| 0 <= i < no.len() && no[i] == key;
            assert(named(c, key, r.unsigned[i]));
        }
    }
    assert forall|i: int| 0 <= i < r.signed.len() implies #[trigger] stands_for(
        c,
        file,
        k,
        keys,
        r.signed[i],
        true,
    ) by {
        let key = yes[i];
        assert(yes.contains(key));
        repo::filter_holds(need.1, p, key);
        terms::picked_holds(k, keys, key);
        keys_are_named_as_configured(c, key);
        assert(p(key) == b(key));
        assert(terms::authorized(k, keys, key));
    }
    assert forall|i: int| 0 <= i < r.unsigned.len() implies #[trigger] stands_for(
        c,
        file,
        k,
        keys,
        r.unsigned[i],
        false,
    ) by {
        let key = no[i];
        assert(no.contains(key));
        repo::filter_holds(need.1, q, key);
        terms::picked_holds(k, keys, key);
        keys_are_named_as_configured(c, key);
        assert(p(key) == b(key));
        assert(terms::authorized(k, keys, key));
    }
}

/// Whether each requirement of the status tells who has signed for one of the thresholds that the role
/// must reach, and each of these has its requirement.
pub open spec fn tells_requirements(c: ConfigView, base: Files, head: Files, s: RoleStatusView) -> bool {
    let file = terms::bytes_of(head, s.role);
    &&& forall|i: int|
        0 <= i < s.requirements.len() ==> #[trigger] tells_of_demand(
            c,
            base,
            head,
            s.role,
            s.requirements[i],
        )
    &&& forall|k: RoleKeysView, keys: Map<Seq<char>, KeyView>| #[trigger]
        demanded(base, head, s.role, k, keys) ==> exists|i: int|
            0 <= i < s.requirements.len() && tells_signers(
                c,
                file,
                k,
                keys,
                #[trigger] s.requirements[i],
            )
}

/// Whether the requirement tells who has signed for a threshold that the role must reach.
pub open spec fn tells_of_demand(
    c: ConfigView,
    base: Files,
    head: Files,
    role: Seq<char>,
    r: RequirementView,
) -> bool {
    exists|k: RoleKeysView, keys: Map<Seq<char>, KeyView>| #[trigger]
        demanded(base, head, role, k, keys) && tells_signers(
            c,
            terms::bytes_of(head, role),
            k,
            keys,
            r,
        )
}

/// Whether the status has the role's own threshold first, and behind it, for a root that replaces
/// another one, that of the root it replaces, marked as such.
pub open spec fn own_before_previous(c: ConfigView, base: Files, head: Files, s: RoleStatusView) -> bool {
    let file = terms::bytes_of(head, s.role);
    let replaces = s.role == "root"@ && terms::has(base, "root"@) && touched(base, head, "root"@);
    &&& s.requirements.len() == if replaces {
        2nat
    } else {
        1nat
    }
    &&& !s.requirements[0].previous_root && tells_own(c, head, s.role, file, s.requirements[0])
    &&& replaces ==> s.requirements[1].previous_root && tells_own(
        c,
        base,
        "root"@,
        file,
        s.requirements[1],
    )
}

/// Whether the requirement tells who has signed the file of those who must sign `role` by `files`.
pub open spec fn tells_own(
    c: ConfigView,
    files: Files,
    role: Seq<char>,
    file: Seq<u8>,
    r: RequirementView,
) -> bool {
    exists|k: RoleKeysView, keys: Map<Seq<char>, KeyView>| #[trigger]
        terms::must_sign(files, role, k, keys) && tells_signers(c, file, k, keys, r)
}

/// There is one threshold and one list of keys for a role.
proof fn one_demand(
    files: Files,
    role: Seq<char>,
    k: RoleKeysView,
    keys: Map<Seq<char>, KeyView>,
    l: RoleKeysView,
    more: Map<Seq<char>, KeyView>,
)
    requires
        terms::must_sign(files, role, k, keys),
        terms::must_sign(files, role, l, more),
    ensures
        k == l,
        keys == more,
{
    if !terms::is_top_level(role) {
        let t = (documents::targets_in(terms::bytes_of(files, "targets"@))->0).1;
        let i = choose|i: int| #[trigger]
            terms::first_delegation(t, role, i) && k == (RoleKeysView {
                threshold: t.delegations.roles[i].threshold,
                key_ids: t.delegations.roles[i].key_ids,
            });
        let j = choose|j: int| #[trigger]
            terms::first_delegation(t, role, j) && l == (RoleKeysView {
                threshold: t.delegations.roles[j].threshold,
                key_ids: t.delegations.roles[j].key_ids,
            });
        if i < j {
            assert(t.delegations.roles[i].name != role);
        }
        if j < i {
            assert(t.delegations.roles[j].name != role);
        }
    }
}

/// The keys that a role must be signed with are finitely many.
pub proof fn demand_finite(
    files: Files,
    role: Seq<char>,
    k: RoleKeysView,
    keys: Map<Seq<char>, KeyView>,
)
    requires
        terms::proper(files),
        terms::must_sign(files, role, k, keys),
    ensures
        k.key_ids.finite(),
{
    if terms::is_top_level(role) {
        assert(files.dom().contains("root"@ + ".json"@));
    } else {
        assert(files.dom().contains("targets"@ + ".json"@));
        let t = (documents::targets_in(terms::bytes_of(files, "targets"@))->0).1;
        let i = choose|i: int| #[trigger]
            terms::first_delegation(t, role, i) && k == (RoleKeysView {
                threshold: t.delegations.roles[i].threshold,
                key_ids: t.delegations.roles[i].key_ids,
            });
        assert(t.delegations.roles[i].key_ids.finite());
    }
}

/// The status of a role tells its requirements.
proof fn role_status_tells(
    c: ConfigView,
    base: Files,
    head: Files,
    role: Seq<char>,
    base_index: Index,
    head_index: Index,
)
    requires
        config::valid(c),
        terms::proper(base),
        terms::proper(head),
        status::role_status_of(c, base, head, role, base_index, head_index) is Ok,
    ensures
        tells_requirements(
            c,
            base,
            head,
            status::role_status_of(c, base, head, role, base_index, head_index)->Ok_0,
        ),
        own_before_previous(
            c,
            base,
            head,
            status::role_status_of(c, base, head, role, base_index, head_index)->Ok_0,
        ),
{
    config::different_top_level();
    let s = status::role_status_of(c, base, head, role, base_index, head_index)->Ok_0;
    let needs = repo::requirements_of(head, base, role)->Ok_0;
    let file = terms::bytes_of(head, role);
    signing::a_new_root_is_signed_by_the_old_one_too(head, base, role);
    signing::somebody_must_sign(head, role);
    let (k, keys) = choose|k: RoleKeysView, keys: Map<Seq<char>, KeyView>| #[trigger]
        terms::must_sign(head, role, k, keys) && repo::role_keys_of(head, role) == Ok::<
            (int, Seq<KeyView>),
            Fault,
        >(repo::picked(k, keys));
    demand_finite(head, role, k, keys);
    reveal_with_fuel(status::requirements_for, 3);
    assert(demanded(base, head, role, k, keys));
    assert(s.role == role);
    if needs.len() == 1 {
        assert(needs.drop_last() =~= Seq::empty());
        requirement_tells(c, head, role, k, keys, false);
        assert(tells_signers(c, file, k, keys, s.requirements[0]));
        assert(s.requirements.len() == 1);
        assert(tells_own(c, head, role, file, s.requirements[0]));
        assert forall|l: RoleKeysView, more: Map<Seq<char>, KeyView>| #[trigger]
            demanded(base, head, role, l, more) implies exists|i: int|
            0 <= i < s.requirements.len() && tells_signers(
                c,
                file,
                l,
                more,
                #[trigger] s.requirements[i],
            ) by {
            one_demand(head, role, k, keys, l, more);
            assert(tells_signers(c, file, l, more, s.requirements[0]));
        }
    } else {
        signing::somebody_must_sign(base, "root"@);
        let (k2, keys2) = choose|k: RoleKeysView, keys: Map<Seq<char>, KeyView>| #[trigger]
            terms::must_sign(base, "root"@, k, keys) && repo::role_keys_of(base, "root"@) == Ok::<
                (int, Seq<KeyView>),
                Fault,
            >(repo::picked(k, keys));
        demand_finite(base, "root"@, k2, keys2);
        assert(needs.drop_last() =~= seq![needs[0]]);
        assert(needs.drop_last().drop_last() =~= Seq::empty());
        requirement_tells(c, head, role, k, keys, false);
        requirement_tells(c, head, role, k2, keys2, true);
        assert(demanded(base, head, role, k2, keys2));
        assert(tells_signers(c, file, k, keys, s.requirements[0]));
        assert(tells_signers(c, file, k2, keys2, s.requirements[1]));
        assert(tells_own(c, head, role, file, s.requirements[0]));
        assert(tells_own(c, base, "root"@, file, s.requirements[1]));
        assert forall|l: RoleKeysView, more: Map<Seq<char>, KeyView>| #[trigger]
            demanded(base, head, role, l, more) implies exists|i: int|
            0 <= i < s.requirements.len() && tells_signers(
                c,
                file,
                l,
                more,
                #[trigger] s.requirements[i],
            ) by {
            if terms::must_sign(head, role, l, more) {
                one_demand(head, role, k, keys, l, more);
                assert(tells_signers(c, file, l, more, s.requirements[0]));
            } else {
                one_demand(base, "root"@, k2, keys2, l, more);
                assert(tells_signers(c, file, l, more, s.requirements[1]));
            }
        }
    }
}

/// The roles that the status looks at are those that it is made of.
pub proof fn looked_at_is_listed(head: Files, role: Seq<char>)
    requires
        head.dom().finite(),
    ensures
        status::event_roles(head).contains(role) <==> looked_at(head, role),
{
    config::different_top_level();
    let all = repo::roles_of(head);
    let set = all.to_set();
    vstd::seq_lib::seq_to_set_is_finite(all);
    let other = set.filter(|role: Seq<char>| !config::top_level(role));
    vstd::set_lib::lemma_set_subset_finite(set, other);
    strmap::listing_exists(other);
    let a = status::if_present(set, "root"@);
    let b = status::if_present(set, "targets"@);
    let d = strmap::listing(other);
    signing::joined_holds(a + b, d, role);
    signing::joined_holds(a, b, role);
    assert(d.to_set().contains(role) <==> d.contains(role));
    assert(set.contains(role) <==> all.contains(role));
    role_present(head, role);
    role_present(head, "root"@);
    role_present(head, "targets"@);
    assert(set.contains("root"@) <==> all.contains("root"@));
    assert(set.contains("targets"@) <==> all.contains("targets"@));
    if set.contains("root"@) {
        assert(a[0] == "root"@);
    }
    if set.contains("targets"@) {
        assert(b[0] == "targets"@);
    }
    reveal_strlit("root");
    reveal_strlit("targets");
    assert(!"root"@.contains('/') && !"targets"@.contains('/'));
}

/// The roles that are present are those with metadata.
pub proof fn role_present(files: Files, role: Seq<char>)
    requires
        files.dom().finite(),
    ensures
        repo::roles_of(files).contains(role) <==> terms::has(files, role) && !role.contains('/'),
{
    let names = strmap::listing(files.dom());
    strmap::listing_exists(files.dom());
    repo::roles_in_holds(names, role);
    let name = role + ".json"@;
    reveal_strlit(".json");
    assert(name.take(name.len() - 5) =~= role);
    assert(".json"@.is_suffix_of(name)) by {
        assert(name.subrange(name.len() - 5, name.len() as int) =~= ".json"@);
    }
    assert(name.contains('/') <==> role.contains('/')) by {
        if role.contains('/') {
            let i = choose|i: int| 0 <= i < role.len() && role[i] == '/';
            assert(name[i] == '/');
        }
        if name.contains('/') {
            let i = choose|i: int| 0 <= i < name.len() && name[i] == '/';
            if i < role.len() {
                assert(role[i] == '/');
            } else {
                assert(name[i] == ".json"@[i - role.len()]);
            }
        }
    }
    if terms::has(files, role) && !role.contains('/') {
        assert(names.to_set().contains(name));
        let i = choose|i: int| 0 <= i < names.len() && names[i] == name;
        assert(repo::role_of(names[i]) == Some(role));
    }
    if repo::roles_of(files).contains(role) {
        let i = choose|i: int| 0 <= i < names.len() && repo::role_of(#[trigger] names[i]) == Some(role);
        repo::role_of_file(names[i]);
        assert(names.to_set().contains(names[i]));
    }
}

/// The statuses are those of the roles that changed or lack signatures, in order.
proof fn statuses_hold(
    c: ConfigView,
    base: Files,
    head: Files,
    names: Seq<Seq<char>>,
    base_index: Index,
    head_index: Index,
)
    requires
        status::statuses(c, base, head, names, base_index, head_index) is Ok,
    ensures
        ({
            let g = status_fn(c, base, head, base_index, head_index);
            let p = noteworthy_fn(c, base, head, base_index, head_index);
            &&& status::statuses(c, base, head, names, base_index, head_index)->Ok_0 == names.filter(
                p,
            ).map_values(g)
            &&& forall|i: int|
                0 <= i < names.len() ==> status::role_status_of(
                    c,
                    base,
                    head,
                    #[trigger] names[i],
                    base_index,
                    head_index,
                ) is Ok
        }),
    decreases names.len(),
{
    let g = status_fn(c, base, head, base_index, head_index);
    let p = noteworthy_fn(c, base, head, base_index, head_index);
    reveal(Seq::filter);
    if names.len() > 0 {
        let rest = names.drop_last();
        statuses_hold(c, base, head, rest, base_index, head_index);
        let kept = rest.filter(p);
        assert(kept.push(names.last()).map_values(g) =~= kept.map_values(g).push(g(names.last())));
        assert forall|i: int| 0 <= i < names.len() implies status::role_status_of(
            c,
            base,
            head,
            #[trigger] names[i],
            base_index,
            head_index,
        ) is Ok by {
            if i < rest.len() {
                assert(rest[i] == names[i]);
            }
        }
    } else {
        assert(names.filter(p).map_values(g) =~= Seq::empty());
    }
}

/// The status of each role.
spec fn status_fn(c: ConfigView, base: Files, head: Files, base_index: Index, head_index: Index) -> spec_fn(
    Seq<char>,
) -> RoleStatusView {
    |role: Seq<char>| status::role_status_of(c, base, head, role, base_index, head_index)->Ok_0
}

/// Whether a role changed or lacks signatures.
spec fn noteworthy_fn(
    c: ConfigView,
    base: Files,
    head: Files,
    base_index: Index,
    head_index: Index,
) -> spec_fn(Seq<char>) -> bool {
    |role: Seq<char>|
        status::noteworthy(
            base,
            head,
            status::role_status_of(c, base, head, role, base_index, head_index)->Ok_0,
        )
}

/// Whether all the thresholds that `role` must reach are reached.
pub open spec fn fully_signed(base: Files, head: Files, role: Seq<char>) -> bool {
    forall|k: RoleKeysView, keys: Map<Seq<char>, KeyView>| #[trigger]
        demanded(base, head, role, k, keys) ==> !short_of(head, role, k, keys)
}

/// Version and expiry of metadata of `role`.
pub open spec fn told_header(files: Files, role: Seq<char>) -> Option<HeaderView> {
    if !terms::has(files, role) {
        None
    } else if role == "root"@ {
        Some((documents::root_in(terms::bytes_of(files, role))->0).0)
    } else {
        Some((documents::targets_in(terms::bytes_of(files, role))->0).0)
    }
}

/// Whether the status of a role is true: it gives version and expiry of the metadata and those on main,
/// and tells for each threshold that the role must reach who has signed and who has not.
pub open spec fn true_status(c: ConfigView, base: Files, head: Files, s: RoleStatusView) -> bool {
    &&& looked_at(head, s.role)
    &&& told_header(head, s.role) matches Some(h) && s.version == h.version && s.expires == h.expires
    &&& match told_header(base, s.role) {
        Some(h) => s.base == Some((h.version, h.expires)),
        None => s.base is None,
    }
    &&& tells_requirements(c, base, head, s)
    &&& own_before_previous(c, base, head, s)
}

/// A role is complete exactly where its thresholds are reached.
proof fn complete_is_signed(c: ConfigView, base: Files, head: Files, s: RoleStatusView)
    requires
        tells_requirements(c, base, head, s),
    ensures
        status::role_complete(s) <==> fully_signed(base, head, s.role),
{
    let file = terms::bytes_of(head, s.role);
    if status::role_complete(s) {
        assert forall|k: RoleKeysView, keys: Map<Seq<char>, KeyView>| #[trigger]
            demanded(base, head, s.role, k, keys) implies !short_of(head, s.role, k, keys) by {
            let i = choose|i: int|
                0 <= i < s.requirements.len() && tells_signers(
                    c,
                    file,
                    k,
                    keys,
                    #[trigger] s.requirements[i],
                );
            assert(status::is_met(s.requirements[i]));
        }
    }
    if fully_signed(base, head, s.role) {
        assert forall|i: int| 0 <= i < s.requirements.len() implies status::is_met(
            #[trigger] s.requirements[i],
        ) by {
            assert(tells_of_demand(c, base, head, s.role, s.requirements[i]));
            let (k, keys) = choose|k: RoleKeysView, keys: Map<Seq<char>, KeyView>| #[trigger]
                demanded(base, head, s.role, k, keys) && tells_signers(
                    c,
                    file,
                    k,
                    keys,
                    s.requirements[i],
                );
            assert(!short_of(head, s.role, k, keys));
        }
    }
}

/// Each status of an event is that of its role.
pub proof fn status_comes_from_role(c: ConfigView, base: Files, head: Files, i: int)
    requires
        head.dom().finite(),
        status::status_of(c, base, head) is Ok,
        0 <= i < status::status_of(c, base, head)->Ok_0.len(),
    ensures
        ({
            let s = status::status_of(c, base, head)->Ok_0[i];
            let bi = status::index_of(base, repo::targets_roles_of(base));
            let hi = status::index_of(head, repo::targets_roles_of(head));
            &&& bi is Ok && hi is Ok
            &&& status::role_status_of(c, base, head, s.role, bi->Ok_0, hi->Ok_0) == Ok::<
                RoleStatusView,
                Fault,
            >(s)
            &&& looked_at(head, s.role)
        }),
{
    let bi = status::index_of(base, repo::targets_roles_of(base))->Ok_0;
    let hi = status::index_of(head, repo::targets_roles_of(head))->Ok_0;
    let names = status::event_roles(head);
    let p = noteworthy_fn(c, base, head, bi, hi);
    statuses_hold(c, base, head, names, bi, hi);
    let kept = names.filter(p);
    let role = kept[i];
    assert(kept.contains(role));
    repo::filter_holds(names, p, role);
    let j = choose|j: int| 0 <= j < names.len() && names[j] == role;
    assert(status::role_status_of(c, base, head, names[j], bi, hi) is Ok);
    looked_at_is_listed(head, role);
}

/// The statuses of an event are true.
proof fn statuses_true(c: ConfigView, base: Files, head: Files, i: int)
    requires
        config::valid(c),
        terms::proper(base),
        terms::proper(head),
        status::status_of(c, base, head) is Ok,
        0 <= i < status::status_of(c, base, head)->Ok_0.len(),
    ensures
        true_status(c, base, head, status::status_of(c, base, head)->Ok_0[i]),
{
    let s = status::status_of(c, base, head)->Ok_0[i];
    let bi = status::index_of(base, repo::targets_roles_of(base))->Ok_0;
    let hi = status::index_of(head, repo::targets_roles_of(head))->Ok_0;
    status_comes_from_role(c, base, head, i);
    role_status_tells(c, base, head, s.role, bi, hi);
    headers_told(c, base, head, s.role, bi, hi);
}

/// A looked-at role is noteworthy where it is touched or not signed by enough.
proof fn noteworthy_holds(
    c: ConfigView,
    base: Files,
    head: Files,
    role: Seq<char>,
    base_index: Index,
    head_index: Index,
)
    requires
        config::valid(c),
        terms::proper(base),
        terms::proper(head),
        status::role_status_of(c, base, head, role, base_index, head_index) is Ok,
    ensures
        status::noteworthy(
            base,
            head,
            status::role_status_of(c, base, head, role, base_index, head_index)->Ok_0,
        ) <==> touched(base, head, role) || !fully_signed(base, head, role),
{
    let s = status::role_status_of(c, base, head, role, base_index, head_index)->Ok_0;
    role_status_tells(c, base, head, role, base_index, head_index);
    complete_is_signed(c, base, head, s);
}

/// The status of an event lists every role that it touches and every role that lacks signatures, and
/// no other.
pub proof fn the_status_conceals_no_role(c: ConfigView, base: Files, head: Files, role: Seq<char>)
    requires
        config::valid(c),
        terms::proper(base),
        terms::proper(head),
        status::status_of(c, base, head) is Ok,
    ensures
        reported(status::status_of(c, base, head)->Ok_0, role) <==> looked_at(head, role) && (touched(
            base,
            head,
            role,
        ) || !fully_signed(base, head, role)),
{
    let bi = status::index_of(base, repo::targets_roles_of(base))->Ok_0;
    let hi = status::index_of(head, repo::targets_roles_of(head))->Ok_0;
    let names = status::event_roles(head);
    let s = status::status_of(c, base, head)->Ok_0;
    let p = noteworthy_fn(c, base, head, bi, hi);
    statuses_hold(c, base, head, names, bi, hi);
    let kept = names.filter(p);
    looked_at_is_listed(head, role);
    repo::filter_holds(names, p, role);
    if names.contains(role) {
        let j = choose|j: int| 0 <= j < names.len() && names[j] == role;
        assert(status::role_status_of(c, base, head, names[j], bi, hi) is Ok);
        noteworthy_holds(c, base, head, role, bi, hi);
        if kept.contains(role) {
            let i = choose|i: int| 0 <= i < kept.len() && kept[i] == role;
            assert(s[i].role == role);
        }
    }
    if reported(s, role) {
        let i = choose|i: int| 0 <= i < s.len() && (#[trigger] s[i]).role == role;
        assert(kept.contains(kept[i]));
        repo::filter_holds(names, p, kept[i]);
        let j = choose|j: int| 0 <= j < names.len() && names[j] == kept[i];
        assert(status::role_status_of(c, base, head, names[j], bi, hi) is Ok);
        assert(s[i].role == kept[i]);
    }
}

/// Whether the statuses hold one of the role.
pub open spec fn reported(s: Seq<RoleStatusView>, role: Seq<char>) -> bool {
    exists|i: int| 0 <= i < s.len() && (#[trigger] s[i]).role == role
}

/// What the status of an event says is true: of each role it gives version and expiry, those on main
/// too, and who has signed for each threshold that the role must reach and who has not.
pub proof fn the_status_is_true(c: ConfigView, base: Files, head: Files)
    requires
        config::valid(c),
        terms::proper(base),
        terms::proper(head),
        status::status_of(c, base, head) is Ok,
    ensures
        forall|i: int|
            0 <= i < status::status_of(c, base, head)->Ok_0.len() ==> true_status(
                c,
                base,
                head,
                #[trigger] status::status_of(c, base, head)->Ok_0[i],
            ),
{
    let s = status::status_of(c, base, head)->Ok_0;
    assert forall|i: int| 0 <= i < s.len() implies true_status(c, base, head, #[trigger] s[i]) by {
        statuses_true(c, base, head, i);
    }
}

/// The headers that a status gives.
proof fn headers_told(
    c: ConfigView,
    base: Files,
    head: Files,
    role: Seq<char>,
    base_index: Index,
    head_index: Index,
)
    requires
        status::role_status_of(c, base, head, role, base_index, head_index) is Ok,
        looked_at(head, role),
    ensures
        ({
            let s = status::role_status_of(c, base, head, role, base_index, head_index)->Ok_0;
            &&& s.role == role
            &&& told_header(head, role) matches Some(h) && s.version == h.version && s.expires
                == h.expires
            &&& match told_header(base, role) {
                Some(h) => s.base == Some((h.version, h.expires)),
                None => s.base is None,
            }
        }),
{
    config::different_top_level();
}

/// Whether the role lacks a signature with the key of the given id: one of the thresholds that it must
/// reach, its own or that of the root before it, is not reached, and the key counts towards it and has
/// not signed.
pub open spec fn wanted(base: Files, head: Files, role: Seq<char>, id: Seq<char>) -> bool {
    exists|k: RoleKeysView, keys: Map<Seq<char>, KeyView>| #[trigger]
        demanded(base, head, role, k, keys) && short_of(head, role, k, keys) && unsigned_by(
            terms::bytes_of(head, role),
            k,
            keys,
            id,
        )
}

/// Whether the key of the given id counts towards the threshold and has not signed the file.
pub open spec fn unsigned_by(
    file: Seq<u8>,
    k: RoleKeysView,
    keys: Map<Seq<char>, KeyView>,
    id: Seq<char>,
) -> bool {
    exists|key: KeyView| #[trigger]
        terms::authorized(k, keys, key) && key.id == id && !terms::bears(file, key)
}

/// Everybody whose signature an event lacks is asked for it: of each threshold that is not reached,
/// the role's own or that of the root before it, every key that has not signed, and nobody else. That
/// is whom the status says the role needs.
pub proof fn everybody_needed_is_asked(
    c: ConfigView,
    base: Files,
    head: Files,
    i: int,
    id: Seq<char>,
)
    requires
        config::valid(c),
        terms::proper(base),
        terms::proper(head),
        status::status_of(c, base, head) is Ok,
        0 <= i < status::status_of(c, base, head)->Ok_0.len(),
    ensures
        ({
            let s = status::status_of(c, base, head)->Ok_0[i];
            status::role_needs(s, id) <==> wanted(base, head, s.role, id)
        }),
{
    let all = status::status_of(c, base, head)->Ok_0;
    let s = all[i];
    statuses_true(c, base, head, i);
    needs_hold(c, base, head, s, id);
}

/// What a requirement lacks.
proof fn requirement_lacks(
    c: ConfigView,
    file: Seq<u8>,
    k: RoleKeysView,
    keys: Map<Seq<char>, KeyView>,
    r: RequirementView,
    id: Seq<char>,
)
    requires
        tells_signers(c, file, k, keys, r),
    ensures
        status::lacks(r, id) <==> signing::signed_count(file, repo::picked(k, keys).1)
            < k.threshold && unsigned_by(file, k, keys, id),
{
    if status::lacks(r, id) {
        let m = choose|m: int| 0 <= m < r.unsigned.len() && (#[trigger] r.unsigned[m]).id == id;
        assert(stands_for(c, file, k, keys, r.unsigned[m], false));
    }
    if unsigned_by(file, k, keys, id) {
        let key = choose|key: KeyView| #[trigger]
            terms::authorized(k, keys, key) && key.id == id && !terms::bears(file, key);
        assert(tells_of(c, r.unsigned, key));
        let m = choose|m: int| 0 <= m < r.unsigned.len() && named(c, key, #[trigger] r.unsigned[m]);
        assert(r.unsigned[m].id == id);
    }
}

/// Whom a true status says the role needs.
proof fn needs_hold(c: ConfigView, base: Files, head: Files, s: RoleStatusView, id: Seq<char>)
    requires
        tells_requirements(c, base, head, s),
    ensures
        status::role_needs(s, id) <==> wanted(base, head, s.role, id),
{
    let file = terms::bytes_of(head, s.role);
    if status::role_needs(s, id) {
        assert(wanted(base, head, s.role, id)) by {
            let j = choose|j: int|
                0 <= j < s.requirements.len() && status::lacks(#[trigger] s.requirements[j], id);
            let r = s.requirements[j];
            assert(tells_of_demand(c, base, head, s.role, r));
            let (k, keys) = choose|k: RoleKeysView, keys: Map<Seq<char>, KeyView>| #[trigger]
                demanded(base, head, s.role, k, keys) && tells_signers(c, file, k, keys, r);
            requirement_lacks(c, file, k, keys, r, id);
            assert(demanded(base, head, s.role, k, keys));
        }
    }
    if wanted(base, head, s.role, id) {
        assert(status::role_needs(s, id)) by {
            let (k, keys) = choose|k: RoleKeysView, keys: Map<Seq<char>, KeyView>| #[trigger]
                demanded(base, head, s.role, k, keys) && short_of(head, s.role, k, keys)
                    && unsigned_by(file, k, keys, id);
            let j = choose|j: int|
                0 <= j < s.requirements.len() && tells_signers(
                    c,
                    file,
                    k,
                    keys,
                    #[trigger] s.requirements[j],
                );
            requirement_lacks(c, file, k, keys, s.requirements[j], id);
        }
    }
}

/// An event is complete exactly where every role it touches or that is there has been signed by enough
/// of its keys, and a new root by enough of those of the root before it.
pub proof fn complete_means_signed(c: ConfigView, base: Files, head: Files)
    requires
        config::valid(c),
        terms::proper(base),
        terms::proper(head),
        status::status_of(c, base, head) is Ok,
    ensures
        status::event_complete(status::status_of(c, base, head)->Ok_0) <==> forall|role: Seq<char>| #[trigger]
            looked_at(head, role) ==> fully_signed(base, head, role),
{
    let s = status::status_of(c, base, head)->Ok_0;
    if status::event_complete(s) {
        assert forall|role: Seq<char>| #[trigger] looked_at(head, role) implies fully_signed(
            base,
            head,
            role,
        ) by {
            the_status_conceals_no_role(c, base, head, role);
            if !fully_signed(base, head, role) {
                let i = choose|i: int| 0 <= i < s.len() && (#[trigger] s[i]).role == role;
                statuses_true(c, base, head, i);
                assert(status::role_complete(s[i]));
                complete_is_signed(c, base, head, s[i]);
            }
        }
    }
    if forall|role: Seq<char>| #[trigger] looked_at(head, role) ==> fully_signed(base, head, role) {
        assert forall|i: int| 0 <= i < s.len() implies status::role_complete(#[trigger] s[i]) by {
            statuses_true(c, base, head, i);
            assert(looked_at(head, s[i].role));
            complete_is_signed(c, base, head, s[i]);
        }
    }
}

/// A role needs a key exactly where one of its thresholds is not reached and lists the key as missing,
/// whichever root's keys it is about.
pub proof fn unmet_requirements_need_their_keys(s: RoleStatusView, i: int, m: int)
    requires
        0 <= i < s.requirements.len(),
        s.requirements[i].signed.len() < s.requirements[i].threshold,
        0 <= m < s.requirements[i].unsigned.len(),
    ensures
        status::role_needs(s, s.requirements[i].unsigned[m].id),
        !status::role_complete(s),
{
    let r = s.requirements[i];
    assert(r.unsigned[m].id == s.requirements[i].unsigned[m].id);
    assert(status::lacks(s.requirements[i], r.unsigned[m].id));
}

/// Those whom an event waits for are those whose keys its roles need: by name, of each requirement
/// that is not met, the keys that have not signed.
pub proof fn the_event_waits_for_those_it_needs(s: Seq<RoleStatusView>, name: Seq<char>)
    ensures
        status::event_waits(s).contains(name) <==> exists|i: int, j: int, m: int|
            0 <= i < s.len() && 0 <= j < s[i].requirements.len() && s[i].requirements[j].signed.len()
                < s[i].requirements[j].threshold && 0 <= m < s[i].requirements[j].unsigned.len() && (
            #[trigger] s[i].requirements[j].unsigned[m]).name == name,
    decreases s.len(),
{
    if s.len() > 0 {
        let rest = s.drop_last();
        let n = s.len() - 1;
        the_event_waits_for_those_it_needs(rest, name);
        role_waits_for(s.last().requirements, name);
        assert(s[n] == s.last());
        if exists|i: int, j: int, m: int|
            0 <= i < rest.len() && 0 <= j < rest[i].requirements.len()
                && rest[i].requirements[j].signed.len() < rest[i].requirements[j].threshold && 0 <= m
                < rest[i].requirements[j].unsigned.len() && (
            #[trigger] rest[i].requirements[j].unsigned[m]).name == name {
            let (i, j, m) = choose|i: int, j: int, m: int|
                0 <= i < rest.len() && 0 <= j < rest[i].requirements.len()
                    && rest[i].requirements[j].signed.len() < rest[i].requirements[j].threshold && 0
                    <= m < rest[i].requirements[j].unsigned.len() && (
                #[trigger] rest[i].requirements[j].unsigned[m]).name == name;
            assert(s[i] == rest[i]);
            assert(s[i].requirements[j].unsigned[m].name == name);
        }
        if role_waits(s.last().requirements, name) {
            let (j, m) = choose|j: int, m: int|
                0 <= j < s.last().requirements.len() && s.last().requirements[j].signed.len()
                    < s.last().requirements[j].threshold && 0 <= m
                    < s.last().requirements[j].unsigned.len() && (
                #[trigger] s.last().requirements[j].unsigned[m]).name == name;
            assert(s[n].requirements[j].unsigned[m].name == name);
        }
        if exists|i: int, j: int, m: int|
            0 <= i < s.len() && 0 <= j < s[i].requirements.len() && s[i].requirements[j].signed.len()
                < s[i].requirements[j].threshold && 0 <= m < s[i].requirements[j].unsigned.len() && (
            #[trigger] s[i].requirements[j].unsigned[m]).name == name {
            let (i, j, m) = choose|i: int, j: int, m: int|
                0 <= i < s.len() && 0 <= j < s[i].requirements.len()
                    && s[i].requirements[j].signed.len() < s[i].requirements[j].threshold && 0 <= m
                    < s[i].requirements[j].unsigned.len() && (
                #[trigger] s[i].requirements[j].unsigned[m]).name == name;
            if i < n {
                assert(rest[i] == s[i]);
                assert(rest[i].requirements[j].unsigned[m].name == name);
            } else {
                assert(s.last().requirements[j].unsigned[m].name == name);
                assert(role_waits(s.last().requirements, name));
            }
        }
    }
}

/// Whether one of the requirements is not met and lists a key of that name as missing.
spec fn role_waits(r: Seq<RequirementView>, name: Seq<char>) -> bool {
    exists|j: int, m: int|
        0 <= j < r.len() && r[j].signed.len() < r[j].threshold && 0 <= m < r[j].unsigned.len() && (
        #[trigger] r[j].unsigned[m]).name == name
}

/// Those whom a role waits for.
proof fn role_waits_for(r: Seq<RequirementView>, name: Seq<char>)
    ensures
        status::role_waits(r).contains(name) <==> role_waits(r, name),
    decreases r.len(),
{
    if r.len() > 0 {
        let rest = r.drop_last();
        let n = r.len() - 1;
        let last = r.last();
        role_waits_for(rest, name);
        assert(r[n] == last);
        let names = last.unsigned.map_values(|k: SignerView| k.name);
        assert(status::names_of(last.unsigned) == names.to_set());
        assert(names.to_set().contains(name) <==> names.contains(name));
        if names.contains(name) {
            let m = choose|m: int| 0 <= m < names.len() && names[m] == name;
            assert(r[n].unsigned[m].name == name);
        }
        if role_waits(rest, name) {
            let (j, m) = choose|j: int, m: int|
                0 <= j < rest.len() && rest[j].signed.len() < rest[j].threshold && 0 <= m
                    < rest[j].unsigned.len() && (#[trigger] rest[j].unsigned[m]).name == name;
            assert(r[j] == rest[j]);
            assert(r[j].unsigned[m].name == name);
        }
        if role_waits(r, name) {
            let (j, m) = choose|j: int, m: int|
                0 <= j < r.len() && r[j].signed.len() < r[j].threshold && 0 <= m
                    < r[j].unsigned.len() && (#[trigger] r[j].unsigned[m]).name == name;
            if j < n {
                assert(rest[j] == r[j]);
                assert(rest[j].unsigned[m].name == name);
            } else {
                assert(names[m] == name);
            }
        }
    }
}

/// Whether the status of role `a` stands before that of role `b`: root first, then `targets`, then the
/// others in the order of their names.
pub open spec fn stands_before(a: Seq<char>, b: Seq<char>) -> bool {
    a != b && if a == "root"@ {
        true
    } else if a == "targets"@ {
        b != "root"@
    } else {
        b != "root"@ && b != "targets"@ && text::precedes(a, b)
    }
}

/// Whether the names stand in the order of statuses.
spec fn in_status_order(names: Seq<Seq<char>>) -> bool {
    forall|i: int, j: int|
        0 <= i < j < names.len() ==> stands_before(#[trigger] names[i], #[trigger] names[j])
}

/// What is left of names in order is in order.
proof fn filtered_in_order(names: Seq<Seq<char>>, p: spec_fn(Seq<char>) -> bool)
    requires
        in_status_order(names),
    ensures
        in_status_order(names.filter(p)),
    decreases names.len(),
{
    reveal(Seq::filter);
    if names.len() > 0 {
        let rest = names.drop_last();
        let last = names[names.len() - 1];
        assert(names.last() == last);
        assert forall|i: int, j: int| 0 <= i < j < rest.len() implies stands_before(
            #[trigger] rest[i],
            #[trigger] rest[j],
        ) by {
            assert(stands_before(names[i], names[j]));
        }
        filtered_in_order(rest, p);
        let kept = rest.filter(p);
        let all = names.filter(p);
        assert forall|i: int, j: int| 0 <= i < j < all.len() implies stands_before(
            #[trigger] all[i],
            #[trigger] all[j],
        ) by {
            if j < kept.len() {
                assert(stands_before(kept[i], kept[j]));
            } else {
                assert(kept.contains(kept[i]));
                repo::filter_holds(rest, p, kept[i]);
                let k = choose|k: int| 0 <= k < rest.len() && rest[k] == kept[i];
                assert(stands_before(names[k], names[names.len() - 1]));
            }
        }
    }
}

/// The roles that the status looks at stand in order.
proof fn event_roles_in_order(head: Files)
    requires
        head.dom().finite(),
    ensures
        in_status_order(status::event_roles(head)),
{
    config::different_top_level();
    let all = repo::roles_of(head);
    let set = all.to_set();
    vstd::seq_lib::seq_to_set_is_finite(all);
    let p = |role: Seq<char>| !config::top_level(role);
    let other = set.filter(p);
    vstd::set_lib::lemma_set_subset_finite(set, other);
    strmap::listing_exists(other);
    let a = status::if_present(set, "root"@);
    let b = status::if_present(set, "targets"@);
    let d = strmap::listing(other);
    let names = status::event_roles(head);
    assert(names == a + b + d);
    assert forall|i: int| 0 <= i < d.len() implies #[trigger] d[i] != "root"@ && d[i] != "targets"@ by {
        assert(d.to_set().contains(d[i]));
        assert(other.contains(d[i]));
    }
    assert forall|i: int, j: int| 0 <= i < j < names.len() implies stands_before(
        #[trigger] names[i],
        #[trigger] names[j],
    ) by {
        let n = a.len() + b.len();
        if i >= n {
            assert(names[i] == d[i - n] && names[j] == d[j - n]);
            assert(text::precedes(d[i - n], d[j - n]));
            text::precedes_irreflexive(d[i - n]);
        } else if j >= n {
            assert(names[j] == d[j - n]);
            assert(d[j - n] != "root"@ && d[j - n] != "targets"@);
        }
    }
}

/// The status of an event has each role once: root first, then `targets`, then the others in the order
/// of their names.
pub proof fn statuses_stand_in_order(c: ConfigView, base: Files, head: Files, i: int, j: int)
    requires
        head.dom().finite(),
        status::status_of(c, base, head) is Ok,
        0 <= i < j < status::status_of(c, base, head)->Ok_0.len(),
    ensures
        stands_before(
            status::status_of(c, base, head)->Ok_0[i].role,
            status::status_of(c, base, head)->Ok_0[j].role,
        ),
{
    let bi = status::index_of(base, repo::targets_roles_of(base))->Ok_0;
    let hi = status::index_of(head, repo::targets_roles_of(head))->Ok_0;
    let names = status::event_roles(head);
    let p = noteworthy_fn(c, base, head, bi, hi);
    statuses_hold(c, base, head, names, bi, hi);
    event_roles_in_order(head);
    filtered_in_order(names, p);
    let kept = names.filter(p);
    assert forall|n: int| 0 <= n < kept.len() implies status::status_of(
        c,
        base,
        head,
    )->Ok_0[n].role == #[trigger] kept[n] by {
        assert(kept.contains(kept[n]));
        repo::filter_holds(names, p, kept[n]);
        let k = choose|k: int| 0 <= k < names.len() && names[k] == kept[n];
        assert(status::role_status_of(c, base, head, names[k], bi, hi) is Ok);
    }
    assert(stands_before(kept[i], kept[j]));
}

} // verus!
