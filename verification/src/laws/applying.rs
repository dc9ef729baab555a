//! What bringing the metadata in line with a config promises.

use vstd::prelude::*;

use crate::config;
use crate::config::ConfigView;
use crate::documents;
use crate::documents::{DelegationView, RoleKeysView, TargetsView};
use crate::error::Fault;
use crate::keys;
use crate::keys::KeyView;
use crate::laws::publishing;
use crate::laws::terms;
use crate::metadata;
use crate::metadata::ContentView;
use crate::repo;
use crate::repo::Files;
use crate::strmap;
use crate::text;
use crate::time;
use crate::update;

verus! {

/// Whether the config has a key of the given name, and it is `key`.
pub open spec fn configured(c: ConfigView, name: Seq<char>, key: KeyView) -> bool {
    c.keys.dom().contains(name) && keys::key_from_pem(c.keys[name].public_key) == Some(key)
}

/// Whether one of the keys that the config gives `role` has the id.
pub open spec fn configured_for(c: ConfigView, role: Seq<char>, id: Seq<char>) -> bool {
    exists|i: int|
        0 <= i < c.roles[role].keys.len() && (keys::key_from_pem(
            c.keys[#[trigger] c.roles[role].keys[i]].public_key,
        )->0).id == id
}

/// Whether the key ids are those of the keys that the config gives `role`, the threshold is the
/// configured one, and a key of the config is found under each id.
pub open spec fn keys_as_configured(
    c: ConfigView,
    role: Seq<char>,
    k: RoleKeysView,
    keys: Map<Seq<char>, KeyView>,
) -> bool {
    &&& k.threshold == c.roles[role].threshold
    &&& forall|id: Seq<char>| #[trigger] k.key_ids.contains(id) <==> configured_for(c, role, id)
    &&& forall|id: Seq<char>| #[trigger]
        k.key_ids.contains(id) ==> keys.dom().contains(id) && keys[id].id == id && exists|
            name: Seq<char>,
        | #[trigger]
            configured(c, name, keys[id])
}

/// Whether every key stands under its id, and is one of the config.
spec fn from_config(c: ConfigView, keys: Map<Seq<char>, KeyView>) -> bool {
    forall|id: Seq<char>| #[trigger]
        keys.dom().contains(id) ==> keys[id].id == id && exists|name: Seq<char>| #[trigger]
            configured(c, name, keys[id])
}

/// The ids of configured keys.
proof fn ids_hold(c: ConfigView, names: Seq<Seq<char>>, id: Seq<char>)
    ensures
        update::ids_of(c, names).contains(id) <==> exists|i: int|
            0 <= i < names.len() && (keys::key_from_pem(c.keys[#[trigger] names[i]].public_key)->0).id
                == id,
        update::ids_of(c, names).finite(),
    decreases names.len(),
{
    if names.len() > 0 {
        let rest = names.drop_last();
        let k = names.len() - 1;
        ids_hold(c, rest, id);
        assert(names[k] == names.last());
        if exists|i: int|
            0 <= i < rest.len() && (keys::key_from_pem(c.keys[#[trigger] rest[i]].public_key)->0).id
                == id {
            let i = choose|i: int|
                0 <= i < rest.len() && (keys::key_from_pem(
                    c.keys[#[trigger] rest[i]].public_key,
                )->0).id == id;
            assert(names[i] == rest[i]);
        }
        if exists|i: int|
            0 <= i < names.len() && (keys::key_from_pem(c.keys[#[trigger] names[i]].public_key)->0).id
                == id {
            let i = choose|i: int|
                0 <= i < names.len() && (keys::key_from_pem(
                    c.keys[#[trigger] names[i]].public_key,
                )->0).id == id;
            if i < k {
                assert(rest[i] == names[i]);
            }
        }
    }
}

/// The table of configured keys has the earlier ones and those that were added.
proof fn keys_hold(
    c: ConfigView,
    known: Map<Seq<char>, KeyView>,
    names: Seq<Seq<char>>,
    id: Seq<char>,
)
    requires
        config::valid(c),
        forall|i: int| 0 <= i < names.len() ==> c.keys.dom().contains(#[trigger] names[i]),
        from_config(c, known),
    ensures
        from_config(c, update::keys_with(c, known, names)),
        update::keys_with(c, known, names).dom().contains(id) <==> known.dom().contains(id)
            || update::ids_of(c, names).contains(id),
    decreases names.len(),
{
    if names.len() > 0 {
        let rest = names.drop_last();
        assert forall|i: int| 0 <= i < rest.len() implies c.keys.dom().contains(#[trigger] rest[i]) by {
            assert(rest[i] == names[i]);
        }
        keys_hold(c, known, rest, id);
        let name = names[names.len() - 1];
        assert(name == names.last());
        config::valid_key(c, name);
        let key = keys::key_from_pem(c.keys[name].public_key)->0;
        assert(configured(c, name, key));
        let all = update::keys_with(c, known, names);
        let earlier = update::keys_with(c, known, rest);
        assert(all == earlier.insert(key.id, key));
        assert forall|x: Seq<char>| #[trigger] all.dom().contains(x) implies all[x].id == x && exists|
            n: Seq<char>,
        | #[trigger] configured(c, n, all[x]) by {
            if x != key.id {
                assert(earlier.dom().contains(x));
            }
        }
    }
}

/// The keys of several roles.
proof fn delegation_keys_hold(c: ConfigView, names: Seq<Seq<char>>, id: Seq<char>)
    requires
        config::valid(c),
        forall|i: int| 0 <= i < names.len() ==> c.roles.dom().contains(#[trigger] names[i]),
    ensures
        from_config(c, update::delegation_keys(c, names)),
        update::delegation_keys(c, names).dom().contains(id) <==> exists|i: int|
            0 <= i < names.len() && update::ids_of(c, c.roles[#[trigger] names[i]].keys).contains(id),
    decreases names.len(),
{
    if names.len() > 0 {
        let rest = names.drop_last();
        let k = names.len() - 1;
        assert forall|i: int| 0 <= i < rest.len() implies c.roles.dom().contains(#[trigger] rest[i]) by {
            assert(rest[i] == names[i]);
        }
        delegation_keys_hold(c, rest, id);
        assert(names[k] == names.last());
        config::valid_role(c, names[k]);
        keys_hold(c, update::delegation_keys(c, rest), c.roles[names[k]].keys, id);
        if exists|i: int|
            0 <= i < rest.len() && update::ids_of(c, c.roles[#[trigger] rest[i]].keys).contains(id) {
            let i = choose|i: int|
                0 <= i < rest.len() && update::ids_of(c, c.roles[#[trigger] rest[i]].keys).contains(id);
            assert(names[i] == rest[i]);
        }
        if exists|i: int|
            0 <= i < names.len() && update::ids_of(c, c.roles[#[trigger] names[i]].keys).contains(id) {
            let i = choose|i: int|
                0 <= i < names.len() && update::ids_of(c, c.roles[#[trigger] names[i]].keys).contains(
                    id,
                );
            if i < k {
                assert(rest[i] == names[i]);
            }
        }
    }
}

/// The root that a config asks for gives each top-level role its configured keys.
proof fn root_as_configured(c: ConfigView, role: Seq<char>)
    requires
        config::valid(c),
        terms::is_top_level(role),
    ensures
        update::root_content(c).consistent_snapshot,
        keys_as_configured(
            c,
            role,
            terms::given_by_root(update::root_content(c), role),
            update::root_content(c).keys,
        ),
        terms::given_by_root(update::root_content(c), role).key_ids.finite(),
{
    config::different_top_level();
    config::valid_top_level(c, "root"@);
    config::valid_top_level(c, "targets"@);
    config::valid_top_level(c, "snapshot"@);
    config::valid_top_level(c, "timestamp"@);
    config::valid_role(c, "root"@);
    config::valid_role(c, "targets"@);
    config::valid_role(c, "snapshot"@);
    config::valid_role(c, "timestamp"@);
    let none = Map::<Seq<char>, KeyView>::empty();
    let k1 = update::keys_with(c, none, c.roles["root"@].keys);
    let k2 = update::keys_with(c, k1, c.roles["targets"@].keys);
    let k3 = update::keys_with(c, k2, c.roles["snapshot"@].keys);
    let k4 = update::keys_with(c, k3, c.roles["timestamp"@].keys);
    let k = terms::given_by_root(update::root_content(c), role);
    assert(update::root_content(c).keys == k4);
    ids_hold(c, c.roles[role].keys, arbitrary());
    assert forall|id: Seq<char>| #[trigger] k.key_ids.contains(id) <==> configured_for(c, role, id) by {
        ids_hold(c, c.roles[role].keys, id);
    }
    assert forall|id: Seq<char>| #[trigger] k.key_ids.contains(id) implies k4.dom().contains(id)
        && k4[id].id == id && exists|name: Seq<char>| #[trigger] configured(c, name, k4[id]) by {
        keys_hold(c, none, c.roles["root"@].keys, id);
        keys_hold(c, k1, c.roles["targets"@].keys, id);
        keys_hold(c, k2, c.roles["snapshot"@].keys, id);
        keys_hold(c, k3, c.roles["timestamp"@].keys, id);
    }
}

/// Whether the delegation is the one that the config asks for: to its role, for its paths, with its
/// threshold and keys, and ending the search for a target.
pub open spec fn delegation_as_configured(
    c: ConfigView,
    d: DelegationView,
    keys: Map<Seq<char>, KeyView>,
) -> bool {
    &&& c.roles.dom().contains(d.name) && !terms::is_top_level(d.name)
    &&& d.terminating
    &&& forall|path: Seq<char>| #[trigger]
        d.paths.contains(path) <==> c.roles[d.name].paths.contains(path)
    &&& keys_as_configured(
        c,
        d.name,
        RoleKeysView { threshold: d.threshold, key_ids: d.key_ids },
        keys,
    )
}

/// The names of the roles that are delegated to.
pub proof fn delegated_names(c: ConfigView, role: Seq<char>)
    requires
        config::valid(c),
    ensures
        config::delegated(c).contains(role) <==> c.roles.dom().contains(role)
            && !terms::is_top_level(role),
{
    strmap::listing_exists(c.roles.dom());
    repo::filter_holds(
        config::role_names(c),
        |name: Seq<char>| c.roles[name].paths.len() > 0,
        role,
    );
    assert(config::role_names(c).to_set().contains(role) <==> config::role_names(c).contains(role));
    if c.roles.dom().contains(role) {
        config::valid_role(c, role);
    }
}

/// The delegations that a config asks for.
proof fn delegations_as_configured(c: ConfigView)
    requires
        config::valid(c),
    ensures
        ({
            let d = update::delegations_content(c);
            &&& forall|i: int|
                0 <= i < d.roles.len() ==> delegation_as_configured(c, #[trigger] d.roles[i], d.keys)
                    && d.roles[i].key_ids.finite()
            &&& forall|i: int, j: int|
                0 <= i < j < d.roles.len() ==> text::precedes(
                    (#[trigger] d.roles[i]).name,
                    (#[trigger] d.roles[j]).name,
                )
            &&& forall|role: Seq<char>|
                c.roles.dom().contains(role) && !#[trigger] terms::is_top_level(role) ==> exists|i: int|
                    0 <= i < d.roles.len() && (#[trigger] d.roles[i]).name == role
        }),
{
    let d = update::delegations_content(c);
    let names = config::delegated(c);
    update::delegated_holds(c);
    assert forall|i: int| 0 <= i < d.roles.len() implies delegation_as_configured(
        c,
        #[trigger] d.roles[i],
        d.keys,
    ) && d.roles[i].key_ids.finite() by {
        let role = names[i];
        let own = RoleKeysView { threshold: d.roles[i].threshold, key_ids: d.roles[i].key_ids };
        assert(d.roles[i].name == role);
        assert(names.contains(role));
        delegated_names(c, role);
        ids_hold(c, c.roles[role].keys, arbitrary());
        assert forall|id: Seq<char>| #[trigger] own.key_ids.contains(id) <==> configured_for(
            c,
            role,
            id,
        ) by {
            ids_hold(c, c.roles[role].keys, id);
        }
        assert forall|id: Seq<char>| #[trigger] own.key_ids.contains(id) implies d.keys.dom().contains(
            id,
        ) && d.keys[id].id == id && exists|name: Seq<char>| #[trigger]
            configured(c, name, d.keys[id]) by {
            delegation_keys_hold(c, names, id);
            assert(update::ids_of(c, c.roles[names[i]].keys).contains(id));
        }
        assert forall|path: Seq<char>| #[trigger]
            d.roles[i].paths.contains(path) <==> c.roles[role].paths.contains(path) by {
            assert(c.roles[role].paths.to_set().contains(path) <==> c.roles[role].paths.contains(
                path,
            ));
        }
    }
    assert forall|i: int, j: int| 0 <= i < j < d.roles.len() implies text::precedes(
        (#[trigger] d.roles[i]).name,
        (#[trigger] d.roles[j]).name,
    ) by {
        assert(text::precedes(names[i], names[j]));
    }
    assert forall|role: Seq<char>|
        c.roles.dom().contains(role) && !#[trigger] terms::is_top_level(role) implies exists|i: int|
        0 <= i < d.roles.len() && (#[trigger] d.roles[i]).name == role by {
        delegated_names(c, role);
        let i = choose|i: int| 0 <= i < names.len() && names[i] == role;
        assert(d.roles[i].name == role);
    }
}

/// Whether metadata that expires at the given instant lasts beyond the days in which it is to be
/// signed anew: so many days or more are left of now.
pub open spec fn lasts(signing_days: int, expires: int, now: int) -> bool {
    !time::leaping(now) && !time::leaping(expires) ==> time::second_of(expires) >= time::second_of(now)
        + signing_days * 86_400
}

/// Metadata is due in its last days, so many as the config has for signing it anew.
pub proof fn due_in_the_last_days(signing_days: int, expires: int, now: int)
    requires
        !time::leaping(now),
        !time::leaping(expires),
    ensures
        config::due(signing_days, expires, time::whole(now)) <==> time::second_of(expires)
            < time::second_of(now) + signing_days * 86_400,
{
    time::instant_parts(time::second_of(now), 0);
    let a = time::second_of(expires) - time::second_of(now);
    let b = signing_days * 86_400;
    let n = time::nanos_of(expires);
    assert(signing_days * 86_400 * 1_000_000_000 == b * 1_000_000_000);
    assert(time::nanos_of(time::whole(now)) == 0);
    assert(time::elapsed(time::whole(now), expires) == a * 1_000_000_000 + n);
}

/// What is in line with the config is as the config asks: root gives each top-level role its
/// configured threshold and keys, `targets` delegates to each other role of the config with its
/// configured paths, threshold and keys, and to no other, there is metadata of these roles and of no
/// others, and none of it is due. Bringing the metadata in line with a config ensures that it is.
pub open spec fn as_configured(files: Files, c: ConfigView, now: int) -> bool {
    let root = documents::root_in(terms::bytes_of(files, "root"@));
    let targets = documents::targets_in(terms::bytes_of(files, "targets"@));
    &&& terms::has(files, "root"@) && (root matches Some((h, r)) && r.consistent_snapshot && lasts(
        c.roles["root"@].signing_days,
        h.expires,
        now,
    ) && forall|role: Seq<char>| #[trigger]
        terms::is_top_level(role) ==> keys_as_configured(c, role, terms::given_by_root(r, role), r.keys))
    &&& terms::has(files, "targets"@) && (targets matches Some((h, t)) && lasts(
        c.roles["targets"@].signing_days,
        h.expires,
        now,
    ) && delegates_as_configured(c, t))
    &&& forall|role: Seq<char>| #[trigger]
        terms::lists(files, role) ==> c.roles.dom().contains(role)
    &&& forall|role: Seq<char>| #[trigger]
        c.roles.dom().contains(role) && !terms::is_top_level(role) ==> terms::has(files, role) && (
        documents::targets_in(terms::bytes_of(files, role)) matches Some((h, t)) && lasts(
            c.roles[role].signing_days,
            h.expires,
            now,
        ) && t.delegations.roles.len() == 0)
}

/// Whether the delegations are those that the config asks for, each once, in the order of their names.
pub open spec fn delegates_as_configured(c: ConfigView, t: TargetsView) -> bool {
    let d = t.delegations;
    &&& forall|i: int|
        0 <= i < d.roles.len() ==> delegation_as_configured(c, #[trigger] d.roles[i], d.keys)
    &&& forall|i: int, j: int|
        0 <= i < j < d.roles.len() ==> text::precedes(
            (#[trigger] d.roles[i]).name,
            (#[trigger] d.roles[j]).name,
        )
    &&& forall|role: Seq<char>| #[trigger]
        c.roles.dom().contains(role) && !terms::is_top_level(role) ==> exists|i: int|
            0 <= i < d.roles.len() && (#[trigger] d.roles[i]).name == role
}

/// Metadata that is settled is not due.
proof fn settled_lasts(
    files: Files,
    base: Files,
    role: Seq<char>,
    c: ConfigView,
    now: int,
    content: ContentView,
)
    requires
        update::settled(files, base, role, c.roles[role], now, content),
    ensures
        terms::has(files, role),
        metadata::parsed(metadata::content_kind(content), terms::bytes_of(files, role)) matches Some(m)
            && m.1 == content && lasts(c.roles[role].signing_days, m.0.expires, now),
{
    let m = metadata::parsed(metadata::content_kind(content), terms::bytes_of(files, role))->0;
    if !time::leaping(now) && !time::leaping(m.0.expires) {
        due_in_the_last_days(c.roles[role].signing_days, m.0.expires, now);
    }
}

/// Metadata that is in line with a config is as the config asks.
pub proof fn in_line_is_as_configured(files: Files, c: ConfigView, base: Files, now: int)
    requires
        config::valid(c),
        files.dom().finite(),
        update::in_line(files, c, base, now),
    ensures
        as_configured(files, c, now),
{
    config::different_top_level();
    reveal(update::role_settled);
    reveal(update::none_gone);
    settled_lasts(files, base, "root"@, c, now, ContentView::Root(update::root_content(c)));
    let r = update::root_content(c);
    assert forall|role: Seq<char>| #[trigger] terms::is_top_level(role) implies keys_as_configured(
        c,
        role,
        terms::given_by_root(r, role),
        r.keys,
    ) by {
        root_as_configured(c, role);
    }
    root_as_configured(c, "root"@);
    let content = update::with_delegations(files, "targets"@, update::delegations_content(c))->Ok_0;
    settled_lasts(files, base, "targets"@, c, now, content);
    delegations_as_configured(c);
    let t = (documents::targets_in(terms::bytes_of(files, "targets"@))->0).1;
    assert(t.delegations == update::delegations_content(c));
    assert(delegates_as_configured(c, t));
    assert forall|role: Seq<char>| #[trigger] terms::lists(files, role) implies c.roles.dom().contains(
        role,
    ) by {
        publishing::role_listed(files, role);
        repo::targets_role_has_file(files, role);
        let name = choose|name: Seq<char>| #[trigger]
            files.dom().contains(name) && repo::role_of(name) == Some(role);
        config::valid_top_level(c, "targets"@);
    }
    assert forall|role: Seq<char>| #[trigger]
        c.roles.dom().contains(role) && !terms::is_top_level(role) implies terms::has(files, role) && (
    documents::targets_in(terms::bytes_of(files, role)) matches Some((h, t)) && lasts(
        c.roles[role].signing_days,
        h.expires,
        now,
    ) && t.delegations.roles.len() == 0) by {
        delegated_names(c, role);
        let names = config::delegated(c);
        let i = choose|i: int| 0 <= i < names.len() && names[i] == role;
        assert(update::role_settled(files, c, base, now, names[i], metadata::no_delegations()));
        let own = update::with_delegations(files, role, metadata::no_delegations())->Ok_0;
        settled_lasts(files, base, role, c, now, own);
    }
}

/// The keys that must sign a role are those of the config: as many of them as it asks for, each with
/// the id of a key that it gives the role, and one for each such id.
pub proof fn configured_keys_must_sign(
    files: Files,
    c: ConfigView,
    base: Files,
    now: int,
    role: Seq<char>,
)
    requires
        config::valid(c),
        files.dom().finite(),
        update::in_line(files, c, base, now),
        c.roles.dom().contains(role),
    ensures
        repo::role_keys_of(files, role) matches Ok(need) && need.0 == c.roles[role].threshold && (
        forall|id: Seq<char>| #[trigger]
            configured_for(c, role, id) <==> exists|k: KeyView| #[trigger]
                need.1.contains(k) && k.id == id) && (forall|k: KeyView| #[trigger]
            need.1.contains(k) ==> exists|name: Seq<char>| #[trigger] configured(c, name, k)),
{
    config::different_top_level();
    reveal(update::role_settled);
    in_line_is_as_configured(files, c, base, now);
    let r = (documents::root_in(terms::bytes_of(files, "root"@))->0).1;
    let t = (documents::targets_in(terms::bytes_of(files, "targets"@))->0).1;
    if terms::is_top_level(role) {
        let k = terms::given_by_root(r, role);
        assert(terms::is_top_level(role));
        root_as_configured(c, role);
        settled_lasts(files, base, "root"@, c, now, ContentView::Root(update::root_content(c)));
        picked_as_configured(c, role, k, r.keys);
        assert(repo::role_keys_of(files, role) == Ok::<(int, Seq<KeyView>), Fault>(
            repo::picked(k, r.keys),
        ));
    } else {
        let d = t.delegations.roles;
        assert(c.roles.dom().contains(role));
        let i = choose|i: int| 0 <= i < d.len() && (#[trigger] d[i]).name == role;
        assert forall|j: int| 0 <= j < i implies (#[trigger] d[j]).name != role by {
            assert(text::precedes(d[j].name, d[i].name));
            text::precedes_irreflexive(role);
        }
        repo::first_delegation(t, role, i);
        let content = update::with_delegations(
            files,
            "targets"@,
            update::delegations_content(c),
        )->Ok_0;
        settled_lasts(files, base, "targets"@, c, now, content);
        delegations_as_configured(c);
        let k = RoleKeysView { threshold: d[i].threshold, key_ids: d[i].key_ids };
        assert(delegation_as_configured(c, d[i], t.delegations.keys));
        picked_as_configured(c, role, k, t.delegations.keys);
        assert(repo::role_keys_of(files, role) == Ok::<(int, Seq<KeyView>), Fault>(
            repo::picked(k, t.delegations.keys),
        ));
    }
}

/// Keys as configured are picked as configured.
proof fn picked_as_configured(
    c: ConfigView,
    role: Seq<char>,
    k: RoleKeysView,
    keys: Map<Seq<char>, KeyView>,
)
    requires
        keys_as_configured(c, role, k, keys),
        k.key_ids.finite(),
    ensures
        ({
            let need = repo::picked(k, keys);
            &&& need.0 == c.roles[role].threshold
            &&& forall|id: Seq<char>| #[trigger]
                configured_for(c, role, id) <==> exists|k: KeyView| #[trigger]
                    need.1.contains(k) && k.id == id
            &&& forall|k: KeyView| #[trigger]
                need.1.contains(k) ==> exists|name: Seq<char>| #[trigger] configured(c, name, k)
        }),
{
    let need = repo::picked(k, keys);
    terms::picked_holds(k, keys, arbitrary());
    assert forall|id: Seq<char>| #[trigger] configured_for(c, role, id) <==> exists|key: KeyView|
     #[trigger] need.1.contains(key) && key.id == id by {
        if configured_for(c, role, id) {
            assert(k.key_ids.contains(id));
            terms::picked_holds(k, keys, keys[id]);
            assert(terms::authorized(k, keys, keys[id]));
            assert(need.1.contains(keys[id]) && keys[id].id == id);
        }
        if exists|key: KeyView| #[trigger] need.1.contains(key) && key.id == id {
            let key = choose|key: KeyView| #[trigger] need.1.contains(key) && key.id == id;
            terms::picked_holds(k, keys, key);
            let x = choose|x: Seq<char>| #[trigger]
                k.key_ids.contains(x) && keys.dom().contains(x) && keys[x] == key;
            assert(k.key_ids.contains(x) && x == id);
        }
    }
    assert forall|key: KeyView| #[trigger] need.1.contains(key) implies exists|name: Seq<char>|
     #[trigger] configured(c, name, key) by {
        terms::picked_holds(k, keys, key);
        let x = choose|x: Seq<char>| #[trigger]
            k.key_ids.contains(x) && keys.dom().contains(x) && keys[x] == key;
        assert(k.key_ids.contains(x));
    }
}

/// Root lists the keys of the four roles and no others, and `targets` those of the roles that it
/// delegates to.
pub proof fn no_other_keys_are_listed(
    files: Files,
    c: ConfigView,
    base: Files,
    now: int,
    id: Seq<char>,
)
    requires
        config::valid(c),
        files.dom().finite(),
        update::in_line(files, c, base, now),
    ensures
        ({
            let r = (documents::root_in(terms::bytes_of(files, "root"@))->0).1;
            let t = (documents::targets_in(terms::bytes_of(files, "targets"@))->0).1;
            &&& r.keys.dom().contains(id) <==> exists|role: Seq<char>| #[trigger]
                terms::is_top_level(role) && configured_for(c, role, id)
            &&& t.delegations.keys.dom().contains(id) <==> exists|role: Seq<char>|
                !#[trigger] terms::is_top_level(role) && c.roles.dom().contains(role)
                    && configured_for(c, role, id)
        }),
{
    config::different_top_level();
    reveal(update::role_settled);
    settled_lasts(files, base, "root"@, c, now, ContentView::Root(update::root_content(c)));
    let content = update::with_delegations(files, "targets"@, update::delegations_content(c))->Ok_0;
    settled_lasts(files, base, "targets"@, c, now, content);
    let r = (documents::root_in(terms::bytes_of(files, "root"@))->0).1;
    let t = (documents::targets_in(terms::bytes_of(files, "targets"@))->0).1;
    assert(r == update::root_content(c));
    assert(t.delegations == update::delegations_content(c));
    root_keys_hold(c, id);
    let names = config::delegated(c);
    assert forall|i: int| 0 <= i < names.len() implies c.roles.dom().contains(#[trigger] names[i]) by {
        assert(names.contains(names[i]));
        delegated_names(c, names[i]);
    }
    delegation_keys_hold(c, names, id);
    if t.delegations.keys.dom().contains(id) {
        let i = choose|i: int|
            0 <= i < names.len() && update::ids_of(c, c.roles[#[trigger] names[i]].keys).contains(id);
        assert(names.contains(names[i]));
        delegated_names(c, names[i]);
        ids_hold(c, c.roles[names[i]].keys, id);
        assert(!terms::is_top_level(names[i]) && configured_for(c, names[i], id));
    }
    if exists|role: Seq<char>|
        !#[trigger] terms::is_top_level(role) && c.roles.dom().contains(role) && configured_for(
            c,
            role,
            id,
        ) {
        let role = choose|role: Seq<char>|
            !#[trigger] terms::is_top_level(role) && c.roles.dom().contains(role) && configured_for(
                c,
                role,
                id,
            );
        delegated_names(c, role);
        ids_hold(c, c.roles[role].keys, id);
        let i = choose|i: int| 0 <= i < names.len() && names[i] == role;
        assert(update::ids_of(c, c.roles[names[i]].keys).contains(id));
    }
}

/// The keys that root lists.
proof fn root_keys_hold(c: ConfigView, id: Seq<char>)
    requires
        config::valid(c),
    ensures
        update::root_content(c).keys.dom().contains(id) <==> exists|role: Seq<char>| #[trigger]
            terms::is_top_level(role) && configured_for(c, role, id),
{
    config::different_top_level();
    config::valid_top_level(c, "root"@);
    config::valid_top_level(c, "targets"@);
    config::valid_top_level(c, "snapshot"@);
    config::valid_top_level(c, "timestamp"@);
    config::valid_role(c, "root"@);
    config::valid_role(c, "targets"@);
    config::valid_role(c, "snapshot"@);
    config::valid_role(c, "timestamp"@);
    let none = Map::<Seq<char>, KeyView>::empty();
    let k1 = update::keys_with(c, none, c.roles["root"@].keys);
    let k2 = update::keys_with(c, k1, c.roles["targets"@].keys);
    let k3 = update::keys_with(c, k2, c.roles["snapshot"@].keys);
    keys_hold(c, none, c.roles["root"@].keys, id);
    keys_hold(c, k1, c.roles["targets"@].keys, id);
    keys_hold(c, k2, c.roles["snapshot"@].keys, id);
    keys_hold(c, k3, c.roles["timestamp"@].keys, id);
    assert forall|role: Seq<char>| #[trigger] terms::is_top_level(role) implies update::ids_of(
        c,
        c.roles[role].keys,
    ).contains(id) == configured_for(c, role, id) by {
        ids_hold(c, c.roles[role].keys, id);
    }
    assert(terms::is_top_level("root"@) && terms::is_top_level("targets"@) && terms::is_top_level(
        "snapshot"@,
    ) && terms::is_top_level("timestamp"@));
}

} // verus!
