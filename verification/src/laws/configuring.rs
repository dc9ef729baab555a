//! Which configs are accepted, and what is said of the others.

use vstd::prelude::*;

use crate::config;
use crate::config::{ConfigView, KeyConfigView, RoleConfigView};
use crate::documents;
use crate::error;
use crate::error::{Fault, Problem};
use crate::keys;
use crate::laws::terms;
use crate::laws::updating;
use crate::strmap;

verus! {

/// Whether the key has either an owner or a place where it is kept online, and is an ECDSA P-256 key.
pub open spec fn key_in_order(k: KeyConfigView) -> bool {
    &&& k.owner is Some ==> k.online is None
    &&& k.owner is None ==> k.online is Some
    &&& keys::key_from_pem(k.public_key) is Some
}

/// Whether the role can be signed: with keys of the config, enough for its threshold, online ones for
/// snapshot and timestamp. It is valid for longer than the time to sign it, and has paths exactly where
/// it is none of the four.
pub open spec fn role_in_order(c: ConfigView, name: Seq<char>, r: RoleConfigView) -> bool {
    &&& documents::names_metadata(name)
    &&& 1 <= r.threshold <= r.keys.len()
    &&& 0 < r.signing_days < r.expires_days
    &&& forall|key: Seq<char>| #[trigger]
        r.keys.contains(key) ==> c.keys.dom().contains(key) && (name == "snapshot"@ || name
            == "timestamp"@ ==> c.keys[key].online is Some)
    &&& terms::is_top_level(name) <==> r.paths.len() == 0
    &&& forall|path: Seq<char>| #[trigger] r.paths.contains(path) ==> documents::names_target(path)
}

/// Whether two paths have a target in common: they are the same, or one is a directory that the other
/// lies in.
pub open spec fn in_common(p: Seq<char>, q: Seq<char>) -> bool {
    updating::fits(p, q) || updating::fits(q, p)
}

/// Whether paths of the two roles have a target in common.
pub open spec fn clash(c: ConfigView, a: Seq<char>, b: Seq<char>) -> bool {
    exists|p: Seq<char>, q: Seq<char>|
        #![trigger c.roles[a].paths.contains(p), c.roles[b].paths.contains(q)]
        c.roles[a].paths.contains(p) && c.roles[b].paths.contains(q) && in_common(p, q)
}

/// Whether the config is in order: its keys and roles are, the four roles are there, and no target
/// belongs to two roles.
pub open spec fn in_order(c: ConfigView) -> bool {
    &&& forall|name: Seq<char>| #[trigger] c.keys.dom().contains(name) ==> key_in_order(c.keys[name])
    &&& forall|role: Seq<char>| #[trigger]
        terms::is_top_level(role) ==> c.roles.dom().contains(role)
    &&& forall|role: Seq<char>| #[trigger]
        c.roles.dom().contains(role) ==> role_in_order(c, role, c.roles[role])
    &&& forall|a: Seq<char>, b: Seq<char>| #[trigger]
        c.roles.dom().contains(a) && #[trigger] c.roles.dom().contains(b) && a != b ==> !clash(c, a, b)
}

/// Paths have targets in common where they overlap.
proof fn overlap_holds(p: Seq<char>, q: Seq<char>)
    ensures
        config::overlapping(p, q) <==> in_common(p, q),
{
    updating::responsible_holds(p, q);
    updating::responsible_holds(q, p);
}

/// The keys are in order where there is no problem with them.
proof fn keys_hold(c: ConfigView)
    requires
        c.keys.dom().finite(),
    ensures
        config::keys_problem(c) is None <==> forall|name: Seq<char>| #[trigger]
            c.keys.dom().contains(name) ==> key_in_order(c.keys[name]),
{
    let names = config::key_names(c);
    strmap::listing_exists(c.keys.dom());
    let f = |i: int| config::key_problem(names[i], c.keys[names[i]]);
    assert(config::keys_problem(c) == error::first(f, names.len() as int));
    error::first_none(f, names.len() as int);
    if config::keys_problem(c) is None {
        assert forall|name: Seq<char>| #[trigger] c.keys.dom().contains(name) implies key_in_order(
            c.keys[name],
        ) by {
            assert(names.to_set().contains(name));
            let i = choose|i: int| 0 <= i < names.len() && names[i] == name;
            assert(f(i) is None);
        }
    }
    if forall|name: Seq<char>| #[trigger] c.keys.dom().contains(name) ==> key_in_order(c.keys[name]) {
        assert forall|i: int| 0 <= i < names.len() implies #[trigger] f(i) is None by {
            assert(names.to_set().contains(names[i]));
            assert(c.keys.dom().contains(names[i]));
        }
    }
}

/// A role is in order where there is no problem with it.
proof fn role_holds(c: ConfigView, name: Seq<char>)
    ensures
        config::role_problem(c.keys, name, c.roles[name]) is None <==> role_in_order(
            c,
            name,
            c.roles[name],
        ),
{
    config::different_top_level();
    let r = c.roles[name];
    let f = |i: int| config::role_key_problem(c.keys, name, r.keys[i]);
    let g = |i: int| config::role_path_problem(name, r.paths[i]);
    error::first_none(f, r.keys.len() as int);
    error::first_none(g, r.paths.len() as int);
    if config::role_problem(c.keys, name, r) is None {
        assert forall|key: Seq<char>| #[trigger] r.keys.contains(key) implies c.keys.dom().contains(
            key,
        ) && (name == "snapshot"@ || name == "timestamp"@ ==> c.keys[key].online is Some) by {
            let i = choose|i: int| 0 <= i < r.keys.len() && r.keys[i] == key;
            assert(f(i) is None);
        }
        assert forall|path: Seq<char>| #[trigger] r.paths.contains(path) implies documents::names_target(
            path,
        ) by {
            let i = choose|i: int| 0 <= i < r.paths.len() && r.paths[i] == path;
            assert(g(i) is None);
        }
    }
    if role_in_order(c, name, r) {
        assert forall|i: int| 0 <= i < r.keys.len() implies #[trigger] f(i) is None by {
            assert(r.keys.contains(r.keys[i]));
        }
        assert forall|i: int| 0 <= i < r.paths.len() implies #[trigger] g(i) is None by {
            assert(r.paths.contains(r.paths[i]));
        }
    }
}

/// The roles are in order where there is no problem with them.
proof fn roles_hold(c: ConfigView)
    requires
        c.roles.dom().finite(),
    ensures
        config::roles_problem(c) is None <==> forall|role: Seq<char>| #[trigger]
            c.roles.dom().contains(role) ==> role_in_order(c, role, c.roles[role]),
{
    let names = config::role_names(c);
    strmap::listing_exists(c.roles.dom());
    let f = |i: int| config::role_problem(c.keys, names[i], c.roles[names[i]]);
    assert(config::roles_problem(c) == error::first(f, names.len() as int));
    error::first_none(f, names.len() as int);
    if config::roles_problem(c) is None {
        assert forall|role: Seq<char>| #[trigger] c.roles.dom().contains(role) implies role_in_order(
            c,
            role,
            c.roles[role],
        ) by {
            assert(names.to_set().contains(role));
            let i = choose|i: int| 0 <= i < names.len() && names[i] == role;
            assert(f(i) is None);
            role_holds(c, role);
        }
    }
    if forall|role: Seq<char>| #[trigger]
        c.roles.dom().contains(role) ==> role_in_order(c, role, c.roles[role]) {
        assert forall|i: int| 0 <= i < names.len() implies #[trigger] f(i) is None by {
            assert(names.to_set().contains(names[i]));
            assert(c.roles.dom().contains(names[i]));
            role_holds(c, names[i]);
        }
    }
}

/// Each claim is a path of its role.
proof fn claims_are_paths(roles: Map<Seq<char>, RoleConfigView>, names: Seq<Seq<char>>, i: int)
    requires
        0 <= i < config::claims(roles, names).len(),
    ensures
        names.contains(config::claims(roles, names)[i].0),
        roles[config::claims(roles, names)[i].0].paths.contains(config::claims(roles, names)[i].1),
    decreases names.len(),
{
    let rest = names.drop_last();
    let before = config::claims(roles, rest);
    let mine = roles[names.last()].paths.map_values(|path: Seq<char>| (names.last(), path));
    let all = config::claims(roles, names);
    assert(all == before + mine);
    if i < before.len() {
        claims_are_paths(roles, rest, i);
        let k = choose|k: int| 0 <= k < rest.len() && rest[k] == before[i].0;
        assert(names[k] == before[i].0);
    } else {
        let p = i - before.len();
        assert(all[i] == mine[p]);
        assert(names[names.len() - 1] == names.last());
        assert(roles[names.last()].paths[p] == all[i].1);
    }
}

/// No target belongs to two roles where there is no problem with the paths.
proof fn paths_hold(c: ConfigView)
    requires
        c.roles.dom().finite(),
        forall|a: Seq<char>, b: Seq<char>| #[trigger]
            c.roles.dom().contains(a) && #[trigger] c.roles.dom().contains(b) && a != b ==> !clash(
                c,
                a,
                b,
            ),
    ensures
        config::paths_problem(c) is None,
{
    let names = config::role_names(c);
    strmap::listing_exists(c.roles.dom());
    let all = config::claims(c.roles, names);
    let f = |i: int| config::later_overlap(all, i);
    error::first_none(f, all.len() as int);
    assert forall|i: int| 0 <= i < all.len() implies #[trigger] f(i) is None by {
        let g = |k: int| config::overlap_problem(all[i], all[i + 1 + k]);
        error::first_none(g, all.len() - i - 1);
        assert forall|k: int| 0 <= k < all.len() - i - 1 implies #[trigger] g(k) is None by {
            let a = all[i];
            let b = all[i + 1 + k];
            claims_are_paths(c.roles, names, i);
            claims_are_paths(c.roles, names, i + 1 + k);
            assert(names.to_set().contains(a.0) && names.to_set().contains(b.0));
            assert(c.roles.dom().contains(a.0) && c.roles.dom().contains(b.0));
            overlap_holds(a.1, b.1);
            if a.0 != b.0 && in_common(a.1, b.1) {
                assert(clash(c, a.0, b.0));
            }
        }
    }
}

/// A config is accepted exactly where it is in order.
pub proof fn configs_in_order_are_accepted(c: ConfigView)
    requires
        c.keys.dom().finite(),
        c.roles.dom().finite(),
    ensures
        config::valid(c) <==> in_order(c),
{
    keys_hold(c);
    roles_hold(c);
    if config::valid(c) {
        assert forall|role: Seq<char>| #[trigger] terms::is_top_level(role) implies c.roles.dom().contains(
            role,
        ) by {
            config::valid_top_level(c, role);
        }
        assert forall|a: Seq<char>, b: Seq<char>| #[trigger]
            c.roles.dom().contains(a) && #[trigger] c.roles.dom().contains(b) && a != b implies !clash(
            c,
            a,
            b,
        ) by {
            if clash(c, a, b) {
                let (p, q) = choose|p: Seq<char>, q: Seq<char>|
                    #![trigger c.roles[a].paths.contains(p), c.roles[b].paths.contains(q)]
                    c.roles[a].paths.contains(p) && c.roles[b].paths.contains(q) && in_common(p, q);
                let i = choose|i: int| 0 <= i < c.roles[a].paths.len() && c.roles[a].paths[i] == p;
                let j = choose|j: int| 0 <= j < c.roles[b].paths.len() && c.roles[b].paths[j] == q;
                config::valid_paths(c, a, i, b, j);
                overlap_holds(p, q);
            }
        }
    }
    if in_order(c) {
        assert(terms::is_top_level("root"@) && terms::is_top_level("targets"@)
            && terms::is_top_level("snapshot"@) && terms::is_top_level("timestamp"@));
        paths_hold(c);
    }
}

/// Whether what is said to be wrong with a config is.
pub open spec fn is_wrong(c: ConfigView, e: Fault) -> bool {
    match e {
        Problem::KeyHolder { key } => c.keys.dom().contains(key) && (c.keys[key].owner is Some) == (
        c.keys[key].online is Some),
        Problem::PublicKey { key } => c.keys.dom().contains(key) && keys::key_from_pem(
            c.keys[key].public_key,
        ) is None,
        Problem::TopLevelRole { role } => terms::is_top_level(role) && !c.roles.dom().contains(role),
        Problem::RoleName { role } => c.roles.dom().contains(role) && !documents::names_metadata(role),
        Problem::Threshold { role } => c.roles.dom().contains(role) && !(1 <= c.roles[role].threshold
            <= c.roles[role].keys.len()),
        Problem::Days { role } => c.roles.dom().contains(role) && !(0 < c.roles[role].signing_days
            < c.roles[role].expires_days),
        Problem::RoleKey { role, key } => c.roles.dom().contains(role)
            && c.roles[role].keys.contains(key) && !c.keys.dom().contains(key),
        Problem::OfflineKey { role, key } => c.roles.dom().contains(role) && c.roles[role].keys.contains(
            key,
        ) && c.keys.dom().contains(key) && c.keys[key].online is None && (role == "snapshot"@ || role
            == "timestamp"@),
        Problem::Paths { role } => c.roles.dom().contains(role) && terms::is_top_level(role) != (
        c.roles[role].paths.len() == 0),
        Problem::RolePath { role, path } => c.roles.dom().contains(role)
            && c.roles[role].paths.contains(path) && !documents::names_target(path),
        Problem::Overlap { role, path, other_role, other_path } => role != other_role
            && c.roles.dom().contains(role) && c.roles.dom().contains(other_role)
            && c.roles[role].paths.contains(path) && c.roles[other_role].paths.contains(other_path)
            && in_common(path, other_path),
        _ => false,
    }
}

/// What is said to be wrong with a config that is refused is wrong with it.
pub proof fn refused_configs_are_wrong(c: ConfigView)
    requires
        c.keys.dom().finite(),
        c.roles.dom().finite(),
    ensures
        config::first_problem(c) matches Some(e) ==> is_wrong(c, e),
{
    config::different_top_level();
    let keys = config::key_names(c);
    let roles = config::role_names(c);
    strmap::listing_exists(c.keys.dom());
    strmap::listing_exists(c.roles.dom());
    if config::keys_problem(c) is Some {
        let f = |i: int| config::key_problem(keys[i], c.keys[keys[i]]);
        assert(config::keys_problem(c) == error::first(f, keys.len() as int));
        error::first_is_one(f, keys.len() as int);
        let i = choose|i: int|
            0 <= i < keys.len() && #[trigger] f(i) == error::first(f, keys.len() as int);
        assert(keys.to_set().contains(keys[i]));
    } else if config::top_level_problem(c) is Some {
    } else if config::roles_problem(c) is Some {
        let f = |i: int| config::role_problem(c.keys, roles[i], c.roles[roles[i]]);
        assert(config::roles_problem(c) == error::first(f, roles.len() as int));
        error::first_is_one(f, roles.len() as int);
        let i = choose|i: int|
            0 <= i < roles.len() && #[trigger] f(i) == error::first(f, roles.len() as int);
        assert(roles.to_set().contains(roles[i]));
        role_is_wrong(c, roles[i]);
    } else if config::paths_problem(c) is Some {
        let all = config::claims(c.roles, roles);
        let f = |i: int| config::later_overlap(all, i);
        error::first_is_one(f, all.len() as int);
        let i = choose|i: int|
            0 <= i < all.len() && #[trigger] f(i) == error::first(f, all.len() as int);
        let g = |k: int| config::overlap_problem(all[i], all[i + 1 + k]);
        error::first_is_one(g, all.len() - i - 1);
        let k = choose|k: int|
            0 <= k < all.len() - i - 1 && #[trigger] g(k) == error::first(g, all.len() - i - 1);
        claims_are_paths(c.roles, roles, i);
        claims_are_paths(c.roles, roles, i + 1 + k);
        assert(roles.to_set().contains(all[i].0) && roles.to_set().contains(all[i + 1 + k].0));
        overlap_holds(all[i].1, all[i + 1 + k].1);
    }
}

/// What is said to be wrong with a role is wrong with it.
proof fn role_is_wrong(c: ConfigView, name: Seq<char>)
    requires
        c.roles.dom().contains(name),
    ensures
        config::role_problem(c.keys, name, c.roles[name]) matches Some(e) ==> is_wrong(c, e),
{
    config::different_top_level();
    let r = c.roles[name];
    let f = |i: int| config::role_key_problem(c.keys, name, r.keys[i]);
    let g = |i: int| config::role_path_problem(name, r.paths[i]);
    if error::first(f, r.keys.len() as int) is Some {
        error::first_is_one(f, r.keys.len() as int);
        let i = choose|i: int|
            0 <= i < r.keys.len() && #[trigger] f(i) == error::first(f, r.keys.len() as int);
        assert(r.keys.contains(r.keys[i]));
    }
    if error::first(g, r.paths.len() as int) is Some {
        error::first_is_one(g, r.paths.len() as int);
        let i = choose|i: int|
            0 <= i < r.paths.len() && #[trigger] g(i) == error::first(g, r.paths.len() as int);
        assert(r.paths.contains(r.paths[i]));
    }
}

} // verus!
