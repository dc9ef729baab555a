//! What new versions promise: that there is one where it is needed, and nowhere else.

use vstd::prelude::*;

use crate::config;
use crate::config::{ConfigView, RoleConfigView};
use crate::documents;
use crate::documents::{HeaderView, RoleKeysView, TargetsView};
use crate::error::Fault;
use crate::keys::KeyView;
use crate::laws::applying;
use crate::laws::publishing;
use crate::laws::reporting;
use crate::laws::signing;
use crate::laws::terms;
use crate::metadata;
use crate::metadata::ContentView;
use crate::order;
use crate::repo;
use crate::repo::Files;
use crate::strmap;
use crate::text;
use crate::time;
use crate::update;
use crate::update::Edit;

verus! {

/// The keys that are missing for a role are those that it lacks a signature of.
pub proof fn missing_keys_are_wanted(files: Files, base: Files, role: Seq<char>, id: Seq<char>)
    requires
        terms::proper(files),
        terms::proper(base),
        repo::missing_keys_of(files, base, role) is Ok,
    ensures
        (exists|key: KeyView| #[trigger]
            repo::missing_keys_of(files, base, role)->Ok_0.contains(key) && key.id == id)
            <==> reporting::wanted(base, files, role, id),
{
    let missing = repo::missing_keys_of(files, base, role)->Ok_0;
    if exists|key: KeyView| #[trigger] missing.contains(key) && key.id == id {
        let key = choose|key: KeyView| #[trigger] missing.contains(key) && key.id == id;
        missing_key_is_wanted(files, base, role, key);
    }
    if reporting::wanted(base, files, role, id) {
        wanted_key_is_missing(files, base, role, id);
    }
}

/// A missing key is one that the role lacks a signature of.
proof fn missing_key_is_wanted(files: Files, base: Files, role: Seq<char>, key: KeyView)
    requires
        terms::proper(files),
        terms::proper(base),
        repo::missing_keys_of(files, base, role) is Ok,
        repo::missing_keys_of(files, base, role)->Ok_0.contains(key),
    ensures
        reporting::wanted(base, files, role, key.id),
{
    let file = terms::bytes_of(files, role);
    let needs = repo::requirements_of(files, base, role)->Ok_0;
    signing::missing_keys_are_those_still_needed(files, base, role, key);
    signing::a_new_root_is_signed_by_the_old_one_too(files, base, role);
    let i = choose|i: int|
        0 <= i < needs.len() && signing::signed_count(file, (#[trigger] needs[i]).1) < needs[i].0
            && needs[i].1.contains(key) && !terms::bears(file, key);
    let from = if i == 0 {
        files
    } else {
        base
    };
    signing::somebody_must_sign(from, role);
    let (k, keys) = choose|k: RoleKeysView, keys: Map<Seq<char>, KeyView>| #[trigger]
        terms::must_sign(from, role, k, keys) && repo::role_keys_of(from, role) == Ok::<
            (int, Seq<KeyView>),
            Fault,
        >(repo::picked(k, keys));
    reporting::demand_finite(from, role, k, keys);
    terms::picked_holds(k, keys, key);
    assert(reporting::demanded(base, files, role, k, keys));
    assert(terms::authorized(k, keys, key));
    assert(reporting::unsigned_by(file, k, keys, key.id));
    assert(reporting::short_of(files, role, k, keys));
}

/// A key that the role lacks a signature of is missing.
proof fn wanted_key_is_missing(files: Files, base: Files, role: Seq<char>, id: Seq<char>)
    requires
        terms::proper(files),
        terms::proper(base),
        repo::missing_keys_of(files, base, role) is Ok,
        reporting::wanted(base, files, role, id),
    ensures
        exists|key: KeyView| #[trigger]
            repo::missing_keys_of(files, base, role)->Ok_0.contains(key) && key.id == id,
{
    let file = terms::bytes_of(files, role);
    let needs = repo::requirements_of(files, base, role)->Ok_0;
    let (k, keys) = choose|k: RoleKeysView, keys: Map<Seq<char>, KeyView>| #[trigger]
        reporting::demanded(base, files, role, k, keys) && reporting::short_of(files, role, k, keys)
            && reporting::unsigned_by(file, k, keys, id);
    let key = choose|key: KeyView| #[trigger]
        terms::authorized(k, keys, key) && key.id == id && !terms::bears(file, key);
    signing::missing_keys_are_those_still_needed(files, base, role, key);
    signing::a_new_root_is_signed_by_the_old_one_too(files, base, role);
    let (from, i) = if terms::must_sign(files, role, k, keys) {
        (files, 0int)
    } else {
        (base, 1int)
    };
    reporting::demand_finite(from, role, k, keys);
    signing::keys_come_from_root_or_delegation(from, role, k, keys, key);
    assert(needs[i].1.contains(key));
    assert(repo::missing_keys_of(files, base, role)->Ok_0.contains(key));
}

/// What a file says, read as metadata of the kind that the content is of.
pub open spec fn read_like(content: ContentView, file: Seq<u8>) -> Option<(HeaderView, ContentView)> {
    match content {
        ContentView::Root(_) => match documents::root_in(file) {
            Some((h, r)) => Some((h, ContentView::Root(r))),
            None => None,
        },
        ContentView::Targets(_) => match documents::targets_in(file) {
            Some((h, t)) => Some((h, ContentView::Targets(t))),
            None => None,
        },
        ContentView::Snapshot(_) => match documents::snapshot_in(file) {
            Some((h, m)) => Some((h, ContentView::Snapshot(m))),
            None => None,
        },
        ContentView::Timestamp(_) => match documents::timestamp_in(file) {
            Some((h, v)) => Some((h, ContentView::Timestamp(v))),
            None => None,
        },
    }
}

/// Whether `role` has the version in `files` that it has in `base`.
pub open spec fn same_version(files: Files, base: Files, role: Seq<char>, version: int) -> bool {
    repo::header_of(base, role) matches Ok(Some(h)) && h.version == version
}

/// Whether `role` needs a new version: there is none, or it says something else or more than it should,
/// or it is due, or a new version is asked for, or it is the version in `base` and lacks a signature
/// of one of the keys that must sign it.
pub open spec fn outdated(
    files: Files,
    base: Files,
    role: Seq<char>,
    conf: RoleConfigView,
    now: int,
    renew: bool,
    content: ContentView,
) -> bool {
    let now_in = read_like(content, terms::bytes_of(files, role))->0;
    ||| !terms::has(files, role)
    ||| now_in.1 != content
    ||| !now_in.0.plain
    ||| renew
    ||| config::due(conf.signing_days, now_in.0.expires, time::whole(now))
    ||| same_version(files, base, role, now_in.0.version) && exists|id: Seq<char>| #[trigger]
        reporting::wanted(base, files, role, id)
}

/// Whether all files but that of `role` and the history of root are the same.
pub open spec fn only_touches(before: Files, after: Files, role: Seq<char>) -> bool {
    forall|x: Seq<char>|
        x != role && !x.contains('/') ==> (#[trigger] terms::has(after, x) <==> terms::has(before, x))
            && (terms::has(before, x) ==> terms::bytes_of(after, x) == terms::bytes_of(before, x))
}

/// A role gets a new version exactly where it needs one, and no other role is touched.
pub proof fn new_versions_where_needed(
    files: Files,
    base: Files,
    role: Seq<char>,
    conf: RoleConfigView,
    now: int,
    renew: bool,
    content: ContentView,
)
    requires
        terms::proper(files),
        terms::proper(base),
        update::update_of(files, base, role, conf, now, renew, content) is Ok,
    ensures
        ({
            let (after, changed) = update::update_of(
                files,
                base,
                role,
                conf,
                now,
                renew,
                content,
            )->Ok_0;
            &&& changed <==> outdated(files, base, role, conf, now, renew, content)
            &&& !changed ==> after == files
            &&& changed ==> terms::has(after, role)
            &&& only_touches(files, after, role)
        }),
{
    let (after, changed) = update::update_of(files, base, role, conf, now, renew, content)->Ok_0;
    if terms::has(files, role) {
        let current = read_like(content, terms::bytes_of(files, role))->0;
        if same_version(files, base, role, current.0.version) && repo::missing_keys_of(
            files,
            base,
            role,
        ) is Ok {
            let missing = repo::missing_keys_of(files, base, role)->Ok_0;
            if missing.len() > 0 {
                assert(missing.contains(missing[0]));
                missing_keys_are_wanted(files, base, role, missing[0].id);
            }
            if exists|id: Seq<char>| #[trigger] reporting::wanted(base, files, role, id) {
                let id = choose|id: Seq<char>| #[trigger] reporting::wanted(base, files, role, id);
                missing_keys_are_wanted(files, base, role, id);
                let key = choose|key: KeyView| #[trigger] missing.contains(key) && key.id == id;
                assert(missing.contains(key));
            }
        }
    }
    if changed {
        put_touches(files, base, role, conf, now, content);
    }
}

/// Storing a new version touches no other role.
proof fn put_touches(
    files: Files,
    base: Files,
    role: Seq<char>,
    conf: RoleConfigView,
    now: int,
    content: ContentView,
)
    requires
        update::renewed(files, base, role, conf.expires_days, now, content) is Ok,
    ensures
        ({
            let after = update::renewed(files, base, role, conf.expires_days, now, content)->Ok_0;
            &&& terms::has(after, role)
            &&& only_touches(files, after, role)
            &&& files.dom().finite() ==> after.dom().finite()
        }),
{
    let after = update::renewed(files, base, role, conf.expires_days, now, content)->Ok_0;
    assert forall|x: Seq<char>| x != role && !x.contains('/') implies (#[trigger] terms::has(after, x)
        <==> terms::has(files, x)) && (terms::has(files, x) ==> terms::bytes_of(after, x)
        == terms::bytes_of(files, x)) by {
        repo::file_name_injective(x, role);
        assert forall|version: int| #[trigger] repo::history_name(version) != x + ".json"@ by {
            history_has_slash(version, x);
        }
    }
}

/// The history of root lies in its own directory.
pub proof fn history_has_slash(version: int, x: Seq<char>)
    requires
        !x.contains('/'),
    ensures
        repo::history_name(version) != x + ".json"@,
{
    reveal_strlit("root_history/");
    reveal_strlit(".json");
    reveal_strlit(".root.json");
    let name = repo::history_name(version);
    assert(name[12] == '/');
    if name == x + ".json"@ {
        assert(name.len() == x.len() + 5);
        assert(name.len() >= 23);
        assert(x[12] == '/');
    }
}

/// A new version counts on from the version in `base`, has no signatures yet, and expires the given
/// number of days from now.
pub proof fn new_versions_count_on(files: Files, base: Files, role: Seq<char>, days: int, now: int)
    requires
        update::fresh_version(files, base, role, days, now),
        !role.contains('/'),
        repo::header_of(base, role) is Ok,
    ensures
        terms::has(files, role),
        documents::signatures_in(terms::bytes_of(files, role)) matches Some(sigs) && sigs.len() == 0,
        forall|key: KeyView| !#[trigger] terms::bears(terms::bytes_of(files, role), key),
        repo::header_of(files, role) matches Ok(Some(h)) && h.version == (match repo::header_of(
            base,
            role,
        )->Ok_0 {
            Some(b) => b.version + 1,
            None => 1,
        }) && h.expires == time::instant(time::second_of(now) + days * 86_400, 0),
{
}

/// Whether the header is that of the metadata of `role`: that of root, snapshot or timestamp, or of
/// what lists targets.
pub open spec fn headed(files: Files, role: Seq<char>, h: Option<HeaderView>) -> bool {
    let file = terms::bytes_of(files, role);
    match h {
        None => !terms::has(files, role),
        Some(h) => terms::has(files, role) && if role == "root"@ {
            documents::root_in(file) matches Some((x, _)) && x == h
        } else if role == "snapshot"@ {
            documents::snapshot_in(file) matches Some((x, _)) && x == h
        } else if role == "timestamp"@ {
            documents::timestamp_in(file) matches Some((x, _)) && x == h
        } else {
            documents::targets_in(file) matches Some((x, _)) && x == h
        },
    }
}

/// Version and expiry of a role are those that its metadata says.
pub proof fn headers_are_read_from_metadata(files: Files, role: Seq<char>, h: Option<HeaderView>)
    ensures
        repo::header_of(files, role) == Ok::<Option<HeaderView>, Fault>(h) <==> headed(files, role, h),
{
    config::different_top_level();
}

/// One update notes the role where it gets a new version, and touches no other.
proof fn updated_notes(
    e: Edit,
    base: Files,
    role: Seq<char>,
    conf: RoleConfigView,
    now: int,
    renew: bool,
    content: Result<ContentView, Fault>,
)
    requires
        update::updated(e, base, role, conf, now, renew, content).changed is Ok,
    ensures
        ({
            let after = update::updated(e, base, role, conf, now, renew, content);
            &&& e.changed is Ok
            &&& after.changed->Ok_0 == e.changed->Ok_0 && after.files == e.files && !renew
                || after.changed->Ok_0 == e.changed->Ok_0.push(role) && terms::has(after.files, role)
            &&& only_touches(e.files, after.files, role)
            &&& e.files.dom().finite() ==> after.files.dom().finite()
        }),
{
    let after = update::updated(e, base, role, conf, now, renew, content);
    if after.changed->Ok_0.len() > e.changed->Ok_0.len() {
        put_touches(e.files, base, role, conf, now, content->Ok_0);
    }
}

/// Whether what is not among the changed roles is as it was.
pub open spec fn rest_stays(before: Files, after: Files, changed: Seq<Seq<char>>) -> bool {
    forall|x: Seq<char>|
        !changed.contains(x) && !x.contains('/') ==> (#[trigger] terms::has(after, x) <==> terms::has(
            before,
            x,
        )) && (terms::has(before, x) ==> terms::bytes_of(after, x) == terms::bytes_of(before, x))
}

/// One more update leaves alone what is not among the changed roles.
proof fn updated_leaves(
    start: Files,
    e: Edit,
    base: Files,
    role: Seq<char>,
    conf: RoleConfigView,
    now: int,
    renew: bool,
    content: Result<ContentView, Fault>,
)
    requires
        update::updated(e, base, role, conf, now, renew, content).changed is Ok,
        e.changed is Ok ==> rest_stays(start, e.files, e.changed->Ok_0),
    ensures
        ({
            let after = update::updated(e, base, role, conf, now, renew, content);
            &&& rest_stays(start, after.files, after.changed->Ok_0)
            &&& forall|x: Seq<char>| #[trigger]
                after.changed->Ok_0.contains(x) ==> e.changed->Ok_0.contains(x) || x == role
            &&& forall|x: Seq<char>|
                e.changed->Ok_0.contains(x) ==> #[trigger] after.changed->Ok_0.contains(x)
            &&& renew ==> after.changed->Ok_0.contains(role)
        }),
{
    let after = update::updated(e, base, role, conf, now, renew, content);
    updated_notes(e, base, role, conf, now, renew, content);
    let a = e.changed->Ok_0;
    let b = after.changed->Ok_0;
    assert forall|x: Seq<char>| b == a.push(role) implies (#[trigger] b.contains(x) <==> a.contains(x)
        || x == role) by {
        order::push_holds(a, role, x);
    }
    assert forall|x: Seq<char>| !b.contains(x) && !x.contains('/') implies (#[trigger] terms::has(
        after.files,
        x,
    ) <==> terms::has(start, x)) && (terms::has(start, x) ==> terms::bytes_of(after.files, x)
        == terms::bytes_of(start, x)) by {
        assert(!a.contains(x));
        assert(terms::has(e.files, x) <==> terms::has(start, x));
        if b == a.push(role) {
            assert(b.contains(x) <==> a.contains(x) || x == role);
        }
    }
}

/// Whether the previous config made the role valid for another number of days.
pub open spec fn other_validity(c: ConfigView, previous: Option<ConfigView>, role: Seq<char>) -> bool {
    previous matches Some(p) && p.roles.dom().contains(role) && p.roles[role].expires_days
        != c.roles[role].expires_days
}

/// The delegated roles.
proof fn delegations_leave(
    start: Files,
    e: Edit,
    c: ConfigView,
    previous: Option<ConfigView>,
    base: Files,
    now: int,
    names: Seq<Seq<char>>,
)
    requires
        update::delegations_applied(e, c, previous, base, now, names).changed is Ok,
        e.changed is Ok ==> rest_stays(start, e.files, e.changed->Ok_0),
    ensures
        ({
            let after = update::delegations_applied(e, c, previous, base, now, names);
            &&& e.changed is Ok
            &&& rest_stays(start, after.files, after.changed->Ok_0)
            &&& forall|x: Seq<char>| #[trigger]
                after.changed->Ok_0.contains(x) ==> e.changed->Ok_0.contains(x) || names.contains(x)
            &&& forall|x: Seq<char>|
                e.changed->Ok_0.contains(x) ==> #[trigger] after.changed->Ok_0.contains(x)
            &&& forall|i: int|
                0 <= i < names.len() && other_validity(c, previous, #[trigger] names[i])
                    ==> after.changed->Ok_0.contains(names[i])
            &&& forall|x: Seq<char>|
                !names.contains(x) && !x.contains('/') ==> (#[trigger] terms::has(after.files, x)
                    <==> terms::has(e.files, x))
        }),
    decreases names.len(),
{
    if names.len() > 0 {
        let rest = names.drop_last();
        let n = names.len() - 1;
        let role = names[n];
        assert(names.last() == role);
        let earlier = update::delegations_applied(e, c, previous, base, now, rest);
        let renew = update::validity_changed(c, previous, role);
        let content = update::with_delegations(earlier.files, role, metadata::no_delegations());
        let after = update::delegations_applied(e, c, previous, base, now, names);
        updated_notes(earlier, base, role, c.roles[role], now, renew, content);
        delegations_leave(start, e, c, previous, base, now, rest);
        updated_leaves(start, earlier, base, role, c.roles[role], now, renew, content);
        assert forall|x: Seq<char>| #[trigger] names.contains(x) <==> rest.contains(x) || x == role by {
            order::push_holds(rest, role, x);
            assert(rest.push(role) =~= names);
        }
        assert forall|i: int|
            0 <= i < names.len() && other_validity(c, previous, #[trigger] names[i]) implies
            after.changed->Ok_0.contains(names[i]) by {
            if i < n {
                assert(rest[i] == names[i]);
                assert(earlier.changed->Ok_0.contains(names[i]));
            }
        }
        assert forall|x: Seq<char>| #[trigger]
            after.changed->Ok_0.contains(x) implies e.changed->Ok_0.contains(x) || names.contains(
            x,
        ) by {
            if earlier.changed->Ok_0.contains(x) {
                assert(names.contains(x) <==> rest.contains(x) || x == role);
            } else {
                assert(names.contains(role));
            }
        }
        assert forall|x: Seq<char>| !names.contains(x) && !x.contains('/') implies (
        #[trigger] terms::has(after.files, x) <==> terms::has(e.files, x)) by {
            assert(!rest.contains(x) && x != role);
            assert(terms::has(earlier.files, x) <==> terms::has(e.files, x));
        }
    }
}

/// Bringing the metadata in line with a config changes just the roles that it says it changed: root,
/// `targets`, the delegated roles of the config, and roles that the config no longer has, which are
/// removed. All else stays as it was. A role that was valid for another number of days gets a new
/// version.
pub proof fn applying_leaves_the_rest_alone(
    files: Files,
    c: ConfigView,
    previous: Option<ConfigView>,
    base: Files,
    now: int,
    role: Seq<char>,
)
    requires
        config::valid(c),
        files.dom().finite(),
        update::apply_of(files, c, previous, base, now).changed is Ok,
        !role.contains('/'),
    ensures
        ({
            let e = update::apply_of(files, c, previous, base, now);
            let changed = e.changed->Ok_0;
            let own = c.roles.dom().contains(role) && role != "snapshot"@ && role != "timestamp"@;
            &&& !changed.contains(role) ==> (terms::has(e.files, role) <==> terms::has(files, role))
                && (terms::has(files, role) ==> terms::bytes_of(e.files, role) == terms::bytes_of(
                files,
                role,
            ))
            &&& changed.contains(role) ==> own || terms::lists(files, role) && !terms::has(
                e.files,
                role,
            )
            &&& terms::lists(files, role) && !c.roles.dom().contains(role) ==> changed.contains(role)
                && !terms::has(e.files, role)
            &&& own && other_validity(c, previous, role) ==> changed.contains(role)
        }),
{
    let e2 = update::targets_applied(files, c, previous, base, now);
    let e3 = update::cleared(e2, c);
    let names = config::delegated(c);
    delegations_ok(e3, c, previous, base, now, names);
    top_level_steps(files, c, previous, base, now);
    clearing_step(files, e2, c);
    delegations_leave(files, e3, c, previous, base, now, names);
    steps_together(
        files,
        e2,
        e3,
        update::apply_of(files, c, previous, base, now),
        c,
        previous,
        role,
    );
}

/// What the steps do together.
proof fn steps_together(
    files: Files,
    e2: Edit,
    e3: Edit,
    e4: Edit,
    c: ConfigView,
    previous: Option<ConfigView>,
    role: Seq<char>,
)
    requires
        config::valid(c),
        !role.contains('/'),
        rest_stays(files, e2.files, e2.changed->Ok_0),
        forall|x: Seq<char>| #[trigger]
            e2.changed->Ok_0.contains(x) ==> x == "root"@ || x == "targets"@,
        other_validity(c, previous, "root"@) ==> e2.changed->Ok_0.contains("root"@),
        other_validity(c, previous, "targets"@) ==> e2.changed->Ok_0.contains("targets"@),
        forall|x: Seq<char>| #[trigger]
            e3.changed->Ok_0.contains(x) <==> e2.changed->Ok_0.contains(x) || swept(e2.files, c, x),
        forall|x: Seq<char>| swept(e2.files, c, x) ==> !#[trigger] terms::has(e3.files, x),
        rest_stays(files, e4.files, e4.changed->Ok_0),
        forall|x: Seq<char>| #[trigger]
            e4.changed->Ok_0.contains(x) ==> e3.changed->Ok_0.contains(x) || config::delegated(
                c,
            ).contains(x),
        forall|x: Seq<char>|
            e3.changed->Ok_0.contains(x) ==> #[trigger] e4.changed->Ok_0.contains(x),
        forall|i: int|
            0 <= i < config::delegated(c).len() && other_validity(
                c,
                previous,
                #[trigger] config::delegated(c)[i],
            ) ==> e4.changed->Ok_0.contains(config::delegated(c)[i]),
        forall|x: Seq<char>|
            !config::delegated(c).contains(x) && !x.contains('/') ==> (#[trigger] terms::has(
                e4.files,
                x,
            ) <==> terms::has(e3.files, x)),
    ensures
        ({
            let changed = e4.changed->Ok_0;
            let own = c.roles.dom().contains(role) && role != "snapshot"@ && role != "timestamp"@;
            &&& !changed.contains(role) ==> (terms::has(e4.files, role) <==> terms::has(files, role))
                && (terms::has(files, role) ==> terms::bytes_of(e4.files, role) == terms::bytes_of(
                files,
                role,
            ))
            &&& changed.contains(role) ==> own || terms::lists(files, role) && !terms::has(
                e4.files,
                role,
            )
            &&& terms::lists(files, role) && !c.roles.dom().contains(role) ==> changed.contains(role)
                && !terms::has(e4.files, role)
            &&& own && other_validity(c, previous, role) ==> changed.contains(role)
        }),
{
    config::different_top_level();
    config::valid_top_level(c, "root"@);
    config::valid_top_level(c, "targets"@);
    applying::delegated_names(c, role);
    let names = config::delegated(c);
    let early = e2.changed->Ok_0;
    let later = e3.changed->Ok_0;
    let changed = e4.changed->Ok_0;
    assert(later.contains(role) <==> early.contains(role) || swept(e2.files, c, role));
    assert(later.contains(role) ==> changed.contains(role));
    assert(terms::has(e4.files, role) || !terms::has(e4.files, role));
    if !early.contains(role) {
        assert(terms::has(e2.files, role) <==> terms::has(files, role));
    }
    if swept(e2.files, c, role) {
        assert(!terms::has(e3.files, role));
        assert(!names.contains(role));
        assert(terms::has(e4.files, role) <==> terms::has(e3.files, role));
    }
    if names.contains(role) && other_validity(c, previous, role) {
        let i = choose|i: int| 0 <= i < names.len() && names[i] == role;
        assert(other_validity(c, previous, names[i]));
    }
    let own = c.roles.dom().contains(role) && role != "snapshot"@ && role != "timestamp"@;
    if changed.contains(role) {
        assert(own || terms::lists(files, role));
        assert(own || !terms::has(e4.files, role));
    } else {
        assert(terms::has(e4.files, role) <==> terms::has(files, role));
    }
    if own && other_validity(c, previous, role) {
        assert(changed.contains(role));
    }
}

/// Whether the role lists targets and is gone from the config.
spec fn swept(files: Files, c: ConfigView, role: Seq<char>) -> bool {
    terms::lists(files, role) && role != "targets"@ && !c.roles.dom().contains(role)
}

/// Root and `targets`.
proof fn top_level_steps(
    files: Files,
    c: ConfigView,
    previous: Option<ConfigView>,
    base: Files,
    now: int,
)
    requires
        files.dom().finite(),
        update::targets_applied(files, c, previous, base, now).changed is Ok,
    ensures
        ({
            let e = update::targets_applied(files, c, previous, base, now);
            &&& rest_stays(files, e.files, e.changed->Ok_0)
            &&& e.files.dom().finite()
            &&& forall|x: Seq<char>| #[trigger]
                e.changed->Ok_0.contains(x) ==> x == "root"@ || x == "targets"@
            &&& other_validity(c, previous, "root"@) ==> e.changed->Ok_0.contains("root"@)
            &&& other_validity(c, previous, "targets"@) ==> e.changed->Ok_0.contains("targets"@)
        }),
{
    let e0 = update::unedited(files);
    let e1 = update::root_applied(files, c, previous, base, now);
    let e2 = update::targets_applied(files, c, previous, base, now);
    let content = update::with_delegations(e1.files, "targets"@, update::delegations_content(c));
    let renew1 = update::validity_changed(c, previous, "root"@);
    let renew2 = update::validity_changed(c, previous, "targets"@);
    let root = Ok::<ContentView, Fault>(ContentView::Root(update::root_content(c)));
    updated_notes(e1, base, "targets"@, c.roles["targets"@], now, renew2, content);
    updated_notes(e0, base, "root"@, c.roles["root"@], now, renew1, root);
    updated_leaves(files, e0, base, "root"@, c.roles["root"@], now, renew1, root);
    updated_leaves(files, e1, base, "targets"@, c.roles["targets"@], now, renew2, content);
    assert forall|x: Seq<char>| #[trigger] e2.changed->Ok_0.contains(x) implies x == "root"@ || x
        == "targets"@ by {
        if x != "targets"@ {
            assert(e1.changed->Ok_0.contains(x));
            assert(!e0.changed->Ok_0.contains(x));
        }
    }
    if renew1 {
        assert(e1.changed->Ok_0.contains("root"@));
    }
}

/// Removing the roles that are gone.
proof fn clearing_step(files: Files, e: Edit, c: ConfigView)
    requires
        e.changed is Ok,
        e.files.dom().finite(),
        rest_stays(files, e.files, e.changed->Ok_0),
    ensures
        ({
            let after = update::cleared(e, c);
            &&& after.changed is Ok
            &&& rest_stays(files, after.files, after.changed->Ok_0)
            &&& forall|x: Seq<char>| #[trigger]
                after.changed->Ok_0.contains(x) <==> e.changed->Ok_0.contains(x) || swept(
                    e.files,
                    c,
                    x,
                )
            &&& forall|x: Seq<char>| swept(e.files, c, x) ==> !#[trigger] terms::has(after.files, x)
        }),
{
    let after = update::cleared(e, c);
    let gone = update::gone_roles(e.files, c);
    assert forall|x: Seq<char>| #[trigger] gone.contains(x) <==> swept(e.files, c, x) by {
        publishing::role_listed(e.files, x);
        repo::filter_holds(
            repo::targets_roles_of(e.files),
            |role: Seq<char>| update::gone(c, role),
            x,
        );
    }
    assert forall|x: Seq<char>| #[trigger]
        after.changed->Ok_0.contains(x) <==> e.changed->Ok_0.contains(x) || swept(e.files, c, x) by {
        signing::joined_holds(e.changed->Ok_0, gone, x);
        assert(gone.contains(x) <==> swept(e.files, c, x));
    }
    removed_hold(e.files, gone);
    assert forall|x: Seq<char>| !after.changed->Ok_0.contains(x) && !x.contains('/') implies (
    #[trigger] terms::has(after.files, x) <==> terms::has(files, x)) && (terms::has(files, x)
        ==> terms::bytes_of(after.files, x) == terms::bytes_of(files, x)) by {
        assert(!gone.contains(x) && !e.changed->Ok_0.contains(x));
        assert(terms::has(e.files, x) <==> terms::has(files, x));
    }
    assert forall|x: Seq<char>| swept(e.files, c, x) implies !#[trigger] terms::has(
        after.files,
        x,
    ) by {
        assert(gone.contains(x));
    }
}

/// Where the delegated roles were updated, nothing had stopped the edit before.
proof fn delegations_ok(
    e: Edit,
    c: ConfigView,
    previous: Option<ConfigView>,
    base: Files,
    now: int,
    names: Seq<Seq<char>>,
)
    requires
        update::delegations_applied(e, c, previous, base, now, names).changed is Ok,
    ensures
        e.changed is Ok,
    decreases names.len(),
{
    if names.len() > 0 {
        delegations_ok(e, c, previous, base, now, names.drop_last());
    }
}

/// The roles that are removed have no metadata any more, and the others keep theirs.
proof fn removed_hold(files: Files, roles: Seq<Seq<char>>)
    ensures
        forall|x: Seq<char>|
            #![trigger terms::has(update::without(files, roles), x)]
            (terms::has(update::without(files, roles), x) <==> terms::has(files, x) && !roles.contains(x))
                && (!roles.contains(x) && terms::has(files, x) ==> terms::bytes_of(
                update::without(files, roles),
                x,
            ) == terms::bytes_of(files, x)),
    decreases roles.len(),
{
    if roles.len() > 0 {
        let rest = roles.drop_last();
        let last = roles.last();
        removed_hold(files, rest);
        assert forall|x: Seq<char>|
            #![trigger terms::has(update::without(files, roles), x)]
            (terms::has(update::without(files, roles), x) <==> terms::has(files, x)
                && !roles.contains(x)) && (!roles.contains(x) && terms::has(files, x)
                ==> terms::bytes_of(update::without(files, roles), x) == terms::bytes_of(
                files,
                x,
            )) by {
            order::push_holds(rest, last, x);
            assert(rest.push(last) =~= roles);
            repo::file_name_injective(x, last);
            assert(terms::has(update::without(files, rest), x) <==> terms::has(files, x)
                && !rest.contains(x));
        }
    }
}

/// An update of what is due makes a new version.
proof fn due_is_updated(
    e: Edit,
    base: Files,
    role: Seq<char>,
    conf: RoleConfigView,
    now: int,
    renew: bool,
    content: Result<ContentView, Fault>,
    expires: int,
)
    requires
        update::updated(e, base, role, conf, now, renew, content).changed is Ok,
        read_like(content->Ok_0, terms::bytes_of(e.files, role)) matches Some((h, _)) ==> h.expires
            == expires,
        config::due(conf.signing_days, expires, time::whole(now)),
    ensures
        update::updated(e, base, role, conf, now, renew, content).changed->Ok_0.contains(role),
{
    order::push_holds(e.changed->Ok_0, role, role);
}

/// Whether only online keys sign the role: the config has each of its keys online.
pub open spec fn signed_online(c: ConfigView, role: Seq<char>) -> bool {
    forall|name: Seq<char>| #[trigger]
        c.roles[role].keys.contains(name) ==> c.keys[name].online is Some
}

/// A role is signed online where each of its keys is online.
proof fn online_holds(c: ConfigView, role: Seq<char>)
    ensures
        update::online_only(c, role) <==> signed_online(c, role),
{
    let keys = c.roles[role].keys;
    if update::online_only(c, role) {
        assert forall|name: Seq<char>| #[trigger] keys.contains(name) implies c.keys[name].online is Some by {
            let i = choose|i: int| 0 <= i < keys.len() && keys[i] == name;
            assert(c.keys[keys[i]].online is Some);
        }
    }
    if signed_online(c, role) {
        assert forall|i: int| 0 <= i < keys.len() implies c.keys[#[trigger] c.roles[role].keys[i]].online is Some by {
            assert(keys.contains(keys[i]));
        }
    }
}

/// Whether what `role` lists is due, or was valid for another number of days.
pub open spec fn targets_due(
    files: Files,
    c: ConfigView,
    previous: Option<ConfigView>,
    now: int,
    role: Seq<char>,
) -> bool {
    other_validity(c, previous, role) || config::due(
        c.roles[role].signing_days,
        (documents::targets_in(terms::bytes_of(files, role))->0).0.expires,
        time::whole(now),
    )
}

/// The roles among `names` that only online keys sign.
proof fn online_leaves(
    files: Files,
    c: ConfigView,
    previous: Option<ConfigView>,
    now: int,
    names: Seq<Seq<char>>,
)
    requires
        update::online_applied(
            update::unedited(files),
            c,
            previous,
            files,
            now,
            names,
        ).changed is Ok,
        forall|i: int| 0 <= i < names.len() ==> !(#[trigger] names[i]).contains('/'),
    ensures
        ({
            let e = update::online_applied(
                update::unedited(files),
                c,
                previous,
                files,
                now,
                names,
            );
            &&& rest_stays(files, e.files, e.changed->Ok_0)
            &&& forall|x: Seq<char>| #[trigger]
                e.changed->Ok_0.contains(x) ==> names.contains(x) && signed_online(c, x)
            &&& forall|i: int|
                0 <= i < names.len() ==> c.roles.dom().contains(#[trigger] names[i]) && (signed_online(
                    c,
                    names[i],
                ) && targets_due(files, c, previous, now, names[i]) ==> e.changed->Ok_0.contains(
                    names[i],
                ))
        }),
    decreases names.len(),
{
    let start = update::unedited(files);
    let e = update::online_applied(start, c, previous, files, now, names);
    if names.len() > 0 {
        let rest = names.drop_last();
        let n = names.len() - 1;
        let role = names[n];
        assert(names.last() == role);
        assert forall|i: int| 0 <= i < rest.len() implies !(#[trigger] rest[i]).contains('/') by {
            assert(rest[i] == names[i]);
        }
        let earlier = update::online_applied(start, c, previous, files, now, rest);
        assert(earlier.changed is Ok);
        online_leaves(files, c, previous, now, rest);
        online_holds(c, role);
        let a = earlier.changed->Ok_0;
        let renew = update::validity_changed(c, previous, role);
        let content = update::as_it_is(earlier.files, role);
        if signed_online(c, role) {
            updated_leaves(files, earlier, files, role, c.roles[role], now, renew, content);
            if targets_due(files, c, previous, now, role) && !renew && !a.contains(role) {
                assert(terms::has(earlier.files, role) <==> terms::has(files, role));
                due_is_updated(
                    earlier,
                    files,
                    role,
                    c.roles[role],
                    now,
                    renew,
                    content,
                    (documents::targets_in(terms::bytes_of(files, role))->0).0.expires,
                );
            }
        }
        assert forall|x: Seq<char>| #[trigger] e.changed->Ok_0.contains(x) implies names.contains(x)
            && signed_online(c, x) by {
            if x == role {
                assert(names.contains(names[n]));
                if !signed_online(c, role) {
                    assert(a.contains(x));
                }
            } else {
                assert(a.contains(x));
                let i = choose|i: int| 0 <= i < rest.len() && rest[i] == x;
                assert(names[i] == x);
            }
        }
        assert forall|i: int| 0 <= i < names.len() implies c.roles.dom().contains(#[trigger] names[i])
            && (signed_online(c, names[i]) && targets_due(files, c, previous, now, names[i])
            ==> e.changed->Ok_0.contains(names[i])) by {
            if i < n {
                assert(rest[i] == names[i]);
                assert(a.contains(names[i]) ==> e.changed->Ok_0.contains(names[i]));
            } else {
                assert(a.contains(role) ==> e.changed->Ok_0.contains(role));
            }
        }
    }
}

/// Whether the snapshot or the timestamp is due, or was valid for another number of days.
pub open spec fn service_due(
    files: Files,
    c: ConfigView,
    previous: Option<ConfigView>,
    now: int,
    role: Seq<char>,
) -> bool {
    other_validity(c, previous, role) || !terms::has(files, role) || (repo::header_of(files, role) matches Ok(
        Some(h),
    ) && config::due(c.roles[role].signing_days, h.expires, time::whole(now)))
}

/// Signing online touches only what online keys sign: snapshot, timestamp, and roles all of whose keys
/// are online. Those of them that are due get a new version. All else stays as it was.
pub proof fn online_signing_leaves_the_rest_alone(
    files: Files,
    c: ConfigView,
    previous: Option<ConfigView>,
    now: int,
    role: Seq<char>,
)
    requires
        config::valid(c),
        files.dom().finite(),
        update::online_of(files, c, previous, now).changed is Ok,
        !role.contains('/'),
    ensures
        ({
            let e = update::online_of(files, c, previous, now);
            let changed = e.changed->Ok_0;
            let service = role == "snapshot"@ || role == "timestamp"@;
            &&& !changed.contains(role) ==> (terms::has(e.files, role) <==> terms::has(files, role))
                && (terms::has(files, role) ==> terms::bytes_of(e.files, role) == terms::bytes_of(
                files,
                role,
            ))
            &&& changed.contains(role) ==> service || terms::lists(files, role) && signed_online(
                c,
                role,
            )
            &&& terms::lists(files, role) ==> c.roles.dom().contains(role)
            &&& terms::lists(files, role) && signed_online(c, role) && targets_due(
                files,
                c,
                previous,
                now,
                role,
            ) ==> changed.contains(role)
            &&& service && service_due(files, c, previous, now, role) ==> changed.contains(role)
        }),
{
    config::different_top_level();
    let names = repo::targets_roles_of(files);
    let e1 = update::online_applied(update::unedited(files), c, previous, files, now, names);
    let snapshot = update::snapshot_content(e1.files);
    let e2 = update::service_updated(e1, c, previous, files, now, "snapshot"@, snapshot);
    let timestamp = update::timestamp_content(e2.files);
    let e3 = update::service_updated(e2, c, previous, files, now, "timestamp"@, timestamp);
    assert(e2.changed is Ok && e1.changed is Ok);
    assert forall|i: int| 0 <= i < names.len() implies !(#[trigger] names[i]).contains('/') by {
        publishing::role_listed(files, names[i]);
        assert(names.contains(names[i]));
    }
    online_leaves(files, c, previous, now, names);
    publishing::role_listed(files, role);
    if names.contains(role) {
        let i = choose|i: int| 0 <= i < names.len() && names[i] == role;
        assert(c.roles.dom().contains(names[i]));
    }
    service_steps(files, c, previous, now, e1, role);
    let changed = e3.changed->Ok_0;
    assert(update::online_of(files, c, previous, now) == e3);
    if changed.contains(role) {
        assert(e1.changed->Ok_0.contains(role) || role == "snapshot"@ || role == "timestamp"@);
    } else {
        assert(terms::has(e3.files, role) <==> terms::has(files, role));
    }
}

/// Snapshot and timestamp.
proof fn service_steps(
    files: Files,
    c: ConfigView,
    previous: Option<ConfigView>,
    now: int,
    e1: Edit,
    role: Seq<char>,
)
    requires
        e1.changed is Ok,
        rest_stays(files, e1.files, e1.changed->Ok_0),
        forall|x: Seq<char>| #[trigger]
            e1.changed->Ok_0.contains(x) ==> repo::targets_roles_of(files).contains(x),
        files.dom().finite(),
        !role.contains('/'),
        ({
            let e2 = update::service_updated(
                e1,
                c,
                previous,
                files,
                now,
                "snapshot"@,
                update::snapshot_content(e1.files),
            );
            update::service_updated(
                e2,
                c,
                previous,
                files,
                now,
                "timestamp"@,
                update::timestamp_content(e2.files),
            ).changed is Ok
        }),
    ensures
        ({
            let e2 = update::service_updated(
                e1,
                c,
                previous,
                files,
                now,
                "snapshot"@,
                update::snapshot_content(e1.files),
            );
            let e3 = update::service_updated(
                e2,
                c,
                previous,
                files,
                now,
                "timestamp"@,
                update::timestamp_content(e2.files),
            );
            let changed = e3.changed->Ok_0;
            &&& rest_stays(files, e3.files, changed)
            &&& changed.contains(role) ==> e1.changed->Ok_0.contains(role) || role == "snapshot"@
                || role == "timestamp"@
            &&& e1.changed->Ok_0.contains(role) ==> changed.contains(role)
            &&& (role == "snapshot"@ || role == "timestamp"@) && service_due(
                files,
                c,
                previous,
                now,
                role,
            ) ==> changed.contains(role)
        }),
{
    config::different_top_level();
    let snapshot = update::snapshot_content(e1.files);
    let e2 = update::service_updated(e1, c, previous, files, now, "snapshot"@, snapshot);
    let timestamp = update::timestamp_content(e2.files);
    let e3 = update::service_updated(e2, c, previous, files, now, "timestamp"@, timestamp);
    let renew1 = update::validity_changed(c, previous, "snapshot"@);
    let renew2 = update::validity_changed(c, previous, "timestamp"@);
    let conf1 = c.roles["snapshot"@];
    let conf2 = c.roles["timestamp"@];
    updated_notes(e2, files, "timestamp"@, conf2, now, renew2, timestamp);
    updated_notes(e1, files, "snapshot"@, conf1, now, renew1, snapshot);
    updated_leaves(files, e1, files, "snapshot"@, conf1, now, renew1, snapshot);
    updated_leaves(files, e2, files, "timestamp"@, conf2, now, renew2, timestamp);
    publishing::role_listed(files, "snapshot"@);
    publishing::role_listed(files, "timestamp"@);
    assert(!e1.changed->Ok_0.contains("snapshot"@));
    assert(!e1.changed->Ok_0.contains("timestamp"@));
    assert(!e2.changed->Ok_0.contains("timestamp"@));
    reveal_strlit("snapshot");
    reveal_strlit("timestamp");
    assert(!"snapshot"@.contains('/') && !"timestamp"@.contains('/'));
    assert(terms::has(e1.files, "snapshot"@) <==> terms::has(files, "snapshot"@));
    assert(terms::has(e2.files, "timestamp"@) <==> terms::has(files, "timestamp"@));
    assert(e1.changed->Ok_0.contains(role) ==> e2.changed->Ok_0.contains(role));
    assert(e2.changed->Ok_0.contains(role) ==> e3.changed->Ok_0.contains(role));
    if role == "snapshot"@ && service_due(files, c, previous, now, role) && !renew1 {
        if terms::has(files, role) {
            let h = (repo::header_of(files, role)->Ok_0)->0;
            due_is_updated(e1, files, role, conf1, now, renew1, snapshot, h.expires);
        }
    }
    if role == "timestamp"@ && service_due(files, c, previous, now, role) && !renew2 {
        if terms::has(files, role) {
            let h = (repo::header_of(files, role)->Ok_0)->0;
            due_is_updated(e2, files, role, conf2, now, renew2, timestamp, h.expires);
        }
    }
}

/// Afterwards the snapshot has the version of every role that lists targets and of no other, and the
/// timestamp that of the snapshot.
pub proof fn snapshot_and_timestamp_are_up_to_date(files: Files, role: Seq<char>)
    requires
        files.dom().finite(),
        update::up_to_date(files),
    ensures
        terms::has(files, "snapshot"@) && terms::has(files, "timestamp"@),
        documents::snapshot_in(terms::bytes_of(files, "snapshot"@)) matches Some((h, versions)) && (
        versions.dom().contains(role) <==> terms::lists(files, role)) && (terms::lists(files, role) ==> (
        documents::targets_in(terms::bytes_of(files, role)) matches Some((g, _)) && versions[role].version
            == g.version)) && (documents::timestamp_in(
            terms::bytes_of(files, "timestamp"@),
        ) matches Some((_, v)) && v.version == h.version),
{
    config::different_top_level();
    publishing::role_listed(files, role);
    let versions = (documents::snapshot_in(terms::bytes_of(files, "snapshot"@))->0).1;
    assert(versions.dom().contains(role) <==> repo::targets_roles_of(files).contains(role));
}

/// Whether the path of a delegation is responsible for a target: it is the path of the target, or a
/// directory, with a slash at its end, that the target lies in.
pub open spec fn fits(pattern: Seq<char>, path: Seq<char>) -> bool {
    pattern == path || (pattern.len() > 0 && pattern.last() == '/' && pattern.len() <= path.len()
        && path.take(pattern.len() as int) == pattern)
}

/// Whether one of the paths of the `i`-th delegation is responsible for the target.
pub open spec fn assigned(t: TargetsView, i: int, path: Seq<char>) -> bool {
    exists|pattern: Seq<char>| #[trigger]
        t.delegations.roles[i].paths.contains(pattern) && fits(pattern, path)
}

/// A target belongs in the first delegated role that one of the paths assigns it to, and in `targets`
/// where there is none.
pub proof fn targets_belong_where_delegated(files: Files, path: Seq<char>, i: int)
    requires
        terms::has(files, "targets"@),
        documents::targets_in(terms::bytes_of(files, "targets"@)) is Some,
    ensures
        ({
            let t = (documents::targets_in(terms::bytes_of(files, "targets"@))->0).1;
            let roles = t.delegations.roles;
            &&& 0 <= i < roles.len() && assigned(t, i, path) && (forall|j: int|
                0 <= j < i ==> !#[trigger] assigned(t, j, path)) ==> update::role_for(files, path)
                == Ok::<Seq<char>, Fault>(roles[i].name)
            &&& (forall|j: int| 0 <= j < roles.len() ==> !#[trigger] assigned(t, j, path))
                ==> update::role_for(files, path) == Ok::<Seq<char>, Fault>("targets"@)
        }),
{
    config::different_top_level();
    let t = (documents::targets_in(terms::bytes_of(files, "targets"@))->0).1;
    let roles = t.delegations.roles;
    assert(roles.skip(0) =~= roles);
    if 0 <= i < roles.len() && assigned(t, i, path) && (forall|j: int|
        0 <= j < i ==> !#[trigger] assigned(t, j, path)) {
        first_assigned(t, path, 0, i);
    }
    if forall|j: int| 0 <= j < roles.len() ==> !#[trigger] assigned(t, j, path) {
        none_assigned(t, path, 0);
    }
}

/// A path is responsible for a target where it matches it.
pub proof fn responsible_holds(pattern: Seq<char>, path: Seq<char>)
    ensures
        config::responsible(pattern, path) <==> fits(pattern, path),
{
    reveal_strlit("/");
    if pattern.len() > 0 {
        assert(pattern.subrange(pattern.len() - 1, pattern.len() as int) =~= seq![pattern.last()]);
        assert("/"@ =~= seq!['/']);
        if "/"@.is_suffix_of(pattern) {
            assert("/"@[0] == pattern.last());
        }
    }
    if pattern.len() <= path.len() {
        assert(path.take(pattern.len() as int) =~= path.subrange(0, pattern.len() as int));
    }
}

/// What a delegation is responsible for.
proof fn assigned_holds(t: TargetsView, i: int, path: Seq<char>)
    ensures
        update::delegated_path(t.delegations.roles[i], path) <==> assigned(t, i, path),
{
    assert forall|pattern: Seq<char>| config::responsible(pattern, path) == #[trigger] fits(
        pattern,
        path,
    ) by {
        responsible_holds(pattern, path);
    }
    let d = t.delegations.roles[i];
    if update::delegated_path(d, path) {
        let pattern = choose|pattern: Seq<char>| #[trigger]
            d.paths.contains(pattern) && config::responsible(pattern, path);
        assert(d.paths.contains(pattern) && fits(pattern, path));
    }
    if assigned(t, i, path) {
        let pattern = choose|pattern: Seq<char>| #[trigger]
            t.delegations.roles[i].paths.contains(pattern) && fits(pattern, path);
        assert(d.paths.contains(pattern));
    }
}

/// The first delegation that is responsible.
proof fn first_assigned(t: TargetsView, path: Seq<char>, n: int, i: int)
    requires
        0 <= n <= i < t.delegations.roles.len(),
        assigned(t, i, path),
        forall|j: int| n <= j < i ==> !#[trigger] assigned(t, j, path),
    ensures
        update::first_responsible(t.delegations.roles.skip(n), path) == t.delegations.roles[i].name,
    decreases i - n,
{
    let roles = t.delegations.roles;
    assert(roles.skip(n)[0] == roles[n]);
    assert(roles.skip(n).skip(1) =~= roles.skip(n + 1));
    assigned_holds(t, n, path);
    if n < i {
        first_assigned(t, path, n + 1, i);
    }
}

/// No delegation that is responsible.
proof fn none_assigned(t: TargetsView, path: Seq<char>, n: int)
    requires
        0 <= n <= t.delegations.roles.len(),
        forall|j: int| 0 <= j < t.delegations.roles.len() ==> !#[trigger] assigned(t, j, path),
    ensures
        update::first_responsible(t.delegations.roles.skip(n), path) == "targets"@,
    decreases t.delegations.roles.len() - n,
{
    let roles = t.delegations.roles;
    if n < roles.len() {
        assert(roles.skip(n)[0] == roles[n]);
        assert(roles.skip(n).skip(1) =~= roles.skip(n + 1));
        assigned_holds(t, n, path);
        assert(!assigned(t, n, path));
        none_assigned(t, path, n + 1);
    }
}

/// Whether no role is named twice.
pub open spec fn each_once(roles: Seq<Seq<char>>) -> bool {
    forall|i: int, j: int| 0 <= i < j < roles.len() ==> #[trigger] roles[i] != #[trigger] roles[j]
}

/// One more role that is not named yet.
proof fn once_more(roles: Seq<Seq<char>>, role: Seq<char>)
    requires
        each_once(roles),
        !roles.contains(role),
    ensures
        each_once(roles.push(role)),
{
    let all = roles.push(role);
    assert forall|i: int, j: int| 0 <= i < j < all.len() implies #[trigger] all[i] != #[trigger] all[j] by {
        if j == roles.len() {
            assert(roles.contains(roles[i]));
        } else {
            assert(roles[i] != roles[j]);
        }
    }
}

/// The roles that files belong to are different ones.
proof fn roles_in_once(names: Seq<Seq<char>>)
    requires
        each_once(names),
    ensures
        each_once(repo::roles_in(names)),
    decreases names.len(),
{
    if names.len() > 0 {
        let rest = names.drop_last();
        let n = names.len() - 1;
        assert forall|i: int, j: int| 0 <= i < j < rest.len() implies #[trigger] rest[i]
            != #[trigger] rest[j] by {
            assert(names[i] != names[j]);
        }
        roles_in_once(rest);
        if repo::role_of(names[n]) is Some {
            let role = repo::role_of(names[n])->0;
            repo::roles_in_holds(rest, role);
            repo::role_of_file(names[n]);
            if repo::roles_in(rest).contains(role) {
                let i = choose|i: int|
                    0 <= i < rest.len() && repo::role_of(#[trigger] rest[i]) == Some(role);
                repo::role_of_file(rest[i]);
                assert(names[i] != names[n]);
            }
            once_more(repo::roles_in(rest), role);
        }
    }
}

/// What is left of roles that are named once is named once.
proof fn filtered_once(roles: Seq<Seq<char>>, p: spec_fn(Seq<char>) -> bool)
    requires
        each_once(roles),
    ensures
        each_once(roles.filter(p)),
{
    let label = |x: Seq<char>| x;
    assert(order::distinct(roles, label));
    repo::filter_distinct(roles, p, label);
    let kept = roles.filter(p);
    assert forall|i: int, j: int| 0 <= i < j < kept.len() implies #[trigger] kept[i]
        != #[trigger] kept[j] by {
        assert(label(kept[i]) != label(kept[j]));
    }
}

/// The roles that list targets are named once.
proof fn listed_once(files: Files)
    requires
        files.dom().finite(),
    ensures
        each_once(repo::targets_roles_of(files)),
{
    let names = strmap::listing(files.dom());
    strmap::listing_exists(files.dom());
    ascending_once(names);
    roles_in_once(names);
    filtered_once(repo::roles_of(files), |role: Seq<char>| repo::lists_targets(role));
}

/// What stands in order is named once.
proof fn ascending_once(names: Seq<Seq<char>>)
    requires
        strmap::ascending(names),
    ensures
        each_once(names),
{
    assert forall|i: int, j: int| 0 <= i < j < names.len() implies #[trigger] names[i]
        != #[trigger] names[j] by {
        assert(text::precedes(names[i], names[j]));
        text::precedes_irreflexive(names[i]);
    }
}

/// Updates of several delegated roles name each once.
proof fn delegations_once(
    e: Edit,
    c: ConfigView,
    previous: Option<ConfigView>,
    base: Files,
    now: int,
    names: Seq<Seq<char>>,
)
    requires
        update::delegations_applied(e, c, previous, base, now, names).changed is Ok,
        each_once(names),
        e.changed is Ok ==> each_once(e.changed->Ok_0) && forall|i: int|
            0 <= i < names.len() ==> !e.changed->Ok_0.contains(#[trigger] names[i]),
    ensures
        each_once(update::delegations_applied(e, c, previous, base, now, names).changed->Ok_0),
    decreases names.len(),
{
    delegations_ok(e, c, previous, base, now, names);
    if names.len() > 0 {
        let rest = names.drop_last();
        let n = names.len() - 1;
        let role = names[n];
        assert(names.last() == role);
        let earlier = update::delegations_applied(e, c, previous, base, now, rest);
        let renew = update::validity_changed(c, previous, role);
        let content = update::with_delegations(earlier.files, role, metadata::no_delegations());
        updated_notes(earlier, base, role, c.roles[role], now, renew, content);
        assert forall|i: int, j: int| 0 <= i < j < rest.len() implies #[trigger] rest[i]
            != #[trigger] rest[j] by {
            assert(names[i] != names[j]);
        }
        assert forall|i: int| 0 <= i < rest.len() implies !e.changed->Ok_0.contains(
            #[trigger] rest[i],
        ) by {
            assert(rest[i] == names[i]);
        }
        delegations_once(e, c, previous, base, now, rest);
        delegations_leave(e.files, e, c, previous, base, now, rest);
        if earlier.changed->Ok_0.contains(role) {
            assert(!e.changed->Ok_0.contains(names[n]));
            assert(rest.contains(role));
            let i = choose|i: int| 0 <= i < rest.len() && rest[i] == role;
            assert(names[i] != names[n]);
        }
        once_more(earlier.changed->Ok_0, role);
    }
}

/// Bringing the metadata in line with a config names each role that it changed once.
pub proof fn applying_names_each_role_once(
    files: Files,
    c: ConfigView,
    previous: Option<ConfigView>,
    base: Files,
    now: int,
)
    requires
        config::valid(c),
        files.dom().finite(),
        update::apply_of(files, c, previous, base, now).changed is Ok,
    ensures
        each_once(update::apply_of(files, c, previous, base, now).changed->Ok_0),
{
    let e2 = update::targets_applied(files, c, previous, base, now);
    let e3 = update::cleared(e2, c);
    let names = config::delegated(c);
    delegations_ok(e3, c, previous, base, now, names);
    top_level_steps(files, c, previous, base, now);
    top_level_once(files, c, previous, base, now);
    clearing_step(files, e2, c);
    cleared_once(e2, c);
    assert forall|i: int| 0 <= i < names.len() implies !e3.changed->Ok_0.contains(
        #[trigger] names[i],
    ) by {
        assert(names.contains(names[i]));
        applying::delegated_names(c, names[i]);
        assert(e3.changed->Ok_0.contains(names[i]) <==> e2.changed->Ok_0.contains(names[i]) || swept(
            e2.files,
            c,
            names[i],
        ));
    }
    strmap::listing_exists(c.roles.dom());
    ascending_once(config::role_names(c));
    filtered_once(config::role_names(c), |name: Seq<char>| c.roles[name].paths.len() > 0);
    delegations_once(e3, c, previous, base, now, names);
}

/// Root and `targets` are named once.
proof fn top_level_once(
    files: Files,
    c: ConfigView,
    previous: Option<ConfigView>,
    base: Files,
    now: int,
)
    requires
        update::targets_applied(files, c, previous, base, now).changed is Ok,
    ensures
        each_once(update::targets_applied(files, c, previous, base, now).changed->Ok_0),
{
    config::different_top_level();
    let e0 = update::unedited(files);
    let e1 = update::root_applied(files, c, previous, base, now);
    let content = update::with_delegations(e1.files, "targets"@, update::delegations_content(c));
    let renew1 = update::validity_changed(c, previous, "root"@);
    let renew2 = update::validity_changed(c, previous, "targets"@);
    let root = Ok::<ContentView, Fault>(ContentView::Root(update::root_content(c)));
    updated_notes(e1, base, "targets"@, c.roles["targets"@], now, renew2, content);
    updated_notes(e0, base, "root"@, c.roles["root"@], now, renew1, root);
    assert(!e0.changed->Ok_0.contains("root"@));
    once_more(e0.changed->Ok_0, "root"@);
    order::push_holds(e0.changed->Ok_0, "root"@, "targets"@);
    assert(!e1.changed->Ok_0.contains("targets"@));
    once_more(e1.changed->Ok_0, "targets"@);
}

/// The roles that are removed are named once.
proof fn cleared_once(e: Edit, c: ConfigView)
    requires
        e.changed is Ok,
        e.files.dom().finite(),
        each_once(e.changed->Ok_0),
        forall|x: Seq<char>| #[trigger]
            e.changed->Ok_0.contains(x) ==> x == "root"@ || x == "targets"@,
    ensures
        each_once(update::cleared(e, c).changed->Ok_0),
{
    config::different_top_level();
    let early = e.changed->Ok_0;
    let gone = update::gone_roles(e.files, c);
    let p = |role: Seq<char>| update::gone(c, role);
    listed_once(e.files);
    filtered_once(repo::targets_roles_of(e.files), p);
    let all = early + gone;
    assert forall|i: int, j: int| 0 <= i < j < all.len() implies #[trigger] all[i] != #[trigger] all[j] by {
        if j < early.len() {
            assert(early[i] != early[j]);
        } else if i >= early.len() {
            assert(gone[i - early.len()] != gone[j - early.len()]);
        } else {
            let x = gone[j - early.len()];
            assert(gone.contains(x));
            repo::filter_holds(repo::targets_roles_of(e.files), p, x);
            publishing::role_listed(e.files, x);
            assert(early.contains(early[i]));
        }
    }
}

} // verus!
