//! What publishing promises.

use vstd::prelude::*;

use crate::config;
use crate::documents;
use crate::documents::{HeaderView, RoleKeysView, RootView, TargetsView, VersionView};
use crate::error;
use crate::keys;
use crate::keys::{KeyView, PublicKey, SignatureView};
use crate::laws::terms;
use crate::order;
use crate::publish;
use crate::repo;
use crate::repo::Files;
use crate::strmap;
use crate::text;

verus! {

/// The file that keeps a version of root.
pub open spec fn kept_root(version: int) -> Seq<char> {
    "root_history/"@ + text::decimal(version as nat) + ".root.json"@
}

/// Version and keys of root number `v` of those that are kept.
pub open spec fn root_at(files: Files, v: int) -> (HeaderView, RootView) {
    documents::root_in(files[kept_root(v)])->0
}

/// Whether every root from the first up to number `n` is there and is root metadata that enough of
/// its own keys have signed, and each but the first has the version after that of the one before it,
/// and is signed by enough of the keys of that one.
pub open spec fn root_chain(files: Files, n: int) -> bool {
    forall|v: int|
        1 <= v <= n ==> {
            let file = files[#[trigger] kept_root(v)];
            let root = root_at(files, v);
            let before = root_at(files, v - 1);
            &&& files.dom().contains(kept_root(v))
            &&& documents::root_in(file) is Some
            &&& terms::well_signed(file, root.1.root, root.1.keys)
            &&& v > 1 ==> root.0.version == before.0.version + 1 && terms::well_signed(
                file,
                before.1.root,
                before.1.keys,
            )
        }
}

/// Whether metadata that lists targets may be trusted: it has the version that the snapshot gives the
/// role, it has not expired, and enough of the keys have signed it.
pub open spec fn targets_trusted(
    files: Files,
    role: Seq<char>,
    k: RoleKeysView,
    keys: Map<Seq<char>, KeyView>,
    versions: Map<Seq<char>, VersionView>,
    now: int,
) -> bool {
    let file = terms::bytes_of(files, role);
    &&& terms::has(files, role)
    &&& documents::targets_in(file) matches Some((h, _)) && h.expires > now
        && versions.dom().contains(role) && versions[role].version == h.version
    &&& terms::well_signed(file, k, keys)
}

/// Whether `targets` delegates to `role`, and what it lists may be trusted.
pub open spec fn delegation_trusted(
    files: Files,
    t: TargetsView,
    role: Seq<char>,
    versions: Map<Seq<char>, VersionView>,
    now: int,
) -> bool {
    exists|i: int| #[trigger]
        terms::first_delegation(t, role, i) && targets_trusted(
            files,
            role,
            RoleKeysView {
                threshold: t.delegations.roles[i].threshold,
                key_ids: t.delegations.roles[i].key_ids,
            },
            t.delegations.keys,
            versions,
            now,
        )
}

/// Whether a client may trust the repository: the roots lead from the first to the current one, which
/// has not expired; enough of its keys have signed timestamp, snapshot and targets, and enough of the
/// keys of each delegation its role; each names the version of what it leads to; and none has
/// expired.
pub open spec fn trustworthy(files: Files, now: int) -> bool {
    let n = (documents::root_in(terms::bytes_of(files, "root"@))->0).0.version;
    let root = root_at(files, n);
    let timestamp = terms::bytes_of(files, "timestamp"@);
    let snapshot = terms::bytes_of(files, "snapshot"@);
    let targets = terms::bytes_of(files, "targets"@);
    let named = (documents::timestamp_in(timestamp)->0).1.version;
    let versions = (documents::snapshot_in(snapshot)->0).1;
    let t = (documents::targets_in(targets)->0).1;
    &&& terms::has(files, "root"@) && documents::root_in(terms::bytes_of(files, "root"@)) is Some
    &&& n >= 1 && root_chain(files, n) && root.0.expires > now
    &&& terms::has(files, "timestamp"@)
    &&& documents::timestamp_in(timestamp) matches Some((h, _)) && h.expires > now
    &&& terms::well_signed(timestamp, root.1.timestamp, root.1.keys)
    &&& terms::has(files, "snapshot"@)
    &&& documents::snapshot_in(snapshot) matches Some((h, _)) && h.expires > now && h.version == named
    &&& terms::well_signed(snapshot, root.1.snapshot, root.1.keys)
    &&& targets_trusted(files, "targets"@, root.1.targets, root.1.keys, versions, now)
    &&& forall|role: Seq<char>| #[trigger]
        terms::lists(files, role) && role != "targets"@ ==> delegation_trusted(
            files,
            t,
            role,
            versions,
            now,
        )
}

/// What has enough signatures for clients is well signed.
proof fn enough_is_well_signed(file: Seq<u8>, k: RoleKeysView, keys: Map<Seq<char>, KeyView>)
    requires
        publish::enough(file, repo::picked(k, keys)),
        k.key_ids.finite(),
    ensures
        terms::well_signed(file, k, keys),
{
    let need = repo::picked(k, keys);
    publish::nothing_is_accepted_unsigned(file, need);
    let signers = choose|signers: Seq<KeyView>| publish::vouched(file, need, signers);
    assert forall|i: int| 0 <= i < signers.len() implies terms::authorized(
        k,
        keys,
        #[trigger] signers[i],
    ) && terms::bears(file, signers[i]) by {
        assert(need.1.contains(signers[i]));
        terms::picked_holds(k, keys, signers[i]);
    }
    let label = |k: KeyView| k.id;
    assert forall|i: int, j: int| 0 <= i < j < signers.len() implies (#[trigger] signers[i]).id != (
    #[trigger] signers[j]).id by {
        assert(label(signers[i]) != label(signers[j]));
    }
    if signers.len() > 0 {
        terms::picked_holds(k, keys, signers[0]);
    } else {
        terms::picked_holds(k, keys, arbitrary());
    }
    assert(terms::reach(file, k, keys, signers));
}

/// The roots that are kept, up to number `n`.
pub proof fn history_holds(files: Files, n: int)
    requires
        repo::history_of(files, n) is Ok,
        n >= 0,
    ensures
        repo::history_of(files, n)->Ok_0.len() == n,
        forall|v: int|
            1 <= v <= n ==> files.dom().contains(#[trigger] kept_root(v)) && repo::history_of(
                files,
                n,
            )->Ok_0[v - 1] == files[kept_root(v)],
    decreases n,
{
    if n > 0 {
        history_holds(files, n - 1);
    }
}

/// A root that clients get to trust ends a chain of roots.
proof fn trusted_root_holds(files: Files, history: Seq<Seq<u8>>, n: int)
    requires
        terms::proper(files),
        n >= 1,
        history.len() == n,
        forall|v: int|
            1 <= v <= n ==> files.dom().contains(#[trigger] kept_root(v)) && history[v - 1]
                == files[kept_root(v)],
        publish::trusted_root(history) is Ok,
    ensures
        root_chain(files, n),
        documents::root_in(history[n - 1]) == Some(publish::trusted_root(history)->Ok_0),
    decreases n,
{
    let file = history[n - 1];
    assert(files[kept_root(n)] == file);
    let root = root_at(files, n);
    if n > 1 {
        let rest = history.drop_last();
        assert forall|v: int| 1 <= v <= n - 1 implies files.dom().contains(
            #[trigger] kept_root(v),
        ) && rest[v - 1] == files[kept_root(v)] by {}
        trusted_root_holds(files, rest, n - 1);
        let before = root_at(files, n - 1);
        assert(files[kept_root(n - 1)] == rest[n - 2]);
        enough_is_well_signed(file, before.1.root, before.1.keys);
    }
    assert(documents::root_in(file) == Some(root));
    enough_is_well_signed(file, root.1.root, root.1.keys);
}

/// What clients accept may be trusted: there is a signed chain of roots, and every role is signed by
/// enough of the keys that the root or the delegation gives it, has the version it is named with and
/// has not expired. A repository in which anything is unsigned, outdated or replaced by another
/// version is refused.
pub proof fn clients_accept_only_what_may_be_trusted(files: Files, now: int)
    requires
        terms::proper(files),
        publish::refused(files, now) is None,
    ensures
        trustworthy(files, now),
{
    config::different_top_level();
    let history = repo::root_history_of(files)->Ok_0;
    let n = (repo::root_of(files)->Ok_0).0.version;
    assert(repo::history_of(files, n) == Ok::<Seq<Seq<u8>>, error::Fault>(history));
    assert(repo::file_name("root"@) == "root"@ + ".json"@);
    assert(files.dom().contains("root"@ + ".json"@));
    history_holds(files, n);
    trusted_root_holds(files, history, n);
    let root = publish::trusted_root(history)->Ok_0;
    assert(root == root_at(files, n));
    let r = root.1;
    let ts = terms::bytes_of(files, "timestamp"@);
    let ss = terms::bytes_of(files, "snapshot"@);
    let tg = terms::bytes_of(files, "targets"@);
    assert(files.dom().contains(kept_root(n)));
    assert(files.dom().contains("targets"@ + ".json"@));
    enough_is_well_signed(ts, r.timestamp, r.keys);
    enough_is_well_signed(ss, r.snapshot, r.keys);
    let snapshot = publish::trusted_snapshot(files, root, now)->Ok_0;
    let targets = publish::trusted_targets(files, root, snapshot, now)->Ok_0;
    enough_is_well_signed(tg, r.targets, r.keys);
    assert(documents::targets_in(tg) is Some && (documents::targets_in(tg)->0).1 == targets);
    assert(documents::snapshot_in(ss) is Some && (documents::snapshot_in(ss)->0).1 == snapshot.1);
    assert forall|role: Seq<char>| #[trigger]
        terms::lists(files, role) && role != "targets"@ implies delegation_trusted(
        files,
        targets,
        role,
        snapshot.1,
        now,
    ) by {
        accepted_delegation(files, targets, snapshot, now, role);
    }
}

/// What clients accept of a delegated role may be trusted.
proof fn accepted_delegation(
    files: Files,
    targets: TargetsView,
    snapshot: (HeaderView, Map<Seq<char>, VersionView>),
    now: int,
    role: Seq<char>,
)
    requires
        terms::proper(files),
        publish::delegations_refused(files, targets, snapshot, now) is None,
        terms::lists(files, role),
        role != "targets"@,
        terms::delegations_finite(targets),
    ensures
        delegation_trusted(files, targets, role, snapshot.1, now),
{
    role_listed(files, role);
    let roles = repo::targets_roles_of(files);
    let f = |i: int| publish::delegation_refused(files, targets, snapshot, now, roles[i]);
    error::first_none(f, roles.len() as int);
    let i = choose|i: int| 0 <= i < roles.len() && roles[i] == role;
    assert(f(i) is None);
    publish::delegation_found(targets, role);
    let at = repo::delegation_to(targets, role)->0;
    let d = targets.delegations.roles[at];
    enough_is_well_signed(
        terms::bytes_of(files, role),
        RoleKeysView { threshold: d.threshold, key_ids: d.key_ids },
        targets.delegations.keys,
    );
    assert(terms::first_delegation(targets, role, at));
}

/// A role with metadata that lists targets is among those that are checked.
pub proof fn role_listed(files: Files, role: Seq<char>)
    requires
        files.dom().finite(),
    ensures
        terms::lists(files, role) <==> repo::targets_roles_of(files).contains(role),
{
    let name = role + ".json"@;
    repo::targets_role_has_file(files, role);
    reveal_strlit(".json");
    assert(name.take(name.len() - 5) =~= role);
    assert(".json"@.is_suffix_of(name)) by {
        assert(name.subrange(name.len() - 5, name.len() as int) =~= ".json"@);
    }
    assert(name.contains('/') <==> role.contains('/')) by {
        if role.contains('/') {
            let i = choose|i: int| 0 <= i < role.len() && role[i] == '/';
            assert(name[i] == '/');
        }
        if name.contains('/') {
            let i = choose|i: int| 0 <= i < name.len() && name[i] == '/';
            if i < role.len() {
                assert(role[i] == '/');
            } else {
                assert(name[i] == ".json"@[i - role.len()]);
            }
        }
    }
    if terms::lists(files, role) {
        assert(files.dom().contains(name) && repo::role_of(name) == Some(role));
    }
    if repo::targets_roles_of(files).contains(role) {
        let n = choose|n: Seq<char>| #[trigger]
            files.dom().contains(n) && repo::role_of(n) == Some(role);
        repo::role_of_file(n);
        assert(n == name);
    }
}

/// Whether no key has signed the file twice.
pub open spec fn signed_once(file: Seq<u8>) -> bool {
    documents::signatures_in(file) matches Some(sigs) && forall|i: int, j: int|
        0 <= i < j < sigs.len() ==> (#[trigger] sigs[i]).key_id != (#[trigger] sigs[j]).key_id
}

/// Whether every key stands under its own id, no key has signed a file twice, and every role has a
/// name that metadata can have.
pub open spec fn orderly(files: Files) -> bool {
    &&& forall|name: Seq<char>| #[trigger]
        files.dom().contains(name) ==> {
            &&& documents::root_in(files[name]) matches Some((_, r)) ==> documents::keys_sound(r.keys)
            &&& documents::targets_in(files[name]) matches Some((_, t)) ==> documents::keys_sound(
                t.delegations.keys,
            )
            &&& signed_once(files[name])
        }
    &&& forall|role: Seq<char>| #[trigger]
        terms::lists(files, role) ==> documents::names_metadata(role)
}

/// What is well signed has enough signatures for clients.
proof fn well_signed_is_enough(file: Seq<u8>, k: RoleKeysView, keys: Map<Seq<char>, KeyView>)
    requires
        terms::well_signed(file, k, keys),
        k.key_ids.finite(),
        documents::keys_sound(keys),
        signed_once(file),
    ensures
        publish::enough(file, repo::picked(k, keys)),
{
    let signers = choose|signers: Seq<KeyView>| #[trigger] terms::reach(file, k, keys, signers);
    let sigs = documents::signatures_in(file)->0;
    let input = documents::signing_input(file)->0;
    let ids = strmap::listing(k.key_ids);
    let need = repo::picked(k, keys).1;
    let label = |k: KeyView| k.id;
    strmap::listing_exists(k.key_ids);
    publish::chosen_distinct(ids, keys);
    order::sorted_distinct::<PublicKey>(repo::chosen(ids, keys), label);
    let by_key = |s: SignatureView| s.key_id;
    assert(repo::one_each(sigs)) by {
        assert forall|i: int, j: int| 0 <= i < j < sigs.len() implies by_key(#[trigger] sigs[i])
            != by_key(#[trigger] sigs[j]) by {}
        assert(order::distinct(sigs, by_key));
    }
    let last = publish::last_signatures(sigs);
    publish::last_signatures_finite(sigs);
    strmap::listing_exists(last.dom());
    let all = strmap::listing(last.dom());
    let table = publish::by_id(need);
    let q = |id: Seq<char>| table.dom().contains(id) && keys::accepts(table[id], input, last[id]);
    publish::valid_signatures_count(all, last, table, input);
    let valid = all.filter(q);
    let named = signers.map_values(label);
    assert(terms::bears(file, signers[0]));
    assert(named.no_duplicates()) by {
        assert forall|i: int, j: int|
            0 <= i < named.len() && 0 <= j < named.len() && i != j implies named[i] != named[j] by {
            if i < j {
                assert(signers[i].id != signers[j].id);
            } else {
                assert(signers[j].id != signers[i].id);
            }
        }
    }
    assert forall|id: Seq<char>| named.to_set().contains(id) implies #[trigger]
        valid.to_set().contains(id) by {
        let i = choose|i: int| 0 <= i < named.len() && named[i] == id;
        let key = signers[i];
        assert(terms::authorized(k, keys, key) && terms::bears(file, key));
        terms::picked_holds(k, keys, key);
        let n = choose|n: int| 0 <= n < need.len() && need[n] == key;
        publish::by_id_finds(need, n);
        let j = choose|j: int|
            0 <= j < sigs.len() && (#[trigger] sigs[j]).key_id == key.id && keys::accepts(
                key,
                input,
                sigs[j].value,
            );
        publish::last_signature_is(sigs, j);
        assert(all.to_set().contains(id));
        repo::filter_holds(all, q, id);
    }
    named.unique_seq_to_set();
    valid.lemma_cardinality_of_set();
    vstd::set_lib::lemma_len_subset(named.to_set(), valid.to_set());
    terms::picked_holds(k, keys, signers[0]);
}

/// Clients get to trust the root at the end of a chain of roots.
proof fn chain_is_trusted(files: Files, history: Seq<Seq<u8>>, n: int)
    requires
        terms::proper(files),
        orderly(files),
        n >= 1,
        history.len() == n,
        forall|v: int| 1 <= v <= n ==> history[v - 1] == files[#[trigger] kept_root(v)],
        root_chain(files, n),
    ensures
        publish::trusted_root(history) == Ok::<(HeaderView, RootView), error::Fault>(
            root_at(files, n),
        ),
    decreases n,
{
    let file = history[n - 1];
    assert(files[kept_root(n)] == file && files.dom().contains(kept_root(n)));
    let root = root_at(files, n);
    well_signed_is_enough(file, root.1.root, root.1.keys);
    if n > 1 {
        let rest = history.drop_last();
        assert forall|v: int| 1 <= v <= n - 1 implies rest[v - 1] == files[#[trigger] kept_root(
            v,
        )] by {}
        assert(root_chain(files, n - 1));
        chain_is_trusted(files, rest, n - 1);
        let before = root_at(files, n - 1);
        assert(files.dom().contains(kept_root(n - 1)));
        well_signed_is_enough(file, before.1.root, before.1.keys);
    }
}

/// The roots of a chain are the root history.
proof fn chain_is_history(files: Files, n: int)
    requires
        n >= 0,
        forall|v: int| 1 <= v <= n ==> files.dom().contains(#[trigger] kept_root(v)),
    ensures
        repo::history_of(files, n) is Ok,
    decreases n,
{
    if n > 0 {
        chain_is_history(files, n - 1);
        assert(files.dom().contains(kept_root(n)));
    }
}

/// Clients accept whatever may be trusted: nothing more is asked of a repository than that.
pub proof fn clients_accept_whatever_may_be_trusted(files: Files, now: int)
    requires
        terms::proper(files),
        orderly(files),
        trustworthy(files, now),
    ensures
        publish::refused(files, now) is None,
{
    config::different_top_level();
    let n = (documents::root_in(terms::bytes_of(files, "root"@))->0).0.version;
    assert(forall|v: int| 1 <= v <= n ==> files.dom().contains(#[trigger] kept_root(v)));
    chain_is_history(files, n);
    history_holds(files, n);
    let history = repo::root_history_of(files)->Ok_0;
    chain_is_trusted(files, history, n);
    let root = root_at(files, n);
    let r = root.1;
    let ts = terms::bytes_of(files, "timestamp"@);
    let ss = terms::bytes_of(files, "snapshot"@);
    let tg = terms::bytes_of(files, "targets"@);
    assert(files.dom().contains(kept_root(n)));
    assert(files.dom().contains("targets"@ + ".json"@));
    assert(files.dom().contains("snapshot"@ + ".json"@));
    assert(files.dom().contains("timestamp"@ + ".json"@));
    well_signed_is_enough(ts, r.timestamp, r.keys);
    well_signed_is_enough(ss, r.snapshot, r.keys);
    well_signed_is_enough(tg, r.targets, r.keys);
    let snapshot = publish::trusted_snapshot(files, root, now)->Ok_0;
    assert(publish::trusted_snapshot(files, root, now) is Ok);
    let targets = publish::trusted_targets(files, root, snapshot, now)->Ok_0;
    assert(publish::trusted_targets(files, root, snapshot, now) is Ok);
    let roles = repo::targets_roles_of(files);
    let f = |i: int| publish::delegation_refused(files, targets, snapshot, now, roles[i]);
    assert forall|i: int| 0 <= i < roles.len() implies #[trigger] f(i) is None by {
        trusted_delegation(files, targets, snapshot, now, i);
    }
    error::first_none(f, roles.len() as int);
}

/// Clients accept a delegated role that may be trusted.
proof fn trusted_delegation(
    files: Files,
    targets: TargetsView,
    snapshot: (HeaderView, Map<Seq<char>, VersionView>),
    now: int,
    i: int,
)
    requires
        terms::proper(files),
        orderly(files),
        0 <= i < repo::targets_roles_of(files).len(),
        terms::delegations_finite(targets),
        documents::keys_sound(targets.delegations.keys),
        snapshot.0.expires > now,
        forall|role: Seq<char>| #[trigger]
            terms::lists(files, role) && role != "targets"@ ==> delegation_trusted(
                files,
                targets,
                role,
                snapshot.1,
                now,
            ),
    ensures
        publish::delegation_refused(
            files,
            targets,
            snapshot,
            now,
            repo::targets_roles_of(files)[i],
        ) is None,
{
    let roles = repo::targets_roles_of(files);
    let role = roles[i];
    assert(roles.contains(role));
    role_listed(files, role);
    if role != "targets"@ {
        assert(terms::lists(files, role));
        let at = choose|at: int| #[trigger]
            terms::first_delegation(targets, role, at) && targets_trusted(
                files,
                role,
                RoleKeysView {
                    threshold: targets.delegations.roles[at].threshold,
                    key_ids: targets.delegations.roles[at].key_ids,
                },
                targets.delegations.keys,
                snapshot.1,
                now,
            );
        repo::first_delegation(targets, role, at);
        let d = targets.delegations.roles[at];
        assert(files.dom().contains(role + ".json"@));
        well_signed_is_enough(
            terms::bytes_of(files, role),
            RoleKeysView { threshold: d.threshold, key_ids: d.key_ids },
            targets.delegations.keys,
        );
    }
}

/// The version of metadata that lists targets, or of the snapshot.
pub open spec fn version_in(files: Files, role: Seq<char>) -> int {
    let file = terms::bytes_of(files, role);
    if role == "snapshot"@ {
        (documents::snapshot_in(file)->0).0.version
    } else {
        (documents::targets_in(file)->0).0.version
    }
}

/// The name under which clients fetch a version of `role`.
pub open spec fn fetched_as(version: int, role: Seq<char>) -> Seq<char> {
    "metadata/"@ + text::decimal(version as nat) + "."@ + role + ".json"@
}

/// Whether `role` is the snapshot, or has metadata that lists targets.
pub open spec fn versioned(files: Files, role: Seq<char>) -> bool {
    role == "snapshot"@ || terms::lists(files, role)
}

/// Whether clients are to find `data` under `name`: each version of root under its number with the
/// bytes that are kept of it, the snapshot and every role that lists targets under the number of its
/// version with the bytes of its metadata, the timestamp under its own name, and the summary page.
pub open spec fn to_be_found(files: Files, page: Seq<u8>, name: Seq<char>, data: Seq<u8>) -> bool {
    let n = (documents::root_in(terms::bytes_of(files, "root"@))->0).0.version;
    ||| exists|v: int|
        1 <= v <= n && name == #[trigger] fetched_as(v, "root"@) && data == files[kept_root(v)]
    ||| exists|role: Seq<char>| #[trigger]
        versioned(files, role) && name == fetched_as(version_in(files, role), role) && data
            == terms::bytes_of(files, role)
    ||| name == "metadata/timestamp.json"@ && data == terms::bytes_of(files, "timestamp"@)
    ||| name == "index.html"@ && data == page
}

/// Nothing in a number is a dot.
proof fn no_dot(n: nat, i: int)
    requires
        0 <= i < text::decimal(n).len(),
    ensures
        text::decimal(n)[i] != '.',
    decreases n,
{
    if n >= 10 && i < text::decimal(n).len() - 1 {
        no_dot(n / 10, i);
    }
}

/// Different versions, and different roles, are fetched under different names.
pub proof fn fetched_apart(v: nat, a: Seq<char>, w: nat, b: Seq<char>)
    requires
        fetched_as(v as int, a) == fetched_as(w as int, b),
    ensures
        v == w,
        a == b,
{
    reveal_strlit("metadata/");
    reveal_strlit(".");
    reveal_strlit(".json");
    let x = text::decimal(v);
    let y = text::decimal(w);
    let p = fetched_as(v as int, a);
    let q = fetched_as(w as int, b);
    assert(forall|i: int| 0 <= i < x.len() ==> p[9 + i] == #[trigger] x[i]);
    assert(forall|i: int| 0 <= i < y.len() ==> q[9 + i] == #[trigger] y[i]);
    assert(p[9 + x.len() as int] == '.');
    assert(q[9 + y.len() as int] == '.');
    if x.len() < y.len() {
        no_dot(w, x.len() as int);
        assert(q[9 + x.len() as int] == y[x.len() as int]);
    }
    if y.len() < x.len() {
        no_dot(v, y.len() as int);
        assert(p[9 + y.len() as int] == x[y.len() as int]);
    }
    assert(x =~= y) by {
        assert forall|i: int| 0 <= i < x.len() implies x[i] == y[i] by {
            assert(p[9 + i] == x[i] && q[9 + i] == y[i]);
        }
    }
    text::decimal_injective(v, w);
    assert(p.len() == 9 + x.len() + 1 + a.len() + 5);
    assert(q.len() == 9 + y.len() + 1 + b.len() + 5);
    assert(a =~= b) by {
        assert forall|i: int| 0 <= i < a.len() implies a[i] == b[i] by {
            assert(p[9 + x.len() + 1 + i] == a[i]);
            assert(q[9 + y.len() + 1 + i] == b[i]);
        }
    }
}

/// A version is not fetched under the name of the timestamp or of the summary page.
proof fn fetched_by_number(v: nat, role: Seq<char>)
    ensures
        fetched_as(v as int, role) != "metadata/timestamp.json"@,
        fetched_as(v as int, role) != "index.html"@,
{
    reveal_strlit("metadata/");
    reveal_strlit("metadata/timestamp.json");
    reveal_strlit("index.html");
    text::decimal_starts(v);
    assert(fetched_as(v as int, role)[9] == text::decimal(v)[0]);
    assert(fetched_as(v as int, role)[0] == 'm');
}

/// The objects of the root versions.
proof fn root_objects_hold(history: Seq<Seq<u8>>, name: Seq<char>)
    ensures
        publish::root_objects(history).dom().contains(name) <==> exists|v: int|
            1 <= v <= history.len() && name == #[trigger] fetched_as(v, "root"@),
        forall|v: int|
            1 <= v <= history.len() && name == #[trigger] fetched_as(v, "root"@)
                ==> publish::root_objects(history)[name] == history[v - 1],
    decreases history.len(),
{
    if history.len() > 0 {
        let rest = history.drop_last();
        let n = history.len() as int;
        root_objects_hold(rest, name);
        assert(publish::versioned_object(n, "root"@) == fetched_as(n, "root"@));
        assert forall|v: int| 1 <= v <= n && name == #[trigger] fetched_as(v, "root"@) implies publish::root_objects(
            history,
        )[name] == history[v - 1] by {
            if name == fetched_as(n, "root"@) {
                fetched_apart(v as nat, "root"@, n as nat, "root"@);
            }
        }
    }
}

/// Whether each of the roles has a version, and none is root.
spec fn all_versioned(files: Files, roles: Seq<Seq<char>>) -> bool {
    forall|i: int|
        0 <= i < roles.len() ==> (#[trigger] roles[i]) != "root"@ && (repo::header_of(
            files,
            roles[i],
        ) matches Ok(Some(h)) && h.version >= 0)
}

/// The objects of the roles.
proof fn role_objects_hold(files: Files, objects: Files, roles: Seq<Seq<char>>, name: Seq<char>)
    requires
        publish::role_objects(files, objects, roles) is Ok,
        all_versioned(files, roles),
    ensures
        ({
            let all = publish::role_objects(files, objects, roles)->Ok_0;
            &&& all.dom().contains(name) <==> objects.dom().contains(name) || exists|i: int|
                0 <= i < roles.len() && name == fetched_as(
                    (repo::header_of(files, #[trigger] roles[i])->Ok_0->0).version,
                    roles[i],
                )
            &&& forall|i: int|
                0 <= i < roles.len() && name == fetched_as(
                    (repo::header_of(files, #[trigger] roles[i])->Ok_0->0).version,
                    roles[i],
                ) ==> all[name] == repo::raw_of(files, roles[i])->0
            &&& (forall|i: int|
                0 <= i < roles.len() ==> name != fetched_as(
                    (repo::header_of(files, #[trigger] roles[i])->Ok_0->0).version,
                    roles[i],
                )) ==> all[name] == objects[name]
        }),
    decreases roles.len(),
{
    if roles.len() > 0 {
        let rest = roles.drop_last();
        let last = roles.last();
        let k = roles.len() - 1;
        assert(roles[k] == last);
        assert(all_versioned(files, rest)) by {
            assert forall|i: int| 0 <= i < rest.len() implies (#[trigger] rest[i]) != "root"@ && (
            repo::header_of(files, rest[i]) matches Ok(Some(h)) && h.version >= 0) by {
                assert(rest[i] == roles[i]);
            }
        }
        role_objects_hold(files, objects, rest, name);
        let all = publish::role_objects(files, objects, roles)->Ok_0;
        let earlier = publish::role_objects(files, objects, rest)->Ok_0;
        let v = (repo::header_of(files, last)->Ok_0->0).version;
        assert(publish::versioned_object(v, last) == fetched_as(v, last));
        assert forall|i: int| 0 <= i < rest.len() implies rest[i] == #[trigger] roles[i] by {}
        if exists|i: int|
            0 <= i < roles.len() && name == fetched_as(
                (repo::header_of(files, #[trigger] roles[i])->Ok_0->0).version,
                roles[i],
            ) {
            let i = choose|i: int|
                0 <= i < roles.len() && name == fetched_as(
                    (repo::header_of(files, #[trigger] roles[i])->Ok_0->0).version,
                    roles[i],
                );
            if i < k {
                assert(rest[i] == roles[i]);
            }
        }
        assert forall|i: int|
            0 <= i < roles.len() && name == fetched_as(
                (repo::header_of(files, #[trigger] roles[i])->Ok_0->0).version,
                roles[i],
            ) implies all[name] == repo::raw_of(files, roles[i])->0 by {
            let w = (repo::header_of(files, roles[i])->Ok_0->0).version;
            if name == fetched_as(v, last) {
                fetched_apart(w as nat, roles[i], v as nat, last);
            } else {
                assert(rest[i] == roles[i]);
            }
        }
        if forall|i: int|
            0 <= i < roles.len() ==> name != fetched_as(
                (repo::header_of(files, #[trigger] roles[i])->Ok_0->0).version,
                roles[i],
            ) {
            assert forall|i: int| 0 <= i < rest.len() implies name != fetched_as(
                (repo::header_of(files, #[trigger] rest[i])->Ok_0->0).version,
                rest[i],
            ) by {
                assert(rest[i] == roles[i]);
            }
            assert(name != fetched_as((repo::header_of(files, roles[k])->Ok_0->0).version, last));
        }
    }
}

/// The objects are what clients are to find.
proof fn objects_hold(files: Files, page: Seq<u8>, name: Seq<char>)
    requires
        terms::proper(files),
        publish::published_objects(files, page) is Ok,
    ensures
        ({
            let objects = publish::published_objects(files, page)->Ok_0;
            forall|data: Seq<u8>| #[trigger]
                to_be_found(files, page, name, data) <==> objects.dom().contains(name)
                    && objects[name] == data
        }),
{
    config::different_top_level();
    let n = (repo::root_of(files)->Ok_0).0.version;
    assert(files.dom().contains("root"@ + ".json"@));
    let history = repo::root_history_of(files)->Ok_0;
    history_holds(files, n);
    let roots = publish::root_objects(history);
    root_objects_hold(history, name);
    let roles = repo::targets_roles_of(files).push("snapshot"@);
    assert forall|role: Seq<char>| #[trigger]
        roles.contains(role) <==> versioned(files, role) by {
        order::push_holds(repo::targets_roles_of(files), "snapshot"@, role);
        role_listed(files, role);
    }
    role_objects_ok(files, roots, roles);
    assert forall|i: int| 0 <= i < roles.len() implies (#[trigger] roles[i]) != "root"@ && (
    repo::header_of(files, roles[i]) matches Ok(Some(h)) && h.version >= 1) && terms::has(
        files,
        roles[i],
    ) && version_in(files, roles[i]) == (repo::header_of(files, roles[i])->Ok_0->0).version by {
        assert(roles.contains(roles[i]));
        assert(versioned(files, roles[i]));
        assert(files.dom().contains(roles[i] + ".json"@));
    }
    assert(all_versioned(files, roles));
    role_objects_hold(files, roots, roles, name);
    let all = publish::role_objects(files, roots, roles)->Ok_0;
    let objects = publish::published_objects(files, page)->Ok_0;
    reveal_strlit("metadata/timestamp.json");
    reveal_strlit("index.html");
    assert("metadata/timestamp.json"@[0] != "index.html"@[0]);
    assert forall|v: int| 1 <= v <= n && name == #[trigger] fetched_as(v, "root"@) implies objects[name]
        == files[kept_root(v)] && objects.dom().contains(name) by {
        fetched_by_number(v as nat, "root"@);
        assert(files.dom().contains(kept_root(v)));
        assert forall|i: int| 0 <= i < roles.len() implies name != fetched_as(
            (repo::header_of(files, #[trigger] roles[i])->Ok_0->0).version,
            roles[i],
        ) by {
            let w = (repo::header_of(files, roles[i])->Ok_0->0).version;
            if name == fetched_as(w, roles[i]) {
                fetched_apart(v as nat, "root"@, w as nat, roles[i]);
            }
        }
    }
    assert forall|role: Seq<char>| #[trigger]
        versioned(files, role) && name == fetched_as(version_in(files, role), role) implies objects[name]
        == terms::bytes_of(files, role) && objects.dom().contains(name) by {
        assert(roles.contains(role));
        let i = choose|i: int| 0 <= i < roles.len() && roles[i] == role;
        fetched_by_number(version_in(files, role) as nat, role);
        assert(name == fetched_as((repo::header_of(files, roles[i])->Ok_0->0).version, roles[i]));
    }
    assert forall|data: Seq<u8>| #[trigger]
        to_be_found(files, page, name, data) <==> objects.dom().contains(name) && objects[name]
            == data by {
        if objects.dom().contains(name) && name != "index.html"@ && name
            != "metadata/timestamp.json"@ {
            assert(all.dom().contains(name));
            if exists|i: int|
                0 <= i < roles.len() && name == fetched_as(
                    (repo::header_of(files, #[trigger] roles[i])->Ok_0->0).version,
                    roles[i],
                ) {
                let i = choose|i: int|
                    0 <= i < roles.len() && name == fetched_as(
                        (repo::header_of(files, #[trigger] roles[i])->Ok_0->0).version,
                        roles[i],
                    );
                assert(roles.contains(roles[i]));
                assert(versioned(files, roles[i]));
            } else {
                let v = choose|v: int|
                    1 <= v <= history.len() && name == #[trigger] fetched_as(v, "root"@);
                assert(1 <= v <= n && name == fetched_as(v, "root"@));
            }
        }
    }
}

/// Where the objects of the roles can be told, each role has metadata with a version.
proof fn role_objects_ok(files: Files, objects: Files, roles: Seq<Seq<char>>)
    requires
        publish::role_objects(files, objects, roles) is Ok,
    ensures
        forall|i: int|
            0 <= i < roles.len() ==> (repo::header_of(files, #[trigger] roles[i]) matches Ok(Some(h))),
    decreases roles.len(),
{
    if roles.len() > 0 {
        role_objects_ok(files, objects, roles.drop_last());
        assert forall|i: int| 0 <= i < roles.len() implies (repo::header_of(
            files,
            #[trigger] roles[i],
        ) matches Ok(Some(h))) by {
            if i < roles.len() - 1 {
                assert(roles.drop_last()[i] == roles[i]);
            }
        }
    }
}

/// Whether an object is missing from what is published, or another one stands there.
pub open spec fn lacking(published: Map<Seq<char>, Seq<u8>>, name: Seq<char>, data: Seq<u8>) -> bool {
    !published.dom().contains(name) || published[name] != publish::md5_of(data)
}

/// Publishing uploads exactly what clients are to find and do not find yet: every version of root, the
/// metadata that is current, the timestamp and the summary page, each with its own bytes and once,
/// and the timestamp last.
pub proof fn publishing_uploads_what_clients_lack(
    files: Files,
    now: int,
    uploaded: Map<Seq<char>, Seq<u8>>,
    published: Map<Seq<char>, Seq<u8>>,
    page: Seq<u8>,
    name: Seq<char>,
    data: Seq<u8>,
)
    requires
        terms::proper(files),
        publish::publish_of(files, now, uploaded, published, page) is Ok,
    ensures
        ({
            let list = publish::publish_of(files, now, uploaded, published, page)->Ok_0;
            &&& list.contains((name, data)) <==> to_be_found(files, page, name, data) && lacking(
                published,
                name,
                data,
            )
            &&& forall|i: int, j: int|
                0 <= i < j < list.len() ==> (#[trigger] list[i]).0 != (#[trigger] list[j]).0
            &&& forall|i: int|
                0 <= i < list.len() && (#[trigger] list[i]).0 == "metadata/timestamp.json"@ ==> i
                    == list.len() - 1
        }),
{
    let objects = publish::published_objects(files, page)->Ok_0;
    let list = publish::publish_of(files, now, uploaded, published, page)->Ok_0;
    let names = publish::uploads(objects, published);
    let f = |name: Seq<char>| (name, objects[name]);
    assert(list == names.map_values(f));
    objects_hold(files, page, name);
    publish::objects_before(files, page);
    uploads_hold(objects, published, name);
    assert(to_be_found(files, page, name, data) <==> objects.dom().contains(name) && objects[name]
        == data);
    if list.contains((name, data)) {
        let i = choose|i: int| 0 <= i < list.len() && list[i] == (name, data);
        assert(names[i] == name && names.contains(name));
    }
    if names.contains(name) && objects[name] == data {
        let i = choose|i: int| 0 <= i < names.len() && names[i] == name;
        assert(list[i] == (name, data));
    }
    assert forall|i: int, j: int| 0 <= i < j < list.len() implies (#[trigger] list[i]).0 != (
    #[trigger] list[j]).0 by {
        assert(names[i] != names[j]);
    }
    assert forall|i: int|
        0 <= i < list.len() && (#[trigger] list[i]).0 == "metadata/timestamp.json"@ implies i
        == list.len() - 1 by {
        publish::timestamp_is_last(files, page, published, i);
    }
}

/// What is uploaded of the objects.
proof fn uploads_hold(objects: Files, published: Map<Seq<char>, Seq<u8>>, name: Seq<char>)
    requires
        objects.dom().finite(),
    ensures
        publish::uploads(objects, published).contains(name) <==> objects.dom().contains(name)
            && lacking(published, name, objects[name]),
        forall|i: int, j: int|
            0 <= i < j < publish::uploads(objects, published).len() ==> (
            #[trigger] publish::uploads(objects, published)[i]) != (#[trigger] publish::uploads(
                objects,
                published,
            )[j]),
{
    let all = strmap::listing(objects.dom());
    strmap::listing_exists(objects.dom());
    let p = |name: Seq<char>| publish::outdated(published, name, objects[name]);
    let q = |name: Seq<char>| !publish::comes_last(name);
    let r = |name: Seq<char>| publish::comes_last(name);
    let names = all.filter(p);
    let x = names.filter(q);
    let y = names.filter(r);
    let done = publish::uploads(objects, published);
    assert(done == x + y);
    repo::filter_holds(all, p, name);
    repo::filter_holds(names, q, name);
    repo::filter_holds(names, r, name);
    assert(all.to_set().contains(name) <==> all.contains(name));
    if x.contains(name) {
        let i = choose|i: int| 0 <= i < x.len() && x[i] == name;
        assert(done[i] == name);
    }
    if y.contains(name) {
        let i = choose|i: int| 0 <= i < y.len() && y[i] == name;
        assert(done[x.len() + i] == name);
    }
    if done.contains(name) {
        let i = choose|i: int| 0 <= i < done.len() && done[i] == name;
        if i < x.len() {
            assert(x[i] == name);
        } else {
            assert(y[i - x.len()] == name);
        }
    }
    strmap::filter_ascending(all, p);
    strmap::filter_ascending(names, q);
    strmap::filter_ascending(names, r);
    assert forall|i: int, j: int| 0 <= i < j < done.len() implies (#[trigger] done[i]) != (
    #[trigger] done[j]) by {
        text::precedes_irreflexive(done[i]);
        if j < x.len() {
            assert(text::precedes(x[i], x[j]));
        } else if i >= x.len() {
            assert(text::precedes(y[i - x.len()], y[j - x.len()]));
        } else {
            assert(x.contains(x[i]) && y.contains(y[j - x.len()]));
            repo::filter_holds(names, q, x[i]);
            repo::filter_holds(names, r, y[j - x.len()]);
        }
    }
}

/// Whether the file of a target is stored as `object`: in the directory of its path, under its name
/// with the SHA-256 digest and a dot before it.
pub open spec fn stored_as(path: Seq<char>, sha256: Seq<char>, object: Seq<char>) -> bool {
    exists|dir: Seq<char>, name: Seq<char>| #[trigger]
        split_path(path, dir, name) && object == "targets/"@ + (dir + sha256 + "."@ + name)
}

/// Whether the path is made of the directory and the name.
pub open spec fn split_path(path: Seq<char>, dir: Seq<char>, name: Seq<char>) -> bool {
    path == dir + name && !name.contains('/') && (dir.len() == 0 || dir.last() == '/')
}

/// The directory of a path ends behind its last slash.
proof fn directory_ends(path: Seq<char>)
    ensures
        0 <= publish::dir_len(path) <= path.len(),
        split_path(
            path,
            path.take(publish::dir_len(path)),
            path.skip(publish::dir_len(path)),
        ),
    decreases path.len(),
{
    let n = publish::dir_len(path);
    if path.len() == 0 || path.last() == '/' {
        assert(path.take(n) =~= path);
        assert(path.skip(n) =~= Seq::empty());
        assert(path =~= path.take(n) + path.skip(n));
    } else {
        let rest = path.drop_last();
        directory_ends(rest);
        assert(path.take(n) =~= rest.take(n));
        assert(path.skip(n) =~= rest.skip(n).push(path.last()));
        assert(path =~= path.take(n) + path.skip(n));
        order::push_holds(rest.skip(n), path.last(), '/');
    }
}

/// A directory goes as far as any.
proof fn no_longer(path: Seq<char>, a: Seq<char>, b: Seq<char>, c: Seq<char>, d: Seq<char>)
    requires
        split_path(path, a, b),
        split_path(path, c, d),
    ensures
        c.len() <= a.len(),
{
    if a.len() < c.len() {
        let i = c.len() - 1;
        assert(path.len() == (a + b).len() && path.len() == (c + d).len());
        assert((c + d)[i] == '/');
        assert((a + b)[i] == b[i - a.len()]);
        assert(b.contains(b[i - a.len()]));
    }
}

/// A path has one directory and one name.
proof fn one_split(path: Seq<char>, a: Seq<char>, b: Seq<char>, c: Seq<char>, d: Seq<char>)
    requires
        split_path(path, a, b),
        split_path(path, c, d),
    ensures
        a == c,
        b == d,
{
    no_longer(path, a, b, c, d);
    no_longer(path, c, d, a, b);
    assert(a =~= path.take(a.len() as int));
    assert(c =~= path.take(c.len() as int));
    assert(b =~= path.skip(a.len() as int));
    assert(d =~= path.skip(c.len() as int));
}

/// The object of a target is where consistent snapshots have it, if that is a path that targets can
/// have, and there is none for a target without a SHA-256 digest.
pub proof fn targets_are_stored_by_digest(
    path: Seq<char>,
    d: documents::DescriptionView,
    object: Seq<char>,
)
    ensures
        publish::object_of(path, d) == Ok::<Seq<char>, error::Fault>(object) <==> (d.sha256 matches Some(
            hash,
        ) && stored_as(path, hash, object) && documents::names_target(object.skip(8))),
{
    reveal_strlit("targets/");
    directory_ends(path);
    let n = publish::dir_len(path);
    if d.sha256 is Some {
        let hash = d.sha256->0;
        let own = "targets/"@ + publish::hash_prefixed(path, hash);
        assert(own.skip(8) =~= publish::hash_prefixed(path, hash));
        assert(publish::hash_prefixed(path, hash) == path.take(n) + hash + "."@ + path.skip(n));
        assert(split_path(path, path.take(n), path.skip(n)));
        assert(stored_as(path, hash, own));
        if stored_as(path, hash, object) {
            let (a, b) = choose|dir: Seq<char>, name: Seq<char>| #[trigger]
                split_path(path, dir, name) && object == "targets/"@ + (dir + hash + "."@ + name);
            one_split(path, a, b, path.take(n), path.skip(n));
            assert(object == own);
        }
    }
}

/// The file of a target is stored in one place.
pub proof fn stored_in_one_place(
    path: Seq<char>,
    sha256: Seq<char>,
    object: Seq<char>,
    other: Seq<char>,
)
    requires
        stored_as(path, sha256, object),
        stored_as(path, sha256, other),
    ensures
        object == other,
{
    let (a, b) = choose|dir: Seq<char>, name: Seq<char>| #[trigger]
        split_path(path, dir, name) && object == "targets/"@ + (dir + sha256 + "."@ + name);
    let (x, y) = choose|dir: Seq<char>, name: Seq<char>| #[trigger]
        split_path(path, dir, name) && other == "targets/"@ + (dir + sha256 + "."@ + name);
    one_split(path, a, b, x, y);
}

/// Nothing is published unless clients accept it, and the file of every target that it lists has been
/// uploaded.
pub proof fn only_complete_repositories_are_published(
    files: Files,
    now: int,
    uploaded: Map<Seq<char>, Seq<u8>>,
    published: Map<Seq<char>, Seq<u8>>,
    page: Seq<u8>,
    role: Seq<char>,
    path: Seq<char>,
)
    requires
        terms::proper(files),
        publish::publish_of(files, now, uploaded, published, page) is Ok,
    ensures
        trustworthy(files, now),
        ({
            let t = (documents::targets_in(terms::bytes_of(files, role))->0).1;
            terms::lists(files, role) && t.targets.dom().contains(path) ==> (
            t.targets[path].sha256 matches Some(hash) && exists|object: Seq<char>| #[trigger]
                stored_as(path, hash, object) && uploaded.dom().contains(object))
        }),
{
    clients_accept_only_what_may_be_trusted(files, now);
    let t = (documents::targets_in(terms::bytes_of(files, role))->0).1;
    if terms::lists(files, role) && t.targets.dom().contains(path) {
        assert(files.dom().contains(role + ".json"@));
        role_listed(files, role);
        assert(documents::targets_in(terms::bytes_of(files, role)) is Some);
        assert(repo::targets_of(files, role) is Ok);
        publish::published_targets_are_uploaded(
            files,
            now,
            uploaded,
            published,
            page,
            role,
            path,
        );
        let object = publish::object_of(path, t.targets[path])->Ok_0;
        targets_are_stored_by_digest(path, t.targets[path], object);
        assert(stored_as(path, t.targets[path].sha256->0, object));
    }
}

/// Whether the files of all targets have been uploaded, under paths that targets can have.
pub open spec fn all_uploaded(files: Files, uploaded: Map<Seq<char>, Seq<u8>>) -> bool {
    forall|role: Seq<char>, path: Seq<char>| #[trigger]
        terms::lists(files, role) && #[trigger] (documents::targets_in(
            terms::bytes_of(files, role),
        )->0).1.targets.dom().contains(path) ==> {
            let d = (documents::targets_in(terms::bytes_of(files, role))->0).1.targets[path];
            d.sha256 matches Some(hash) && exists|object: Seq<char>| #[trigger]
                stored_as(path, hash, object) && uploaded.dom().contains(object)
                    && documents::names_target(object.skip(8))
        }
}

/// A repository is published wherever clients would accept it, and the files of its targets have been
/// uploaded.
pub proof fn complete_repositories_are_published(
    files: Files,
    now: int,
    uploaded: Map<Seq<char>, Seq<u8>>,
    published: Map<Seq<char>, Seq<u8>>,
    page: Seq<u8>,
)
    requires
        terms::proper(files),
        orderly(files),
        trustworthy(files, now),
        all_uploaded(files, uploaded),
    ensures
        publish::publish_of(files, now, uploaded, published, page) is Ok,
{
    config::different_top_level();
    clients_accept_whatever_may_be_trusted(files, now);
    let roles = repo::targets_roles_of(files);
    let f = |i: int| publish::role_not_uploaded(files, uploaded, roles[i]);
    assert forall|i: int| 0 <= i < roles.len() implies #[trigger] f(i) is None by {
        assert(roles.contains(roles[i]));
        role_listed(files, roles[i]);
        role_uploaded(files, now, uploaded, roles[i]);
    }
    error::first_none(f, roles.len() as int);
    let n = (documents::root_in(terms::bytes_of(files, "root"@))->0).0.version;
    let history = repo::root_history_of(files)->Ok_0;
    let all = roles.push("snapshot"@);
    assert forall|i: int| 0 <= i < all.len() implies (repo::header_of(files, #[trigger] all[i])
        matches Ok(Some(h))) by {
        if i < roles.len() {
            assert(all[i] == roles[i]);
            assert(roles.contains(roles[i]));
            role_listed(files, roles[i]);
            assert(terms::lists(files, roles[i]));
        }
    }
    objects_told(files, publish::root_objects(history), all);
}

/// The files of the targets of one role have been uploaded.
proof fn role_uploaded(files: Files, now: int, uploaded: Map<Seq<char>, Seq<u8>>, role: Seq<char>)
    requires
        terms::proper(files),
        trustworthy(files, now),
        all_uploaded(files, uploaded),
        terms::lists(files, role),
    ensures
        publish::role_not_uploaded(files, uploaded, role) is None,
{
    let t = (documents::targets_in(terms::bytes_of(files, role))->0).1;
    assert(files.dom().contains(role + ".json"@));
    assert(documents::targets_in(terms::bytes_of(files, role)) is Some);
    let paths = strmap::listing(t.targets.dom());
    strmap::listing_exists(t.targets.dom());
    let g = |i: int| publish::not_uploaded(role, paths[i], t.targets[paths[i]], uploaded);
    assert forall|i: int| 0 <= i < paths.len() implies #[trigger] g(i) is None by {
        let path = paths[i];
        assert(paths.to_set().contains(path));
        assert(t.targets.dom().contains(path));
        let hash = t.targets[path].sha256->0;
        let object = choose|object: Seq<char>| #[trigger]
            stored_as(path, hash, object) && uploaded.dom().contains(object)
                && documents::names_target(object.skip(8));
        targets_are_stored_by_digest(path, t.targets[path], object);
    }
    error::first_none(g, paths.len() as int);
}

/// Where each role has metadata with a version, the objects of the roles can be told.
proof fn objects_told(files: Files, objects: Files, roles: Seq<Seq<char>>)
    requires
        forall|i: int|
            0 <= i < roles.len() ==> (repo::header_of(files, #[trigger] roles[i]) matches Ok(Some(h))),
    ensures
        publish::role_objects(files, objects, roles) is Ok,
    decreases roles.len(),
{
    if roles.len() > 0 {
        let rest = roles.drop_last();
        assert forall|i: int| 0 <= i < rest.len() implies (repo::header_of(
            files,
            #[trigger] rest[i],
        ) matches Ok(Some(h))) by {
            assert(rest[i] == roles[i]);
        }
        objects_told(files, objects, rest);
        assert(roles[roles.len() - 1] == roles.last());
    }
}

} // verus!
