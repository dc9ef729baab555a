//! Starting new versions of roles: when the config changes, when targets are added, and when
//! metadata is about to expire.

use vstd::prelude::*;

use crate::config;
use crate::config::{Config, ConfigView, RoleConfig, RoleConfigView};
use crate::documents;
use crate::documents::{
    DelegationView, DelegationsView, Description, DescriptionView, HeaderView, RawVersion,
    RoleKeysView, RootView, TargetsView, VersionView,
};
use crate::error;
use crate::error::{Error, Fault, Problem};
use crate::keys;
use crate::keys::KeyView;
use crate::keys::PublicKey;
use crate::metadata;
use crate::metadata::{
    Content, ContentView, Delegation, Delegations, Kind, Metadata, RoleKeys, Root, Targets,
};
use crate::order;
use crate::repo;
use crate::repo::{Files, Repo};
use crate::strmap;
use crate::strmap::{StrMap, StrSet, Value};
use crate::text;
use crate::time;
use crate::time::Time;

verus! {

broadcast use crate::text::views_push;

/// Whether a role can have the threshold and keys.
pub open spec fn definable(k: RoleKeysView) -> bool {
    1 <= k.threshold <= k.key_ids.len()
}

/// Whether metadata can have the content: each top-level role has enough keys.
pub open spec fn buildable(c: ContentView) -> bool {
    match c {
        ContentView::Root(r) => definable(r.root) && definable(r.targets) && definable(r.snapshot)
            && definable(r.timestamp),
        _ => true,
    }
}

/// Whether the current version of `role`, which is the version in `base` too, lacks signatures from
/// the keys that the role now has.
pub open spec fn keys_changed(
    files: Files,
    base: Files,
    role: Seq<char>,
    in_base: Option<HeaderView>,
    version: int,
) -> Result<bool, Fault> {
    if in_base matches Some(h) && h.version == version {
        match repo::missing_keys_of(files, base, role) {
            Ok(missing) => Ok(missing.len() > 0),
            Err(e) => Err(e),
        }
    } else {
        Ok(false)
    }
}

/// Whether the current metadata of `role` is left as it is.
pub open spec fn stays(
    files: Files,
    base: Files,
    role: Seq<char>,
    days: int,
    now: int,
    renew: bool,
    content: ContentView,
    current: (HeaderView, ContentView),
) -> Result<bool, Fault> {
    if !buildable(content) {
        Err(Problem::Unwritable { role })
    } else {
        match repo::header_of(base, role) {
            Err(e) => Err(e),
            Ok(in_base) => match keys_changed(files, base, role, in_base, current.0.version) {
                Err(e) => Err(e),
                Ok(changed) => Ok(
                    current.0.plain && current.1 == content && !changed && !renew && !config::due(
                        days,
                        current.0.expires,
                        time::whole(now),
                    ),
                ),
            },
        }
    }
}

/// The version after the one that `role` has in `base`.
pub open spec fn next_version(in_base: Option<HeaderView>) -> int {
    match in_base {
        Some(h) => h.version + 1,
        None => 1,
    }
}

/// The files with a new version of `role`, which needs signing.
pub open spec fn renewed(
    files: Files,
    base: Files,
    role: Seq<char>,
    days: int,
    now: int,
    content: ContentView,
) -> Result<Files, Fault> {
    match repo::header_of(base, role) {
        Err(e) => Err(e),
        Ok(in_base) => if next_version(in_base) > u32::MAX {
            Err(Problem::VersionLimit { role })
        } else if !buildable(content) {
            Err(Problem::Unwritable { role })
        } else {
            match metadata::written(
                next_version(in_base),
                time::second_of(now) + days * time::day(),
                content,
            ) {
                None => Err(Problem::Unwritable { role }),
                Some(file) => repo::put_of(files, role, file),
            }
        },
    }
}

/// The files after `role` was given a new version with the content where that is needed, and
/// whether it was: where the content differs from the current one, where the current version is in
/// its signing period, where `renew` asks for it, or where the version in `base` lacks signatures
/// from the keys the role now has. The new version is one more than the version in `base`.
pub open spec fn update_of(
    files: Files,
    base: Files,
    role: Seq<char>,
    conf: RoleConfigView,
    now: int,
    renew: bool,
    content: ContentView,
) -> Result<(Files, bool), Fault> {
    let stays = match repo::metadata_of(files, metadata::content_kind(content), role) {
        Err(e) => Err(e),
        Ok(None) => Ok(false),
        Ok(Some(current)) => stays(
            files,
            base,
            role,
            conf.signing_days,
            now,
            renew,
            content,
            current,
        ),
    };
    match stays {
        Err(e) => Err(e),
        Ok(true) => Ok((files, false)),
        Ok(false) => match renewed(files, base, role, conf.expires_days, now, content) {
            Err(e) => Err(e),
            Ok(files) => Ok((files, true)),
        },
    }
}

/// Whether the metadata of `role` is a new version that nobody has signed yet: one more than the
/// version in `base`, and valid for the given number of days from now.
pub open spec fn fresh_version(
    files: Files,
    base: Files,
    role: Seq<char>,
    days: int,
    now: int,
) -> bool {
    &&& repo::raw_of(files, role) matches Some(file) && documents::unsigned(file)
    &&& repo::header_of(files, role) == Ok::<Option<HeaderView>, Fault>(
        Some(
            documents::written_header(
                next_version(repo::header_of(base, role)->Ok_0),
                time::second_of(now) + days * time::day(),
            ),
        ),
    )
}

/// Whether each of the roles that are left is a new version. Left are those that the config has.
#[verifier::opaque]
pub open spec fn all_fresh(
    files: Files,
    base: Files,
    c: ConfigView,
    now: int,
    roles: Seq<Seq<char>>,
) -> bool {
    forall|i: int|
        0 <= i < roles.len() && c.roles.dom().contains(#[trigger] roles[i]) ==> fresh_version(
            files,
            base,
            roles[i],
            c.roles[roles[i]].expires_days,
            now,
        )
}

/// Whether the metadata of `role` has the content and a version and expiry that need no new version.
pub open spec fn settled(
    files: Files,
    base: Files,
    role: Seq<char>,
    conf: RoleConfigView,
    now: int,
    content: ContentView,
) -> bool {
    update_of(files, base, role, conf, now, false, content) == Ok::<(Files, bool), Fault>(
        (files, false),
    )
}

/// Whether the days of a role are such that it can be renewed now.
pub open spec fn renewable(conf: RoleConfigView, now: int) -> bool {
    0 < conf.signing_days < conf.expires_days && time::in_calendar(
        time::second_of(now) + conf.expires_days * time::day(),
    )
}

fn is_definable(k: &RoleKeys) -> (r: bool)
    ensures
        r == definable(k@),
{
    let n = k.key_ids.len();
    proof {
        strmap::listing_len(k.key_ids@);
    }
    1 <= k.threshold && k.threshold as u64 <= n as u64
}

fn is_buildable(c: &Content) -> (r: bool)
    ensures
        r == buildable(c@),
{
    match c {
        Content::Root(root) => is_definable(&root.root) && is_definable(&root.targets)
            && is_definable(&root.snapshot) && is_definable(&root.timestamp),
        _ => true,
    }
}

/// Metadata that expires `days` days after the start of this second is not due.
proof fn fresh(secs: int, days: int, signing: int, now: int)
    requires
        secs == time::second_of(now) + days * time::day(),
        signing < days,
    ensures
        !config::due(signing, time::instant(secs, 0), time::whole(now)),
{
    let s = time::second_of(now);
    let n = if time::leaping(now) {
        time::second()
    } else {
        0
    };
    time::instant_parts(s, n);
    time::instant_parts(secs, 0);
    assert((s + days * 86_400) % 86_400 == s % 86_400) by (nonlinear_arith);
    assert(days * 86_400 * 1_000_000_000 - 1_000_000_000 >= signing * 86_400 * 1_000_000_000)
        by (nonlinear_arith)
        requires
            signing < days,
    ;
    assert((secs - s) * 1_000_000_000 == days * 86_400 * 1_000_000_000) by (nonlinear_arith)
        requires
            secs == s + days * 86_400,
    ;
}

/// Whether the metadata of `role` lists the targets and has the delegations.
pub open spec fn says(files: Files, role: Seq<char>, t: TargetsView) -> bool {
    repo::targets_of(files, role) matches Ok((_, u)) && u.targets == t.targets
        && documents::same_delegations(u.delegations, t.delegations)
}

/// Whether an update did to `role` what the content asks for. What lists targets says them
/// afterwards, and has its delegations in the order of their names where it is a new version, which
/// root then is not. A new root touches no metadata that lists targets.
pub open spec fn took(
    before: Files,
    after: Files,
    role: Seq<char>,
    content: ContentView,
    changed: bool,
) -> bool {
    match content {
        ContentView::Targets(t) => {
            &&& says(after, role, t)
            &&& changed ==> role != "root"@ && documents::in_name_order(
                (repo::targets_of(after, role)->Ok_0).1.delegations.roles,
            )
        },
        ContentView::Root(_) => role == "root"@ ==> forall|x: Seq<char>|
            x != role ==> #[trigger] repo::raw_of(after, x) == repo::raw_of(before, x)
                || repo::metadata_of(after, Kind::Targets, x) is Err,
        _ => true,
    }
}

impl Repo {
    /// Whether the current metadata of `role` is left as it is.
    fn is_current(
        &self,
        base: &Repo,
        role: &str,
        conf: &RoleConfig,
        now: &Time,
        renew: bool,
        content: &Content,
        current: &Metadata,
    ) -> (r: Result<bool, Error>)
        requires
            renewable(conf@, now@),
        ensures
            error::outcome(r) == stays(
                self@,
                base@,
                role@,
                conf@.signing_days,
                now@,
                renew,
                content@,
                current@,
            ),
    {
        if !is_buildable(content) {
            return Err(Problem::Unwritable { role: role.to_owned() });
        }
        let in_base = match base.header(role) {
            Ok(h) => h,
            Err(e) => {
                return Err(e);
            },
        };
        let same_version = match in_base {
            Some((v, _)) => v == current.version,
            None => false,
        };
        let changed = if same_version {
            match self.missing_keys(base, role) {
                Ok(missing) => missing.len() > 0,
                Err(e) => {
                    return Err(e);
                },
            }
        } else {
            false
        };
        let start = now.truncated();
        Ok(
            current.plain && current.content.same_as(content) && !changed && !renew
                && !conf.in_signing_period(&current.expires, &start),
        )
    }

    /// Replaces `role` with an unsigned version of the content where that is needed: where it
    /// differs from the current content, where the current version is in its signing period, where
    /// `renew` asks for it, or where the version in `base` lacks signatures from the keys the role
    /// now has. The new version is one more than the version in `base`. Returns whether the role
    /// changed.
    fn update(
        &mut self,
        base: &Repo,
        role: &str,
        conf: &RoleConfig,
        now: &Time,
        renew: bool,
        content: &Content,
    ) -> (r: Result<bool, Error>)
        requires
            metadata::sound(content@),
            content@ matches ContentView::Snapshot(m) ==> documents::all_bare(m),
            renewable(conf@, now@),
        ensures
            match r {
                Ok(changed) => update_of(
                    old(self)@,
                    base@,
                    role@,
                    conf@,
                    now@,
                    renew,
                    content@,
                ) == Ok::<(Files, bool), Fault>((final(self)@, changed)),
                Err(e) => final(self)@ == old(self)@ && update_of(
                    old(self)@,
                    base@,
                    role@,
                    conf@,
                    now@,
                    renew,
                    content@,
                ) == Err::<(Files, bool), Fault>(e@),
            },
            r is Ok && metadata::regular(content@) ==> settled(
                final(self)@,
                base@,
                role@,
                conf@,
                now@,
                content@,
            ),
            r == Ok::<bool, Error>(true) && metadata::content_kind(content@) == metadata::kind_of(
                role@,
            ) ==> fresh_version(final(self)@, base@, role@, conf@.expires_days, now@),
            r matches Ok(changed) ==> took(old(self)@, final(self)@, role@, content@, changed),
    {
        let kind = match content {
            Content::Root(_) => Kind::Root,
            Content::Targets(_) => Kind::Targets,
            Content::Snapshot(_) => Kind::Snapshot,
            Content::Timestamp(_) => Kind::Timestamp,
        };
        match self.metadata(kind, role) {
            Ok(Some(current)) => match self.is_current(
                base,
                role,
                conf,
                now,
                renew,
                content,
                &current,
            ) {
                Ok(true) => {
                    return Ok(false);
                },
                Ok(false) => {},
                Err(e) => {
                    return Err(e);
                },
            },
            Ok(None) => {},
            Err(e) => {
                return Err(e);
            },
        }
        let version: u32 = match base.header(role) {
            Ok(None) => 1,
            Ok(Some((v, _))) => {
                if v == u32::MAX {
                    return Err(Problem::VersionLimit { role: role.to_owned() });
                }
                v + 1
            },
            Err(e) => {
                return Err(e);
            },
        };
        if !is_buildable(content) {
            return Err(Problem::Unwritable { role: role.to_owned() });
        }
        let secs: i64 = now.truncated().plus_days(conf.expires_days).seconds();
        proof {
            whole_second(now@, conf.expires_days as int);
        }
        match metadata::write(version, secs, content) {
            Some(file) => {
                proof {
                    fresh(secs as int, conf@.expires_days, conf@.signing_days, now@);
                }
                match self.put(role, &file) {
                    Ok(_) => {
                        proof {
                            put_took(old(self)@, self@, role@, file@, content@);
                        }
                        Ok(true)
                    },
                    Err(e) => Err(e),
                }
            },
            None => Err(Problem::Unwritable { role: role.to_owned() }),
        }
    }
}

/// A new version that was stored is what the content asks for.
proof fn put_took(before: Files, after: Files, role: Seq<char>, file: Seq<u8>, content: ContentView)
    requires
        repo::put_of(before, role, file) == Ok::<Files, Fault>(after),
        repo::stored(after, role, file),
        role == "root"@ ==> documents::root_in(file) is Some,
        content matches ContentView::Targets(t) ==> documents::targets_read_back(file, t),
        content is Root ==> documents::targets_in(file) is None,
    ensures
        took(before, after, role, content, true),
{
    match content {
        ContentView::Targets(t) => {
            documents::arranged_same(
                (documents::targets_in(file)->0).1.delegations,
                t.delegations,
            );
        },
        ContentView::Root(_) => {
            if role == "root"@ {
                let pretty = repo::raw_of(after, role)->0;
                assert forall|x: Seq<char>| x != role implies #[trigger] repo::raw_of(after, x)
                    == repo::raw_of(before, x) || repo::metadata_of(after, Kind::Targets, x) is Err by {
                    repo::file_name_injective(x, role);
                    if repo::raw_of(after, x) != repo::raw_of(before, x) {
                        assert(repo::raw_of(after, x) == Some(pretty));
                    }
                }
            }
        },
        _ => {},
    }
}

/// The second that is `days` days after the start of this one.
proof fn whole_second(now: int, days: int)
    requires
        days > 0,
    ensures
        time::second_of(time::whole(now)) == time::second_of(now),
        time::second_of(time::days_after(time::whole(now), days)) == time::second_of(now) + days
            * time::day(),
{
    let s = time::second_of(now);
    let n = if time::leaping(now) {
        time::second()
    } else {
        0
    };
    time::instant_parts(s, n);
    time::instant_parts(s + days * time::day(), 0);
}

/// The ids of the configured keys `names`.
pub open spec fn ids_of(c: ConfigView, names: Seq<Seq<char>>) -> Set<Seq<char>>
    decreases names.len(),
{
    if names.len() == 0 {
        Set::empty()
    } else {
        ids_of(c, names.drop_last()).insert(config::key_of(c, names.last()).id)
    }
}

/// `known` with the configured keys `names` added, by id.
pub open spec fn keys_with(
    c: ConfigView,
    known: Map<Seq<char>, KeyView>,
    names: Seq<Seq<char>>,
) -> Map<Seq<char>, KeyView>
    decreases names.len(),
{
    if names.len() == 0 {
        known
    } else {
        let key = config::key_of(c, names.last());
        keys_with(c, known, names.drop_last()).insert(key.id, key)
    }
}

/// The threshold and key ids that the config gives `role`.
pub open spec fn configured_keys(c: ConfigView, role: Seq<char>) -> RoleKeysView {
    RoleKeysView {
        threshold: c.roles[role].threshold,
        key_ids: ids_of(c, c.roles[role].keys),
    }
}

/// What root says in a repository with the config.
pub open spec fn root_content(c: ConfigView) -> RootView {
    RootView {
        consistent_snapshot: true,
        keys: keys_with(
            c,
            keys_with(
                c,
                keys_with(
                    c,
                    keys_with(c, Map::empty(), c.roles["root"@].keys),
                    c.roles["targets"@].keys,
                ),
                c.roles["snapshot"@].keys,
            ),
            c.roles["timestamp"@].keys,
        ),
        root: configured_keys(c, "root"@),
        targets: configured_keys(c, "targets"@),
        snapshot: configured_keys(c, "snapshot"@),
        timestamp: configured_keys(c, "timestamp"@),
    }
}

/// The delegation that the config has for the role `name`.
pub open spec fn configured_delegation(c: ConfigView, name: Seq<char>) -> DelegationView {
    DelegationView {
        name,
        terminating: true,
        threshold: c.roles[name].threshold,
        key_ids: ids_of(c, c.roles[name].keys),
        paths: c.roles[name].paths.to_set(),
    }
}

/// The keys of the roles `names`, by id.
pub open spec fn delegation_keys(c: ConfigView, names: Seq<Seq<char>>) -> Map<Seq<char>, KeyView>
    decreases names.len(),
{
    if names.len() == 0 {
        Map::empty()
    } else {
        keys_with(c, delegation_keys(c, names.drop_last()), c.roles[names.last()].keys)
    }
}

/// What `targets` delegates in a repository with the config.
pub open spec fn delegations_content(c: ConfigView) -> DelegationsView {
    DelegationsView {
        keys: delegation_keys(c, config::delegated(c)),
        roles: config::delegated(c).map_values(|name: Seq<char>| configured_delegation(c, name)),
    }
}

/// The delegations of a config stand in the order of their names.
proof fn delegations_in_order(c: ConfigView)
    requires
        config::valid(c),
    ensures
        documents::in_name_order(delegations_content(c).roles),
{
    strmap::listing_exists(c.roles.dom());
    strmap::filter_ascending(
        config::role_names(c),
        |name: Seq<char>| c.roles[name].paths.len() > 0,
    );
    let d = delegations_content(c).roles;
    assert(d.map_values(|d: DelegationView| d.name) =~= config::delegated(c));
}

/// Adds the keys of `role` to `known`, returning the role's threshold and key ids.
fn config_role_keys(config: &Config, role: &RoleConfig, known: &mut StrMap<PublicKey>) -> (r: RoleKeys)
    requires
        forall|i: int|
            0 <= i < role@.keys.len() ==> config@.keys.dom().contains(#[trigger] role@.keys[i]),
        documents::keys_sound(old(known)@),
    ensures
        r@ == (RoleKeysView {
            threshold: role@.threshold,
            key_ids: ids_of(config@, role@.keys),
        }),
        final(known)@ == keys_with(config@, old(known)@, role@.keys),
        documents::keys_sound(final(known)@),
{
    let ghost start = known@;
    let ghost names = role@.keys;
    let mut ids = StrSet::new();
    let mut i: usize = 0;
    while i < role.keys.len()
        invariant
            i <= role.keys.len(),
            names == role@.keys,
            names == text::views(role.keys@),
            forall|i: int|
                0 <= i < names.len() ==> config@.keys.dom().contains(#[trigger] names[i]),
            ids@ == ids_of(config@, names.take(i as int)),
            known@ == keys_with(config@, start, names.take(i as int)),
            documents::keys_sound(known@),
        decreases role.keys.len() - i,
    {
        let name = &role.keys[i];
        assert(names.take(i + 1).drop_last() =~= names.take(i as int));
        assert(names.take(i + 1).last() == name@);
        assert(config@.keys.dom().contains(names[i as int]));
        match config.public_key(name.as_str()) {
            Ok(key) => {
                ids.insert(key.id.clone());
                known.insert(key.id.clone(), key);
            },
            Err(_) => {},
        }
        i = i + 1;
    }
    assert(names.take(i as int) =~= names);
    RoleKeys { threshold: role.threshold, key_ids: ids }
}

/// The configuration of a top-level role.
fn top_level_config<'a>(config: &'a Config, role: &str) -> (r: &'a RoleConfig)
    requires
        config::top_level(role@),
    ensures
        config@.roles.dom().contains(role@),
        r@ == config@.roles[role@],
        config::valid(config@),
        forall|i: int|
            0 <= i < r@.keys.len() ==> config@.keys.dom().contains(#[trigger] r@.keys[i]),
{
    proof {
        use_type_invariant(config);
        config::valid_top_level(config@, role@);
        config::valid_role(config@, role@);
    }
    config.roles().get(role).unwrap()
}

/// What root says in a repository with the config.
fn root_of_config(config: &Config) -> (r: Root)
    ensures
        r@ == root_content(config@),
        documents::keys_sound(r@.keys),
{
    let mut keys: StrMap<PublicKey> = StrMap::new();
    let root = config_role_keys(config, top_level_config(config, "root"), &mut keys);
    let targets = config_role_keys(config, top_level_config(config, "targets"), &mut keys);
    let snapshot = config_role_keys(config, top_level_config(config, "snapshot"), &mut keys);
    let timestamp = config_role_keys(config, top_level_config(config, "timestamp"), &mut keys);
    Root { consistent_snapshot: true, keys, root, targets, snapshot, timestamp }
}

/// What `targets` delegates in a repository with the config.
fn config_delegations(config: &Config) -> (r: Delegations)
    ensures
        r@ == delegations_content(config@),
        documents::keys_defined(r@.keys),
        documents::in_name_order(r@.roles),
{
    proof {
        use_type_invariant(config);
        delegations_in_order(config@);
    }
    let listed = config.delegations();
    let ghost names = config::delegated(config@);
    let ghost f = |name: Seq<char>| configured_delegation(config@, name);
    let mut keys: StrMap<PublicKey> = StrMap::new();
    let mut roles: Vec<Delegation> = Vec::new();
    let mut i: usize = 0;
    assert(text::views(roles@) =~= names.take(0).map_values(f));
    while i < listed.len()
        invariant
            i <= listed.len(),
            config::valid(config@),
            names == config::delegated(config@),
            listed@.len() == names.len(),
            forall|i: int|
                0 <= i < listed@.len() ==> (#[trigger] listed@[i]).0@ == names[i]
                    && config@.roles.dom().contains(listed@[i].0@) && listed@[i].1@
                    == config@.roles[listed@[i].0@],
            f == (|name: Seq<char>| configured_delegation(config@, name)),
            keys@ == delegation_keys(config@, names.take(i as int)),
            documents::keys_sound(keys@),
            text::views(roles@) == names.take(i as int).map_values(f),
        decreases listed.len() - i,
    {
        let (name, role) = listed[i];
        proof {
            config::valid_role(config@, name@);
            assert(names.take(i + 1).drop_last() =~= names.take(i as int));
            assert(names.take(i + 1).last() == name@);
            assert(names.take(i + 1).map_values(f) =~= names.take(i as int).map_values(f).push(
                f(name@),
            ));
        }
        let k = config_role_keys(config, role, &mut keys);
        roles.push(
            Delegation {
                name: name.clone(),
                terminating: true,
                threshold: k.threshold,
                key_ids: k.key_ids,
                paths: StrSet::from_vec(&role.paths),
            },
        );
        i = i + 1;
    }
    assert(names.take(i as int) =~= names);
    Delegations { keys, roles }
}

/// What came of an edit: the files, and the roles that changed or the problem that stopped it.
pub struct Edit {
    pub files: Files,
    pub changed: Result<Seq<Seq<char>>, Fault>,
}

/// The edit before anything was done.
pub open spec fn unedited(files: Files) -> Edit {
    Edit { files, changed: Ok(Seq::empty()) }
}

/// The edit, unless it was stopped, with an update of `role`.
pub open spec fn updated(
    e: Edit,
    base: Files,
    role: Seq<char>,
    conf: RoleConfigView,
    now: int,
    renew: bool,
    content: Result<ContentView, Fault>,
) -> Edit {
    match (e.changed, content) {
        (Err(_), _) => e,
        (Ok(_), Err(f)) => Edit { files: e.files, changed: Err(f) },
        (Ok(changed), Ok(c)) => match update_of(e.files, base, role, conf, now, renew, c) {
            Err(f) => Edit { files: e.files, changed: Err(f) },
            Ok((files, true)) => Edit { files, changed: Ok(changed.push(role)) },
            Ok((files, false)) => Edit { files, changed: Ok(changed) },
        },
    }
}

/// Whether `role` is to have a new version since the config it was built from made it valid for
/// another number of days.
pub open spec fn validity_changed(
    c: ConfigView,
    previous: Option<ConfigView>,
    role: Seq<char>,
) -> bool {
    previous matches Some(p) && p.roles.dom().contains(role) && p.roles[role].expires_days
        != c.roles[role].expires_days
}

/// The targets that `role` lists, none if it has no metadata.
pub open spec fn targets_listed(files: Files, role: Seq<char>) -> Result<
    Map<Seq<char>, DescriptionView>,
    Fault,
> {
    match repo::metadata_of(files, Kind::Targets, role) {
        Ok(Some((_, ContentView::Targets(t)))) => Ok(t.targets),
        Ok(_) => Ok(Map::empty()),
        Err(e) => Err(e),
    }
}

/// What `role` says with the given delegations in place of its own.
pub open spec fn with_delegations(files: Files, role: Seq<char>, d: DelegationsView) -> Result<
    ContentView,
    Fault,
> {
    match targets_listed(files, role) {
        Err(e) => Err(e),
        Ok(targets) => if documents::delegations_text(d) is Some {
            Ok(ContentView::Targets(TargetsView { targets, delegations: d }))
        } else {
            Err(Problem::Unwritable { role })
        },
    }
}

/// Whether `role` has metadata but no place in the config any more.
pub open spec fn gone(c: ConfigView, role: Seq<char>) -> bool {
    role != "targets"@ && !c.roles.dom().contains(role)
}

/// The roles that have metadata but no place in the config any more.
pub open spec fn gone_roles(files: Files, c: ConfigView) -> Seq<Seq<char>> {
    repo::targets_roles_of(files).filter(|role: Seq<char>| gone(c, role))
}

/// The files without those of the roles.
pub open spec fn without(files: Files, roles: Seq<Seq<char>>) -> Files
    decreases roles.len(),
{
    if roles.len() == 0 {
        files
    } else {
        without(files, roles.drop_last()).remove(repo::file_name(roles.last()))
    }
}

/// The edit, unless it was stopped, with the roles removed that are gone from the config.
pub open spec fn cleared(e: Edit, c: ConfigView) -> Edit {
    match e.changed {
        Err(_) => e,
        Ok(changed) => Edit {
            files: without(e.files, gone_roles(e.files, c)),
            changed: Ok(changed + gone_roles(e.files, c)),
        },
    }
}

/// The edit with updates of the delegated roles `names`.
pub open spec fn delegations_applied(
    e: Edit,
    c: ConfigView,
    previous: Option<ConfigView>,
    base: Files,
    now: int,
    names: Seq<Seq<char>>,
) -> Edit
    decreases names.len(),
{
    if names.len() == 0 {
        e
    } else {
        let earlier = delegations_applied(e, c, previous, base, now, names.drop_last());
        let role = names.last();
        updated(
            earlier,
            base,
            role,
            c.roles[role],
            now,
            validity_changed(c, previous, role),
            with_delegations(earlier.files, role, metadata::no_delegations()),
        )
    }
}

/// The edit that brings root in line with the config.
pub open spec fn root_applied(
    files: Files,
    c: ConfigView,
    previous: Option<ConfigView>,
    base: Files,
    now: int,
) -> Edit {
    updated(
        unedited(files),
        base,
        "root"@,
        c.roles["root"@],
        now,
        validity_changed(c, previous, "root"@),
        Ok(ContentView::Root(root_content(c))),
    )
}

/// The edit that brings root and `targets` in line with the config.
pub open spec fn targets_applied(
    files: Files,
    c: ConfigView,
    previous: Option<ConfigView>,
    base: Files,
    now: int,
) -> Edit {
    let e = root_applied(files, c, previous, base, now);
    updated(
        e,
        base,
        "targets"@,
        c.roles["targets"@],
        now,
        validity_changed(c, previous, "targets"@),
        with_delegations(e.files, "targets"@, delegations_content(c)),
    )
}

/// The edit that brings root, `targets` and the delegated roles in line with the config: roles that
/// are gone from it are removed, and any role in its signing period, or valid for another number of
/// days than in the previous config, gets a new version.
pub open spec fn apply_of(
    files: Files,
    c: ConfigView,
    previous: Option<ConfigView>,
    base: Files,
    now: int,
) -> Edit {
    delegations_applied(
        cleared(targets_applied(files, c, previous, base, now), c),
        c,
        previous,
        base,
        now,
        config::delegated(c),
    )
}

/// Whether an edit is what came of a function that returns the roles that changed.
pub open spec fn edited(e: Edit, files: Files, r: Result<Vec<String>, Error>) -> bool {
    e.files == files && e.changed == repo::listed(r)
}

/// Whether the edit is what came of it so far.
pub open spec fn so_far(e: Edit, files: Files, changed: Seq<String>) -> bool {
    e.files == files && e.changed == Ok::<Seq<Seq<char>>, Fault>(text::views(changed))
}

/// Whether the edit is what came of a step: what came so far, or the problem that stopped it.
pub open spec fn came_to(e: Edit, files: Files, changed: Seq<String>, r: Result<(), Error>) -> bool {
    match r {
        Ok(_) => so_far(e, files, changed),
        Err(problem) => e.files == files && e.changed == Err::<Seq<Seq<char>>, Fault>(problem@),
    }
}

/// A config as contracts speak of it, if there is one.
pub open spec fn config_view(c: Option<&Config>) -> Option<ConfigView> {
    match c {
        Some(c) => Some(c@),
        None => None,
    }
}

fn is_validity_changed(config: &Config, previous: Option<&Config>, role: &str) -> (r: bool)
    requires
        config@.roles.dom().contains(role@),
    ensures
        r == validity_changed(config@, config_view(previous), role@),
{
    match previous {
        None => false,
        Some(p) => match (p.roles().get(role), config.roles().get(role)) {
            (Some(a), Some(b)) => a.expires_days != b.expires_days,
            _ => false,
        },
    }
}

/// A stopped edit stays as it is.
proof fn stopped(
    e: Edit,
    c: ConfigView,
    previous: Option<ConfigView>,
    base: Files,
    now: int,
    names: Seq<Seq<char>>,
)
    requires
        e.changed is Err,
    ensures
        delegations_applied(e, c, previous, base, now, names) == e,
    decreases names.len(),
{
    if names.len() > 0 {
        stopped(e, c, previous, base, now, names.drop_last());
    }
}

/// An edit that was stopped on the way is the whole edit.
proof fn stopped_at(
    e: Edit,
    c: ConfigView,
    previous: Option<ConfigView>,
    base: Files,
    now: int,
    names: Seq<Seq<char>>,
    i: int,
)
    requires
        0 <= i <= names.len(),
        delegations_applied(e, c, previous, base, now, names.take(i)).changed is Err,
    ensures
        delegations_applied(e, c, previous, base, now, names) == delegations_applied(
            e,
            c,
            previous,
            base,
            now,
            names.take(i),
        ),
    decreases names.len(),
{
    if i < names.len() {
        assert(names.drop_last().take(i) =~= names.take(i));
        stopped_at(e, c, previous, base, now, names.drop_last(), i);
    } else {
        assert(names.take(i) =~= names);
    }
}

/// Whether two states agree on all that decides whether `role` needs a new version.
pub open spec fn agree_on(a: Files, b: Files, role: Seq<char>) -> bool {
    &&& repo::raw_of(a, role) == repo::raw_of(b, role)
    &&& config::top_level(role) ==> repo::raw_of(a, "root"@) == repo::raw_of(b, "root"@)
    &&& !config::top_level(role) ==> repo::raw_of(a, "targets"@) == repo::raw_of(b, "targets"@)
}

proof fn missing_agrees(
    a: Files,
    b: Files,
    role: Seq<char>,
    needs: Seq<(int, Seq<KeyView>)>,
)
    requires
        repo::raw_of(a, role) == repo::raw_of(b, role),
    ensures
        repo::missing_for_all(a, role, needs) == repo::missing_for_all(b, role, needs),
    decreases needs.len(),
{
    if needs.len() > 0 {
        missing_agrees(a, b, role, needs.drop_last());
        assert(repo::signed_part(a, role) == repo::signed_part(b, role));
        assert(repo::missing_for(a, role, needs.last()) == repo::missing_for(b, role, needs.last()));
    }
}

/// Whether `role` needs a new version depends only on its own metadata and on that of the role that
/// says who signs it.
pub proof fn settled_elsewhere(
    a: Files,
    b: Files,
    base: Files,
    role: Seq<char>,
    conf: RoleConfigView,
    now: int,
    content: ContentView,
)
    requires
        agree_on(a, b, role),
        settled(a, base, role, conf, now, content),
    ensures
        settled(b, base, role, conf, now, content),
{
    let kind = metadata::content_kind(content);
    assert(repo::metadata_of(a, kind, role) == repo::metadata_of(b, kind, role));
    assert(repo::role_keys_of(a, role) == repo::role_keys_of(b, role));
    assert(repo::requirements_of(a, base, role) == repo::requirements_of(b, base, role));
    if repo::requirements_of(a, base, role) is Ok {
        missing_agrees(a, b, role, repo::requirements_of(a, base, role)->Ok_0);
    }
}

/// Settled metadata has the content.
proof fn settled_content(
    files: Files,
    base: Files,
    role: Seq<char>,
    conf: RoleConfigView,
    now: int,
    content: ContentView,
)
    requires
        settled(files, base, role, conf, now, content),
    ensures
        repo::metadata_of(files, metadata::content_kind(content), role) matches Ok(Some(m))
            && m.1 == content,
{
}

/// An update of a role other than root touches no other role.
proof fn update_frame(
    files: Files,
    base: Files,
    role: Seq<char>,
    conf: RoleConfigView,
    now: int,
    renew: bool,
    content: ContentView,
    after: Files,
    changed: bool,
)
    requires
        role != "root"@,
        update_of(files, base, role, conf, now, renew, content) == Ok::<(Files, bool), Fault>(
            (after, changed),
        ),
    ensures
        forall|x: Seq<char>| x != role ==> #[trigger] repo::raw_of(after, x) == repo::raw_of(files, x),
        forall|name: Seq<char>| #[trigger]
            after.dom().contains(name) ==> files.dom().contains(name) || name == repo::file_name(
                role,
            ),
        files.dom().finite() ==> after.dom().finite(),
{
    assert forall|x: Seq<char>| x != role implies #[trigger] repo::raw_of(after, x)
        == repo::raw_of(files, x) by {
        repo::file_name_injective(x, role);
    }
}

/// Whether `role`, with the given delegations, needs no new version.
#[verifier::opaque]
pub open spec fn role_settled(
    files: Files,
    c: ConfigView,
    base: Files,
    now: int,
    role: Seq<char>,
    d: DelegationsView,
) -> bool {
    with_delegations(files, role, d) matches Ok(content) && settled(
        files,
        base,
        role,
        c.roles[role],
        now,
        content,
    )
}

/// Whether there is no metadata of a role that is gone from the config.
#[verifier::opaque]
pub open spec fn none_gone(files: Files, c: ConfigView) -> bool {
    forall|name: Seq<char>| #[trigger]
        files.dom().contains(name) && repo::role_of(name) is Some && repo::lists_targets(
            repo::role_of(name)->0,
        ) ==> !gone(c, repo::role_of(name)->0)
}

/// A role that was settled stays so while others are updated.
proof fn role_settled_elsewhere(
    a: Files,
    b: Files,
    c: ConfigView,
    base: Files,
    now: int,
    role: Seq<char>,
    d: DelegationsView,
)
    requires
        agree_on(a, b, role),
        role_settled(a, c, base, now, role, d),
    ensures
        role_settled(b, c, base, now, role, d),
{
    reveal(role_settled);
    settled_elsewhere(
        a,
        b,
        base,
        role,
        c.roles[role],
        now,
        with_delegations(a, role, d)->Ok_0,
    );
}

/// The roles that are gone are removed.
proof fn cleared_none_gone(files: Files, c: ConfigView)
    requires
        files.dom().finite(),
    ensures
        none_gone(without(files, gone_roles(files, c)), c),
        without(files, gone_roles(files, c)).dom().finite(),
        forall|x: Seq<char>| !gone_roles(files, c).contains(x) ==> #[trigger] repo::raw_of(
            without(files, gone_roles(files, c)),
            x,
        ) == repo::raw_of(files, x),
{
    reveal(none_gone);
    let roles = gone_roles(files, c);
    let after = without(files, roles);
    without_holds(files, roles);
    assert forall|name: Seq<char>| #[trigger]
        after.dom().contains(name) && repo::role_of(name) is Some && repo::lists_targets(
            repo::role_of(name)->0,
        ) implies !gone(c, repo::role_of(name)->0) by {
        let role = repo::role_of(name)->0;
        repo::role_of_file(name);
        repo::targets_role_has_file(files, role);
        repo::filter_holds(
            repo::targets_roles_of(files),
            |role: Seq<char>| gone(c, role),
            role,
        );
    }
    assert forall|x: Seq<char>| !roles.contains(x) implies #[trigger] repo::raw_of(after, x)
        == repo::raw_of(files, x) by {
        assert forall|i: int| 0 <= i < roles.len() implies repo::file_name(#[trigger] roles[i])
            != repo::file_name(x) by {
            repo::file_name_injective(roles[i], x);
            assert(roles.contains(roles[i]));
        }
    }
}

proof fn without_holds(files: Files, roles: Seq<Seq<char>>)
    requires
        files.dom().finite(),
    ensures
        without(files, roles).dom().finite(),
        forall|name: Seq<char>| #[trigger]
            without(files, roles).dom().contains(name) <==> files.dom().contains(name) && forall|i: int|
                0 <= i < roles.len() ==> repo::file_name(#[trigger] roles[i]) != name,
        forall|name: Seq<char>| #[trigger]
            without(files, roles).dom().contains(name) ==> without(files, roles)[name]
                == files[name],
    decreases roles.len(),
{
    if roles.len() > 0 {
        let t = roles.drop_last();
        without_holds(files, t);
        assert forall|name: Seq<char>| #[trigger]
            without(files, roles).dom().contains(name) <==> files.dom().contains(name) && forall|i: int|
                0 <= i < roles.len() ==> repo::file_name(#[trigger] roles[i]) != name by {
            if without(files, roles).dom().contains(name) {
                assert(without(files, t).dom().contains(name));
                assert forall|i: int| 0 <= i < roles.len() implies repo::file_name(
                    #[trigger] roles[i],
                ) != name by {
                    if i < t.len() {
                        assert(repo::file_name(t[i]) != name);
                    }
                }
            }
            if files.dom().contains(name) && forall|i: int|
                0 <= i < roles.len() ==> repo::file_name(#[trigger] roles[i]) != name {
                assert forall|i: int| 0 <= i < t.len() implies repo::file_name(#[trigger] t[i])
                    != name by {
                    assert(repo::file_name(roles[i]) != name);
                }
                assert(repo::file_name(roles[roles.len() - 1]) != name);
            }
        }
    }
}

/// Whether the metadata is in line with the config, so that applying it changes nothing.
pub open spec fn in_line(files: Files, c: ConfigView, base: Files, now: int) -> bool {
    &&& settled(files, base, "root"@, c.roles["root"@], now, ContentView::Root(root_content(c)))
    &&& role_settled(files, c, base, now, "targets"@, delegations_content(c))
    &&& none_gone(files, c)
    &&& forall|i: int|
        0 <= i < config::delegated(c).len() ==> role_settled(
            files,
            c,
            base,
            now,
            #[trigger] config::delegated(c)[i],
            metadata::no_delegations(),
        )
}

/// Whether no role was valid for another number of days in the previous config.
pub open spec fn same_validity(c: ConfigView, previous: Option<ConfigView>) -> bool {
    forall|role: Seq<char>|
        c.roles.dom().contains(role) ==> !#[trigger] validity_changed(c, previous, role)
}

/// Applying a config that the metadata is in line with changes nothing, where the metadata was not
/// built from a config with other numbers of days.
pub proof fn applying_again_changes_nothing(
    files: Files,
    c: ConfigView,
    previous: Option<ConfigView>,
    base: Files,
    now: int,
)
    requires
        files.dom().finite(),
        config::valid(c),
        in_line(files, c, base, now),
        same_validity(c, previous),
    ensures
        apply_of(files, c, previous, base, now) == unedited(files),
{
    reveal(role_settled);
    reveal(none_gone);
    config::valid_top_level(c, "root"@);
    config::valid_top_level(c, "targets"@);
    delegated_holds(c);
    assert(root_applied(files, c, previous, base, now) == unedited(files));
    assert(targets_applied(files, c, previous, base, now) == unedited(files));
    let roles = repo::targets_roles_of(files);
    let p = |role: Seq<char>| gone(c, role);
    if gone_roles(files, c).len() > 0 {
        let role = gone_roles(files, c)[0];
        assert(gone_roles(files, c).contains(role));
        repo::filter_holds(roles, p, role);
        repo::targets_role_has_file(files, role);
        let name = choose|name: Seq<char>| #[trigger]
            files.dom().contains(name) && repo::role_of(name) == Some(role);
        assert(false);
    }
    assert(Seq::<Seq<char>>::empty() + gone_roles(files, c) =~= Seq::empty());
    assert(cleared(unedited(files), c) == unedited(files));
    settled_delegations(files, c, previous, base, now, config::delegated(c));
}

/// A config has the same numbers of days as itself.
proof fn applied_twice(files: Files, c: ConfigView, base: Files, now: int)
    requires
        files.dom().finite(),
        config::valid(c),
        in_line(files, c, base, now),
    ensures
        apply_of(files, c, None, base, now) == unedited(files),
        apply_of(files, c, Some(c), base, now) == unedited(files),
{
    applying_again_changes_nothing(files, c, None, base, now);
    applying_again_changes_nothing(files, c, Some(c), base, now);
}

/// What an update of a role other than root leaves as it was.
proof fn updated_frame(
    before: Edit,
    after: Edit,
    base: Files,
    role: Seq<char>,
    conf: RoleConfigView,
    now: int,
    renew: bool,
    content: ContentView,
)
    requires
        role != "root"@,
        before.changed is Ok,
        after == updated(before, base, role, conf, now, renew, Ok(content)),
        after.changed is Ok,
    ensures
        forall|x: Seq<char>|
            x != role ==> #[trigger] repo::raw_of(after.files, x) == repo::raw_of(before.files, x),
        forall|name: Seq<char>| #[trigger]
            after.files.dom().contains(name) ==> before.files.dom().contains(name) || name
                == repo::file_name(role),
        before.files.dom().finite() ==> after.files.dom().finite(),
{
    let u = update_of(before.files, base, role, conf, now, renew, content);
    update_frame(
        before.files,
        base,
        role,
        conf,
        now,
        renew,
        content,
        (u->Ok_0).0,
        (u->Ok_0).1,
    );
}

/// New versions stay as they are while another role is updated.
proof fn fresh_after(
    before: Edit,
    after: Edit,
    base: Files,
    c: ConfigView,
    now: int,
    role: Seq<char>,
    renew: bool,
    content: ContentView,
)
    requires
        role != "root"@,
        before.changed is Ok,
        after == updated(before, base, role, c.roles[role], now, renew, Ok(content)),
        after.changed is Ok,
        all_fresh(before.files, base, c, now, before.changed->Ok_0),
        after.changed->Ok_0.len() > before.changed->Ok_0.len() ==> fresh_version(
            after.files,
            base,
            role,
            c.roles[role].expires_days,
            now,
        ),
    ensures
        all_fresh(after.files, base, c, now, after.changed->Ok_0),
{
    reveal(all_fresh);
    updated_frame(before, after, base, role, c.roles[role], now, renew, content);
    let old_roles = before.changed->Ok_0;
    let new_roles = after.changed->Ok_0;
    assert forall|i: int| 0 <= i < new_roles.len() && c.roles.dom().contains(
        #[trigger] new_roles[i],
    ) implies fresh_version(
        after.files,
        base,
        new_roles[i],
        c.roles[new_roles[i]].expires_days,
        now,
    ) by {
        if i < old_roles.len() {
            assert(new_roles[i] == old_roles[i]);
            if new_roles[i] != role {
                assert(repo::raw_of(after.files, new_roles[i]) == repo::raw_of(
                    before.files,
                    new_roles[i],
                ));
            }
        }
    }
}

/// An update of a configured role brings no metadata of a role that is gone.
proof fn none_gone_after(before: Files, after: Files, c: ConfigView, role: Seq<char>)
    requires
        none_gone(before, c),
        c.roles.dom().contains(role),
        forall|name: Seq<char>| #[trigger]
            after.dom().contains(name) ==> before.dom().contains(name) || name == repo::file_name(
                role,
            ),
    ensures
        none_gone(after, c),
{
    reveal(none_gone);
    assert forall|name: Seq<char>| #[trigger]
        after.dom().contains(name) && repo::role_of(name) is Some && repo::lists_targets(
            repo::role_of(name)->0,
        ) implies !gone(c, repo::role_of(name)->0) by {
        if !before.dom().contains(name) {
            repo::role_of_file(name);
            repo::file_name_injective(repo::role_of(name)->0, role);
        }
    }
}

/// A role with content of its own is settled once that content is.
proof fn content_settled(
    files: Files,
    c: ConfigView,
    base: Files,
    now: int,
    role: Seq<char>,
    content: ContentView,
)
    requires
        content is Targets,
        documents::delegations_text(content->Targets_0.delegations) is Some,
        settled(files, base, role, c.roles[role], now, content),
    ensures
        role_settled(files, c, base, now, role, content->Targets_0.delegations),
{
    reveal(role_settled);
    settled_content(files, base, role, c.roles[role], now, content);
}

/// The delegated roles of a valid config are configured, none of them is top-level, and they are
/// in order.
pub proof fn delegated_holds(c: ConfigView)
    requires
        config::valid(c),
    ensures
        strmap::ascending(config::delegated(c)),
        forall|i: int|
            0 <= i < config::delegated(c).len() ==> c.roles.dom().contains(
                #[trigger] config::delegated(c)[i],
            ) && !config::top_level(config::delegated(c)[i]),
{
    let names = config::role_names(c);
    let p = |name: Seq<char>| c.roles[name].paths.len() > 0;
    strmap::listing_exists(c.roles.dom());
    strmap::filter_ascending(names, p);
    assert forall|i: int| 0 <= i < config::delegated(c).len() implies c.roles.dom().contains(
        #[trigger] config::delegated(c)[i],
    ) && !config::top_level(config::delegated(c)[i]) by {
        let name = config::delegated(c)[i];
        assert(config::delegated(c).contains(name));
        repo::filter_holds(names, p, name);
        assert(names.to_set().contains(name));
        config::valid_role(c, name);
    }
}

/// The delegated roles that were settled stay so while the next is.
proof fn settled_one_more(
    before: Files,
    after: Files,
    c: ConfigView,
    base: Files,
    now: int,
    names: Seq<Seq<char>>,
    i: int,
)
    requires
        0 <= i < names.len(),
        strmap::ascending(names),
        forall|j: int| 0 <= j < names.len() ==> !config::top_level(#[trigger] names[j]),
        forall|j: int|
            0 <= j < i ==> role_settled(
                before,
                c,
                base,
                now,
                #[trigger] names[j],
                metadata::no_delegations(),
            ),
        role_settled(after, c, base, now, names[i], metadata::no_delegations()),
        forall|x: Seq<char>|
            x != names[i] ==> #[trigger] repo::raw_of(after, x) == repo::raw_of(before, x),
    ensures
        forall|j: int|
            0 <= j < i + 1 ==> role_settled(
                after,
                c,
                base,
                now,
                #[trigger] names[j],
                metadata::no_delegations(),
            ),
{
    assert forall|j: int| 0 <= j < i + 1 implies role_settled(
        after,
        c,
        base,
        now,
        #[trigger] names[j],
        metadata::no_delegations(),
    ) by {
        if j < i {
            text::precedes_irreflexive(names[j]);
            assert(text::precedes(names[j], names[i]));
            assert(repo::raw_of(after, names[j]) == repo::raw_of(before, names[j]));
            assert(repo::raw_of(after, "targets"@) == repo::raw_of(before, "targets"@));
            role_settled_elsewhere(
                before,
                after,
                c,
                base,
                now,
                names[j],
                metadata::no_delegations(),
            );
        }
    }
}

proof fn settled_delegations(
    files: Files,
    c: ConfigView,
    previous: Option<ConfigView>,
    base: Files,
    now: int,
    names: Seq<Seq<char>>,
)
    requires
        same_validity(c, previous),
        forall|i: int| 0 <= i < names.len() ==> c.roles.dom().contains(#[trigger] names[i]),
        forall|i: int|
            0 <= i < names.len() ==> role_settled(
                files,
                c,
                base,
                now,
                #[trigger] names[i],
                metadata::no_delegations(),
            ),
    ensures
        delegations_applied(unedited(files), c, previous, base, now, names) == unedited(files),
    decreases names.len(),
{
    reveal(role_settled);
    if names.len() > 0 {
        settled_delegations(files, c, previous, base, now, names.drop_last());
        assert(names[names.len() - 1] == names.last());
    }
}

impl Repo {
    /// Updates `role` and notes if it changed.
    fn step(
        &mut self,
        changed: &mut Vec<String>,
        base: &Repo,
        role: &str,
        conf: &RoleConfig,
        now: &Time,
        renew: bool,
        content: &Content,
    ) -> (r: Result<(), Error>)
        requires
            metadata::sound(content@),
            content@ matches ContentView::Snapshot(m) ==> documents::all_bare(m),
            renewable(conf@, now@),
        ensures
            ({
                let before = Edit {
                    files: old(self)@,
                    changed: Ok(text::views(old(changed)@)),
                };
                let after = updated(before, base@, role@, conf@, now@, renew, Ok(content@));
                came_to(after, final(self)@, final(changed)@, r)
            }),
            r is Ok && metadata::content_kind(content@) == metadata::kind_of(role@)
                && final(changed)@.len() > old(changed)@.len() ==> fresh_version(
                final(self)@,
                base@,
                role@,
                conf@.expires_days,
                now@,
            ),
            r is Ok && metadata::regular(content@) ==> settled(
                final(self)@,
                base@,
                role@,
                conf@,
                now@,
                content@,
            ),
            r is Ok ==> took(
                old(self)@,
                final(self)@,
                role@,
                content@,
                final(changed)@.len() > old(changed)@.len(),
            ),
    {
        match self.update(base, role, conf, now, renew, content) {
            Ok(true) => {
                changed.push(role.to_owned());
                Ok(())
            },
            Ok(false) => Ok(()),
            Err(e) => Err(e),
        }
    }

    /// What `role` says with the given delegations in place of its own.
    fn content_with(&self, role: &str, d: Delegations) -> (r: Result<Content, Error>)
        requires
            documents::keys_defined(d@.keys),
        ensures
            error::outcome(r) == with_delegations(self@, role@, d@),
            r matches Ok(c) ==> metadata::sound(c@) && c@ is Targets,
    {
        let targets = match self.metadata(Kind::Targets, role) {
            Ok(Some(m)) => match m.content {
                Content::Targets(t) => t.targets,
                _ => StrMap::new(),
            },
            Ok(None) => StrMap::new(),
            Err(e) => {
                return Err(e);
            },
        };
        match metadata::delegations_text(&d) {
            Some(_) => Ok(Content::Targets(Targets { targets, delegations: d })),
            None => Err(Problem::Unwritable { role: role.to_owned() }),
        }
    }

    /// Removes the roles that are gone from the config.
    fn clear(&mut self, changed: &mut Vec<String>, config: &Config)
        ensures
            so_far(
                cleared(
                    Edit { files: old(self)@, changed: Ok(text::views(old(changed)@)) },
                    config@,
                ),
                final(self)@,
                final(changed)@,
            ),
            old(self)@.dom().finite(),
    {
        let ghost start = self@;
        let ghost noted = text::views(changed@);
        let roles = self.targets_roles();
        let ghost all = text::views(roles@);
        let ghost p = |role: Seq<char>| gone(config@, role);
        let mut i: usize = 0;
        proof {
            reveal(Seq::filter);
            assert(all.take(0).filter(p) =~= Seq::empty());
            assert(noted + Seq::<Seq<char>>::empty() =~= noted);
        }
        while i < roles.len()
            invariant
                i <= roles.len(),
                all == text::views(roles@),
                p == (|role: Seq<char>| gone(config@, role)),
                start == old(self)@,
                start.dom().finite(),
                self@ == without(start, all.take(i as int).filter(p)),
                text::views(changed@) == noted + all.take(i as int).filter(p),
            decreases roles.len() - i,
        {
            let role = &roles[i];
            proof {
                reveal(Seq::filter);
                assert(all.take(i + 1).drop_last() =~= all.take(i as int));
                assert(all.take(i + 1).last() == role@);
                let f = all.take(i as int).filter(p);
                assert(f.push(role@).drop_last() =~= f);
                assert(noted + f.push(role@) =~= (noted + f).push(role@));
            }
            if !text::same(role.as_str(), "targets") && !config.roles().contains(role.as_str()) {
                self.discard(role.as_str());
                changed.push(role.clone());
            }
            i = i + 1;
        }
        assert(all.take(i as int) =~= all);
    }

    /// Brings root in line with the config.
    fn apply_root(
        &mut self,
        changed: &mut Vec<String>,
        config: &Config,
        previous: Option<&Config>,
        base: &Repo,
        now: &Time,
    ) -> (r: Result<(), Error>)
        requires
            config::expiries_in_calendar(config@, now@),
            text::views(old(changed)@) == Seq::<Seq<char>>::empty(),
        ensures
            ({
                let after = root_applied(
                    old(self)@,
                    config@,
                    config_view(previous),
                    base@,
                    now@,
                );
                came_to(after, final(self)@, final(changed)@, r)
            }),
            r is Ok ==> settled(
                final(self)@,
                base@,
                "root"@,
                config@.roles["root"@],
                now@,
                ContentView::Root(root_content(config@)),
            ),
            r is Ok ==> all_fresh(
                final(self)@,
                base@,
                config@,
                now@,
                text::views(final(changed)@),
            ),
            r is Ok ==> took(
                old(self)@,
                final(self)@,
                "root"@,
                ContentView::Root(root_content(config@)),
                final(changed)@.len() > old(changed)@.len(),
            ),
    {
        let root = top_level_config(config, "root");
        proof {
            config::valid_role(config@, "root"@);
        }
        let renew = is_validity_changed(config, previous, "root");
        let content = Content::Root(root_of_config(config));
        proof {
            reveal(all_fresh);
        }
        self.step(changed, base, "root", root, now, renew, &content)
    }

    /// Brings `targets` in line with the config, after root.
    fn apply_targets(
        &mut self,
        changed: &mut Vec<String>,
        config: &Config,
        previous: Option<&Config>,
        base: &Repo,
        now: &Time,
    ) -> (r: Result<(), Error>)
        requires
            config::expiries_in_calendar(config@, now@),
        ensures
            ({
                let before = Edit {
                    files: old(self)@,
                    changed: Ok(text::views(old(changed)@)),
                };
                let after = updated(
                    before,
                    base@,
                    "targets"@,
                    config@.roles["targets"@],
                    now@,
                    validity_changed(config@, config_view(previous), "targets"@),
                    with_delegations(before.files, "targets"@, delegations_content(config@)),
                );
                came_to(after, final(self)@, final(changed)@, r)
            }),
            r is Ok ==> role_settled(
                final(self)@,
                config@,
                base@,
                now@,
                "targets"@,
                delegations_content(config@),
            ),
            r is Ok ==> forall|x: Seq<char>|
                x != "targets"@ ==> #[trigger] repo::raw_of(final(self)@, x) == repo::raw_of(
                    old(self)@,
                    x,
                ),
            r is Ok ==> targets_listed(old(self)@, "targets"@) is Ok && targets_listed(
                final(self)@,
                "targets"@,
            ) == targets_listed(old(self)@, "targets"@),
            r is Ok && all_fresh(old(self)@, base@, config@, now@, text::views(old(changed)@))
                ==> all_fresh(final(self)@, base@, config@, now@, text::views(final(changed)@)),
    {
        let ghost before = Edit { files: self@, changed: Ok(text::views(changed@)) };
        let content = match self.content_with("targets", config_delegations(config)) {
            Ok(c) => c,
            Err(e) => {
                return Err(e);
            },
        };
        let targets = top_level_config(config, "targets");
        proof {
            config::valid_role(config@, "targets"@);
            config::different_top_level();
        }
        let renew = is_validity_changed(config, previous, "targets");
        let r = self.step(changed, base, "targets", targets, now, renew, &content);
        proof {
            if r is Ok {
                let after = Edit { files: self@, changed: Ok(text::views(changed@)) };
                updated_frame(before, after, base@, "targets"@, targets@, now@, renew, content@);
                content_settled(self@, config@, base@, now@, "targets"@, content@);
                if all_fresh(before.files, base@, config@, now@, before.changed->Ok_0) {
                    fresh_after(before, after, base@, config@, now@, "targets"@, renew, content@);
                }
            }
        }
        r
    }

    /// Brings the delegated role `name` in line with the config.
    fn apply_delegation(
        &mut self,
        changed: &mut Vec<String>,
        config: &Config,
        previous: Option<&Config>,
        base: &Repo,
        now: &Time,
        name: &String,
    ) -> (r: Result<(), Error>)
        requires
            config::expiries_in_calendar(config@, now@),
            config@.roles.dom().contains(name@),
            !config::top_level(name@),
        ensures
            ({
                let before = Edit {
                    files: old(self)@,
                    changed: Ok(text::views(old(changed)@)),
                };
                let after = updated(
                    before,
                    base@,
                    name@,
                    config@.roles[name@],
                    now@,
                    validity_changed(config@, config_view(previous), name@),
                    with_delegations(before.files, name@, metadata::no_delegations()),
                );
                came_to(after, final(self)@, final(changed)@, r)
            }),
            r is Ok ==> role_settled(
                final(self)@,
                config@,
                base@,
                now@,
                name@,
                metadata::no_delegations(),
            ),
            r is Ok ==> forall|x: Seq<char>|
                x != name@ ==> #[trigger] repo::raw_of(final(self)@, x) == repo::raw_of(
                    old(self)@,
                    x,
                ),
            r is Ok ==> targets_listed(old(self)@, name@) is Ok && targets_listed(
                final(self)@,
                name@,
            ) == targets_listed(old(self)@, name@),
            r is Ok && none_gone(old(self)@, config@) ==> none_gone(final(self)@, config@),
            r is Ok && all_fresh(old(self)@, base@, config@, now@, text::views(old(changed)@))
                ==> all_fresh(final(self)@, base@, config@, now@, text::views(final(changed)@)),
            r is Ok && old(self)@.dom().finite() ==> final(self)@.dom().finite(),
    {
        let ghost before = Edit { files: self@, changed: Ok(text::views(changed@)) };
        let content = match self.content_with(name.as_str(), Delegations::none()) {
            Ok(c) => c,
            Err(e) => {
                return Err(e);
            },
        };
        proof {
            use_type_invariant(config);
            config::valid_role(config@, name@);
        }
        let conf = config.roles().get(name.as_str()).unwrap();
        let renew = is_validity_changed(config, previous, name.as_str());
        let r = self.step(changed, base, name.as_str(), conf, now, renew, &content);
        proof {
            if r is Ok {
                let after = Edit { files: self@, changed: Ok(text::views(changed@)) };
                updated_frame(before, after, base@, name@, conf@, now@, renew, content@);
                content_settled(self@, config@, base@, now@, name@, content@);
                if none_gone(before.files, config@) {
                    none_gone_after(before.files, self@, config@, name@);
                }
                if all_fresh(before.files, base@, config@, now@, before.changed->Ok_0) {
                    fresh_after(before, after, base@, config@, now@, name@, renew, content@);
                }
            }
        }
        r
    }

    /// Brings the delegated roles in line with the config.
    fn apply_delegations(
        &mut self,
        changed: &mut Vec<String>,
        config: &Config,
        previous: Option<&Config>,
        base: &Repo,
        now: &Time,
    ) -> (r: Result<(), Error>)
        requires
            config::expiries_in_calendar(config@, now@),
            old(self)@.dom().finite(),
            none_gone(old(self)@, config@),
            all_fresh(old(self)@, base@, config@, now@, text::views(old(changed)@)),
        ensures
            ({
                let before = Edit {
                    files: old(self)@,
                    changed: Ok(text::views(old(changed)@)),
                };
                let after = delegations_applied(
                    before,
                    config@,
                    config_view(previous),
                    base@,
                    now@,
                    config::delegated(config@),
                );
                came_to(after, final(self)@, final(changed)@, r)
            }),
            r is Ok ==> forall|i: int|
                0 <= i < config::delegated(config@).len() ==> role_settled(
                    final(self)@,
                    config@,
                    base@,
                    now@,
                    #[trigger] config::delegated(config@)[i],
                    metadata::no_delegations(),
                ),
            r is Ok ==> forall|x: Seq<char>|
                config::top_level(x) ==> #[trigger] repo::raw_of(final(self)@, x) == repo::raw_of(
                    old(self)@,
                    x,
                ),
            r is Ok ==> forall|i: int|
                0 <= i < config::delegated(config@).len() ==> listed_again(
                    old(self)@,
                    final(self)@,
                    #[trigger] config::delegated(config@)[i],
                ),
            r is Ok ==> none_gone(final(self)@, config@) && final(self)@.dom().finite(),
            r is Ok ==> all_fresh(
                final(self)@,
                base@,
                config@,
                now@,
                text::views(final(changed)@),
            ),
    {
        proof {
            use_type_invariant(config);
            delegated_holds(config@);
        }
        let ghost prev = config_view(previous);
        let ghost e0 = Edit { files: self@, changed: Ok(text::views(changed@)) };
        let listed = config.delegations();
        let ghost names = config::delegated(config@);
        let mut i: usize = 0;
        while i < listed.len()
            invariant
                i <= listed.len(),
                config::expiries_in_calendar(config@, now@),
                names == config::delegated(config@),
                prev == config_view(previous),
                e0.files == old(self)@,
                e0.changed == Ok::<Seq<Seq<char>>, Fault>(text::views(old(changed)@)),
                listed@.len() == names.len(),
                forall|i: int|
                    0 <= i < listed@.len() ==> (#[trigger] listed@[i]).0@ == names[i]
                        && config@.roles.dom().contains(listed@[i].0@) && listed@[i].1@
                        == config@.roles[listed@[i].0@],
                so_far(
                    delegations_applied(e0, config@, prev, base@, now@, names.take(i as int)),
                    self@,
                    changed@,
                ),
                self@.dom().finite(),
                none_gone(self@, config@),
                all_fresh(self@, base@, config@, now@, text::views(changed@)),
                forall|x: Seq<char>|
                    config::top_level(x) ==> #[trigger] repo::raw_of(self@, x) == repo::raw_of(
                        old(self)@,
                        x,
                    ),
                forall|j: int|
                    0 <= j < i ==> role_settled(
                        self@,
                        config@,
                        base@,
                        now@,
                        #[trigger] names[j],
                        metadata::no_delegations(),
                    ),
                forall|j: int|
                    0 <= j < i ==> listed_again(old(self)@, self@, #[trigger] names[j]),
                unnamed_kept(old(self)@, self@, names.take(i as int)),
                strmap::ascending(names),
                forall|j: int|
                    0 <= j < names.len() ==> config@.roles.dom().contains(#[trigger] names[j])
                        && !config::top_level(names[j]),
            decreases listed.len() - i,
        {
            let (name, _) = listed[i];
            let ghost before = self@;
            proof {
                assert(names.take(i + 1).drop_last() =~= names.take(i as int));
                assert(names.take(i + 1).last() == name@);
                assert(names[i as int] == name@);
            }
            match self.apply_delegation(changed, config, previous, base, now, name) {
                Ok(_) => {},
                Err(e) => {
                    proof {
                        stopped_at(e0, config@, prev, base@, now@, names, i + 1);
                    }
                    return Err(e);
                },
            }
            proof {
                settled_one_more(before, self@, config@, base@, now@, names, i as int);
                listed_one_more(old(self)@, before, self@, names, i as int);
            }
            i = i + 1;
        }
        assert(names.take(i as int) =~= names);
        Ok(())
    }

    /// Brings root, targets and the delegated roles in line with `config`, and starts a new version
    /// of any of them in its signing period, or which `previous`, the config that the metadata was
    /// built from, made valid for another number of days. Returns the roles that changed: they are
    /// removed, or have a version that is one more than in `base` and needs signing. The roles of the
    /// config list the targets that they listed. Applying the config once more changes nothing.
    #[verifier::rlimit(40)]
    pub fn apply_config(
        &mut self,
        config: &Config,
        previous: Option<&Config>,
        base: &Repo,
        now: &Time,
    ) -> (r: Result<Vec<String>, Error>)
        requires
            config::expiries_in_calendar(config@, now@),
        ensures
            edited(
                apply_of(old(self)@, config@, config_view(previous), base@, now@),
                final(self)@,
                r,
            ),
            r is Ok ==> {
                &&& all_fresh(final(self)@, base@, config@, now@, text::views(r->Ok_0@))
                &&& in_line(final(self)@, config@, base@, now@)
                &&& apply_of(final(self)@, config@, None, base@, now@) == unedited(final(self)@)
                &&& apply_of(final(self)@, config@, Some(config@), base@, now@) == unedited(
                    final(self)@,
                )
                &&& targets_kept(old(self)@, final(self)@, config@)
            },
    {
        let ghost prev = config_view(previous);
        let ghost start = self@;
        let ghost root_now = ContentView::Root(root_content(config@));
        let ghost names = config::delegated(config@);
        let mut changed: Vec<String> = Vec::new();
        assert(text::views(changed@) =~= Seq::<Seq<char>>::empty());
        match self.apply_root(&mut changed, config, previous, base, now) {
            Ok(_) => {},
            Err(e) => {
                proof {
                    let e1 = root_applied(start, config@, prev, base@, now@);
                    stopped(e1, config@, prev, base@, now@, names);
                }
                return Err(e);
            },
        }
        let ghost f1 = self@;
        match self.apply_targets(&mut changed, config, previous, base, now) {
            Ok(_) => {},
            Err(e) => {
                proof {
                    let e2 = targets_applied(start, config@, prev, base@, now@);
                    stopped(e2, config@, prev, base@, now@, names);
                }
                return Err(e);
            },
        }
        let ghost f2 = self@;
        let ghost changed2 = text::views(changed@);
        self.clear(&mut changed, config);
        let ghost f3 = self@;
        proof {
            clear_frame(f2, config@);
            clear_fresh(f2, base@, config@, now@, changed2);
        }
        match self.apply_delegations(&mut changed, config, previous, base, now) {
            Ok(_) => {},
            Err(e) => {
                return Err(e);
            },
        }
        proof {
            config::different_top_level();
            settled_through(f1, f2, f3, self@, config@, base@, now@);
            use_type_invariant(config);
            kept_through(start, f1, f2, self@, config@);
            applied_twice(self@, config@, base@, now@);
        }
        Ok(changed)
    }
}

/// Whether `role` lists the targets that it listed.
spec fn listed_again(before: Files, after: Files, role: Seq<char>) -> bool {
    targets_listed(before, role) is Ok && targets_listed(after, role) == targets_listed(before, role)
}

/// Whether each role of the config lists the targets that it listed.
pub open spec fn targets_kept(before: Files, after: Files, c: ConfigView) -> bool {
    forall|role: Seq<char>| #[trigger]
        c.roles.dom().contains(role) && repo::lists_targets(role) ==> targets_listed(after, role)
            == targets_listed(before, role)
}

/// One more delegated role lists what it listed.
proof fn listed_one_more(
    start: Files,
    before: Files,
    after: Files,
    names: Seq<Seq<char>>,
    i: int,
)
    requires
        0 <= i < names.len(),
        strmap::ascending(names),
        unnamed_kept(start, before, names.take(i)),
        forall|j: int| 0 <= j < i ==> listed_again(start, before, #[trigger] names[j]),
        forall|x: Seq<char>|
            x != names[i] ==> #[trigger] repo::raw_of(after, x) == repo::raw_of(before, x),
        listed_again(before, after, names[i]),
    ensures
        unnamed_kept(start, after, names.take(i + 1)),
        forall|j: int| 0 <= j <= i ==> listed_again(start, after, #[trigger] names[j]),
{
    let role = names[i];
    let done = names.take(i);
    text::precedes_irreflexive(role);
    assert(!done.contains(role));
    assert(names.take(i + 1) =~= done.push(role));
    unnamed_kept_after(start, before, after, done, role);
    assert(repo::raw_of(before, role) == repo::raw_of(start, role));
    assert forall|j: int| 0 <= j <= i implies listed_again(start, after, #[trigger] names[j]) by {
        if j < i {
            assert(text::precedes(names[j], names[i]));
            assert(repo::raw_of(after, names[j]) == repo::raw_of(before, names[j]));
        }
    }
}

/// What the roles of the config list stays to the end.
proof fn kept_through(start: Files, f1: Files, f2: Files, end: Files, c: ConfigView)
    requires
        config::valid(c),
        f2.dom().finite(),
        forall|x: Seq<char>|
            x != "root"@ ==> #[trigger] repo::raw_of(f1, x) == repo::raw_of(start, x)
                || repo::metadata_of(f1, Kind::Targets, x) is Err,
        forall|x: Seq<char>|
            x != "targets"@ ==> #[trigger] repo::raw_of(f2, x) == repo::raw_of(f1, x),
        listed_again(f1, f2, "targets"@),
        forall|x: Seq<char>|
            config::top_level(x) ==> #[trigger] repo::raw_of(end, x) == repo::raw_of(
                without(f2, gone_roles(f2, c)),
                x,
            ),
        forall|i: int|
            0 <= i < config::delegated(c).len() ==> listed_again(
                without(f2, gone_roles(f2, c)),
                end,
                #[trigger] config::delegated(c)[i],
            ),
    ensures
        targets_kept(start, end, c),
{
    config::different_top_level();
    cleared_none_gone(f2, c);
    let f3 = without(f2, gone_roles(f2, c));
    assert forall|role: Seq<char>| #[trigger] c.roles.dom().contains(role) && repo::lists_targets(
        role,
    ) implies targets_listed(end, role) == targets_listed(start, role) by {
        repo::filter_holds(repo::targets_roles_of(f2), |role: Seq<char>| gone(c, role), role);
        assert(repo::raw_of(f3, role) == repo::raw_of(f2, role));
        if role == "targets"@ {
            assert(repo::raw_of(end, role) == repo::raw_of(f3, role));
        } else {
            config::valid_role(c, role);
            strmap::listing_exists(c.roles.dom());
            repo::filter_holds(
                config::role_names(c),
                |name: Seq<char>| c.roles[name].paths.len() > 0,
                role,
            );
            assert(config::role_names(c).to_set().contains(role));
            assert(config::delegated(c).contains(role));
            let i = choose|i: int|
                0 <= i < config::delegated(c).len() && config::delegated(c)[i] == role;
            assert(listed_again(f3, end, config::delegated(c)[i]));
            assert(repo::raw_of(f2, role) == repo::raw_of(f1, role));
        }
        assert(repo::raw_of(f1, role) == repo::raw_of(start, role));
    }
}

/// Removing roles that are gone from the config leaves root and `targets` alone.
proof fn clear_frame(files: Files, c: ConfigView)
    requires
        files.dom().finite(),
    ensures
        none_gone(without(files, gone_roles(files, c)), c),
        without(files, gone_roles(files, c)).dom().finite(),
        repo::raw_of(without(files, gone_roles(files, c)), "root"@) == repo::raw_of(files, "root"@),
        repo::raw_of(without(files, gone_roles(files, c)), "targets"@) == repo::raw_of(
            files,
            "targets"@,
        ),
{
    config::different_top_level();
    cleared_none_gone(files, c);
    let p = |role: Seq<char>| gone(c, role);
    repo::filter_holds(repo::targets_roles_of(files), p, "root"@);
    repo::filter_holds(repo::targets_roles_of(files), p, "targets"@);
    repo::targets_role_has_file(files, "root"@);
}

/// Removing roles that are gone from the config leaves new versions as they are.
proof fn clear_fresh(files: Files, base: Files, c: ConfigView, now: int, changed: Seq<Seq<char>>)
    requires
        files.dom().finite(),
        all_fresh(files, base, c, now, changed),
    ensures
        all_fresh(
            without(files, gone_roles(files, c)),
            base,
            c,
            now,
            changed + gone_roles(files, c),
        ),
{
    reveal(all_fresh);
    cleared_none_gone(files, c);
    let removed = gone_roles(files, c);
    let after = without(files, removed);
    let p = |role: Seq<char>| gone(c, role);
    assert forall|i: int| 0 <= i < (changed + removed).len() && c.roles.dom().contains(
        #[trigger] (changed + removed)[i],
    ) implies fresh_version(
        after,
        base,
        (changed + removed)[i],
        c.roles[(changed + removed)[i]].expires_days,
        now,
    ) by {
        let role = (changed + removed)[i];
        repo::filter_holds(repo::targets_roles_of(files), p, role);
        if i < changed.len() {
            assert(changed[i] == role);
            if removed.contains(role) {
                config::different_top_level();
            }
            assert(repo::raw_of(after, role) == repo::raw_of(files, role));
        } else {
            assert(removed[i - changed.len()] == role);
            assert(removed.contains(role));
        }
    }
}

/// What was settled for root and for `targets` stays so to the end.
proof fn settled_through(
    f1: Files,
    f2: Files,
    f3: Files,
    f4: Files,
    c: ConfigView,
    base: Files,
    now: int,
)
    requires
        settled(f1, base, "root"@, c.roles["root"@], now, ContentView::Root(root_content(c))),
        role_settled(f2, c, base, now, "targets"@, delegations_content(c)),
        repo::raw_of(f2, "root"@) == repo::raw_of(f1, "root"@),
        repo::raw_of(f3, "root"@) == repo::raw_of(f2, "root"@),
        repo::raw_of(f3, "targets"@) == repo::raw_of(f2, "targets"@),
        repo::raw_of(f4, "root"@) == repo::raw_of(f3, "root"@),
        repo::raw_of(f4, "targets"@) == repo::raw_of(f3, "targets"@),
    ensures
        settled(f4, base, "root"@, c.roles["root"@], now, ContentView::Root(root_content(c))),
        role_settled(f4, c, base, now, "targets"@, delegations_content(c)),
{
    settled_elsewhere(
        f1,
        f4,
        base,
        "root"@,
        c.roles["root"@],
        now,
        ContentView::Root(root_content(c)),
    );
    role_settled_elsewhere(f2, f4, c, base, now, "targets"@, delegations_content(c));
}

/// Whether the delegation is responsible for the target `path`.
pub open spec fn delegated_path(d: DelegationView, path: Seq<char>) -> bool {
    exists|pattern: Seq<char>| #[trigger]
        d.paths.contains(pattern) && config::responsible(pattern, path)
}

/// The first of the roles that is responsible for the target `path`, else `targets`.
pub open spec fn first_responsible(roles: Seq<DelegationView>, path: Seq<char>) -> Seq<char>
    decreases roles.len(),
{
    if roles.len() == 0 {
        "targets"@
    } else if delegated_path(roles[0], path) {
        roles[0].name
    } else {
        first_responsible(roles.skip(1), path)
    }
}

/// The role that the target `path` belongs in.
pub open spec fn role_for(files: Files, path: Seq<char>) -> Result<Seq<char>, Fault> {
    match repo::targets_of(files, "targets"@) {
        Ok((_, t)) => Ok(first_responsible(t.delegations.roles, path)),
        Err(e) => Err(e),
    }
}

/// The targets by the roles they belong in.
pub open spec fn grouped(files: Files, targets: Seq<(Seq<char>, DescriptionView)>) -> Result<
    Map<Seq<char>, Map<Seq<char>, DescriptionView>>,
    Fault,
>
    decreases targets.len(),
{
    if targets.len() == 0 {
        Ok(Map::empty())
    } else {
        let (path, d) = targets.last();
        match grouped(files, targets.drop_last()) {
            Err(e) => Err(e),
            Ok(groups) => if !documents::names_target(path) {
                Err(Problem::TargetPath { path })
            } else {
                match role_for(files, path) {
                    Err(e) => Err(e),
                    Ok(role) => Ok(groups.insert(role, group(groups, role).insert(path, d))),
                }
            },
        }
    }
}

/// The targets of one role.
pub open spec fn group(groups: Map<Seq<char>, Map<Seq<char>, DescriptionView>>, role: Seq<char>) -> Map<
    Seq<char>,
    DescriptionView,
> {
    if groups.dom().contains(role) {
        groups[role]
    } else {
        Map::empty()
    }
}

/// What the metadata of `role` says with targets added to it, or replaced in it.
pub open spec fn with_targets(
    files: Files,
    c: ConfigView,
    role: Seq<char>,
    more: Map<Seq<char>, DescriptionView>,
) -> Result<ContentView, Fault> {
    match repo::targets_of(files, role) {
        Err(e) => Err(e),
        Ok((_, t)) => if c.roles.dom().contains(role) {
            Ok(
                ContentView::Targets(
                    TargetsView {
                        targets: t.targets.union_prefer_right(more),
                        delegations: t.delegations,
                    },
                ),
            )
        } else {
            Err(Problem::NotConfigured { role })
        },
    }
}

/// The edit with the targets added to the roles `names`.
pub open spec fn groups_added(
    e: Edit,
    c: ConfigView,
    base: Files,
    now: int,
    groups: Map<Seq<char>, Map<Seq<char>, DescriptionView>>,
    names: Seq<Seq<char>>,
) -> Edit
    decreases names.len(),
{
    if names.len() == 0 {
        e
    } else {
        let earlier = groups_added(e, c, base, now, groups, names.drop_last());
        let role = names.last();
        updated(
            earlier,
            base,
            role,
            c.roles[role],
            now,
            false,
            with_targets(earlier.files, c, role, groups[role]),
        )
    }
}

/// The edit that adds or replaces targets, in the roles their paths belong in.
pub open spec fn add_of(
    files: Files,
    c: ConfigView,
    base: Files,
    targets: Seq<(Seq<char>, DescriptionView)>,
    now: int,
) -> Edit {
    match grouped(files, targets) {
        Err(e) => Edit { files, changed: Err(e) },
        Ok(groups) => groups_added(
            unedited(files),
            c,
            base,
            now,
            groups,
            strmap::listing(groups.dom()),
        ),
    }
}

proof fn grouping_fails(files: Files, targets: Seq<(Seq<char>, DescriptionView)>, i: int)
    requires
        0 <= i <= targets.len(),
        grouped(files, targets.take(i)) is Err,
    ensures
        grouped(files, targets) == grouped(files, targets.take(i)),
    decreases targets.len(),
{
    if i < targets.len() {
        assert(targets.drop_last().take(i) =~= targets.take(i));
        grouping_fails(files, targets.drop_last(), i);
    } else {
        assert(targets.take(i) =~= targets);
    }
}

proof fn adding_stopped(
    e: Edit,
    c: ConfigView,
    base: Files,
    now: int,
    groups: Map<Seq<char>, Map<Seq<char>, DescriptionView>>,
    names: Seq<Seq<char>>,
    i: int,
)
    requires
        0 <= i <= names.len(),
        groups_added(e, c, base, now, groups, names.take(i)).changed is Err,
    ensures
        groups_added(e, c, base, now, groups, names) == groups_added(
            e,
            c,
            base,
            now,
            groups,
            names.take(i),
        ),
    decreases names.len(),
{
    if i < names.len() {
        assert(names.drop_last().take(i) =~= names.take(i));
        adding_stopped(e, c, base, now, groups, names.drop_last(), i);
    } else {
        assert(names.take(i) =~= names);
    }
}

/// Whether the roles among `changed` that list targets have new versions. Root is not among them.
pub open spec fn targets_fresh(
    files: Files,
    base: Files,
    c: ConfigView,
    now: int,
    changed: Seq<Seq<char>>,
) -> bool {
    forall|i: int|
        0 <= i < changed.len() ==> (#[trigger] changed[i]) != "root"@ && (repo::lists_targets(
            changed[i],
        ) ==> fresh_version(files, base, changed[i], c.roles[changed[i]].expires_days, now))
}

proof fn targets_fresh_after(
    before: Edit,
    after: Edit,
    base: Files,
    c: ConfigView,
    now: int,
    role: Seq<char>,
    content: ContentView,
)
    requires
        before.changed is Ok,
        after == updated(before, base, role, c.roles[role], now, false, Ok(content)),
        after.changed is Ok,
        targets_fresh(before.files, base, c, now, before.changed->Ok_0),
        after.changed->Ok_0.len() > before.changed->Ok_0.len() ==> role != "root"@ && (
        repo::lists_targets(role) ==> fresh_version(
            after.files,
            base,
            role,
            c.roles[role].expires_days,
            now,
        )),
    ensures
        targets_fresh(after.files, base, c, now, after.changed->Ok_0),
{
    let old_roles = before.changed->Ok_0;
    let new_roles = after.changed->Ok_0;
    if new_roles.len() > old_roles.len() {
        updated_frame(before, after, base, role, c.roles[role], now, false, content);
        assert forall|i: int| 0 <= i < new_roles.len() implies (#[trigger] new_roles[i])
            != "root"@ && (repo::lists_targets(new_roles[i]) ==> fresh_version(
            after.files,
            base,
            new_roles[i],
            c.roles[new_roles[i]].expires_days,
            now,
        )) by {
            if i < old_roles.len() {
                assert(new_roles[i] == old_roles[i]);
                if new_roles[i] != role {
                    assert(repo::raw_of(after.files, new_roles[i]) == repo::raw_of(
                        before.files,
                        new_roles[i],
                    ));
                }
            }
        }
    }
}

/// Whether `role` lists the target `path` with the given description.
pub open spec fn lists(files: Files, role: Seq<char>, path: Seq<char>, d: DescriptionView) -> bool {
    repo::targets_of(files, role) matches Ok((_, t)) && t.targets.dom().contains(path)
        && t.targets[path] == d
}

/// Whether each target is listed in the role that its path belongs in, with the description that
/// was given last.
pub open spec fn all_listed(
    before: Files,
    after: Files,
    targets: Seq<(Seq<char>, DescriptionView)>,
) -> bool {
    forall|i: int|
        0 <= i < targets.len() && (forall|j: int|
            i < j < targets.len() ==> (#[trigger] targets[j]).0 != targets[i].0) ==> lists(
            after,
            role_for(before, (#[trigger] targets[i]).0)->Ok_0,
            targets[i].0,
            targets[i].1,
        )
}

/// Each target stands in the group of the role its path belongs in, with the description that was
/// given last.
proof fn grouped_holds(files: Files, targets: Seq<(Seq<char>, DescriptionView)>, i: int)
    requires
        grouped(files, targets) is Ok,
        0 <= i < targets.len(),
        forall|j: int| i < j < targets.len() ==> (#[trigger] targets[j]).0 != targets[i].0,
    ensures
        ({
            let groups = grouped(files, targets)->Ok_0;
            let role = role_for(files, targets[i].0)->Ok_0;
            role_for(files, targets[i].0) is Ok && groups.dom().contains(role)
                && groups[role].dom().contains(targets[i].0) && groups[role][targets[i].0]
                == targets[i].1
        }),
    decreases targets.len(),
{
    let t = targets.drop_last();
    if i < t.len() {
        assert forall|j: int| i < j < t.len() implies (#[trigger] t[j]).0 != t[i].0 by {
            assert(t[j] == targets[j] && t[i] == targets[i]);
        }
        grouped_holds(files, t, i);
        assert(t[i] == targets[i]);
        assert(targets[targets.len() - 1].0 != targets[i].0);
    }
}

/// Whether one of the targets belongs in `role`.
pub open spec fn some_for(
    files: Files,
    targets: Seq<(Seq<char>, DescriptionView)>,
    role: Seq<char>,
) -> bool {
    exists|i: int|
        0 <= i < targets.len() && role_for(files, (#[trigger] targets[i]).0) == Ok::<
            Seq<char>,
            Fault,
        >(role)
}

/// Whether one of the targets has the given path and belongs in `role`.
pub open spec fn given_for(
    files: Files,
    targets: Seq<(Seq<char>, DescriptionView)>,
    role: Seq<char>,
    path: Seq<char>,
) -> bool {
    exists|i: int|
        0 <= i < targets.len() && (#[trigger] targets[i]).0 == path && role_for(files, path) == Ok::<
            Seq<char>,
            Fault,
        >(role)
}

/// Whether `role` has the delegations it had and lists what it listed, but for the targets that
/// belong in it: these it lists as well.
pub open spec fn only_added(
    before: Files,
    after: Files,
    targets: Seq<(Seq<char>, DescriptionView)>,
    role: Seq<char>,
) -> bool {
    match (repo::targets_of(before, role), repo::targets_of(after, role)) {
        (Ok((_, t)), Ok((_, u))) => {
            &&& documents::same_delegations(u.delegations, t.delegations)
            &&& forall|path: Seq<char>| #[trigger]
                u.targets.dom().contains(path) <==> t.targets.dom().contains(path) || given_for(
                    before,
                    targets,
                    role,
                    path,
                )
            &&& forall|path: Seq<char>|
                t.targets.dom().contains(path) && !given_for(before, targets, role, path)
                    ==> #[trigger] u.targets[path] == t.targets[path]
        },
        _ => false,
    }
}

/// Whether each role that some of the targets belong in has the rest of what it said.
pub open spec fn rest_kept(
    before: Files,
    after: Files,
    targets: Seq<(Seq<char>, DescriptionView)>,
) -> bool {
    forall|role: Seq<char>| #[trigger]
        some_for(before, targets, role) ==> only_added(before, after, targets, role)
}

/// Whether each role that none of the targets belongs in has the bytes it had.
pub open spec fn others_kept(
    before: Files,
    after: Files,
    targets: Seq<(Seq<char>, DescriptionView)>,
) -> bool {
    forall|role: Seq<char>|
        !some_for(before, targets, role) ==> #[trigger] repo::raw_of(after, role) == repo::raw_of(
            before,
            role,
        )
}

/// Whether `changed` names the roles whose bytes are others than before, in order, each once.
pub open spec fn names_changes(before: Files, after: Files, changed: Seq<Seq<char>>) -> bool {
    &&& strmap::ascending(changed)
    &&& forall|role: Seq<char>| #[trigger]
        changed.contains(role) <==> repo::raw_of(after, role) != repo::raw_of(before, role)
}

/// The groups hold the given targets and no others.
proof fn grouped_given(
    files: Files,
    targets: Seq<(Seq<char>, DescriptionView)>,
    role: Seq<char>,
)
    requires
        grouped(files, targets) is Ok,
    ensures
        grouped(files, targets)->Ok_0.dom().contains(role) <==> some_for(files, targets, role),
        forall|path: Seq<char>| #[trigger]
            group(grouped(files, targets)->Ok_0, role).dom().contains(path) <==> given_for(
                files,
                targets,
                role,
                path,
            ),
    decreases targets.len(),
{
    if targets.len() > 0 {
        let t = targets.drop_last();
        let last = targets[targets.len() - 1];
        grouped_given(files, t, role);
        if some_for(files, t, role) {
            let i = choose|i: int|
                0 <= i < t.len() && role_for(files, (#[trigger] t[i]).0) == Ok::<Seq<char>, Fault>(
                    role,
                );
            assert(targets[i] == t[i]);
        }
        if some_for(files, targets, role) {
            let i = choose|i: int|
                0 <= i < targets.len() && role_for(files, (#[trigger] targets[i]).0) == Ok::<
                    Seq<char>,
                    Fault,
                >(role);
            if i < t.len() {
                assert(t[i] == targets[i]);
            }
        }
        assert forall|path: Seq<char>| #[trigger]
            group(grouped(files, targets)->Ok_0, role).dom().contains(path) <==> given_for(
                files,
                targets,
                role,
                path,
            ) by {
            assert(group(grouped(files, t)->Ok_0, role).dom().contains(path) <==> given_for(
                files,
                t,
                role,
                path,
            ));
            if given_for(files, t, role, path) {
                let i = choose|i: int|
                    0 <= i < t.len() && (#[trigger] t[i]).0 == path && role_for(files, path) == Ok::<
                        Seq<char>,
                        Fault,
                    >(role);
                assert(targets[i] == t[i]);
            }
            if given_for(files, targets, role, path) {
                let i = choose|i: int|
                    0 <= i < targets.len() && (#[trigger] targets[i]).0 == path && role_for(
                        files,
                        path,
                    ) == Ok::<Seq<char>, Fault>(role);
                if i < t.len() {
                    assert(t[i] == targets[i]);
                }
            }
            assert(targets[targets.len() - 1] == last);
        }
    }
}

/// Whether `role` says what it said, with targets added to it, or replaced in it.
spec fn added_to(
    before: Files,
    after: Files,
    role: Seq<char>,
    more: Map<Seq<char>, DescriptionView>,
) -> bool {
    match (repo::targets_of(before, role), repo::targets_of(after, role)) {
        (Ok((_, t)), Ok((_, u))) => u.targets == t.targets.union_prefer_right(more)
            && documents::same_delegations(u.delegations, t.delegations),
        _ => false,
    }
}

/// Whether each role that is not among `names` has the bytes it had.
spec fn unnamed_kept(before: Files, after: Files, names: Seq<Seq<char>>) -> bool {
    forall|role: Seq<char>|
        !names.contains(role) ==> #[trigger] repo::raw_of(after, role) == repo::raw_of(before, role)
}

/// Whether the targets of the roles `names` have been added, and nothing else was done.
spec fn added_so_far(
    start: Files,
    e: Edit,
    groups: Map<Seq<char>, Map<Seq<char>, DescriptionView>>,
    names: Seq<Seq<char>>,
) -> bool {
    &&& forall|k: int|
        0 <= k < names.len() ==> added_to(start, e.files, #[trigger] names[k], groups[names[k]])
    &&& unnamed_kept(start, e.files, names)
    &&& names_changes(start, e.files, e.changed->Ok_0)
}

/// A change of one more role leaves those that are not named.
proof fn unnamed_kept_after(
    start: Files,
    before: Files,
    after: Files,
    names: Seq<Seq<char>>,
    role: Seq<char>,
)
    requires
        unnamed_kept(start, before, names),
        forall|x: Seq<char>|
            x != role ==> #[trigger] repo::raw_of(after, x) == repo::raw_of(before, x),
    ensures
        unnamed_kept(start, after, names.push(role)),
{
    assert forall|x: Seq<char>| !names.push(role).contains(x) implies #[trigger] repo::raw_of(after, x)
        == repo::raw_of(start, x) by {
        order::push_holds(names, role, x);
        assert(repo::raw_of(before, x) == repo::raw_of(start, x));
    }
}

/// A step that adds the targets of one more role.
proof fn one_more_added(
    start: Files,
    before: Edit,
    after: Edit,
    c: ConfigView,
    base: Files,
    now: int,
    groups: Map<Seq<char>, Map<Seq<char>, DescriptionView>>,
    names: Seq<Seq<char>>,
    i: int,
    content: ContentView,
)
    requires
        0 <= i < names.len(),
        strmap::ascending(names),
        added_so_far(start, before, groups, names.take(i)),
        before.changed is Ok,
        with_targets(before.files, c, names[i], groups[names[i]]) == Ok::<ContentView, Fault>(content),
        after == updated(before, base, names[i], c.roles[names[i]], now, false, Ok(content)),
        after.changed is Ok,
        took(
            before.files,
            after.files,
            names[i],
            content,
            after.changed->Ok_0.len() > before.changed->Ok_0.len(),
        ),
        metadata::regular(content) ==> settled(
            after.files,
            base,
            names[i],
            c.roles[names[i]],
            now,
            content,
        ),
    ensures
        added_so_far(start, after, groups, names.take(i + 1)),
{
    let role = names[i];
    let conf = c.roles[role];
    let done = names.take(i);
    let then_done = names.take(i + 1);
    config::different_top_level();
    text::precedes_irreflexive(role);
    assert(!done.contains(role));
    assert(repo::raw_of(before.files, role) == repo::raw_of(start, role));
    assert(repo::targets_of(before.files, role) == repo::targets_of(start, role));
    let u = update_of(before.files, base, role, conf, now, false, content);
    if (u->Ok_0).1 {
        updated_frame(before, after, base, role, conf, now, false, content);
    }
    assert(forall|x: Seq<char>|
        x != role ==> #[trigger] repo::raw_of(after.files, x) == repo::raw_of(before.files, x));
    assert(added_to(start, after.files, role, groups[role]));
    assert forall|k: int| 0 <= k < then_done.len() implies added_to(
        start,
        after.files,
        #[trigger] then_done[k],
        groups[then_done[k]],
    ) by {
        if k < i {
            assert(then_done[k] == done[k]);
            assert(text::precedes(names[k], names[i]));
            assert(repo::raw_of(after.files, done[k]) == repo::raw_of(before.files, done[k]));
            assert(added_to(start, before.files, done[k], groups[done[k]]));
            assert(repo::targets_of(after.files, done[k]) == repo::targets_of(
                before.files,
                done[k],
            ));
        }
    }
    assert(then_done =~= done.push(role));
    unnamed_kept_after(start, before.files, after.files, done, role);
    let earlier = before.changed->Ok_0;
    let later = after.changed->Ok_0;
    if (u->Ok_0).1 {
        assert(later == earlier.push(role));
        if repo::raw_of(after.files, role) == repo::raw_of(before.files, role) {
            assert(repo::targets_of(after.files, role) == repo::targets_of(before.files, role));
            assert(metadata::regular(content));
            assert(agree_on(after.files, before.files, role));
            settled_elsewhere(after.files, before.files, base, role, conf, now, content);
        }
        assert forall|k: int, l: int| 0 <= k < l < later.len() implies text::precedes(
            #[trigger] later[k],
            #[trigger] later[l],
        ) by {
            assert(later[k] == earlier[k]);
            if l < earlier.len() {
                assert(later[l] == earlier[l]);
            } else {
                assert(earlier.contains(earlier[k]));
                assert(done.contains(earlier[k]));
                let m = choose|m: int| 0 <= m < done.len() && done[m] == earlier[k];
                assert(text::precedes(names[m], names[i]));
            }
        }
    }
    assert forall|x: Seq<char>| #[trigger] later.contains(x) <==> repo::raw_of(after.files, x)
        != repo::raw_of(start, x) by {
        assert(earlier.contains(x) <==> repo::raw_of(before.files, x) != repo::raw_of(start, x));
        if (u->Ok_0).1 {
            order::push_holds(earlier, role, x);
        }
        if x != role {
            assert(repo::raw_of(after.files, x) == repo::raw_of(before.files, x));
        }
    }
}

/// What was added, once the targets of all groups have been.
proof fn all_added(
    start: Files,
    e: Edit,
    targets: Seq<(Seq<char>, DescriptionView)>,
)
    requires
        grouped(start, targets) is Ok,
        grouped(start, targets)->Ok_0.dom().finite(),
        added_so_far(
            start,
            e,
            grouped(start, targets)->Ok_0,
            strmap::listing(grouped(start, targets)->Ok_0.dom()),
        ),
    ensures
        all_listed(start, e.files, targets),
        rest_kept(start, e.files, targets),
        others_kept(start, e.files, targets),
        names_changes(start, e.files, e.changed->Ok_0),
{
    let groups = grouped(start, targets)->Ok_0;
    let names = strmap::listing(groups.dom());
    strmap::listing_exists(groups.dom());
    assert forall|role: Seq<char>| names.contains(role) <==> #[trigger] groups.dom().contains(
        role,
    ) by {
        assert(names.to_set().contains(role) <==> names.contains(role));
    }
    assert forall|role: Seq<char>| #[trigger] groups.dom().contains(role) implies added_to(
        start,
        e.files,
        role,
        groups[role],
    ) by {
        assert(names.contains(role));
        let k = choose|k: int| 0 <= k < names.len() && names[k] == role;
        assert(added_to(start, e.files, names[k], groups[names[k]]));
    }
    assert forall|i: int|
        0 <= i < targets.len() && (forall|j: int|
            i < j < targets.len() ==> (#[trigger] targets[j]).0 != targets[i].0) implies lists(
        e.files,
        role_for(start, (#[trigger] targets[i]).0)->Ok_0,
        targets[i].0,
        targets[i].1,
    ) by {
        grouped_holds(start, targets, i);
        assert(added_to(
            start,
            e.files,
            role_for(start, targets[i].0)->Ok_0,
            groups[role_for(start, targets[i].0)->Ok_0],
        ));
    }
    assert forall|role: Seq<char>| !some_for(start, targets, role) implies #[trigger] repo::raw_of(
        e.files,
        role,
    ) == repo::raw_of(start, role) by {
        grouped_given(start, targets, role);
    }
    assert forall|role: Seq<char>| #[trigger] some_for(start, targets, role) implies only_added(
        start,
        e.files,
        targets,
        role,
    ) by {
        grouped_given(start, targets, role);
        let more = groups[role];
        assert(added_to(start, e.files, role, more));
        assert(group(groups, role) == more);
        let u = (repo::targets_of(e.files, role)->Ok_0).1;
        let t = (repo::targets_of(start, role)->Ok_0).1;
        assert forall|path: Seq<char>| #[trigger]
            u.targets.dom().contains(path) <==> t.targets.dom().contains(path) || given_for(
                start,
                targets,
                role,
                path,
            ) by {
            assert(more.dom().contains(path) <==> given_for(start, targets, role, path));
        }
        assert forall|path: Seq<char>|
            t.targets.dom().contains(path) && !given_for(
                start,
                targets,
                role,
                path,
            ) implies #[trigger] u.targets[path] == t.targets[path] by {
            assert(more.dom().contains(path) <==> given_for(start, targets, role, path));
        }
    }
}

/// Whether every description in every group is genuine.
spec fn groups_genuine(groups: Map<Seq<char>, Map<Seq<char>, DescriptionView>>) -> bool {
    forall|role: Seq<char>| #[trigger]
        groups.dom().contains(role) ==> documents::all_genuine(groups[role])
}

fn is_delegated_path(d: &Delegation, path: &str) -> (r: bool)
    ensures
        r == delegated_path(d@, path@),
{
    let n = d.paths.len();
    let ghost all = strmap::listing(d.paths@);
    let mut i: usize = 0;
    while i < n
        invariant
            i <= n,
            n == all.len(),
            all == strmap::listing(d.paths@),
            all.to_set() == d.paths@,
            forall|j: int| 0 <= j < i ==> !config::responsible(#[trigger] all[j], path@),
        decreases n - i,
    {
        let pattern = d.paths.item(i);
        if text::same(pattern.as_str(), path) || config::is_covered(pattern.as_str(), path) {
            assert(all.to_set().contains(all[i as int]));
            assert(d@.paths.contains(pattern@));
            return true;
        }
        i = i + 1;
    }
    assert forall|pattern: Seq<char>| #[trigger]
        d@.paths.contains(pattern) implies !config::responsible(pattern, path@) by {
        assert(all.to_set().contains(pattern));
        let j = choose|j: int| 0 <= j < all.len() && all[j] == pattern;
    }
    false
}

/// The targets of `a` with those of `b` added, or replaced.
fn merged(a: &StrMap<Description>, b: &StrMap<Description>) -> (r: StrMap<Description>)
    ensures
        r@ == a@.union_prefer_right(b@),
{
    let mut out = a.dup();
    let pairs = b.to_pairs();
    let ghost all = pairs@;
    let mut i: usize = 0;
    assert(out@ =~= a@.union_prefer_right(strmap::pairs_map(all.take(0))));
    while i < pairs.len()
        invariant
            i <= pairs.len(),
            all == pairs@,
            out@ == a@.union_prefer_right(strmap::pairs_map(all.take(i as int))),
        decreases pairs.len() - i,
    {
        proof {
            assert(all.take(i + 1) =~= all.take(i as int).push(all[i as int]));
            strmap::pairs_map_push(all.take(i as int), all[i as int]);
            let m = strmap::pairs_map(all.take(i as int));
            assert(a@.union_prefer_right(m).insert(all[i as int].0@, all[i as int].1@)
                =~= a@.union_prefer_right(m.insert(all[i as int].0@, all[i as int].1@)));
        }
        out.insert(pairs[i].0.clone(), pairs[i].1.dup());
        i = i + 1;
    }
    assert(all.take(i as int) =~= all);
    out
}

impl Repo {
    /// The role that `path` belongs in: the first delegation whose paths match, else `targets`.
    pub fn role_for_target(&self, path: &str) -> (r: Result<String, Error>)
        ensures
            error::outcome(r) == role_for(self@, path@),
    {
        let t = match self.targets() {
            Ok(t) => t,
            Err(e) => {
                return Err(e);
            },
        };
        let ghost roles = t@.delegations.roles;
        let mut i: usize = 0;
        assert(roles.skip(0) =~= roles);
        while i < t.delegations.roles.len()
            invariant
                i <= t.delegations.roles.len(),
                roles == t@.delegations.roles,
                roles == text::views(t.delegations.roles@),
                role_for(self@, path@) == Ok::<Seq<char>, Fault>(first_responsible(roles, path@)),
                first_responsible(roles, path@) == first_responsible(roles.skip(i as int), path@),
            decreases t.delegations.roles.len() - i,
        {
            let d = &t.delegations.roles[i];
            assert(roles.skip(i as int)[0] == d@);
            assert(roles.skip(i as int).skip(1) =~= roles.skip(i + 1));
            if is_delegated_path(d, path) {
                return Ok(d.name.clone());
            }
            i = i + 1;
        }
        Ok("targets".to_owned())
    }

    /// The targets by the roles they belong in.
    fn group_targets(&self, targets: &Vec<(String, Description)>) -> (r: Result<
        StrMap<StrMap<Description>>,
        Error,
    >)
        ensures
            error::outcome(r) == grouped(self@, text::views(targets@)),
            r matches Ok(g) ==> groups_genuine(g@),
    {
        let ghost all = text::views(targets@);
        let mut groups: StrMap<StrMap<Description>> = StrMap::new();
        let mut i: usize = 0;
        while i < targets.len()
            invariant
                i <= targets.len(),
                all == text::views(targets@),
                grouped(self@, all.take(i as int)) == Ok::<
                    Map<Seq<char>, Map<Seq<char>, DescriptionView>>,
                    Fault,
                >(groups@),
                groups_genuine(groups@),
            decreases targets.len() - i,
        {
            let (path, d) = &targets[i];
            proof {
                use_type_invariant(d);
                assert(all.take(i + 1).drop_last() =~= all.take(i as int));
                assert(all.take(i + 1).last() == (path@, d@));
            }
            if !documents::check_target_path(path.as_str()) {
                proof {
                    grouping_fails(self@, all, i + 1);
                }
                return Err(Problem::TargetPath { path: path.clone() });
            }
            match self.role_for_target(path.as_str()) {
                Ok(role) => {
                    let mut more = match groups.get(role.as_str()) {
                        Some(g) => g.dup(),
                        None => StrMap::new(),
                    };
                    assert(more@ == group(groups@, role@));
                    more.insert(path.clone(), d.dup());
                    assert(documents::all_genuine(more@));
                    groups.insert(role, more);
                },
                Err(e) => {
                    proof {
                        grouping_fails(self@, all, i + 1);
                    }
                    return Err(e);
                },
            }
            i = i + 1;
        }
        assert(all.take(i as int) =~= all);
        Ok(groups)
    }

    /// What the metadata of `role` says with targets added to it, or replaced in it.
    fn content_plus(&self, config: &Config, role: &str, more: &StrMap<Description>) -> (r: Result<
        Content,
        Error,
    >)
        requires
            documents::all_genuine(more@),
        ensures
            error::outcome(r) == with_targets(self@, config@, role@, more@),
            r matches Ok(c) ==> metadata::sound(c@) && c@ is Targets && config@.roles.dom().contains(
                role@,
            ),
    {
        let t = match self.require_targets(role) {
            Ok(t) => t,
            Err(e) => {
                return Err(e);
            },
        };
        match config.role(role) {
            Ok(_) => {},
            Err(e) => {
                return Err(e);
            },
        }
        Ok(
            Content::Targets(
                Targets { targets: merged(&t.targets, more), delegations: t.delegations },
            ),
        )
    }

    /// Adds or replaces targets, in the roles their paths belong in, which then list them, with all
    /// else that they said. The other roles stay as they are. Returns the roles changed: they have a
    /// version that is one more than in `base` and needs signing.
    pub fn add_targets(
        &mut self,
        config: &Config,
        base: &Repo,
        targets: &Vec<(String, Description)>,
        now: &Time,
    ) -> (r: Result<Vec<String>, Error>)
        requires
            config::expiries_in_calendar(config@, now@),
        ensures
            edited(
                add_of(old(self)@, config@, base@, text::views(targets@), now@),
                final(self)@,
                r,
            ),
            r matches Ok(changed) ==> targets_fresh(
                final(self)@,
                base@,
                config@,
                now@,
                text::views(changed@),
            ),
            r matches Ok(changed) ==> {
                &&& all_listed(old(self)@, final(self)@, text::views(targets@))
                &&& rest_kept(old(self)@, final(self)@, text::views(targets@))
                &&& others_kept(old(self)@, final(self)@, text::views(targets@))
                &&& names_changes(old(self)@, final(self)@, text::views(changed@))
            },
    {
        let groups = match self.group_targets(targets) {
            Ok(g) => g,
            Err(e) => {
                return Err(e);
            },
        };
        proof {
            use_type_invariant(config);
        }
        let ghost e0 = unedited(self@);
        let ghost names = strmap::listing(groups@.dom());
        let n = groups.len();
        proof {
            strmap::listing_exists(groups@.dom());
            assert forall|k: int| 0 <= k < names.len() implies groups@.dom().contains(
                #[trigger] names[k],
            ) by {
                assert(names.to_set().contains(names[k]));
            }
        }
        let mut changed: Vec<String> = Vec::new();
        let mut i: usize = 0;
        assert(text::views(changed@) =~= Seq::<Seq<char>>::empty());
        while i < n
            invariant
                i <= n,
                n == names.len(),
                names == strmap::listing(groups@.dom()),
                grouped(old(self)@, text::views(targets@)) == Ok::<
                    Map<Seq<char>, Map<Seq<char>, DescriptionView>>,
                    Fault,
                >(groups@),
                groups_genuine(groups@),
                config::valid(config@),
                config::expiries_in_calendar(config@, now@),
                e0 == unedited(old(self)@),
                so_far(
                    groups_added(e0, config@, base@, now@, groups@, names.take(i as int)),
                    self@,
                    changed@,
                ),
                targets_fresh(self@, base@, config@, now@, text::views(changed@)),
                strmap::ascending(names),
                forall|k: int| 0 <= k < names.len() ==> groups@.dom().contains(#[trigger] names[k]),
                added_so_far(
                    old(self)@,
                    Edit { files: self@, changed: Ok(text::views(changed@)) },
                    groups@,
                    names.take(i as int),
                ),
            decreases n - i,
        {
            let ghost before = Edit { files: self@, changed: Ok(text::views(changed@)) };
            let role = groups.key(i);
            let more = groups.value(i);
            proof {
                assert(names.take(i + 1).drop_last() =~= names.take(i as int));
                assert(names.take(i + 1).last() == role@);
                assert(groups@.dom().contains(role@));
            }
            let content = match self.content_plus(config, role.as_str(), more) {
                Ok(c) => c,
                Err(e) => {
                    proof {
                        adding_stopped(e0, config@, base@, now@, groups@, names, i + 1);
                    }
                    return Err(e);
                },
            };
            proof {
                config::valid_role(config@, role@);
            }
            let conf = config.roles().get(role.as_str()).unwrap();
            match self.step(&mut changed, base, role.as_str(), conf, now, false, &content) {
                Ok(_) => {},
                Err(e) => {
                    proof {
                        adding_stopped(e0, config@, base@, now@, groups@, names, i + 1);
                    }
                    return Err(e);
                },
            }
            proof {
                config::different_top_level();
                let after = Edit { files: self@, changed: Ok(text::views(changed@)) };
                targets_fresh_after(before, after, base@, config@, now@, role@, content@);
                one_more_added(
                    old(self)@,
                    before,
                    after,
                    config@,
                    base@,
                    now@,
                    groups@,
                    names,
                    i as int,
                    content@,
                );
            }
            i = i + 1;
        }
        assert(names.take(i as int) =~= names);
        proof {
            all_added(
                old(self)@,
                Edit { files: self@, changed: Ok(text::views(changed@)) },
                text::views(targets@),
            );
        }
        Ok(changed)
    }
}

/// Whether `role` lists the targets and has the delegations that it had.
pub open spec fn says_the_same(before: Files, after: Files, role: Seq<char>) -> bool {
    &&& targets_listed(after, role) == targets_listed(before, role)
    &&& repo::targets_of(before, role) matches Ok((_, t)) ==> says(after, role, t)
}

/// Whether each role that lists targets lists those that it listed, and has the delegations it had.
pub open spec fn contents_kept(before: Files, after: Files) -> bool {
    forall|role: Seq<char>| #[trigger]
        repo::lists_targets(role) ==> says_the_same(before, after, role)
}

/// An update of a role with what it says keeps what all roles say.
proof fn contents_kept_after(
    start: Files,
    before: Files,
    after: Files,
    role: Seq<char>,
    content: ContentView,
    changed: bool,
)
    requires
        contents_kept(start, before),
        forall|x: Seq<char>|
            x != role ==> #[trigger] repo::raw_of(after, x) == repo::raw_of(before, x),
        repo::lists_targets(role) ==> took(before, after, role, content, changed) && as_it_is(
            before,
            role,
        ) == Ok::<ContentView, Fault>(content),
    ensures
        contents_kept(start, after),
{
    assert forall|x: Seq<char>| #[trigger] repo::lists_targets(x) implies says_the_same(
        start,
        after,
        x,
    ) by {
        assert(says_the_same(start, before, x));
        if x != role {
            assert(repo::raw_of(after, x) == repo::raw_of(before, x));
            assert(repo::targets_of(after, x) == repo::targets_of(before, x));
        }
    }
}

/// Whether only online keys sign the role.
pub open spec fn online_only(c: ConfigView, role: Seq<char>) -> bool {
    forall|i: int|
        0 <= i < c.roles[role].keys.len() ==> c.keys[#[trigger] c.roles[role].keys[i]].online is Some
}

/// What `role` says.
pub open spec fn as_it_is(files: Files, role: Seq<char>) -> Result<ContentView, Fault> {
    match repo::targets_of(files, role) {
        Err(e) => Err(e),
        Ok((_, t)) => Ok(ContentView::Targets(t)),
    }
}

/// The edit, unless it was stopped, with an update of `role` if only online keys sign it.
pub open spec fn online_updated(
    e: Edit,
    c: ConfigView,
    previous: Option<ConfigView>,
    base: Files,
    now: int,
    role: Seq<char>,
) -> Edit {
    if e.changed is Err {
        e
    } else if !c.roles.dom().contains(role) {
        Edit { files: e.files, changed: Err(Problem::NotConfigured { role }) }
    } else if online_only(c, role) {
        updated(
            e,
            base,
            role,
            c.roles[role],
            now,
            validity_changed(c, previous, role),
            as_it_is(e.files, role),
        )
    } else {
        e
    }
}

/// The edit with updates of those among the roles `names` that only online keys sign.
pub open spec fn online_applied(
    e: Edit,
    c: ConfigView,
    previous: Option<ConfigView>,
    base: Files,
    now: int,
    names: Seq<Seq<char>>,
) -> Edit
    decreases names.len(),
{
    if names.len() == 0 {
        e
    } else {
        online_updated(
            online_applied(e, c, previous, base, now, names.drop_last()),
            c,
            previous,
            base,
            now,
            names.last(),
        )
    }
}

/// The versions of the roles `names`.
pub open spec fn versions_of(files: Files, names: Seq<Seq<char>>) -> Result<
    Map<Seq<char>, VersionView>,
    Fault,
>
    decreases names.len(),
{
    if names.len() == 0 {
        Ok(Map::empty())
    } else {
        let role = names.last();
        match versions_of(files, names.drop_last()) {
            Err(e) => Err(e),
            Ok(versions) => match repo::header_of(files, role) {
                Err(e) => Err(e),
                Ok(None) => Err(Problem::MissingMetadata { role }),
                Ok(Some(h)) => if documents::names_metadata(role) {
                    Ok(versions.insert(role, VersionView { version: h.version, bare: true }))
                } else {
                    Err(Problem::RoleName { role })
                },
            },
        }
    }
}

/// What the snapshot is to say: the version of every role that lists targets.
pub open spec fn snapshot_content(files: Files) -> Result<ContentView, Fault> {
    match versions_of(files, repo::targets_roles_of(files)) {
        Err(e) => Err(e),
        Ok(versions) => Ok(ContentView::Snapshot(versions)),
    }
}

/// What the timestamp is to say: the version of the snapshot.
pub open spec fn timestamp_content(files: Files) -> Result<ContentView, Fault> {
    match repo::header_of(files, "snapshot"@) {
        Err(e) => Err(e),
        Ok(None) => Err(Problem::MissingMetadata { role: "snapshot"@ }),
        Ok(Some(h)) => Ok(
            ContentView::Timestamp(VersionView { version: h.version, bare: true }),
        ),
    }
}

/// Whether there is metadata of `role` with the given version.
pub open spec fn has_version(files: Files, role: Seq<char>, version: int) -> bool {
    repo::header_of(files, role) matches Ok(Some(h)) && h.version == version
}

/// Whether the snapshot gives the version of each role that lists targets and of no other, and the
/// timestamp that of the snapshot.
pub open spec fn up_to_date(files: Files) -> bool {
    &&& match repo::metadata_of(files, Kind::Snapshot, "snapshot"@) {
        Ok(Some((_, ContentView::Snapshot(versions)))) => {
            &&& forall|role: Seq<char>|
                #![trigger versions.dom().contains(role)]
                #![trigger repo::targets_roles_of(files).contains(role)]
                versions.dom().contains(role) <==> repo::targets_roles_of(files).contains(role)
            &&& forall|role: Seq<char>| #[trigger]
                versions.dom().contains(role) ==> has_version(files, role, versions[role].version)
        },
        _ => false,
    }
    &&& match repo::metadata_of(files, Kind::Timestamp, "timestamp"@) {
        Ok(Some((_, ContentView::Timestamp(v)))) => has_version(files, "snapshot"@, v.version),
        _ => false,
    }
}

/// The versions are those of the roles asked for.
proof fn versions_hold(files: Files, names: Seq<Seq<char>>, role: Seq<char>)
    requires
        versions_of(files, names) is Ok,
    ensures
        versions_of(files, names)->Ok_0.dom().contains(role) <==> names.contains(role),
        names.contains(role) ==> has_version(
            files,
            role,
            versions_of(files, names)->Ok_0[role].version,
        ),
    decreases names.len(),
{
    if names.len() > 0 {
        versions_hold(files, names.drop_last(), role);
        order::push_holds(names.drop_last(), names.last(), role);
        assert(names.drop_last().push(names.last()) =~= names);
    }
}

/// A snapshot of the versions stays up to date while it and the timestamp are written.
proof fn described(before: Files, after: Files, versions: Map<Seq<char>, VersionView>, version: int)
    requires
        before.dom().finite(),
        after.dom().finite(),
        versions_of(before, repo::targets_roles_of(before)) == Ok::<
            Map<Seq<char>, VersionView>,
            Fault,
        >(versions),
        forall|x: Seq<char>|
            x != "snapshot"@ && x != "timestamp"@ ==> #[trigger] repo::raw_of(after, x)
                == repo::raw_of(before, x),
        repo::metadata_of(after, Kind::Snapshot, "snapshot"@) matches Ok(Some(m)) && m.1
            == ContentView::Snapshot(versions),
        has_version(after, "snapshot"@, version),
        repo::metadata_of(after, Kind::Timestamp, "timestamp"@) matches Ok(Some(m)) && m.1
            == ContentView::Timestamp(VersionView { version, bare: true }),
    ensures
        up_to_date(after),
{
    config::different_top_level();
    assert forall|role: Seq<char>|
        #![trigger versions.dom().contains(role)]
        #![trigger repo::targets_roles_of(after).contains(role)]
        (versions.dom().contains(role) <==> repo::targets_roles_of(after).contains(role)) && (
        versions.dom().contains(role) ==> has_version(after, role, versions[role].version)) by {
        versions_hold(before, repo::targets_roles_of(before), role);
        repo::targets_role_has_file(before, role);
        repo::targets_role_has_file(after, role);
        if repo::lists_targets(role) {
            same_files(before, after, role);
        }
    }
}

/// A role other than snapshot and timestamp has a file after they were written where it had one.
proof fn same_files(before: Files, after: Files, role: Seq<char>)
    requires
        repo::raw_of(after, role) == repo::raw_of(before, role),
    ensures
        (exists|name: Seq<char>| #[trigger]
            before.dom().contains(name) && repo::role_of(name) == Some(role)) <==> (exists|
            name: Seq<char>,
        | #[trigger]
            after.dom().contains(name) && repo::role_of(name) == Some(role)),
{
    if exists|name: Seq<char>| #[trigger]
        before.dom().contains(name) && repo::role_of(name) == Some(role) {
        let name = choose|name: Seq<char>| #[trigger]
            before.dom().contains(name) && repo::role_of(name) == Some(role);
        repo::role_of_file(name);
        assert(repo::raw_of(before, role) is Some);
        assert(after.dom().contains(name));
    }
    if exists|name: Seq<char>| #[trigger]
        after.dom().contains(name) && repo::role_of(name) == Some(role) {
        let name = choose|name: Seq<char>| #[trigger]
            after.dom().contains(name) && repo::role_of(name) == Some(role);
        repo::role_of_file(name);
        assert(repo::raw_of(after, role) is Some);
        assert(before.dom().contains(name));
    }
}

/// The edit, unless it was stopped, with an update of a role that CI signs.
pub open spec fn service_updated(
    e: Edit,
    c: ConfigView,
    previous: Option<ConfigView>,
    base: Files,
    now: int,
    role: Seq<char>,
    content: Result<ContentView, Fault>,
) -> Edit {
    updated(
        e,
        base,
        role,
        c.roles[role],
        now,
        validity_changed(c, previous, role),
        content,
    )
}

/// The edit that starts new versions of the roles only online keys sign: the targets roles among
/// them where they are due, then snapshot and timestamp where what they describe changed or they
/// are due.
pub open spec fn online_of(
    files: Files,
    c: ConfigView,
    previous: Option<ConfigView>,
    now: int,
) -> Edit {
    let e1 = online_applied(
        unedited(files),
        c,
        previous,
        files,
        now,
        repo::targets_roles_of(files),
    );
    let e2 = service_updated(
        e1,
        c,
        previous,
        files,
        now,
        "snapshot"@,
        snapshot_content(e1.files),
    );
    service_updated(e2, c, previous, files, now, "timestamp"@, timestamp_content(e2.files))
}

proof fn online_stopped(
    e: Edit,
    c: ConfigView,
    previous: Option<ConfigView>,
    base: Files,
    now: int,
    names: Seq<Seq<char>>,
    i: int,
)
    requires
        0 <= i <= names.len(),
        online_applied(e, c, previous, base, now, names.take(i)).changed is Err,
    ensures
        online_applied(e, c, previous, base, now, names) == online_applied(
            e,
            c,
            previous,
            base,
            now,
            names.take(i),
        ),
    decreases names.len(),
{
    if i < names.len() {
        assert(names.drop_last().take(i) =~= names.take(i));
        online_stopped(e, c, previous, base, now, names.drop_last(), i);
    } else {
        assert(names.take(i) =~= names);
    }
}

proof fn versions_fail(files: Files, names: Seq<Seq<char>>, i: int)
    requires
        0 <= i <= names.len(),
        versions_of(files, names.take(i)) is Err,
    ensures
        versions_of(files, names) == versions_of(files, names.take(i)),
    decreases names.len(),
{
    if i < names.len() {
        assert(names.drop_last().take(i) =~= names.take(i));
        versions_fail(files, names.drop_last(), i);
    } else {
        assert(names.take(i) =~= names);
    }
}

fn is_online_only(config: &Config, role: &str) -> (r: bool)
    requires
        config@.roles.dom().contains(role@),
    ensures
        r == online_only(config@, role@),
{
    proof {
        use_type_invariant(config);
        config::valid_role(config@, role@);
    }
    let conf = config.roles().get(role).unwrap();
    let ghost names = conf@.keys;
    let mut i: usize = 0;
    while i < conf.keys.len()
        invariant
            i <= conf.keys.len(),
            names == config@.roles[role@].keys,
            names == text::views(conf.keys@),
            forall|j: int| 0 <= j < names.len() ==> config@.keys.dom().contains(#[trigger] names[j]),
            forall|j: int| 0 <= j < i ==> config@.keys[#[trigger] names[j]].online is Some,
        decreases conf.keys.len() - i,
    {
        let name = &conf.keys[i];
        assert(names[i as int] == name@);
        let online = match config.keys().get(name.as_str()) {
            Some(k) => k.online.is_some(),
            None => false,
        };
        if !online {
            return false;
        }
        i = i + 1;
    }
    true
}

impl Repo {
    /// The versions of the roles that list targets.
    fn versions(&self) -> (r: Result<StrMap<RawVersion>, Error>)
        ensures
            error::outcome(r) == versions_of(self@, repo::targets_roles_of(self@)),
            r matches Ok(m) ==> documents::all_bare(m@),
            self@.dom().finite(),
    {
        let roles = self.targets_roles();
        let ghost names = text::views(roles@);
        let mut versions: StrMap<RawVersion> = StrMap::new();
        let mut i: usize = 0;
        while i < roles.len()
            invariant
                i <= roles.len(),
                names == text::views(roles@),
                names == repo::targets_roles_of(self@),
                self@.dom().finite(),
                versions_of(self@, names.take(i as int)) == Ok::<
                    Map<Seq<char>, VersionView>,
                    Fault,
                >(versions@),
                documents::all_bare(versions@),
            decreases roles.len() - i,
        {
            let role = &roles[i];
            proof {
                assert(names.take(i + 1).drop_last() =~= names.take(i as int));
                assert(names.take(i + 1).last() == role@);
            }
            let problem = match self.header(role.as_str()) {
                Ok(Some((version, _))) => if documents::check_metadata_name(role.as_str()) {
                    versions.insert(role.clone(), RawVersion { version, sized: false, hashed: false });
                    None
                } else {
                    Some(Problem::RoleName { role: role.clone() })
                },
                Ok(None) => Some(Problem::MissingMetadata { role: role.clone() }),
                Err(e) => Some(e),
            };
            match problem {
                Some(e) => {
                    proof {
                        versions_fail(self@, names, i + 1);
                    }
                    return Err(e);
                },
                None => {},
            }
            i = i + 1;
        }
        assert(names.take(i as int) =~= names);
        Ok(versions)
    }

    /// Updates the targets roles that only online keys sign.
    fn update_online_targets(
        &mut self,
        changed: &mut Vec<String>,
        config: &Config,
        previous: Option<&Config>,
        base: &Repo,
        now: &Time,
    ) -> (r: Result<(), Error>)
        requires
            config::expiries_in_calendar(config@, now@),
            text::views(old(changed)@) == Seq::<Seq<char>>::empty(),
        ensures
            ({
                let after = online_applied(
                    unedited(old(self)@),
                    config@,
                    config_view(previous),
                    base@,
                    now@,
                    repo::targets_roles_of(old(self)@),
                );
                came_to(after, final(self)@, final(changed)@, r)
            }),
            r is Ok ==> all_fresh(
                final(self)@,
                base@,
                config@,
                now@,
                text::views(final(changed)@),
            ),
            r is Ok ==> contents_kept(old(self)@, final(self)@),
    {
        let ghost prev = config_view(previous);
        let ghost e0 = unedited(self@);
        let roles = self.targets_roles();
        let ghost names = text::views(roles@);
        proof {
            use_type_invariant(config);
            reveal(all_fresh);
        }
        let mut i: usize = 0;
        while i < roles.len()
            invariant
                i <= roles.len(),
                config::valid(config@),
                config::expiries_in_calendar(config@, now@),
                prev == config_view(previous),
                e0 == unedited(old(self)@),
                names == text::views(roles@),
                names == repo::targets_roles_of(old(self)@),
                so_far(
                    online_applied(e0, config@, prev, base@, now@, names.take(i as int)),
                    self@,
                    changed@,
                ),
                all_fresh(self@, base@, config@, now@, text::views(changed@)),
                contents_kept(old(self)@, self@),
            decreases roles.len() - i,
        {
            let role = &roles[i];
            let ghost noted = changed@.len();
            let ghost before = Edit { files: self@, changed: Ok(text::views(changed@)) };
            proof {
                assert(names.take(i + 1).drop_last() =~= names.take(i as int));
                assert(names.take(i + 1).last() == role@);
                assert(names.contains(names[i as int]));
                repo::filter_holds(
                    repo::roles_of(old(self)@),
                    |role: Seq<char>| repo::lists_targets(role),
                    role@,
                );
                config::different_top_level();
            }
            let conf = match config.role(role.as_str()) {
                Ok(c) => c,
                Err(e) => {
                    proof {
                        online_stopped(e0, config@, prev, base@, now@, names, i + 1);
                    }
                    return Err(e);
                },
            };
            proof {
                config::valid_role(config@, role@);
            }
            if is_online_only(config, role.as_str()) {
                let content = match self.require_targets(role.as_str()) {
                    Ok(t) => Content::Targets(t),
                    Err(e) => {
                        proof {
                            online_stopped(e0, config@, prev, base@, now@, names, i + 1);
                        }
                        return Err(e);
                    },
                };
                let renew = is_validity_changed(config, previous, role.as_str());
                match self.step(changed, base, role.as_str(), conf, now, renew, &content) {
                    Ok(_) => {},
                    Err(e) => {
                        proof {
                            online_stopped(e0, config@, prev, base@, now@, names, i + 1);
                        }
                        return Err(e);
                    },
                }
                proof {
                    let after = Edit { files: self@, changed: Ok(text::views(changed@)) };
                    fresh_after(before, after, base@, config@, now@, role@, renew, content@);
                    updated_frame(
                        before,
                        after,
                        base@,
                        role@,
                        config@.roles[role@],
                        now@,
                        renew,
                        content@,
                    );
                    contents_kept_after(
                        old(self)@,
                        before.files,
                        self@,
                        role@,
                        content@,
                        changed@.len() > noted,
                    );
                }
            }
            i = i + 1;
        }
        assert(names.take(i as int) =~= names);
        Ok(())
    }

    /// Starts new versions of the roles only online keys sign: online targets roles in their
    /// signing period, then snapshot and timestamp whenever what they describe changed or they are
    /// in their signing period. A role that `previous`, the config that the metadata was built from,
    /// made valid for another number of days gets a new version too. The new versions still need
    /// signing. Afterwards the snapshot gives the versions that there are, and the targets roles say
    /// what they said. Returns the roles changed.
    pub fn update_online(&mut self, config: &Config, previous: Option<&Config>, now: &Time) -> (r: Result<
        Vec<String>,
        Error,
    >)
        requires
            config::expiries_in_calendar(config@, now@),
        ensures
            edited(
                online_of(old(self)@, config@, config_view(previous), now@),
                final(self)@,
                r,
            ),
            r matches Ok(changed) ==> all_fresh(
                final(self)@,
                old(self)@,
                config@,
                now@,
                text::views(changed@),
            ),
            r is Ok ==> up_to_date(final(self)@),
            r is Ok ==> contents_kept(old(self)@, final(self)@),
    {
        let base = self.dup();
        let mut changed: Vec<String> = Vec::new();
        assert(text::views(changed@) =~= Seq::<Seq<char>>::empty());
        match self.update_online_targets(&mut changed, config, previous, &base, now) {
            Ok(_) => {},
            Err(e) => {
                return Err(e);
            },
        }
        let versions = match self.versions() {
            Ok(v) => v,
            Err(e) => {
                return Err(e);
            },
        };
        let conf = top_level_config(config, "snapshot");
        proof {
            config::valid_role(config@, "snapshot"@);
            config::valid_role(config@, "timestamp"@);
            config::different_top_level();
        }
        let ghost before = Edit { files: self@, changed: Ok(text::views(changed@)) };
        let ghost listed = versions@;
        let content = Content::Snapshot(versions);
        let renew = is_validity_changed(config, previous, "snapshot");
        match self.step(&mut changed, &base, "snapshot", conf, now, renew, &content) {
            Ok(_) => {},
            Err(e) => {
                return Err(e);
            },
        }
        let ghost between = Edit { files: self@, changed: Ok(text::views(changed@)) };
        proof {
            fresh_after(before, between, base@, config@, now@, "snapshot"@, renew, content@);
            updated_frame(
                before,
                between,
                base@,
                "snapshot"@,
                config@.roles["snapshot"@],
                now@,
                renew,
                content@,
            );
            settled_content(
                self@,
                base@,
                "snapshot"@,
                config@.roles["snapshot"@],
                now@,
                content@,
            );
        }
        let version = match self.header("snapshot") {
            Ok(Some((v, _))) => v,
            Ok(None) => {
                return Err(Problem::MissingMetadata { role: "snapshot".to_owned() });
            },
            Err(e) => {
                return Err(e);
            },
        };
        let conf = top_level_config(config, "timestamp");
        let renew = is_validity_changed(config, previous, "timestamp");
        let content = Content::Timestamp(RawVersion { version, sized: false, hashed: false });
        match self.step(&mut changed, &base, "timestamp", conf, now, renew, &content) {
            Ok(_) => {},
            Err(e) => {
                return Err(e);
            },
        }
        proof {
            let after = Edit { files: self@, changed: Ok(text::views(changed@)) };
            fresh_after(between, after, base@, config@, now@, "timestamp"@, renew, content@);
            updated_frame(
                between,
                after,
                base@,
                "timestamp"@,
                config@.roles["timestamp"@],
                now@,
                renew,
                content@,
            );
            settled_content(
                self@,
                base@,
                "timestamp"@,
                config@.roles["timestamp"@],
                now@,
                content@,
            );
            described(before.files, self@, listed, version as int);
            contents_kept_after(
                old(self)@,
                before.files,
                between.files,
                "snapshot"@,
                content@,
                true,
            );
            contents_kept_after(old(self)@, between.files, self@, "timestamp"@, content@, true);
        }
        Ok(changed)
    }
}

/// Whether two configs differ at most in when new versions are made.
pub open spec fn same_but_signing_days(a: ConfigView, b: ConfigView) -> bool {
    &&& a.keys == b.keys
    &&& a.roles.dom() == b.roles.dom()
    &&& forall|role: Seq<char>| #[trigger]
        a.roles.dom().contains(role) ==> b.roles[role] == (RoleConfigView {
            signing_days: b.roles[role].signing_days,
            ..a.roles[role]
        })
}

/// Whether none of the roles that the config is applied to is due.
pub open spec fn none_due(files: Files, c: ConfigView, now: int) -> bool {
    forall|role: Seq<char>| #[trigger]
        c.roles.dom().contains(role) && repo::header_of(files, role) is Ok && repo::header_of(
            files,
            role,
        )->Ok_0 is Some ==> !config::due(
            c.roles[role].signing_days,
            (repo::header_of(files, role)->Ok_0->0).expires,
            time::whole(now),
        )
}

proof fn same_ids(a: ConfigView, b: ConfigView, names: Seq<Seq<char>>)
    requires
        a.keys == b.keys,
    ensures
        ids_of(a, names) == ids_of(b, names),
    decreases names.len(),
{
    if names.len() > 0 {
        same_ids(a, b, names.drop_last());
    }
}

proof fn same_keys(a: ConfigView, b: ConfigView, known: Map<Seq<char>, KeyView>, names: Seq<Seq<char>>)
    requires
        a.keys == b.keys,
    ensures
        keys_with(a, known, names) == keys_with(b, known, names),
    decreases names.len(),
{
    if names.len() > 0 {
        same_keys(a, b, known, names.drop_last());
    }
}

proof fn same_delegation_keys(a: ConfigView, b: ConfigView, names: Seq<Seq<char>>)
    requires
        same_but_signing_days(a, b),
        forall|i: int| 0 <= i < names.len() ==> a.roles.dom().contains(#[trigger] names[i]),
    ensures
        delegation_keys(a, names) == delegation_keys(b, names),
    decreases names.len(),
{
    if names.len() > 0 {
        let t = names.drop_last();
        assert forall|i: int| 0 <= i < t.len() implies a.roles.dom().contains(#[trigger] t[i]) by {
            assert(t[i] == names[i]);
        }
        same_delegation_keys(a, b, t);
        assert(names[names.len() - 1] == names.last());
        same_keys(a, b, delegation_keys(a, t), a.roles[names.last()].keys);
    }
}

/// What metadata says does not depend on when new versions are made.
proof fn same_contents(a: ConfigView, b: ConfigView)
    requires
        config::valid(a),
        same_but_signing_days(a, b),
    ensures
        root_content(a) == root_content(b),
        config::delegated(a) == config::delegated(b),
        delegations_content(a) == delegations_content(b),
{
    config::valid_top_level(a, "root"@);
    config::valid_top_level(a, "targets"@);
    config::valid_top_level(a, "snapshot"@);
    config::valid_top_level(a, "timestamp"@);
    delegated_holds(a);
    let none = Map::<Seq<char>, KeyView>::empty();
    let k1 = keys_with(a, none, a.roles["root"@].keys);
    let k2 = keys_with(a, k1, a.roles["targets"@].keys);
    let k3 = keys_with(a, k2, a.roles["snapshot"@].keys);
    same_keys(a, b, none, a.roles["root"@].keys);
    same_keys(a, b, k1, a.roles["targets"@].keys);
    same_keys(a, b, k2, a.roles["snapshot"@].keys);
    same_keys(a, b, k3, a.roles["timestamp"@].keys);
    same_ids(a, b, a.roles["root"@].keys);
    same_ids(a, b, a.roles["targets"@].keys);
    same_ids(a, b, a.roles["snapshot"@].keys);
    same_ids(a, b, a.roles["timestamp"@].keys);
    strmap::listing_exists(a.roles.dom());
    let names = config::role_names(a);
    let p = |name: Seq<char>| a.roles[name].paths.len() > 0;
    let q = |name: Seq<char>| b.roles[name].paths.len() > 0;
    assert forall|name: Seq<char>| names.contains(name) implies #[trigger] q(name) == p(name) by {
        assert(names.to_set().contains(name));
    }
    repo::filter_alike(names, p, q);
    same_delegation_keys(a, b, config::delegated(a));
    let x = delegations_content(a).roles;
    let y = delegations_content(b).roles;
    assert forall|i: int| 0 <= i < x.len() implies x[i] == y[i] by {
        same_ids(a, b, a.roles[config::delegated(a)[i]].keys);
    }
    assert(x =~= y);
}

/// Changing when new versions are made needs no signatures: applying a config that differs from the
/// one the metadata is in line with in `signing_days` alone changes nothing, unless that makes a
/// role due.
pub proof fn signing_days_need_no_signatures(
    files: Files,
    c: ConfigView,
    new: ConfigView,
    base: Files,
    now: int,
)
    requires
        files.dom().finite(),
        config::valid(c),
        config::valid(new),
        in_line(files, c, base, now),
        same_but_signing_days(c, new),
        none_due(files, new, now),
    ensures
        apply_of(files, new, Some(c), base, now) == unedited(files),
{
    config::valid_top_level(c, "root"@);
    config::valid_top_level(c, "targets"@);
    config::different_top_level();
    same_contents(c, new);
    delegated_holds(c);
    reveal(role_settled);
    reveal(none_gone);
    let root = ContentView::Root(root_content(c));
    settled_content(files, base, "root"@, c.roles["root"@], now, root);
    assert(settled(files, base, "root"@, new.roles["root"@], now, root));
    still_settled(files, c, new, base, now, "targets"@, delegations_content(c));
    assert forall|i: int| 0 <= i < config::delegated(new).len() implies role_settled(
        files,
        new,
        base,
        now,
        #[trigger] config::delegated(new)[i],
        metadata::no_delegations(),
    ) by {
        let role = config::delegated(c)[i];
        assert(role_settled(files, c, base, now, role, metadata::no_delegations()));
        still_settled(files, c, new, base, now, role, metadata::no_delegations());
    }
    applying_again_changes_nothing(files, new, Some(c), base, now);
}

/// A role that is not due stays settled when only `signing_days` change.
proof fn still_settled(
    files: Files,
    c: ConfigView,
    new: ConfigView,
    base: Files,
    now: int,
    role: Seq<char>,
    d: DelegationsView,
)
    requires
        c.roles.dom().contains(role),
        metadata::kind_of(role) == Kind::Targets,
        same_but_signing_days(c, new),
        none_due(files, new, now),
        role_settled(files, c, base, now, role, d),
    ensures
        role_settled(files, new, base, now, role, d),
{
    reveal(role_settled);
    let content = with_delegations(files, role, d)->Ok_0;
    settled_content(files, base, role, c.roles[role], now, content);
    assert(new.roles.dom().contains(role));
}

/// The first responsible role is one of the delegations that is, or `targets` where none is.
proof fn first_responsible_holds(roles: Seq<DelegationView>, path: Seq<char>)
    ensures
        first_responsible(roles, path) == "targets"@ && (forall|i: int|
            0 <= i < roles.len() ==> !delegated_path(#[trigger] roles[i], path)) || exists|i: int|
            0 <= i < roles.len() && delegated_path(#[trigger] roles[i], path) && roles[i].name
                == first_responsible(roles, path),
    decreases roles.len(),
{
    if roles.len() > 0 {
        if delegated_path(roles[0], path) {
        } else {
            let rest = roles.skip(1);
            first_responsible_holds(rest, path);
            if exists|i: int|
                0 <= i < rest.len() && delegated_path(#[trigger] rest[i], path) && rest[i].name
                    == first_responsible(rest, path) {
                let i = choose|i: int|
                    0 <= i < rest.len() && delegated_path(#[trigger] rest[i], path) && rest[i].name
                        == first_responsible(rest, path);
                assert(roles[i + 1] == rest[i]);
                assert(delegated_path(roles[i + 1], path));
            } else {
                assert forall|i: int| 0 <= i < roles.len() implies !delegated_path(
                    #[trigger] roles[i],
                    path,
                ) by {
                    if i > 0 {
                        assert(rest[i - 1] == roles[i]);
                    }
                }
            }
        }
    }
}

/// In a repository that is in line with its config, each target belongs in the one role whose paths
/// match it, and in `targets` where no role's do.
pub proof fn targets_go_where_configured(
    files: Files,
    c: ConfigView,
    base: Files,
    now: int,
    path: Seq<char>,
)
    requires
        config::valid(c),
        in_line(files, c, base, now),
    ensures
        forall|role: Seq<char>, p: int|
            #![trigger c.roles[role].paths[p]]
            c.roles.dom().contains(role) && 0 <= p < c.roles[role].paths.len()
                && config::responsible(c.roles[role].paths[p], path) ==> role_for(files, path)
                == Ok::<Seq<char>, Fault>(role),
        (forall|role: Seq<char>, p: int|
            #![trigger c.roles[role].paths[p]]
            c.roles.dom().contains(role) && 0 <= p < c.roles[role].paths.len()
                ==> !config::responsible(c.roles[role].paths[p], path)) ==> role_for(files, path)
            == Ok::<Seq<char>, Fault>("targets"@),
{
    reveal(role_settled);
    let content = with_delegations(files, "targets"@, delegations_content(c))->Ok_0;
    settled_content(files, base, "targets"@, c.roles["targets"@], now, content);
    let roles = delegations_content(c).roles;
    let names = config::delegated(c);
    let found = first_responsible(roles, path);
    assert(role_for(files, path) == Ok::<Seq<char>, Fault>(found));
    first_responsible_holds(roles, path);
    delegated_holds(c);
    strmap::listing_exists(c.roles.dom());
    assert forall|role: Seq<char>, p: int|
        #![trigger c.roles[role].paths[p]]
        c.roles.dom().contains(role) && 0 <= p < c.roles[role].paths.len() && config::responsible(
            c.roles[role].paths[p],
            path,
        ) implies found == role by {
        repo::filter_holds(
            config::role_names(c),
            |name: Seq<char>| c.roles[name].paths.len() > 0,
            role,
        );
        assert(config::role_names(c).to_set().contains(role));
        let n = choose|n: int| 0 <= n < names.len() && names[n] == role;
        assert(roles[n] == configured_delegation(c, role));
        assert(roles[n].paths.contains(c.roles[role].paths[p]));
        assert(delegated_path(roles[n], path));
        let i = choose|i: int|
            0 <= i < roles.len() && delegated_path(#[trigger] roles[i], path) && roles[i].name
                == found;
        claimed_path(c, names[i], path, role, p);
    }
    if exists|i: int|
        0 <= i < roles.len() && delegated_path(#[trigger] roles[i], path) && roles[i].name == found {
        let i = choose|i: int|
            0 <= i < roles.len() && delegated_path(#[trigger] roles[i], path) && roles[i].name
                == found;
        assert(roles[i] == configured_delegation(c, names[i]));
        let pattern = choose|pattern: Seq<char>| #[trigger]
            roles[i].paths.contains(pattern) && config::responsible(pattern, path);
        let all = c.roles[names[i]].paths;
        assert(all.to_set().contains(pattern));
        let q = choose|q: int| 0 <= q < all.len() && all[q] == pattern;
        assert(config::responsible(c.roles[names[i]].paths[q], path));
    }
}

/// In a repository that is in line with its config, `targets` has the delegations of the config, and
/// each role's are in the order of their names, so that they stay as they are when targets are added
/// or a new version is made.
pub proof fn delegations_are_in_order(
    files: Files,
    c: ConfigView,
    base: Files,
    now: int,
    role: Seq<char>,
)
    requires
        config::valid(c),
        in_line(files, c, base, now),
        c.roles.dom().contains(role),
        repo::lists_targets(role),
    ensures
        repo::targets_of(files, role) matches Ok((_, t)) && documents::in_name_order(
            t.delegations.roles,
        ) && t.delegations == (if role == "targets"@ {
            delegations_content(c)
        } else {
            metadata::no_delegations()
        }),
{
    reveal(role_settled);
    let d = if role == "targets"@ {
        delegations_content(c)
    } else {
        metadata::no_delegations()
    };
    delegations_in_order(c);
    if role != "targets"@ {
        config::valid_role(c, role);
        strmap::listing_exists(c.roles.dom());
        repo::filter_holds(
            config::role_names(c),
            |name: Seq<char>| c.roles[name].paths.len() > 0,
            role,
        );
        assert(config::role_names(c).to_set().contains(role));
        let i = choose|i: int| 0 <= i < config::delegated(c).len() && config::delegated(c)[i] == role;
        assert(role_settled(files, c, base, now, config::delegated(c)[i], d));
    }
    let content = with_delegations(files, role, d)->Ok_0;
    settled_content(files, base, role, c.roles[role], now, content);
}

/// A delegation that is responsible for a target which another role is responsible for is to that
/// role.
proof fn claimed_path(c: ConfigView, name: Seq<char>, path: Seq<char>, role: Seq<char>, p: int)
    requires
        config::valid(c),
        c.roles.dom().contains(name),
        c.roles.dom().contains(role),
        delegated_path(configured_delegation(c, name), path),
        0 <= p < c.roles[role].paths.len(),
        config::responsible(c.roles[role].paths[p], path),
    ensures
        name == role,
{
    let d = configured_delegation(c, name);
    let pattern = choose|pattern: Seq<char>| #[trigger]
        d.paths.contains(pattern) && config::responsible(pattern, path);
    let all = c.roles[name].paths;
    assert(all.to_set().contains(pattern));
    let q = choose|q: int| 0 <= q < all.len() && all[q] == pattern;
    config::one_role_per_target(c, name, q, role, p, path);
}

} // verus!
