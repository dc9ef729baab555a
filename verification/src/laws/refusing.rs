//! What is said of what is refused: that it names what is wrong.

use vstd::prelude::*;

use crate::config;
use crate::documents;
use crate::documents::{HeaderView, TargetsView, VersionView};
use crate::error;
use crate::error::{Fault, Problem};
use crate::laws::changes;
use crate::laws::publishing;
use crate::laws::terms;
use crate::publish;
use crate::repo;
use crate::repo::Files;
use crate::strmap;
use crate::text;

verus! {

/// Whether what is said of a repository that clients refuse names something of it that is missing, or
/// that can be refused.
pub open spec fn names_the_fault(files: Files, e: Fault) -> bool {
    match e {
        Problem::MissingMetadata { role } => !terms::has(files, role),
        Problem::Unparsable { role } => role == "root"@ && terms::has(files, role)
            && documents::root_in(terms::bytes_of(files, role)) is None,
        Problem::MissingFile { name } => !files.dom().contains(name) && exists|v: int|
            1 <= v && name == #[trigger] publishing::kept_root(v),
        Problem::RefusedRoot { version } => exists|v: int|
            1 <= v && version == #[trigger] text::decimal(v as nat) && files.dom().contains(
                publishing::kept_root(v),
            ),
        Problem::RoleName { role } => terms::lists(files, role) && !documents::names_metadata(role),
        Problem::Refused { role } => terms::has(files, role) && (role == "timestamp"@ || role
            == "snapshot"@ || terms::lists(files, role)),
        _ => false,
    }
}

/// What clients refuse is named: metadata or a version of root that is missing, root that cannot be read
/// or is refused, by its version, a role whose name is none, or a role that is there and is refused.
pub proof fn refusals_name_the_fault(files: Files, now: int)
    requires
        files.dom().finite(),
        documents::root_in(terms::bytes_of(files, "root"@)) matches Some((h, _)) ==> h.version >= 1,
    ensures
        publish::refused(files, now) matches Some(e) ==> names_the_fault(files, e),
{
    config::different_top_level();
    if repo::root_of(files) is Ok {
        let (h, _) = repo::root_of(files)->Ok_0;
        history_faults(files, h.version);
        if repo::root_history_of(files) is Ok {
            let history = repo::root_history_of(files)->Ok_0;
            publishing::history_holds(files, h.version);
            root_faults(files, history);
            if publish::trusted_root(history) is Ok {
                let root = publish::trusted_root(history)->Ok_0;
                if publish::trusted_snapshot(files, root, now) is Ok {
                    let snapshot = publish::trusted_snapshot(files, root, now)->Ok_0;
                    reveal_strlit("targets");
                    assert(!"targets"@.contains('/'));
                    if publish::trusted_targets(files, root, snapshot, now) is Ok {
                        let targets = publish::trusted_targets(files, root, snapshot, now)->Ok_0;
                        delegation_faults(files, targets, snapshot, now);
                    }
                }
            }
        }
    }
}

/// A version of root that is missing is named.
proof fn history_faults(files: Files, n: int)
    ensures
        repo::history_of(files, n) matches Err(e) ==> names_the_fault(files, e),
    decreases n,
{
    if n > 0 {
        history_faults(files, n - 1);
        assert(repo::history_name(n) == publishing::kept_root(n));
    }
}

/// A version of root that is refused is named.
proof fn root_faults(files: Files, history: Seq<Seq<u8>>)
    requires
        history.len() >= 1,
        forall|v: int|
            1 <= v <= history.len() ==> files.dom().contains(#[trigger] publishing::kept_root(v)),
    ensures
        publish::trusted_root(history) matches Err(e) ==> names_the_fault(files, e),
    decreases history.len(),
{
    let n = history.len() as int;
    assert(files.dom().contains(publishing::kept_root(n)));
    assert(text::decimal(history.len()) == text::decimal(n as nat));
    if history.len() > 1 {
        root_faults(files, history.drop_last());
    }
}

/// A delegated role that is refused is named.
proof fn delegation_faults(
    files: Files,
    targets: TargetsView,
    snapshot: (HeaderView, Map<Seq<char>, VersionView>),
    now: int,
)
    requires
        files.dom().finite(),
    ensures
        publish::delegations_refused(files, targets, snapshot, now) matches Some(e) ==> names_the_fault(
            files,
            e,
        ),
{
    let roles = repo::targets_roles_of(files);
    let f = |i: int| publish::delegation_refused(files, targets, snapshot, now, roles[i]);
    if publish::delegations_refused(files, targets, snapshot, now) is Some {
        assert(publish::delegations_refused(files, targets, snapshot, now) == error::first(
            f,
            roles.len() as int,
        ));
        error::first_is_one(f, roles.len() as int);
        let i = choose|i: int|
            0 <= i < roles.len() && #[trigger] f(i) == error::first(f, roles.len() as int);
        assert(roles.contains(roles[i]));
        publishing::role_listed(files, roles[i]);
    }
}

/// A target whose file was never uploaded is named, with the role that lists it and the object that is
/// missing.
pub proof fn missing_uploads_are_named(
    files: Files,
    uploaded: Map<Seq<char>, Seq<u8>>,
    path: Seq<char>,
    role: Seq<char>,
    object: Seq<char>,
)
    requires
        terms::proper(files),
        publish::any_not_uploaded(files, uploaded) == Some(
            Problem::NotUploaded { path, role, object },
        ),
    ensures
        terms::lists(files, role),
        changes::targets_at(files, role).dom().contains(path),
        changes::targets_at(files, role)[path].sha256 matches Some(hash) && publishing::stored_as(
            path,
            hash,
            object,
        ),
        !uploaded.dom().contains(object),
{
    config::different_top_level();
    let roles = repo::targets_roles_of(files);
    let f = |i: int| publish::role_not_uploaded(files, uploaded, roles[i]);
    error::first_is_one(f, roles.len() as int);
    let i = choose|i: int|
        0 <= i < roles.len() && #[trigger] f(i) == error::first(f, roles.len() as int);
    let own = roles[i];
    assert(roles.contains(own));
    publishing::role_listed(files, own);
    assert(files.dom().contains(own + ".json"@));
    let t = (repo::targets_of(files, own)->Ok_0).1;
    let paths = strmap::listing(t.targets.dom());
    strmap::listing_exists(t.targets.dom());
    let g = |i: int| publish::not_uploaded(own, paths[i], t.targets[paths[i]], uploaded);
    error::first_is_one(g, paths.len() as int);
    let k = choose|k: int|
        0 <= k < paths.len() && #[trigger] g(k) == error::first(g, paths.len() as int);
    assert(paths.to_set().contains(paths[k]));
    publishing::targets_are_stored_by_digest(paths[k], t.targets[paths[k]], object);
}

/// The keys of a role cannot be told where there is no root or no `targets`, where these cannot be read,
/// or where nothing is delegated to the role. That is said, and of the right one.
pub proof fn roles_without_keys_are_named(files: Files, role: Seq<char>)
    ensures
        repo::role_keys_of(files, role) matches Err(e) ==> match e {
            Problem::MissingMetadata { role: missing } => !terms::has(files, missing) && missing == if terms::is_top_level(
                role,
            ) {
                "root"@
            } else {
                "targets"@
            },
            Problem::Unparsable { role: broken } => terms::has(files, broken) && broken == if terms::is_top_level(
                role,
            ) {
                "root"@
            } else {
                "targets"@
            },
            Problem::NotDelegated { role: stranger } => stranger == role && !terms::is_top_level(role),
            _ => false,
        },
{
    config::different_top_level();
}

} // verus!
