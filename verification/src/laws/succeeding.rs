//! Where operations succeed: metadata that can be read and signed stands in the way of none.

use vstd::prelude::*;

use crate::ci;
use crate::config;
use crate::config::{ConfigView, RoleConfigView};
use crate::documents;
use crate::documents::{DescriptionView, HeaderView, RoleKeysView};
use crate::error::{Fault, Problem};
use crate::keys;
use crate::keys::{KeyView, SignatureView};
use crate::laws::changes;
use crate::laws::publishing;
use crate::laws::reporting;
use crate::laws::terms;
use crate::laws::updating;
use crate::metadata;
use crate::metadata::ContentView;
use crate::repo;
use crate::repo::Files;
use crate::status;
use crate::status::{ChangeView, Index, RoleStatusView, Sides};
use crate::strmap;
use crate::time;
use crate::update;

verus! {

/// Whether somebody must sign the role: root gives it keys, or a delegation does.
pub open spec fn has_signers(files: Files, role: Seq<char>) -> bool {
    exists|k: RoleKeysView, keys: Map<Seq<char>, KeyView>| #[trigger]
        terms::must_sign(files, role, k, keys)
}

/// Whether the file has signatures and can be signed.
pub open spec fn signable(file: Seq<u8>) -> bool {
    documents::signatures_in(file) is Some && documents::signing_input(file) is Some
}

/// Whether metadata of the role, where there is any, can be read.
pub open spec fn readable(files: Files, role: Seq<char>) -> bool {
    terms::has(files, role) ==> if role == "root"@ {
        documents::root_in(terms::bytes_of(files, role)) is Some
    } else {
        documents::targets_in(terms::bytes_of(files, role)) is Some
    }
}

/// Whether the target has a file that can be told of.
pub open spec fn described(path: Seq<char>, d: DescriptionView) -> bool {
    exists|object: Seq<char>|
        d.sha256 is Some && #[trigger] publishing::stored_as(path, d.sha256->0, object)
            && documents::names_target(object.skip(8))
}

/// Whether all metadata that the status looks at can be read.
pub open spec fn legible(files: Files) -> bool {
    forall|role: Seq<char>| #[trigger] reporting::looked_at(files, role) ==> readable(files, role)
}

/// Whether all metadata that the status looks at can be signed, and all its targets told of.
pub open spec fn in_shape(head: Files) -> bool {
    forall|role: Seq<char>| #[trigger]
        reporting::looked_at(head, role) ==> {
            &&& signable(terms::bytes_of(head, role))
            &&& documents::names_metadata(role)
            &&& has_signers(head, role)
            &&& role != "root"@ ==> forall|path: Seq<char>| #[trigger]
                changes::targets_at(head, role).dom().contains(path) ==> described(
                    path,
                    changes::targets_at(head, role)[path],
                )
        }
}

/// It can be told who has signed a role wherever its file can be signed.
pub proof fn signers_are_found(files: Files, role: Seq<char>, keys: Seq<KeyView>)
    ensures
        repo::signed_by_of(files, role, keys) is Ok <==> terms::has(files, role) && signable(
            terms::bytes_of(files, role),
        ) && documents::names_metadata(role),
{
}

/// It can be told which keys are missing wherever the file can be signed, somebody must sign it, and,
/// for a root that replaces another one, that one can be read.
pub proof fn missing_keys_are_found(files: Files, base: Files, role: Seq<char>)
    requires
        terms::has(files, role),
        signable(terms::bytes_of(files, role)),
        documents::names_metadata(role),
        has_signers(files, role),
        role == "root"@ && terms::has(base, "root"@) ==> has_signers(base, "root"@),
    ensures
        repo::missing_keys_of(files, base, role) is Ok,
        repo::requirements_of(files, base, role) is Ok,
{
    signers_known(files, role);
    if role == "root"@ && terms::has(base, "root"@) {
        signers_known(base, "root"@);
    }
    let needs = repo::requirements_of(files, base, role)->Ok_0;
    missing_for_known(files, role, needs);
}

/// The keys of a role are known where somebody must sign it.
proof fn signers_known(files: Files, role: Seq<char>)
    requires
        has_signers(files, role),
    ensures
        repo::role_keys_of(files, role) is Ok,
{
    config::different_top_level();
    let (k, keys) = choose|k: RoleKeysView, keys: Map<Seq<char>, KeyView>| #[trigger]
        terms::must_sign(files, role, k, keys);
    if !terms::is_top_level(role) {
        let t = (documents::targets_in(terms::bytes_of(files, "targets"@))->0).1;
        let i = choose|i: int| #[trigger]
            terms::first_delegation(t, role, i) && k == (RoleKeysView {
                threshold: t.delegations.roles[i].threshold,
                key_ids: t.delegations.roles[i].key_ids,
            });
        repo::first_delegation(t, role, i);
    }
}

/// The missing keys of several needs are known.
proof fn missing_for_known(files: Files, role: Seq<char>, needs: Seq<(int, Seq<KeyView>)>)
    requires
        terms::has(files, role),
        signable(terms::bytes_of(files, role)),
        documents::names_metadata(role),
    ensures
        repo::missing_for_all(files, role, needs) is Ok,
    decreases needs.len(),
{
    if needs.len() > 0 {
        missing_for_known(files, role, needs.drop_last());
    }
}

/// The requirements of several needs are known.
proof fn requirements_known(
    c: ConfigView,
    files: Files,
    role: Seq<char>,
    needs: Seq<(int, Seq<KeyView>)>,
)
    requires
        terms::has(files, role),
        signable(terms::bytes_of(files, role)),
        documents::names_metadata(role),
    ensures
        status::requirements_for(c, files, role, needs) is Ok,
    decreases needs.len(),
{
    if needs.len() > 0 {
        requirements_known(c, files, role, needs.drop_last());
    }
}

/// The index is known where metadata can be read.
proof fn index_known(files: Files, names: Seq<Seq<char>>)
    requires
        forall|i: int|
            0 <= i < names.len() ==> terms::has(files, #[trigger] names[i]) && names[i] != "root"@
                && readable(files, names[i]),
    ensures
        status::index_of(files, names) is Ok,
    decreases names.len(),
{
    if names.len() > 0 {
        let rest = names.drop_last();
        assert forall|i: int| 0 <= i < rest.len() implies terms::has(files, #[trigger] rest[i])
            && rest[i] != "root"@ && readable(files, rest[i]) by {
            assert(rest[i] == names[i]);
        }
        index_known(files, rest);
        assert(terms::has(files, names[names.len() - 1]));
        config::different_top_level();
    }
}

/// What becomes of targets is known where they can be told of.
proof fn fates_known(s: Sides, paths: Seq<Seq<char>>)
    requires
        forall|path: Seq<char>| #[trigger]
            s.new.dom().contains(path) ==> described(path, s.new[path]),
    ensures
        status::fates(s, paths) is Ok,
    decreases paths.len(),
{
    if paths.len() > 0 {
        fates_known(s, paths.drop_last());
        let path = paths.last();
        if s.new.dom().contains(path) {
            let d = s.new[path];
            let object = choose|object: Seq<char>|
                d.sha256 is Some && #[trigger] publishing::stored_as(path, d.sha256->0, object)
                    && documents::names_target(object.skip(8));
            publishing::targets_are_stored_by_digest(path, d, object);
        }
    }
}

/// The status of each role is known.
proof fn role_status_known(
    c: ConfigView,
    base: Files,
    head: Files,
    role: Seq<char>,
    base_index: Index,
    head_index: Index,
)
    requires
        readable(base, role),
        readable(head, role),
        role == "root"@ && terms::has(base, "root"@) ==> has_signers(base, "root"@),
        reporting::looked_at(head, role),
        in_shape(head),
    ensures
        status::role_status_of(c, base, head, role, base_index, head_index) is Ok,
{
    config::different_top_level();
    missing_keys_are_found(head, base, role);
    let needs = repo::requirements_of(head, base, role)->Ok_0;
    requirements_known(c, head, role, needs);
    if role != "root"@ {
        let was = status::targets_if_any(base, role)->Ok_0;
        let new = (repo::targets_of(head, role)->Ok_0).1;
        let s = Sides {
            role,
            was: status::targets_before(was),
            new: new.targets,
            base_index,
            head_index,
        };
        assert(new.targets == changes::targets_at(head, role));
        fates_known(s, strmap::listing(s.was.dom().union(s.new.dom())));
    }
}

/// The statuses of several roles are known.
proof fn statuses_known(
    c: ConfigView,
    base: Files,
    head: Files,
    names: Seq<Seq<char>>,
    base_index: Index,
    head_index: Index,
)
    requires
        in_shape(head),
        terms::has(base, "root"@) ==> has_signers(base, "root"@),
        forall|i: int|
            0 <= i < names.len() ==> reporting::looked_at(head, #[trigger] names[i]) && readable(
                base,
                names[i],
            ) && readable(head, names[i]),
    ensures
        status::statuses(c, base, head, names, base_index, head_index) is Ok,
    decreases names.len(),
{
    if names.len() > 0 {
        let rest = names.drop_last();
        assert forall|i: int| 0 <= i < rest.len() implies reporting::looked_at(
            head,
            #[trigger] rest[i],
        ) && readable(base, rest[i]) && readable(head, rest[i]) by {
            assert(rest[i] == names[i]);
        }
        statuses_known(c, base, head, rest, base_index, head_index);
        let last = names[names.len() - 1];
        assert(names.last() == last);
        assert(reporting::looked_at(head, last));
        role_status_known(c, base, head, last, base_index, head_index);
    }
}

/// There is a status of every event whose metadata can be read and signed and whose targets can be told
/// of, and where main has metadata that can be read.
pub proof fn every_event_has_a_status(c: ConfigView, base: Files, head: Files)
    requires
        base.dom().finite(),
        head.dom().finite(),
        legible(base),
        legible(head),
        in_shape(head),
        terms::has(base, "root"@) ==> has_signers(base, "root"@),
    ensures
        status::status_of(c, base, head) is Ok,
{
    listed_readable(base);
    listed_readable(head);
    index_known(base, repo::targets_roles_of(base));
    index_known(head, repo::targets_roles_of(head));
    let bi = status::index_of(base, repo::targets_roles_of(base))->Ok_0;
    let hi = status::index_of(head, repo::targets_roles_of(head))->Ok_0;
    let names = status::event_roles(head);
    assert forall|i: int| 0 <= i < names.len() implies reporting::looked_at(head, #[trigger] names[i])
        && readable(base, names[i]) && readable(head, names[i]) by {
        assert(names.contains(names[i]));
        reporting::looked_at_is_listed(head, names[i]);
        if terms::has(base, names[i]) {
            reveal_strlit("root");
            assert(reporting::looked_at(base, names[i]));
        }
    }
    statuses_known(c, base, head, names, bi, hi);
}

/// What lists targets can be read.
proof fn listed_readable(files: Files)
    requires
        files.dom().finite(),
        legible(files),
    ensures
        forall|i: int|
            0 <= i < repo::targets_roles_of(files).len() ==> terms::has(
                files,
                #[trigger] repo::targets_roles_of(files)[i],
            ) && repo::targets_roles_of(files)[i] != "root"@ && readable(
                files,
                repo::targets_roles_of(files)[i],
            ),
{
    config::different_top_level();
    let names = repo::targets_roles_of(files);
    assert forall|i: int| 0 <= i < names.len() implies terms::has(files, #[trigger] names[i])
        && names[i] != "root"@ && readable(files, names[i]) by {
        assert(names.contains(names[i]));
        publishing::role_listed(files, names[i]);
        assert(reporting::looked_at(files, names[i]));
    }
}

/// A role that is not outdated is left alone.
pub proof fn what_is_not_outdated_stays(
    files: Files,
    base: Files,
    role: Seq<char>,
    conf: RoleConfigView,
    now: int,
    content: ContentView,
)
    requires
        terms::proper(files),
        terms::proper(base),
        terms::has(files, role),
        updating::read_like(content, terms::bytes_of(files, role)) is Some,
        signable(terms::bytes_of(files, role)),
        documents::names_metadata(role),
        has_signers(files, role),
        role == "root"@ && terms::has(base, "root"@) ==> has_signers(base, "root"@),
        repo::header_of(base, role) is Ok,
        content matches ContentView::Root(r) ==> forall|top: Seq<char>| #[trigger]
            terms::is_top_level(top) ==> 1 <= terms::given_by_root(r, top).threshold
                <= terms::given_by_root(r, top).key_ids.len(),
        !updating::outdated(files, base, role, conf, now, false, content),
    ensures
        update::update_of(files, base, role, conf, now, false, content) == Ok::<(Files, bool), Fault>(
            (files, false),
        ),
{
    config::different_top_level();
    missing_keys_are_found(files, base, role);
    assert(terms::is_top_level("root"@) && terms::is_top_level("targets"@) && terms::is_top_level(
        "snapshot"@,
    ) && terms::is_top_level("timestamp"@));
    let missing = repo::missing_keys_of(files, base, role)->Ok_0;
    if missing.len() > 0 {
        assert(missing.contains(missing[0]));
        updating::missing_keys_are_wanted(files, base, role, missing[0].id);
    }
}

/// A valid signature is added to whatever can be signed, unless the file cannot be written. One that is
/// not valid is refused.
pub proof fn valid_signatures_are_added(files: Files, role: Seq<char>, key: KeyView, value: Seq<u8>)
    requires
        terms::has(files, role),
        signable(terms::bytes_of(files, role)),
        documents::names_metadata(role),
    ensures
        ({
            let file = terms::bytes_of(files, role);
            let valid = keys::accepts(key, documents::signing_input(file)->0, value);
            let written = documents::resigned(
                file,
                repo::with_signature(
                    documents::signatures_in(file)->0,
                    SignatureView { key_id: key.id, value },
                ),
            );
            let r = repo::sign_of(files, role, key, value);
            &&& !valid ==> r == Err::<Files, Fault>(Problem::BadSignature { role })
            &&& valid && role != "root"@ && (written matches Some(f) && documents::readable(f) is Some)
                ==> r is Ok
            &&& valid && role == "root"@ && (written matches Some(f) && (documents::readable(
                f,
            ) matches Some(text) && documents::root_in(text.push(10u8)) is Some)) ==> r is Ok
        }),
{
}

/// There is a report on an event wherever the uploads of its target files have addresses.
pub proof fn every_status_is_reported(roles: Seq<RoleStatusView>, storage: Seq<char>)
    requires
        forall|i: int, k: int|
            0 <= i < roles.len() && 0 <= k < roles[i].changes.len() ==> ci::change_line(
                #[trigger] roles[i].changes[k],
                storage,
            ) is Ok,
    ensures
        ci::markdown_of(roles, storage) is Ok,
{
    sections_known(roles, storage);
}

/// The sections of several roles.
proof fn sections_known(roles: Seq<RoleStatusView>, storage: Seq<char>)
    requires
        forall|i: int, k: int|
            0 <= i < roles.len() && 0 <= k < roles[i].changes.len() ==> ci::change_line(
                #[trigger] roles[i].changes[k],
                storage,
            ) is Ok,
    ensures
        ci::sections(roles, storage) is Ok,
    decreases roles.len(),
{
    if roles.len() > 0 {
        let rest = roles.drop_last();
        let n = roles.len() - 1;
        assert forall|i: int, k: int|
            0 <= i < rest.len() && 0 <= k < rest[i].changes.len() implies ci::change_line(
            #[trigger] rest[i].changes[k],
            storage,
        ) is Ok by {
            assert(rest[i] == roles[i]);
            assert(ci::change_line(roles[i].changes[k], storage) is Ok);
        }
        sections_known(rest, storage);
        assert(roles.last() == roles[n]);
        let changes = roles[n].changes;
        assert forall|k: int| 0 <= k < changes.len() implies ci::change_line(
            #[trigger] changes[k],
            storage,
        ) is Ok by {
            assert(ci::change_line(roles[n].changes[k], storage) is Ok);
        }
        lines_known(changes, storage);
    }
}

/// The lines of several changes.
proof fn lines_known(changes: Seq<ChangeView>, storage: Seq<char>)
    requires
        forall|k: int|
            0 <= k < changes.len() ==> ci::change_line(#[trigger] changes[k], storage) is Ok,
    ensures
        ci::change_lines(changes, storage) is Ok,
    decreases changes.len(),
{
    if changes.len() > 0 {
        let rest = changes.drop_last();
        assert forall|k: int| 0 <= k < rest.len() implies ci::change_line(
            #[trigger] rest[k],
            storage,
        ) is Ok by {
            assert(rest[k] == changes[k]);
        }
        lines_known(rest, storage);
        assert(ci::change_line(changes[changes.len() - 1], storage) is Ok);
    }
}

/// A role that is outdated is written anew: as the content asks, with the version after the one in
/// `base`, and an expiry so many days from now as the config has.
pub proof fn what_is_outdated_is_written_anew(
    files: Files,
    base: Files,
    role: Seq<char>,
    conf: RoleConfigView,
    now: int,
    renew: bool,
    content: ContentView,
    version: int,
    file: Seq<u8>,
    text: Seq<u8>,
)
    requires
        terms::proper(files),
        terms::proper(base),
        terms::has(files, role) ==> {
            &&& updating::read_like(content, terms::bytes_of(files, role)) is Some
            &&& signable(terms::bytes_of(files, role))
            &&& documents::names_metadata(role)
            &&& has_signers(files, role)
            &&& role == "root"@ && terms::has(base, "root"@) ==> has_signers(base, "root"@)
        },
        content matches ContentView::Root(r) ==> forall|top: Seq<char>| #[trigger]
            terms::is_top_level(top) ==> 1 <= terms::given_by_root(r, top).threshold
                <= terms::given_by_root(r, top).key_ids.len(),
        updating::outdated(files, base, role, conf, now, renew, content),
        version <= u32::MAX,
        updating::headed(base, role, None) && version == 1 || exists|h: HeaderView| #[trigger]
            updating::headed(base, role, Some(h)) && version == h.version + 1,
        metadata::written(
            version,
            time::second_of(now) + conf.expires_days * 86_400,
            content,
        ) == Some(file),
        documents::readable(file) == Some(text),
        role == "root"@ ==> documents::root_in(text.push(10u8)) is Some,
    ensures
        update::update_of(files, base, role, conf, now, renew, content) matches Ok((after, true))
            && terms::has(after, role) && terms::bytes_of(after, role) == text.push(10u8),
{
    config::different_top_level();
    assert(terms::is_top_level("root"@) && terms::is_top_level("targets"@) && terms::is_top_level(
        "snapshot"@,
    ) && terms::is_top_level("timestamp"@));
    if updating::headed(base, role, None) && version == 1 {
        updating::headers_are_read_from_metadata(base, role, None);
    } else {
        let h = choose|h: HeaderView| #[trigger]
            updating::headed(base, role, Some(h)) && version == h.version + 1;
        updating::headers_are_read_from_metadata(base, role, Some(h));
    }
    if terms::has(files, role) {
        missing_keys_are_found(files, base, role);
        let missing = repo::missing_keys_of(files, base, role)->Ok_0;
        if exists|id: Seq<char>| #[trigger] reporting::wanted(base, files, role, id) {
            let id = choose|id: Seq<char>| #[trigger] reporting::wanted(base, files, role, id);
            updating::missing_keys_are_wanted(files, base, role, id);
            let key = choose|key: KeyView| #[trigger] missing.contains(key) && key.id == id;
            assert(missing.contains(key));
        }
    }
}

} // verus!
