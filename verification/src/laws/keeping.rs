//! What is kept: of the files that are read and written, of what roles list, and of signatures.

use vstd::prelude::*;

use vstd::utf8::{decode_utf8, valid_utf8};

use crate::cloud;
use crate::config;
use crate::config::{ConfigView, RoleConfigView};
use crate::documents;
use crate::documents::{DescriptionView, HeaderView};
use crate::error::{Fault, Problem};
use crate::git;
use crate::git::{NextView, ReplyView};
use crate::keys;
use crate::keys::{KeyView, SignatureView};
use crate::laws::changes;
use crate::laws::terms;
use crate::laws::updating;
use crate::metadata::ContentView;
use crate::repo;
use crate::repo::Files;
use crate::text;
use crate::time;
use crate::update;

verus! {

/// Whether the name is that of a JSON file.
pub open spec fn is_json(name: Seq<char>) -> bool {
    exists|stem: Seq<char>| name == #[trigger] (stem + ".json"@)
}

/// A name ends in `.json` where it is made of something and that.
proof fn json_suffix(name: Seq<char>)
    ensures
        ".json"@.is_suffix_of(name) <==> is_json(name),
{
    reveal_strlit(".json");
    if ".json"@.is_suffix_of(name) {
        let stem = name.take(name.len() - 5);
        assert(name.subrange(name.len() - 5, name.len() as int) == ".json"@);
        assert(name =~= stem + ".json"@);
    }
    if is_json(name) {
        let stem = choose|stem: Seq<char>| name == #[trigger] (stem + ".json"@);
        assert(name.subrange(name.len() - 5, name.len() as int) =~= ".json"@);
    }
}

/// Whether the `i`-th entry is the last one of that name.
pub open spec fn last_entry(entries: Seq<(Seq<char>, Seq<u8>)>, name: Seq<char>, i: int) -> bool {
    &&& 0 <= i < entries.len()
    &&& entries[i].0 == name
    &&& forall|j: int| i < j < entries.len() ==> (#[trigger] entries[j]).0 != name
}

/// What is loaded is the JSON files: all of them, with what they hold.
pub proof fn all_metadata_is_loaded(entries: Seq<(Seq<char>, Seq<u8>)>, name: Seq<char>)
    ensures
        repo::loaded(entries).dom().contains(name) <==> is_json(name) && exists|i: int|
            0 <= i < entries.len() && (#[trigger] entries[i]).0 == name,
        forall|i: int| #[trigger]
            last_entry(entries, name, i) && is_json(name) ==> repo::loaded(entries)[name]
                == entries[i].1,
    decreases entries.len(),
{
    json_suffix(name);
    if entries.len() > 0 {
        let rest = entries.drop_last();
        let n = entries.len() - 1;
        let last = entries[n];
        assert(entries.last() == last);
        all_metadata_is_loaded(rest, name);
        json_suffix(last.0);
        if exists|i: int| 0 <= i < rest.len() && (#[trigger] rest[i]).0 == name {
            let i = choose|i: int| 0 <= i < rest.len() && (#[trigger] rest[i]).0 == name;
            assert(entries[i].0 == name);
        }
        if exists|i: int| 0 <= i < entries.len() && (#[trigger] entries[i]).0 == name {
            let i = choose|i: int| 0 <= i < entries.len() && (#[trigger] entries[i]).0 == name;
            if i < n {
                assert(rest[i].0 == name);
            }
        }
        assert forall|i: int| #[trigger] last_entry(entries, name, i) && is_json(name) implies
            repo::loaded(entries)[name] == entries[i].1 by {
            if i < n {
                assert(entries[n].0 != name);
                assert(last_entry(rest, name, i)) by {
                    assert forall|j: int| i < j < rest.len() implies (#[trigger] rest[j]).0 != name by {
                        assert(entries[j].0 != name);
                    }
                }
            }
        }
    }
}

/// Whether the path is that of the metadata called `name`: the JSON file of that name in the directory
/// of the metadata.
pub open spec fn path_of(path: Seq<char>, name: Seq<char>) -> bool {
    path == "metadata/"@ + name && is_json(name)
}

/// The name of metadata is what follows the directory.
proof fn name_holds(path: Seq<char>, name: Seq<char>)
    ensures
        repo::name_in_metadata(path) == Some(name) <==> path_of(path, name),
{
    reveal_strlit("metadata/");
    json_suffix(name);
    if repo::name_in_metadata(path) == Some(name) {
        assert(path.subrange(0, 9) == "metadata/"@);
        assert(path =~= "metadata/"@ + path.skip(9));
    }
    if path_of(path, name) {
        assert(path.subrange(0, 9) =~= "metadata/"@);
        assert(path.skip(9) =~= name);
    }
}

/// Whether the `i`-th file shown is the last one that is the metadata called `name`.
pub open spec fn last_shown(
    shown: Seq<(Seq<char>, Option<Seq<u8>>)>,
    name: Seq<char>,
    i: int,
) -> bool {
    &&& 0 <= i < shown.len()
    &&& path_of(shown[i].0, name)
    &&& forall|j: int| i < j < shown.len() ==> !path_of((#[trigger] shown[j]).0, name)
}

/// What is loaded of a revision is the metadata that git shows of it: all of it, and nothing else. It
/// fails where git cannot show one of the files.
pub proof fn all_metadata_of_a_revision_is_loaded(
    shown: Seq<(Seq<char>, Option<Seq<u8>>)>,
    name: Seq<char>,
)
    ensures
        ({
            let r = repo::loaded_rev(shown);
            &&& r is Ok <==> forall|i: int|
                0 <= i < shown.len() && (#[trigger] shown[i]).1 is None ==> !in_metadata(shown[i].0)
            &&& r is Ok ==> (r->Ok_0.dom().contains(name) <==> exists|i: int|
                0 <= i < shown.len() && path_of((#[trigger] shown[i]).0, name))
            &&& r is Ok ==> forall|i: int| #[trigger]
                last_shown(shown, name, i) ==> shown[i].1 == Some(r->Ok_0[name])
        }),
    decreases shown.len(),
{
    if shown.len() > 0 {
        let rest = shown.drop_last();
        let n = shown.len() - 1;
        let last = shown[n];
        assert(shown.last() == last);
        all_metadata_of_a_revision_is_loaded(rest, name);
        name_holds(last.0, name);
        if repo::name_in_metadata(last.0) is Some {
            name_holds(last.0, repo::name_in_metadata(last.0)->0);
            assert(in_metadata(last.0));
        } else if in_metadata(last.0) {
            let x = choose|x: Seq<char>| #[trigger] path_of(last.0, x);
            name_holds(last.0, x);
        }
        let r = repo::loaded_rev(shown);
        let earlier = repo::loaded_rev(rest);
        if r is Ok {
            assert forall|i: int| 0 <= i < shown.len() && (#[trigger] shown[i]).1 is None implies
                !in_metadata(shown[i].0) by {
                if i < n {
                    assert(rest[i] == shown[i]);
                }
            }
            if exists|i: int| 0 <= i < rest.len() && path_of((#[trigger] rest[i]).0, name) {
                let i = choose|i: int| 0 <= i < rest.len() && path_of((#[trigger] rest[i]).0, name);
                assert(shown[i] == rest[i]);
            }
            if exists|i: int| 0 <= i < shown.len() && path_of((#[trigger] shown[i]).0, name) {
                let i = choose|i: int|
                    0 <= i < shown.len() && path_of((#[trigger] shown[i]).0, name);
                if i < n {
                    assert(rest[i] == shown[i]);
                }
            }
            assert forall|i: int| #[trigger] last_shown(shown, name, i) implies shown[i].1 == Some(
                r->Ok_0[name],
            ) by {
                if i < n {
                    assert(!path_of(shown[n].0, name));
                    assert(last_shown(rest, name, i)) by {
                        assert(rest[i] == shown[i]);
                        assert forall|j: int| i < j < rest.len() implies !path_of(
                            (#[trigger] rest[j]).0,
                            name,
                        ) by {
                            assert(rest[j] == shown[j]);
                        }
                    }
                }
            }
        }
        if forall|i: int|
            0 <= i < shown.len() && (#[trigger] shown[i]).1 is None ==> !in_metadata(shown[i].0) {
            assert forall|i: int| 0 <= i < rest.len() && (#[trigger] rest[i]).1 is None implies
                !in_metadata(rest[i].0) by {
                assert(rest[i] == shown[i]);
            }
            assert(shown[n].1 is None ==> !in_metadata(shown[n].0));
        }
    }
}

/// Whether the path is that of some metadata.
pub open spec fn in_metadata(path: Seq<char>) -> bool {
    exists|name: Seq<char>| #[trigger] path_of(path, name)
}

/// A new version of root is kept in its history as well, under its version, and no other role is.
pub proof fn new_roots_are_kept(
    files: Files,
    base: Files,
    conf: RoleConfigView,
    now: int,
    renew: bool,
    content: ContentView,
)
    requires
        update::update_of(files, base, "root"@, conf, now, renew, content) matches Ok((_, true)),
    ensures
        ({
            let after = (update::update_of(
                files,
                base,
                "root"@,
                conf,
                now,
                renew,
                content,
            )->Ok_0).0;
            documents::root_in(terms::bytes_of(after, "root"@)) matches Some((h, _)) && kept_as(
                after,
                h.version,
            )
        }),
{
}

/// Whether the root is kept under the version.
pub open spec fn kept_as(files: Files, version: int) -> bool {
    let name = "root_history/"@ + text::decimal(version as nat) + ".root.json"@;
    files.dom().contains(name) && files[name] == terms::bytes_of(files, "root"@)
}

/// A root that was signed is kept in its history with the signature.
pub proof fn signed_roots_are_kept(files: Files, key: KeyView, value: Seq<u8>)
    requires
        repo::sign_of(files, "root"@, key, value) is Ok,
    ensures
        ({
            let after = repo::sign_of(files, "root"@, key, value)->Ok_0;
            documents::root_in(terms::bytes_of(after, "root"@)) matches Some((h, _)) && kept_as(
                after,
                h.version,
            )
        }),
{
}

/// Signing touches no other role.
pub proof fn signing_touches_one_role(files: Files, role: Seq<char>, key: KeyView, value: Seq<u8>)
    requires
        repo::sign_of(files, role, key, value) is Ok,
    ensures
        updating::only_touches(files, repo::sign_of(files, role, key, value)->Ok_0, role),
{
    let after = repo::sign_of(files, role, key, value)->Ok_0;
    assert forall|x: Seq<char>| x != role && !x.contains('/') implies (#[trigger] terms::has(after, x)
        <==> terms::has(files, x)) && (terms::has(files, x) ==> terms::bytes_of(after, x)
        == terms::bytes_of(files, x)) by {
        repo::file_name_injective(x, role);
        assert forall|version: int| #[trigger] repo::history_name(version) != x + ".json"@ by {
            updating::history_has_slash(version, x);
        }
    }
}

/// After a key has signed a role its file bears the signature, and those of all other keys that it
/// bore.
pub proof fn signing_adds_one_signature(
    before: Files,
    after: Files,
    role: Seq<char>,
    key: KeyView,
    value: Seq<u8>,
    other: KeyView,
)
    requires
        repo::sign_of(before, role, key, value) == Ok::<Files, Fault>(after),
        repo::signed_part(after, role) == Ok::<(Seq<SignatureView>, Seq<u8>), Fault>(
            (
                repo::with_signature(
                    repo::signed_part(before, role)->Ok_0.0,
                    SignatureView { key_id: key.id, value },
                ),
                repo::signed_part(before, role)->Ok_0.1,
            ),
        ),
    ensures
        terms::bears(terms::bytes_of(after, role), key),
        other.id != key.id ==> (terms::bears(terms::bytes_of(after, role), other) <==> terms::bears(
            terms::bytes_of(before, role),
            other,
        )),
{
    let (sigs, input) = repo::signed_part(before, role)->Ok_0;
    let sig = SignatureView { key_id: key.id, value };
    repo::signature_counts(sigs, input, key, value);
    if other.id != key.id {
        repo::other_signatures_stay(sigs, input, sig, other);
    }
}

/// A root is made only where each of the four roles can be signed: its threshold is at least one, and
/// there are as many keys.
pub proof fn roots_can_be_signed(
    files: Files,
    base: Files,
    role: Seq<char>,
    conf: RoleConfigView,
    now: int,
    renew: bool,
    content: ContentView,
    top: Seq<char>,
)
    requires
        update::update_of(files, base, role, conf, now, renew, content) is Ok,
        content is Root,
        terms::is_top_level(top),
    ensures
        ({
            let k = terms::given_by_root(content->Root_0, top);
            1 <= k.threshold <= k.key_ids.len()
        }),
{
}

/// New versions count on from those in `base`, have no signatures yet, and are valid for as many days
/// as the config has for the role.
pub proof fn new_versions_last_as_configured(
    files: Files,
    base: Files,
    c: ConfigView,
    now: int,
    roles: Seq<Seq<char>>,
    role: Seq<char>,
)
    requires
        update::all_fresh(files, base, c, now, roles) || (update::targets_fresh(
            files,
            base,
            c,
            now,
            roles,
        ) && repo::lists_targets(role)),
        roles.contains(role),
        c.roles.dom().contains(role),
        repo::header_of(base, role) is Ok,
    ensures
        documents::signatures_in(terms::bytes_of(files, role)) matches Some(sigs) && sigs.len() == 0,
        exists|h: HeaderView, b: Option<HeaderView>|
            #![trigger updating::headed(files, role, Some(h)), updating::headed(base, role, b)]
            updating::headed(files, role, Some(h)) && updating::headed(base, role, b) && h.version == (
            match b {
                Some(b) => b.version + 1,
                None => 1,
            }) && h.expires == time::instant(
                time::second_of(now) + c.roles[role].expires_days * 86_400,
                0,
            ),
{
    reveal(update::all_fresh);
    let i = choose|i: int| 0 <= i < roles.len() && roles[i] == role;
    let b = repo::header_of(base, role)->Ok_0;
    assert(c.roles.dom().contains(roles[i]));
    let h = repo::header_of(files, role)->Ok_0->0;
    updating::headers_are_read_from_metadata(base, role, b);
    updating::headers_are_read_from_metadata(files, role, Some(h));
    assert(updating::headed(files, role, Some(h)) && updating::headed(base, role, b));
}

/// A role that the config has lists what it listed, target for target.
pub proof fn configured_roles_keep_their_targets(
    before: Files,
    after: Files,
    c: ConfigView,
    role: Seq<char>,
)
    requires
        update::targets_kept(before, after, c),
        c.roles.dom().contains(role),
        repo::lists_targets(role),
        update::targets_listed(before, role) is Ok,
    ensures
        changes::targets_at(after, role) == changes::targets_at(before, role),
{
    config::different_top_level();
}

/// Signing online changes nothing that roles list.
pub proof fn online_signing_keeps_targets(before: Files, after: Files, role: Seq<char>)
    requires
        update::contents_kept(before, after),
        repo::lists_targets(role),
        update::targets_listed(before, role) is Ok,
    ensures
        changes::targets_at(after, role) == changes::targets_at(before, role),
        terms::has(before, role) ==> documents::same_delegations(
            (documents::targets_in(terms::bytes_of(after, role))->0).1.delegations,
            (documents::targets_in(terms::bytes_of(before, role))->0).1.delegations,
        ),
{
    config::different_top_level();
    assert(repo::lists_targets(role));
    assert(update::says_the_same(before, after, role));
}

/// Whether one of the targets has the path.
pub open spec fn among(targets: Seq<(Seq<char>, DescriptionView)>, path: Seq<char>) -> bool {
    exists|i: int| 0 <= i < targets.len() && (#[trigger] targets[i]).0 == path
}

/// A target that was added is listed, as it was given last, in the role that it belongs in.
pub proof fn added_targets_are_listed(
    before: Files,
    after: Files,
    targets: Seq<(Seq<char>, DescriptionView)>,
    role: Seq<char>,
    i: int,
)
    requires
        update::all_listed(before, after, targets),
        0 <= i < targets.len(),
        forall|j: int| i < j < targets.len() ==> (#[trigger] targets[j]).0 != targets[i].0,
        update::role_for(before, targets[i].0) == Ok::<Seq<char>, Fault>(role),
    ensures
        terms::has(after, role),
        changes::holds(changes::targets_at(after, role), targets[i].0, targets[i].1),
{
    assert(update::lists(after, role, targets[i].0, targets[i].1));
}

/// Adding targets takes nothing away: a role lists all that it listed, and a target that was not added
/// is listed as it was. A role that none of them belongs in is not touched.
pub proof fn adding_targets_keeps_the_others(
    before: Files,
    after: Files,
    targets: Seq<(Seq<char>, DescriptionView)>,
    role: Seq<char>,
    path: Seq<char>,
)
    requires
        update::rest_kept(before, after, targets),
        update::others_kept(before, after, targets),
        terms::has(before, role),
        !among(targets, path),
    ensures
        changes::targets_at(after, role).dom().contains(path) <==> changes::targets_at(
            before,
            role,
        ).dom().contains(path),
        changes::targets_at(before, role).dom().contains(path) ==> changes::targets_at(after, role)[path]
            == changes::targets_at(before, role)[path],
        (forall|i: int|
            0 <= i < targets.len() ==> update::role_for(before, (#[trigger] targets[i]).0) != Ok::<
                Seq<char>,
                Fault,
            >(role)) ==> terms::has(after, role) && terms::bytes_of(after, role) == terms::bytes_of(
            before,
            role,
        ),
{
    if update::some_for(before, targets, role) {
        assert(update::only_added(before, after, targets, role));
        assert(!update::given_for(before, targets, role, path));
        let u = (repo::targets_of(after, role)->Ok_0).1;
        assert(u.targets.dom().contains(path) <==> (repo::targets_of(
            before,
            role,
        )->Ok_0).1.targets.dom().contains(path));
        if u.targets.dom().contains(path) {
            assert(u.targets[path] == (repo::targets_of(before, role)->Ok_0).1.targets[path]);
        }
    } else {
        assert(repo::raw_of(after, role) == repo::raw_of(before, role));
    }
}

/// The media type of an object goes by its name.
pub proof fn media_types_go_by_name(name: Seq<char>)
    ensures
        cloud::media_type(name) == if is_json(name) {
            "application/json"@
        } else {
            "application/octet-stream"@
        },
{
    json_suffix(name);
}

/// A PEM text is a key of the config where it is a public key on the curve P-256, and the key is the
/// one of type and scheme ECDSA with it.
pub proof fn only_p256_keys_are_read(pem: Seq<char>)
    ensures
        keys::key_from_pem(pem) is Some ==> (keys::pem_key(pem) matches Some(k) && k.algorithm
            == "1.2.840.10045.2.1"@ && k.parameter == "1.2.840.10045.3.1.7"@),
        keys::pem_key(pem) matches Some(k) ==> (k.algorithm == "1.2.840.10045.2.1"@ && k.parameter
            == "1.2.840.10045.3.1.7"@ ==> keys::key_from_pem(pem) == keys::defined_key(
            "ecdsa"@,
            "ecdsa-sha2-nistp256"@,
            k.pem,
        )),
{
}

/// Checking out an event is refused while there is metadata that was not committed. An event that the
/// remote has is continued from what the remote has, and fast-forwarded to it where it is here already.
pub proof fn events_are_continued_from_the_remote(event: Seq<char>, replies: Seq<ReplyView>)
    ensures
        ({
            let n = git::checkout_next(event, replies);
            let branch = "sign/"@ + event;
            &&& n is Done && n->Done_0 is Ok ==> n->Done_0->Ok_0 == branch && replies.len() >= 5
                && replies[0].success && text::trimmed(text::lossy(replies[0].stdout)).len() == 0
                && replies[1].success
            &&& replies.len() == 4 && replies[0].success && text::trimmed(
                text::lossy(replies[0].stdout),
            ).len() == 0 && replies[1].success && replies[3].success ==> n == NextView::<
                Seq<char>,
            >::Run(
                if replies[2].success {
                    seq!["checkout"@, "--quiet"@, branch]
                } else {
                    seq!["checkout"@, "--quiet"@, "-b"@, branch, "origin/"@ + branch]
                },
            )
            &&& replies.len() == 5 && replies[0].success && text::trimmed(
                text::lossy(replies[0].stdout),
            ).len() == 0 && replies[1].success && replies[2].success && replies[3].success
                && replies[4].success ==> n == NextView::<Seq<char>>::Run(
                seq!["merge"@, "--quiet"@, "--ff-only"@, "origin/"@ + branch],
            )
        }),
{
}

/// Adding targets names the roles whose metadata it changed, and no others.
pub proof fn adding_targets_names_what_changed(
    before: Files,
    after: Files,
    changed: Seq<Seq<char>>,
    role: Seq<char>,
)
    requires
        update::names_changes(before, after, changed),
    ensures
        changed.contains(role) <==> terms::has(before, role) != terms::has(after, role) || (terms::has(
            before,
            role,
        ) && terms::bytes_of(before, role) != terms::bytes_of(after, role)),
{
}

/// Where no target can have one of the paths, none of the targets is added.
pub proof fn nothing_is_added_beside_a_bad_path(
    files: Files,
    c: ConfigView,
    base: Files,
    targets: Seq<(Seq<char>, DescriptionView)>,
    now: int,
    i: int,
)
    requires
        0 <= i < targets.len(),
        !documents::names_target(targets[i].0),
    ensures
        update::add_of(files, c, base, targets, now).changed is Err,
        update::add_of(files, c, base, targets, now).files == files,
{
    grouping_fails(files, targets, i);
}

/// There are no groups of targets where one has no path for a target.
proof fn grouping_fails(files: Files, targets: Seq<(Seq<char>, DescriptionView)>, i: int)
    requires
        0 <= i < targets.len(),
        !documents::names_target(targets[i].0),
    ensures
        update::grouped(files, targets) is Err,
    decreases targets.len(),
{
    if i < targets.len() - 1 {
        assert(targets.drop_last()[i] == targets[i]);
        grouping_fails(files, targets.drop_last(), i);
    }
}

/// The config of a revision is read where it is text, as that text, and missed where it is not there.
pub proof fn configs_are_read_as_text(rev: Seq<char>, bytes: Seq<u8>)
    ensures
        config::text_at(rev, None) == Err::<Seq<char>, Fault>(Problem::NoConfig { rev }),
        config::text_at(rev, Some(bytes)) matches Ok(t) ==> valid_utf8(bytes) && t == decode_utf8(bytes),
        valid_utf8(bytes) ==> config::text_at(rev, Some(bytes)) is Ok,
{
}

/// Whether all files are the same but that of the role, and for root the one that keeps its version.
pub open spec fn only_writes(before: Files, after: Files, role: Seq<char>) -> bool {
    let version = (documents::root_in(terms::bytes_of(after, "root"@))->0).0.version;
    forall|name: Seq<char>|
        name != role + ".json"@ && !(role == "root"@ && name == "root_history/"@ + text::decimal(
            version as nat,
        ) + ".root.json"@) ==> (#[trigger] after.dom().contains(name) <==> before.dom().contains(name))
            && (before.dom().contains(name) ==> after[name] == before[name])
}

/// A new version takes nothing away, of other roles or of the history of root.
pub proof fn new_versions_take_nothing_away(
    files: Files,
    base: Files,
    role: Seq<char>,
    conf: RoleConfigView,
    now: int,
    renew: bool,
    content: ContentView,
)
    requires
        update::update_of(files, base, role, conf, now, renew, content) is Ok,
    ensures
        only_writes(
            files,
            (update::update_of(files, base, role, conf, now, renew, content)->Ok_0).0,
            role,
        ),
{
}

/// A signature takes nothing away, of other roles or of the history of root.
pub proof fn signatures_take_nothing_away(
    files: Files,
    role: Seq<char>,
    key: KeyView,
    value: Seq<u8>,
)
    requires
        repo::sign_of(files, role, key, value) is Ok,
    ensures
        only_writes(files, repo::sign_of(files, role, key, value)->Ok_0, role),
{
}

} // verus!
