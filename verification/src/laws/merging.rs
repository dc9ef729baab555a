//! What the automation promises: that it merges what needs nobody, and waits for those who must sign.

use vstd::prelude::*;

use crate::ci;
use crate::ci::{JobView, PlanView};
use crate::config;
use crate::config::ConfigView;
use crate::documents::RoleKeysView;
use crate::error::Fault;
use crate::keys::KeyView;
use crate::laws::reporting;
use crate::laws::terms;
use crate::repo::Files;
use crate::status;
use crate::status::{RequirementView, RoleStatusView};

verus! {

/// Whether an offline key, or one that the config does not have, counts towards one of the thresholds
/// that the role must reach.
pub open spec fn signed_offline(c: ConfigView, base: Files, head: Files, role: Seq<char>) -> bool {
    exists|k: RoleKeysView, keys: Map<Seq<char>, KeyView>| #[trigger]
        reporting::demanded(base, head, role, k, keys) && some_offline(c, k, keys)
}

/// Whether one of the keys is offline, or not a key of the config.
pub open spec fn some_offline(c: ConfigView, k: RoleKeysView, keys: Map<Seq<char>, KeyView>) -> bool {
    exists|key: KeyView, label: Seq<char>|
        #![trigger terms::authorized(k, keys, key), reporting::called(c, key.id, label, false)]
        terms::authorized(k, keys, key) && reporting::called(c, key.id, label, false)
}

/// A requirement has an offline key where one counts towards its threshold.
proof fn offline_requirement(
    c: ConfigView,
    file: Seq<u8>,
    k: RoleKeysView,
    keys: Map<Seq<char>, KeyView>,
    r: RequirementView,
)
    requires
        reporting::tells_signers(c, file, k, keys, r),
    ensures
        status::requirement_offline(r) <==> some_offline(c, k, keys),
{
    if status::any_offline(r.signed) {
        let i = choose|i: int| 0 <= i < r.signed.len() && !(#[trigger] r.signed[i]).online;
        assert(reporting::stands_for(c, file, k, keys, r.signed[i], true));
        let key = choose|key: KeyView| #[trigger]
            terms::authorized(k, keys, key) && terms::bears(file, key) == true && reporting::named(
                c,
                key,
                r.signed[i],
            );
        assert(reporting::called(c, key.id, r.signed[i].name, false));
    }
    if status::any_offline(r.unsigned) {
        let i = choose|i: int| 0 <= i < r.unsigned.len() && !(#[trigger] r.unsigned[i]).online;
        assert(reporting::stands_for(c, file, k, keys, r.unsigned[i], false));
        let key = choose|key: KeyView| #[trigger]
            terms::authorized(k, keys, key) && terms::bears(file, key) == false && reporting::named(
                c,
                key,
                r.unsigned[i],
            );
        assert(reporting::called(c, key.id, r.unsigned[i].name, false));
    }
    if some_offline(c, k, keys) {
        let (key, label) = choose|key: KeyView, label: Seq<char>|
            #![trigger terms::authorized(k, keys, key), reporting::called(c, key.id, label, false)]
            terms::authorized(k, keys, key) && reporting::called(c, key.id, label, false);
        let list = if terms::bears(file, key) {
            r.signed
        } else {
            r.unsigned
        };
        assert(reporting::tells_of(c, list, key));
        let i = choose|i: int| 0 <= i < list.len() && reporting::named(c, key, #[trigger] list[i]);
        reporting::called_in_one_way(c, key.id, label, false, list[i].name, list[i].online);
        assert(!list[i].online);
    }
}

/// A role has an offline key where one counts towards one of its thresholds.
proof fn offline_role(c: ConfigView, base: Files, head: Files, s: RoleStatusView)
    requires
        reporting::tells_requirements(c, base, head, s),
    ensures
        status::role_offline(s) <==> signed_offline(c, base, head, s.role),
{
    let file = terms::bytes_of(head, s.role);
    if status::role_offline(s) {
        assert(signed_offline(c, base, head, s.role)) by {
            let i = choose|i: int|
                0 <= i < s.requirements.len() && status::requirement_offline(
                    #[trigger] s.requirements[i],
                );
            let r = s.requirements[i];
            assert(reporting::tells_of_demand(c, base, head, s.role, s.requirements[i]));
            let (k, keys) = choose|k: RoleKeysView, keys: Map<Seq<char>, KeyView>| #[trigger]
                reporting::demanded(base, head, s.role, k, keys) && reporting::tells_signers(
                    c,
                    file,
                    k,
                    keys,
                    r,
                );
            offline_requirement(c, file, k, keys, r);
        }
    }
    if signed_offline(c, base, head, s.role) {
        assert(status::role_offline(s)) by {
            let (k, keys) = choose|k: RoleKeysView, keys: Map<Seq<char>, KeyView>| #[trigger]
                reporting::demanded(base, head, s.role, k, keys) && some_offline(c, k, keys);
            let i = choose|i: int|
                0 <= i < s.requirements.len() && reporting::tells_signers(
                    c,
                    file,
                    k,
                    keys,
                    #[trigger] s.requirements[i],
                );
            offline_requirement(c, file, k, keys, s.requirements[i]);
        }
    }
}

/// Whether an event needs nobody: every role has been signed by enough of the keys that must sign it,
/// what it touches is signed by online keys only, and it changes nothing but files of metadata.
pub open spec fn needs_nobody(
    c: ConfigView,
    base: Files,
    head: Files,
    changed_files: Seq<Seq<char>>,
) -> bool {
    &&& forall|role: Seq<char>| #[trigger]
        reporting::looked_at(head, role) ==> reporting::fully_signed(base, head, role)
    &&& forall|role: Seq<char>| #[trigger]
        reporting::looked_at(head, role) && reporting::touched(base, head, role) ==> !signed_offline(
            c,
            base,
            head,
            role,
        )
    &&& forall|i: int|
        0 <= i < changed_files.len() ==> in_metadata(#[trigger] changed_files[i])
}

/// Whether the file lies in the directory of the metadata.
pub open spec fn in_metadata(name: Seq<char>) -> bool {
    name.len() >= 9 && name.take(9) == "metadata/"@
}

/// An event is merged by itself exactly where it needs nobody.
pub proof fn merged_where_nobody_is_needed(
    c: ConfigView,
    base: Files,
    head: Files,
    changed_files: Seq<Seq<char>>,
)
    requires
        config::valid(c),
        terms::proper(base),
        terms::proper(head),
        status::status_of(c, base, head) is Ok,
    ensures
        status::automatic(status::status_of(c, base, head)->Ok_0, changed_files) <==> needs_nobody(
            c,
            base,
            head,
            changed_files,
        ),
{
    let s = status::status_of(c, base, head)->Ok_0;
    reporting::complete_means_signed(c, base, head);
    reveal_strlit("metadata/");
    assert forall|name: Seq<char>| "metadata/"@.is_prefix_of(name) == #[trigger] in_metadata(name) by {
        if name.len() >= 9 {
            assert(name.take(9) =~= name.subrange(0, 9));
        }
    }
    assert(status::metadata_only(changed_files) <==> forall|i: int|
        0 <= i < changed_files.len() ==> in_metadata(#[trigger] changed_files[i])) by {
        if status::metadata_only(changed_files) {
            assert forall|i: int| 0 <= i < changed_files.len() implies in_metadata(
                #[trigger] changed_files[i],
            ) by {
                assert("metadata/"@.is_prefix_of(changed_files[i]));
            }
        }
    }
    if status::event_complete(s) {
        if status::event_offline(s) {
            let i = choose|i: int| 0 <= i < s.len() && status::role_offline(#[trigger] s[i]);
            reporting::the_status_is_true(c, base, head);
            assert(reporting::true_status(c, base, head, s[i]));
            offline_role(c, base, head, s[i]);
            reporting::the_status_conceals_no_role(c, base, head, s[i].role);
            assert(reporting::reported(s, s[i].role));
            assert(reporting::looked_at(head, s[i].role));
            assert(reporting::touched(base, head, s[i].role));
        } else {
            assert forall|role: Seq<char>| #[trigger]
                reporting::looked_at(head, role) && reporting::touched(base, head, role) implies
                !signed_offline(c, base, head, role) by {
                reporting::the_status_conceals_no_role(c, base, head, role);
                let i = choose|i: int| 0 <= i < s.len() && (#[trigger] s[i]).role == role;
                reporting::the_status_is_true(c, base, head);
                assert(reporting::true_status(c, base, head, s[i]));
                offline_role(c, base, head, s[i]);
                assert(!status::role_offline(s[i]));
            }
        }
    }
}

/// Where the automation reports on an event, it says that the signatures are in exactly where they
/// are, and merges it exactly where it needs nobody. It leaves an event alone that changes nothing.
pub proof fn the_plan_is_to_merge_what_needs_nobody(
    c: ConfigView,
    base: Files,
    head: Files,
    branch: Seq<char>,
    changed_files: Seq<Seq<char>>,
)
    requires
        config::valid(c),
        terms::proper(base),
        terms::proper(head),
        ci::plan_of(c, base, head, branch, changed_files) is Ok,
    ensures
        match ci::plan_of(c, base, head, branch, changed_files)->Ok_0 {
            PlanView::Nothing => changed_files.len() == 0,
            PlanView::Report { complete, merge, .. } => changed_files.len() > 0 && (complete <==> forall|
                role: Seq<char>,
            | #[trigger]
                reporting::looked_at(head, role) ==> reporting::fully_signed(base, head, role)) && (
            merge <==> needs_nobody(c, base, head, changed_files)),
        },
{
    if changed_files.len() > 0 {
        merged_where_nobody_is_needed(c, base, head, changed_files);
        reporting::complete_means_signed(c, base, head);
    }
}

/// Whether the event lacks a signature of somebody of the given name.
pub open spec fn waited_for(c: ConfigView, base: Files, head: Files, name: Seq<char>) -> bool {
    exists|role: Seq<char>, id: Seq<char>, online: bool|
        #![trigger reporting::wanted(base, head, role, id), reporting::called(c, id, name, online)]
        reporting::looked_at(head, role) && reporting::wanted(base, head, role, id)
            && reporting::called(c, id, name, online)
}

/// Those whom an event waits for are those who hold the keys that it lacks a signature of.
pub proof fn the_event_waits_for_the_holders(c: ConfigView, base: Files, head: Files, name: Seq<char>)
    requires
        config::valid(c),
        terms::proper(base),
        terms::proper(head),
        status::status_of(c, base, head) is Ok,
    ensures
        status::event_waits(status::status_of(c, base, head)->Ok_0).contains(name) <==> waited_for(
            c,
            base,
            head,
            name,
        ),
{
    let s = status::status_of(c, base, head)->Ok_0;
    reporting::the_event_waits_for_those_it_needs(s, name);
    if status::event_waits(s).contains(name) {
        let (i, j, m) = choose|i: int, j: int, m: int|
            0 <= i < s.len() && 0 <= j < s[i].requirements.len() && s[i].requirements[j].signed.len()
                < s[i].requirements[j].threshold && 0 <= m < s[i].requirements[j].unsigned.len() && (
            #[trigger] s[i].requirements[j].unsigned[m]).name == name;
        waits_in(c, base, head, i, j, m);
    }
    if waited_for(c, base, head, name) {
        let (role, id, online) = choose|role: Seq<char>, id: Seq<char>, online: bool|
            #![trigger reporting::wanted(base, head, role, id), reporting::called(c, id, name, online)]
            reporting::looked_at(head, role) && reporting::wanted(base, head, role, id)
                && reporting::called(c, id, name, online);
        awaited_in(c, base, head, role, id, name, online);
    }
}

/// A key that is listed as missing is waited for.
proof fn waits_in(c: ConfigView, base: Files, head: Files, i: int, j: int, m: int)
    requires
        config::valid(c),
        terms::proper(base),
        terms::proper(head),
        status::status_of(c, base, head) is Ok,
        ({
            let s = status::status_of(c, base, head)->Ok_0;
            0 <= i < s.len() && 0 <= j < s[i].requirements.len() && s[i].requirements[j].signed.len()
                < s[i].requirements[j].threshold && 0 <= m < s[i].requirements[j].unsigned.len()
        }),
    ensures
        waited_for(
            c,
            base,
            head,
            status::status_of(c, base, head)->Ok_0[i].requirements[j].unsigned[m].name,
        ),
{
    let s = status::status_of(c, base, head)->Ok_0;
    reporting::the_status_is_true(c, base, head);
    assert(reporting::true_status(c, base, head, s[i]));
    let role = s[i].role;
    let file = terms::bytes_of(head, role);
    let r = s[i].requirements[j];
    assert(reporting::tells_of_demand(c, base, head, role, s[i].requirements[j]));
    let (k, keys) = choose|k: RoleKeysView, keys: Map<Seq<char>, KeyView>| #[trigger]
        reporting::demanded(base, head, role, k, keys) && reporting::tells_signers(
            c,
            file,
            k,
            keys,
            r,
        );
    assert(reporting::stands_for(c, file, k, keys, r.unsigned[m], false));
    let key = choose|key: KeyView| #[trigger]
        terms::authorized(k, keys, key) && terms::bears(file, key) == false && reporting::named(
            c,
            key,
            r.unsigned[m],
        );
    assert(reporting::unsigned_by(file, k, keys, key.id));
    assert(reporting::demanded(base, head, role, k, keys));
    assert(reporting::short_of(head, role, k, keys));
    assert(reporting::wanted(base, head, role, key.id));
    assert(reporting::called(c, key.id, r.unsigned[m].name, r.unsigned[m].online));
}

/// Whether a key of the name is listed as missing for a requirement that is not met.
spec fn listed_missing(s: Seq<RoleStatusView>, name: Seq<char>) -> bool {
    exists|i: int, j: int, m: int|
        0 <= i < s.len() && 0 <= j < s[i].requirements.len() && s[i].requirements[j].signed.len()
            < s[i].requirements[j].threshold && 0 <= m < s[i].requirements[j].unsigned.len() && (
        #[trigger] s[i].requirements[j].unsigned[m]).name == name
}

/// A key that is waited for is listed as missing.
proof fn awaited_in(
    c: ConfigView,
    base: Files,
    head: Files,
    role: Seq<char>,
    id: Seq<char>,
    name: Seq<char>,
    online: bool,
)
    requires
        config::valid(c),
        terms::proper(base),
        terms::proper(head),
        status::status_of(c, base, head) is Ok,
        reporting::looked_at(head, role),
        reporting::wanted(base, head, role, id),
        reporting::called(c, id, name, online),
    ensures
        listed_missing(status::status_of(c, base, head)->Ok_0, name),
{
    let s = status::status_of(c, base, head)->Ok_0;
    let file = terms::bytes_of(head, role);
    let (k, keys) = choose|k: RoleKeysView, keys: Map<Seq<char>, KeyView>| #[trigger]
        reporting::demanded(base, head, role, k, keys) && reporting::short_of(head, role, k, keys)
            && reporting::unsigned_by(file, k, keys, id);
    assert(!reporting::fully_signed(base, head, role)) by {
        assert(reporting::demanded(base, head, role, k, keys));
    }
    reporting::the_status_conceals_no_role(c, base, head, role);
    let i = choose|i: int| 0 <= i < s.len() && (#[trigger] s[i]).role == role;
    reporting::the_status_is_true(c, base, head);
    assert(reporting::true_status(c, base, head, s[i]));
    let j = choose|j: int|
        0 <= j < s[i].requirements.len() && reporting::tells_signers(
            c,
            file,
            k,
            keys,
            #[trigger] s[i].requirements[j],
        );
    let r = s[i].requirements[j];
    let key = choose|key: KeyView| #[trigger]
        terms::authorized(k, keys, key) && key.id == id && !terms::bears(file, key);
    assert(reporting::tells_of(c, r.unsigned, key));
    let m = choose|m: int|
        0 <= m < r.unsigned.len() && reporting::named(c, key, #[trigger] r.unsigned[m]);
    reporting::called_in_one_way(
        c,
        id,
        name,
        online,
        r.unsigned[m].name,
        r.unsigned[m].online,
    );
    assert(s[i].requirements[j].unsigned[m].name == name);
}

/// The branch says what to do: the main branch is published, one under `sign/` is a signing event of
/// the name that follows, and there is nothing to do on any other.
pub proof fn branches_name_their_job(event: Seq<char>, branch: Seq<char>)
    ensures
        ci::job_on("sign/"@ + event) == Ok::<JobView, Fault>(JobView::SigningEvent(event)),
        ci::job_on("main"@) == Ok::<JobView, Fault>(JobView::Main),
        branch != "main"@ && !(branch.len() >= 5 && branch.take(5) == "sign/"@) ==> ci::job_on(
            branch,
        ) is Err,
{
    reveal_strlit("sign/");
    reveal_strlit("main");
    let b = "sign/"@ + event;
    assert(b.subrange(0, 5) =~= "sign/"@);
    assert(b.skip(5) =~= event);
    assert("sign/"@.is_prefix_of(b));
    if "sign/"@.is_prefix_of("main"@) {
        assert("sign/"@[0] == "main"@[0]);
    }
    if "sign/"@.is_prefix_of(branch) {
        assert(branch.take(5) =~= branch.subrange(0, 5));
    }
}

} // verus!
