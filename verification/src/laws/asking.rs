//! What those who sign are asked, and where the files that they add go.

use vstd::prelude::*;

use crate::ci;
use crate::cli;
use crate::cli::{Attempt, FoundView, SessionView};
use crate::documents;
use crate::error::Fault;
use crate::laws::reporting;
use crate::laws::storing;
use crate::laws::terms;
use crate::order;
use crate::repo;
use crate::repo::Files;
use crate::status;
use crate::status::RoleStatusView;
use crate::text;

verus! {

/// Whether a requirement of the role is not met and lists the key as missing.
pub open spec fn lacks_key(s: RoleStatusView, key: Seq<char>) -> bool {
    exists|j: int, m: int|
        0 <= j < s.requirements.len() && s.requirements[j].signed.len() < s.requirements[j].threshold
            && 0 <= m < s.requirements[j].unsigned.len() && (
        #[trigger] s.requirements[j].unsigned[m]).id == key
}

/// A role needs the keys that its requirements lack.
pub proof fn needed_keys_are_lacking(s: RoleStatusView, key: Seq<char>)
    ensures
        status::role_needs(s, key) <==> lacks_key(s, key),
{
    if status::role_needs(s, key) {
        let j = choose|j: int|
            0 <= j < s.requirements.len() && status::lacks(#[trigger] s.requirements[j], key);
        let r = s.requirements[j];
        let m = choose|m: int| 0 <= m < r.unsigned.len() && (#[trigger] r.unsigned[m]).id == key;
        assert(s.requirements[j].unsigned[m].id == key);
    }
    if lacks_key(s, key) {
        let (j, m) = choose|j: int, m: int|
            0 <= j < s.requirements.len() && s.requirements[j].signed.len()
                < s.requirements[j].threshold && 0 <= m < s.requirements[j].unsigned.len() && (
            #[trigger] s.requirements[j].unsigned[m]).id == key;
        let r = s.requirements[j];
        assert(r.unsigned[m].id == key);
        assert(status::lacks(s.requirements[j], key));
    }
}

/// Whether the event is one to sign with the key: one of its roles lacks it, and the event is among
/// those asked for, where any are.
pub open spec fn to_sign(
    e: (Seq<char>, Seq<RoleStatusView>),
    key: Seq<char>,
    asked: Seq<Seq<char>>,
) -> bool {
    (exists|i: int| 0 <= i < e.1.len() && lacks_key(#[trigger] e.1[i], key)) && (asked.len() > 0
        ==> asked.contains(e.0))
}

/// The events that wait for a key are those to sign with it: each of them, once, in order.
pub proof fn pending_events_are_those_to_sign(
    events: Seq<(Seq<char>, Seq<RoleStatusView>)>,
    key: Seq<char>,
    asked: Seq<Seq<char>>,
)
    requires
        events.len() <= usize::MAX,
    ensures
        ({
            let p = cli::pending_positions(events, key, asked);
            &&& forall|i: int|
                0 <= i < events.len() ==> (p.contains(i as usize) <==> to_sign(
                    #[trigger] events[i],
                    key,
                    asked,
                ))
            &&& forall|a: int| 0 <= a < p.len() ==> (#[trigger] p[a]) < events.len()
            &&& forall|a: int, b: int| 0 <= a < b < p.len() ==> #[trigger] p[a] < #[trigger] p[b]
        }),
    decreases events.len(),
{
    if events.len() > 0 {
        let rest = events.drop_last();
        let n = events.len() - 1;
        pending_events_are_those_to_sign(rest, key, asked);
        let earlier = cli::pending_positions(rest, key, asked);
        let p = cli::pending_positions(events, key, asked);
        pending_event(events[n], key, asked);
        assert(events.last() == events[n]);
        assert forall|i: int| 0 <= i < events.len() implies (p.contains(i as usize) <==> to_sign(
            #[trigger] events[i],
            key,
            asked,
        )) by {
            order::push_holds(earlier, n as usize, i as usize);
            if i < n {
                assert(rest[i] == events[i]);
                assert(i as usize != n as usize);
            } else if earlier.contains(n as usize) {
                let a = choose|a: int| 0 <= a < earlier.len() && earlier[a] == n as usize;
                assert(earlier[a] < rest.len());
            }
        }
    }
}

/// An event is pending where it is one to sign.
proof fn pending_event(
    e: (Seq<char>, Seq<RoleStatusView>),
    key: Seq<char>,
    asked: Seq<Seq<char>>,
)
    ensures
        cli::is_pending(e, key, asked) <==> to_sign(e, key, asked),
{
    let p = |r: RoleStatusView| status::role_needs(r, key);
    let needing = cli::roles_needing(e.1, key);
    assert(needing == e.1.filter(p));
    if needing.len() > 0 {
        assert(needing.contains(needing[0]));
        repo::filter_holds(e.1, p, needing[0]);
        let i = choose|i: int| 0 <= i < e.1.len() && e.1[i] == needing[0];
        needed_keys_are_lacking(e.1[i], key);
    }
    if exists|i: int| 0 <= i < e.1.len() && lacks_key(#[trigger] e.1[i], key) {
        let i = choose|i: int| 0 <= i < e.1.len() && lacks_key(#[trigger] e.1[i], key);
        needed_keys_are_lacking(e.1[i], key);
        assert(e.1.contains(e.1[i]));
        repo::filter_holds(e.1, p, e.1[i]);
    }
}

/// The roles that are signed with a key are those of the event that lack it.
pub proof fn roles_to_sign_lack_the_key(s: Seq<RoleStatusView>, key: Seq<char>, r: RoleStatusView)
    ensures
        cli::roles_needing(s, key).contains(r) <==> s.contains(r) && lacks_key(r, key),
{
    repo::filter_holds(s, |r: RoleStatusView| status::role_needs(r, key), r);
    needed_keys_are_lacking(r, key);
}

/// The session after several attempts.
pub open spec fn after_attempts(s: SessionView, attempts: Seq<Attempt>) -> SessionView
    decreases attempts.len(),
{
    if attempts.len() == 0 {
        s
    } else {
        cli::after_attempt(after_attempts(s, attempts.drop_last()), attempts.last())
    }
}

/// How many of the attempts were the last ones for their roles.
pub open spec fn concluded(attempts: Seq<Attempt>) -> nat {
    attempts.filter(|a: Attempt| a != Attempt::Again).len()
}

/// A session goes through its roles one by one: it stays with a role until it is signed or given up,
/// and then turns to the next. Something was signed exactly where an attempt succeeded.
pub proof fn sessions_go_through_their_roles(s: SessionView, attempts: Seq<Attempt>)
    ensures
        ({
            let t = after_attempts(s, attempts);
            &&& t.roles == s.roles
            &&& t.done == s.done + concluded(attempts)
            &&& t.signed <==> s.signed || attempts.contains(Attempt::Signed)
        }),
    decreases attempts.len(),
{
    reveal(Seq::filter);
    if attempts.len() > 0 {
        let rest = attempts.drop_last();
        let last = attempts.last();
        sessions_go_through_their_roles(s, rest);
        order::push_holds(rest, last, Attempt::Signed);
        assert(rest.push(last) =~= attempts);
    }
}

/// The roles of a signing event are those with metadata but snapshot and timestamp.
pub proof fn event_roles_are_signed_by_people(files: Files, role: Seq<char>)
    requires
        files.dom().finite(),
    ensures
        cli::event_roles_of(files).contains(role) <==> terms::has(files, role) && !role.contains('/')
            && role != "snapshot"@ && role != "timestamp"@,
{
    reporting::role_present(files, role);
    repo::filter_holds(
        repo::roles_of(files),
        |role: Seq<char>| role != "snapshot"@ && role != "timestamp"@,
        role,
    );
}

/// What is said of an event depends on whether its signatures are in, and whether it is merged by
/// itself: those whom it waits for are named, and a maintainer is needed for what is not merged.
pub proof fn the_outlook_is_true(s: Seq<RoleStatusView>, changed_files: Seq<Seq<char>>)
    ensures
        ({
            let t = cli::outlook_of(s, changed_files);
            let waiting = exists|i: int, j: int|
                0 <= i < s.len() && 0 <= j < s[i].requirements.len() && (
                #[trigger] s[i].requirements[j]).signed.len() < s[i].requirements[j].threshold;
            &&& waiting ==> t == "Waiting for signatures from "@ + ci::waiting_text(s)
                + ". CI opens a pull request; signers run `tufops sign`."@
            &&& !waiting ==> t == if status::automatic(s, changed_files) {
                "All signatures are in: CI merges and publishes it."@
            } else {
                "All signatures are in: CI opens a pull request for a maintainer to merge."@
            }
        }),
{
    if status::event_complete(s) {
        assert forall|i: int, j: int| 0 <= i < s.len() && 0 <= j < s[i].requirements.len() implies (
        #[trigger] s[i].requirements[j]).signed.len() >= s[i].requirements[j].threshold by {
            assert(status::role_complete(s[i]));
            assert(status::is_met(s[i].requirements[j]));
        }
    } else {
        let i = choose|i: int| 0 <= i < s.len() && !status::role_complete(#[trigger] s[i]);
        let j = choose|j: int|
            0 <= j < s[i].requirements.len() && !status::is_met(#[trigger] s[i].requirements[j]);
        assert(s[i].requirements[j].signed.len() < s[i].requirements[j].threshold);
    }
}

/// A file goes to the given path, or keeps its name in the directory that is given with a slash at its
/// end. It is refused where no target can have that path.
pub proof fn files_go_where_asked(from: Seq<char>, to: Seq<char>, name: Seq<char>)
    ensures
        ({
            let path = if to.len() > 0 && to.last() == '/' {
                to + name
            } else {
                to
            };
            let r = cli::target_paths(from, to, FoundView::File(name));
            if documents::names_target(path) {
                r == Ok::<Seq<Seq<char>>, Fault>(seq![path])
            } else {
                r is Err
            }
        }),
{
    reveal_strlit("/");
    assert("/"@ =~= seq!['/']);
    if to.len() > 0 {
        assert(to.subrange(to.len() - 1, to.len() as int) =~= seq![to.last()]);
        if "/"@.is_suffix_of(to) {
            assert("/"@[0] == to.last());
        }
    }
}

/// The files of a directory keep their paths below the given one, whatever slashes are around it. All
/// of them are refused where no target can have one of the paths, or where there are none.
pub proof fn directories_keep_their_paths(
    from: Seq<char>,
    a: Seq<char>,
    to: Seq<char>,
    b: Seq<char>,
    entries: Seq<Seq<Seq<char>>>,
)
    requires
        storing::slashes(a),
        storing::bare(to),
        to.len() > 0,
        storing::slashes(b),
    ensures
        ({
            let r = cli::target_paths(from, a + to + b, FoundView::Directory(entries));
            &&& r is Ok <==> entries.len() > 0 && forall|i: int|
                0 <= i < entries.len() ==> documents::names_target(
                    to + "/"@ + text::joined(#[trigger] entries[i], "/"@),
                )
            &&& r matches Ok(paths) ==> paths.len() == entries.len() && forall|i: int|
                0 <= i < entries.len() ==> #[trigger] paths[i] == to + "/"@ + text::joined(
                    entries[i],
                    "/"@,
                )
        }),
{
    entries_keep_their_paths(a, to, b, entries);
}

/// The files of a directory.
proof fn entries_keep_their_paths(
    a: Seq<char>,
    to: Seq<char>,
    b: Seq<char>,
    entries: Seq<Seq<Seq<char>>>,
)
    requires
        storing::slashes(a),
        storing::bare(to),
        to.len() > 0,
        storing::slashes(b),
    ensures
        ({
            let r = cli::entry_paths(a + to + b, entries);
            &&& r is Ok <==> forall|i: int|
                0 <= i < entries.len() ==> documents::names_target(
                    to + "/"@ + text::joined(#[trigger] entries[i], "/"@),
                )
            &&& r matches Ok(paths) ==> paths.len() == entries.len() && forall|i: int|
                0 <= i < entries.len() ==> #[trigger] paths[i] == to + "/"@ + text::joined(
                    entries[i],
                    "/"@,
                )
        }),
    decreases entries.len(),
{
    if entries.len() > 0 {
        let rest = entries.drop_last();
        let n = entries.len() - 1;
        entries_keep_their_paths(a, to, b, rest);
        storing::slashes_are_stripped(a, to, b);
        let path = to + "/"@ + text::joined(entries[n], "/"@);
        assert(entries.last() == entries[n]);
        assert(path[0] == to[0]);
        assert(cli::entry_path(a + to + b, entries[n]) == path);
        let r = cli::entry_paths(a + to + b, entries);
        let earlier = cli::entry_paths(a + to + b, rest);
        if r is Ok {
            assert forall|i: int| 0 <= i < entries.len() implies documents::names_target(
                to + "/"@ + text::joined(#[trigger] entries[i], "/"@),
            ) && r->Ok_0[i] == to + "/"@ + text::joined(entries[i], "/"@) by {
                if i < n {
                    assert(rest[i] == entries[i]);
                    assert(earlier->Ok_0[i] == to + "/"@ + text::joined(rest[i], "/"@));
                }
            }
        }
        if forall|i: int|
            0 <= i < entries.len() ==> documents::names_target(
                to + "/"@ + text::joined(#[trigger] entries[i], "/"@),
            ) {
            assert forall|i: int| 0 <= i < rest.len() implies documents::names_target(
                to + "/"@ + text::joined(#[trigger] rest[i], "/"@),
            ) by {
                assert(rest[i] == entries[i]);
            }
            assert(documents::names_target(to + "/"@ + text::joined(entries[n], "/"@)));
        }
    }
}

/// The files of a directory keep their paths where they go to the top, whatever slashes say so.
pub proof fn directories_at_the_top_keep_their_paths(
    from: Seq<char>,
    to: Seq<char>,
    entries: Seq<Seq<Seq<char>>>,
)
    requires
        storing::slashes(to),
        forall|i: int|
            0 <= i < entries.len() ==> {
                let path = text::joined(#[trigger] entries[i], "/"@);
                path.len() > 0 && path[0] != '/'
            },
    ensures
        ({
            let r = cli::target_paths(from, to, FoundView::Directory(entries));
            &&& r is Ok <==> entries.len() > 0 && forall|i: int|
                0 <= i < entries.len() ==> documents::names_target(
                    text::joined(#[trigger] entries[i], "/"@),
                )
            &&& r matches Ok(paths) ==> paths.len() == entries.len() && forall|i: int|
                0 <= i < entries.len() ==> #[trigger] paths[i] == text::joined(entries[i], "/"@)
        }),
{
    entries_at_the_top(to, entries);
}

/// The files of a directory that go to the top.
proof fn entries_at_the_top(to: Seq<char>, entries: Seq<Seq<Seq<char>>>)
    requires
        storing::slashes(to),
        forall|i: int|
            0 <= i < entries.len() ==> {
                let path = text::joined(#[trigger] entries[i], "/"@);
                path.len() > 0 && path[0] != '/'
            },
    ensures
        ({
            let r = cli::entry_paths(to, entries);
            &&& r is Ok <==> forall|i: int|
                0 <= i < entries.len() ==> documents::names_target(
                    text::joined(#[trigger] entries[i], "/"@),
                )
            &&& r matches Ok(paths) ==> paths.len() == entries.len() && forall|i: int|
                0 <= i < entries.len() ==> #[trigger] paths[i] == text::joined(entries[i], "/"@)
        }),
    decreases entries.len(),
{
    if entries.len() > 0 {
        let rest = entries.drop_last();
        let n = entries.len() - 1;
        assert forall|i: int| 0 <= i < rest.len() implies ({
            let path = text::joined(#[trigger] rest[i], "/"@);
            path.len() > 0 && path[0] != '/'
        }) by {
            assert(rest[i] == entries[i]);
        }
        entries_at_the_top(to, rest);
        let none = Seq::<char>::empty();
        let path = text::joined(entries[n], "/"@);
        assert(entries.last() == entries[n]);
        storing::slashes_are_stripped(to, none, none);
        assert(to + none + none =~= to);
        reveal_strlit("/");
        assert(none + "/"@ + path =~= "/"@ + path);
        assert(storing::slashes("/"@));
        storing::start_stripped("/"@, path);
        assert(cli::entry_path(to, entries[n]) == path);
        let r = cli::entry_paths(to, entries);
        let earlier = cli::entry_paths(to, rest);
        if r is Ok {
            assert forall|i: int| 0 <= i < entries.len() implies documents::names_target(
                text::joined(#[trigger] entries[i], "/"@),
            ) && r->Ok_0[i] == text::joined(entries[i], "/"@) by {
                if i < n {
                    assert(rest[i] == entries[i]);
                    assert(earlier->Ok_0[i] == text::joined(rest[i], "/"@));
                }
            }
        }
        if forall|i: int|
            0 <= i < entries.len() ==> documents::names_target(
                text::joined(#[trigger] entries[i], "/"@),
            ) {
            assert forall|i: int| 0 <= i < rest.len() implies documents::names_target(
                text::joined(#[trigger] rest[i], "/"@),
            ) by {
                assert(rest[i] == entries[i]);
            }
            assert(documents::names_target(text::joined(entries[n], "/"@)));
        }
    }
}

} // verus!
