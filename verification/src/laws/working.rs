//! What the steps with Git and the runs of the automation promise.

use vstd::prelude::*;

use crate::ci;
use crate::ci::{MainEventView, MergeView};
use crate::error::Problem;
use crate::git;
use crate::git::{NextView, ReplyView};
use crate::order;
use crate::text;

verus! {

/// What follows a prefix.
proof fn after_prefix_holds(texts: Seq<Seq<char>>, prefix: Seq<char>, rest: Seq<char>)
    ensures
        git::after_prefix(texts, prefix).contains(rest) <==> texts.contains(prefix + rest),
    decreases texts.len(),
{
    if texts.len() > 0 {
        let earlier = texts.drop_last();
        let last = texts.last();
        after_prefix_holds(earlier, prefix, rest);
        order::push_holds(earlier, last, prefix + rest);
        assert(earlier.push(last) =~= texts);
        let whole = prefix + rest;
        assert(whole.subrange(0, prefix.len() as int) =~= prefix);
        assert(whole.skip(prefix.len() as int) =~= rest);
        if prefix.is_prefix_of(last) {
            let tail = last.skip(prefix.len() as int);
            order::push_holds(git::after_prefix(earlier, prefix), tail, rest);
            assert(last.subrange(0, prefix.len() as int) == prefix);
            assert(prefix + tail =~= last);
        } else {
            assert(whole != last);
        }
    }
}

/// The signing events are the branches under `sign/` that the remote has.
pub proof fn events_are_branches_of_the_remote(replies: Seq<ReplyView>, event: Seq<char>)
    requires
        replies.len() > 0,
        replies[0].success,
    ensures
        git::events_next(replies) matches NextView::Done(Ok(events)) && (events.contains(event)
            <==> text::lines_of(text::trimmed(text::lossy(replies[0].stdout))).contains(
            "refs/remotes/origin/sign/"@ + event,
        )),
{
    after_prefix_holds(
        text::lines_of(text::trimmed(text::lossy(replies[0].stdout))),
        "refs/remotes/origin/sign/"@,
        event,
    );
}

/// A branch is on the remote under the same name.
pub proof fn branches_have_the_same_name_on_the_remote(event: Seq<char>)
    ensures
        git::event_branch(event) == "sign/"@ + event,
        git::remote_of(git::event_branch(event)) == "origin/"@ + ("sign/"@ + event),
{
}

/// Something is committed exactly where, once all changes to the paths are staged, there are any: the
/// commit is made after both, and where it was not needed none is made.
pub proof fn commits_where_something_changed(
    message: Seq<char>,
    paths: Seq<Seq<char>>,
    replies: Seq<ReplyView>,
)
    ensures
        ({
            let n = git::commit_next(message, paths, replies);
            &&& n == NextView::<bool>::Done(Ok(true)) <==> replies.len() >= 3 && replies[0].success
                && !replies[1].success && replies[2].success
            &&& n == NextView::<bool>::Done(Ok(false)) <==> replies.len() >= 2 && replies[0].success
                && replies[1].success
            &&& n is Run <==> replies.len() == 0 || replies.len() == 1 && replies[0].success
                || replies.len() == 2 && replies[0].success && !replies[1].success
        }),
{
}

/// An event that could not be merged is tried again twice. Its branch is deleted only once main has
/// been pushed.
pub proof fn merged_events_are_deleted(branch: Seq<char>, attempt: int, replies: Seq<ReplyView>)
    ensures
        ({
            let n = ci::push_event_next(branch, attempt, replies);
            &&& replies.len() == 0 ==> n == NextView::<MergeView>::Run(
                seq!["push"@, "origin"@, "HEAD:refs/heads/main"@],
            )
            &&& replies.len() == 1 && replies[0].success ==> n == NextView::<MergeView>::Run(
                seq!["push"@, "origin"@, "--delete"@, branch],
            )
            &&& n == NextView::<MergeView>::Done(Ok(MergeView::Merged)) <==> replies.len() >= 2
                && replies[0].success && replies[1].success
            &&& (n matches NextView::Done(Ok(MergeView::Again(_)))) <==> replies.len() >= 1
                && !replies[0].success && attempt < 3
            &&& (n matches NextView::Done(Err(_))) <==> replies.len() >= 1 && !replies[0].success
                && attempt >= 3 || replies.len() >= 2 && replies[0].success && !replies[1].success
        }),
{
}

/// Main has moved on where, once it was fetched, the commit that ours was made on is not the one that
/// the remote has.
pub proof fn main_moved_on_where_commits_differ(replies: Seq<ReplyView>)
    requires
        replies.len() == 3,
        replies[0].success,
        replies[1].success,
        replies[2].success,
    ensures
        ci::moved_on_next(replies) == NextView::<bool>::Done(
            Ok(
                text::trimmed(text::lossy(replies[1].stdout)) != text::trimmed(
                    text::lossy(replies[2].stdout),
                ),
            ),
        ),
        ci::moved_on_next(replies.take(1)) == NextView::<bool>::Run(seq!["rev-parse"@, "HEAD~1"@]),
        ci::moved_on_next(replies.take(2)) == NextView::<bool>::Run(
            seq!["rev-parse"@, "origin/main"@],
        ),
{
}

/// An event is looked at as it would be once merged: the files that it changes are asked for after main
/// was merged into it. Where that cannot be done there is a conflict, and nothing else is asked.
pub proof fn events_are_looked_at_as_merged(
    branch: Seq<char>,
    tip: Seq<char>,
    replies: Seq<ReplyView>,
)
    ensures
        ({
            let n = ci::merge_main_next(branch, tip, replies);
            &&& n matches NextView::Done(Ok(_)) ==> replies.len() >= 4 && replies[0].success
                && replies[1].success && replies[2].success && replies[3].success
            &&& replies.len() >= 3 && replies[0].success && replies[1].success && !replies[2].success
                ==> n == NextView::<Seq<Seq<char>>>::Done(Err(Problem::Conflict { branch }))
            &&& replies.len() == 1 && replies[0].success ==> n == NextView::<Seq<Seq<char>>>::Run(
                seq!["checkout"@, "--quiet"@, "-B"@, branch, tip],
            )
            &&& replies.len() == 2 && replies[0].success && replies[1].success ==> n == NextView::<
                Seq<Seq<char>>,
            >::Run(seq!["merge"@, "--no-edit"@, "origin/main"@])
            &&& replies.len() == 3 && replies[0].success && replies[1].success && replies[2].success
                ==> n == NextView::<Seq<Seq<char>>>::Run(
                seq!["diff"@, "--name-only"@, "--no-renames"@, "-z"@, "origin/main"@ + "...HEAD"@],
            )
        }),
{
}

/// A run on main publishes where there was nothing to commit or the commit was pushed, and only there.
/// What is due gets a signing event, unless there is one already. Where main could not be pushed, the
/// run gives up, unless another has taken over.
pub proof fn runs_on_main_publish_and_refresh(e: MainEventView)
    ensures
        ({
            let n = ci::main_after(e);
            &&& n is Commit <==> e is Updated
            &&& n is Push <==> e == MainEventView::Committed(true)
            &&& n is Publish <==> e == MainEventView::Committed(false) || e == MainEventView::Pushed(
                true,
            )
            &&& n is AskMoved <==> e == MainEventView::Pushed(false)
            &&& n is Leave <==> e == MainEventView::Moved(true)
            &&& n is Fail <==> e == MainEventView::Moved(false)
            &&& n is List <==> e is Published
            &&& n is Apply <==> (e matches MainEventView::Listed(events) && forall|i: int|
                0 <= i < events.len() ==> #[trigger] events[i] != "refresh"@)
            &&& n is Refresh <==> (e matches MainEventView::Applied(roles) && roles.len() > 0)
        }),
{
    if let MainEventView::Listed(events) = e {
        if events.contains("refresh"@) {
            let i = choose|i: int| 0 <= i < events.len() && events[i] == "refresh"@;
            assert(events[i] == "refresh"@);
        }
    }
}

/// Whether the text is white space only.
pub open spec fn blank(s: Seq<char>) -> bool {
    forall|i: int| 0 <= i < s.len() ==> text::white(#[trigger] s[i])
}

/// What is left of a text that is trimmed neither starts nor ends with white space, and nothing but
/// white space is lost.
pub proof fn trimming_loses_white_space_only(s: Seq<char>)
    ensures
        ({
            let t = text::trimmed(s);
            &&& t.len() > 0 ==> !text::white(t[0]) && !text::white(t.last())
            &&& exists|a: Seq<char>, b: Seq<char>|
                #![trigger blank(a), blank(b)]
                blank(a) && blank(b) && s == a + t + b
        }),
{
    let t = text::trimmed_start(s);
    trimmed_at_start(s);
    let a = choose|a: Seq<char>| #[trigger] blank(a) && s == a + t;
    trimmed_at_end(t);
    let u = text::trimmed(s);
    let b = choose|b: Seq<char>| #[trigger] blank(b) && t == u + b;
    assert(s =~= a + u + b);
    if u.len() > 0 {
        assert(u[0] == t[0]);
    }
    assert(blank(a) && blank(b));
}

/// White space at the start.
proof fn trimmed_at_start(s: Seq<char>)
    ensures
        exists|a: Seq<char>| #[trigger] blank(a) && s == a + text::trimmed_start(s),
        text::trimmed_start(s).len() > 0 ==> !text::white(text::trimmed_start(s)[0]),
    decreases s.len(),
{
    let t = text::trimmed_start(s);
    if s.len() > 0 && text::white(s[0]) {
        trimmed_at_start(s.skip(1));
        let a = choose|a: Seq<char>| #[trigger] blank(a) && s.skip(1) == a + t;
        let b = seq![s[0]] + a;
        assert(blank(b)) by {
            assert forall|i: int| 0 <= i < b.len() implies text::white(#[trigger] b[i]) by {
                if i > 0 {
                    assert(b[i] == a[i - 1]);
                }
            }
        }
        assert(s =~= seq![s[0]] + s.skip(1));
        assert(s =~= b + t);
    } else {
        let none = Seq::<char>::empty();
        assert(blank(none));
        assert(s =~= none + t);
    }
}

/// White space at the end.
proof fn trimmed_at_end(s: Seq<char>)
    ensures
        exists|b: Seq<char>| #[trigger] blank(b) && s == text::trimmed_end(s) + b,
        text::trimmed_end(s).len() > 0 ==> !text::white(text::trimmed_end(s).last()),
    decreases s.len(),
{
    let t = text::trimmed_end(s);
    if s.len() > 0 && text::white(s.last()) {
        trimmed_at_end(s.drop_last());
        let b = choose|b: Seq<char>| #[trigger] blank(b) && s.drop_last() == t + b;
        let d = b.push(s.last());
        assert(blank(d)) by {
            assert forall|i: int| 0 <= i < d.len() implies text::white(#[trigger] d[i]) by {
                if i < b.len() {
                    assert(d[i] == b[i]);
                }
            }
        }
        assert(s =~= s.drop_last().push(s.last()));
        assert((t + b).push(s.last()) =~= t + d);
    } else {
        let none = Seq::<char>::empty();
        assert(blank(none));
        assert(s =~= t + none);
    }
}

/// The lines, each with a line feed at its end.
pub open spec fn with_line_feeds(lines: Seq<Seq<char>>) -> Seq<char>
    decreases lines.len(),
{
    if lines.len() == 0 {
        Seq::empty()
    } else {
        lines[0] + seq!['\n'] + with_line_feeds(lines.skip(1))
    }
}

/// Whether the text is one line: it has no line feed, and no carriage return at its end.
pub open spec fn one_line(s: Seq<char>) -> bool {
    !s.contains('\n') && (s.len() > 0 ==> s.last() != '\r')
}

/// Lines are read back as they were written, whether or not the last one has a line feed.
pub proof fn lines_are_read_back(lines: Seq<Seq<char>>, last: Seq<char>)
    requires
        forall|i: int| 0 <= i < lines.len() ==> one_line(#[trigger] lines[i]),
        one_line(last),
        last.len() > 0,
    ensures
        text::lines_of(with_line_feeds(lines)) == lines,
        text::lines_of(with_line_feeds(lines) + last) == lines.push(last),
    decreases lines.len(),
{
    let none = Seq::<char>::empty();
    if lines.len() > 0 {
        let first = lines[0];
        let rest = lines.skip(1);
        let more = with_line_feeds(rest);
        assert forall|i: int| 0 <= i < rest.len() implies one_line(#[trigger] rest[i]) by {
            assert(rest[i] == lines[i + 1]);
        }
        lines_are_read_back(rest, last);
        assert(one_line(lines[0]));
        let a = with_line_feeds(lines);
        let feed = seq!['\n'];
        assert(a =~= first + (feed + more));
        assert(a + last =~= first + (feed + (more + last)));
        line_found(first, feed + more);
        line_found(first, feed + (more + last));
        assert(a.take(first.len() as int) =~= first);
        assert((a + last).take(first.len() as int) =~= first);
        assert(a.skip(first.len() as int + 1) =~= more);
        assert((a + last).skip(first.len() as int + 1) =~= more + last);
        assert(seq![first] + rest =~= lines);
        assert(seq![first] + rest.push(last) =~= lines.push(last));
    } else {
        assert(with_line_feeds(lines) + last =~= last);
        line_found(last, none);
        assert(last + none =~= last);
        assert(lines.push(last) =~= seq![last]);
        assert(text::lines_of(none) =~= lines);
    }
}

/// A line ends at the first line feed.
proof fn line_found(line: Seq<char>, rest: Seq<char>)
    requires
        !line.contains('\n'),
        rest.len() > 0 ==> rest[0] == '\n',
    ensures
        text::line_end(line + rest) == line.len(),
    decreases line.len(),
{
    if line.len() > 0 {
        assert((line + rest)[0] == line[0]);
        assert(line.contains(line[0]));
        assert((line + rest).skip(1) =~= line.skip(1) + rest);
        assert(!line.skip(1).contains('\n')) by {
            if line.skip(1).contains('\n') {
                let i = choose|i: int| 0 <= i < line.skip(1).len() && line.skip(1)[i] == '\n';
                assert(line[i + 1] == '\n');
            }
        }
        line_found(line.skip(1), rest);
    } else {
        assert(line + rest =~= rest);
    }
}

/// The paths are clean where Git has nothing to say about them.
pub proof fn clean_where_git_says_nothing(paths: Seq<Seq<char>>, replies: Seq<ReplyView>)
    ensures
        replies.len() == 0 ==> git::clean_next(paths, replies) == NextView::<bool>::Run(
            seq!["status"@, "--porcelain"@, "--"@] + paths,
        ),
        replies.len() > 0 && replies[0].success ==> git::clean_next(paths, replies) == NextView::<
            bool,
        >::Done(Ok(blank(text::lossy(replies[0].stdout)))),
        replies.len() > 0 && !replies[0].success ==> git::clean_next(paths, replies) matches NextView::Done(
            Err(_),
        ),
{
    if replies.len() > 0 {
        let s = text::lossy(replies[0].stdout);
        trimming_loses_white_space_only(s);
        let t = text::trimmed(s);
        let (a, b) = choose|a: Seq<char>, b: Seq<char>|
            #![trigger blank(a), blank(b)]
            blank(a) && blank(b) && s == a + t + b;
        if t.len() == 0 {
            assert forall|i: int| 0 <= i < s.len() implies text::white(#[trigger] s[i]) by {
                if i < a.len() {
                    assert(s[i] == a[i]);
                } else {
                    assert(s[i] == b[i - a.len()]);
                }
            }
        } else {
            assert(s[a.len() as int] == t[0]);
        }
    }
}

/// What a command that succeeded says is what it wrote, and one that failed is told with what it wrote
/// about that.
pub proof fn failed_commands_are_told(args: Seq<Seq<char>>, replies: Seq<ReplyView>, i: int)
    requires
        0 <= i < replies.len(),
    ensures
        git::command(args, replies, i) == NextView::<Seq<char>>::Done(
            if replies[i].success {
                Ok(text::trimmed(text::lossy(replies[i].stdout)))
            } else {
                Err(
                    Problem::Git {
                        command: text::joined(args, " "@),
                        message: text::trimmed(text::lossy(replies[i].stderr)),
                    },
                )
            },
        ),
{
}

/// A carriage return before the line feed belongs to neither line.
pub proof fn carriage_returns_are_dropped(line: Seq<char>, rest: Seq<char>)
    requires
        !line.contains('\n'),
    ensures
        text::lines_of(line + seq!['\r', '\n'] + rest) == seq![line] + text::lines_of(rest),
{
    let end = seq!['\r', '\n'];
    let s = line + end + rest;
    let first = line.push('\r');
    let tail = seq!['\n'] + rest;
    assert(s =~= first + tail);
    assert(!first.contains('\n')) by {
        if first.contains('\n') {
            let i = choose|i: int| 0 <= i < first.len() && first[i] == '\n';
            assert(line[i] == '\n');
        }
    }
    line_found(first, tail);
    assert(s.take(first.len() as int) =~= first);
    assert(s.skip(first.len() as int + 1) =~= rest);
    assert(first.drop_last() =~= line);
}

/// A failed run is told in the issue about failed runs, never in a pull request.
pub proof fn failures_are_told_in_their_issue(title: Seq<char>, pull_request: bool)
    ensures
        ci::about_failure((title, pull_request)) <==> title == "tufops automation failed"@
            && !pull_request,
{
}

/// Every file that Git names as changed is told, in order, those that are not text with replacement
/// characters.
pub proof fn every_changed_file_is_told(
    base: Seq<char>,
    replies: Seq<ReplyView>,
    i: int,
    entries: Seq<Seq<u8>>,
)
    requires
        0 <= i < replies.len(),
        replies[i].success,
        forall|k: int| 0 <= k < entries.len() ==> !(#[trigger] entries[k]).contains(0u8),
        replies[i].stdout == git::with_zeros(entries),
    ensures
        git::changed_at(base, replies, i) matches NextView::Done(Ok(files)) && files.len()
            == entries.len() && forall|k: int|
            0 <= k < entries.len() ==> #[trigger] files[k] == text::lossy(entries[k]),
{
    git::listed_paths_are_read_back(entries);
}

} // verus!
