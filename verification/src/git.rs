//! What to ask the `git` command line, and what to make of its answers. Each operation is a
//! function of the answers so far: it says which command comes next, or what came of it all. Running
//! the commands is left to the caller, so the user's credentials and settings apply.

use vstd::prelude::*;
use vstd::utf8::*;

use crate::error::{Error, Fault, Problem};
use crate::order;
use crate::strmap;
use crate::strmap::Value;
use crate::text;

verus! {

broadcast use crate::text::views_push;

/// Prefix of the branches that hold signing events.
pub const SIGN_PREFIX: &'static str = "sign/";

pub const MAIN: &'static str = "main";

pub const REMOTE: &'static str = "origin";

/// What came of a command.
#[derive(Debug)]
pub struct Reply {
    pub success: bool,
    pub stdout: Vec<u8>,
    pub stderr: Vec<u8>,
}

/// What came of a command, as contracts speak of it.
pub struct ReplyView {
    pub success: bool,
    pub stdout: Seq<u8>,
    pub stderr: Seq<u8>,
}

impl View for Reply {
    type V = ReplyView;

    open spec fn view(&self) -> ReplyView {
        ReplyView { success: self.success, stdout: self.stdout@, stderr: self.stderr@ }
    }
}

/// What comes next: a command with the given arguments, or the end of the operation.
#[derive(Debug)]
pub enum Next<T> {
    Run(Vec<String>),
    Done(Result<T, Error>),
}

/// What comes next, as contracts speak of it.
pub enum NextView<V> {
    Run(Seq<Seq<char>>),
    Done(Result<V, Fault>),
}

/// What comes next, with the outcome seen through `f`.
pub open spec fn seen<T, V>(n: Next<T>, f: spec_fn(T) -> V) -> NextView<V> {
    match n {
        Next::Run(args) => NextView::Run(text::views(args@)),
        Next::Done(Ok(t)) => NextView::Done(Ok(f(t))),
        Next::Done(Err(e)) => NextView::Done(Err(e@)),
    }
}

/// What comes next of an operation whose outcome is text.
pub open spec fn text_seen(n: Next<String>) -> NextView<Seq<char>> {
    seen(n, |s: String| s@)
}

/// What comes next of an operation whose outcome is a list of texts.
pub open spec fn list_seen(n: Next<Vec<String>>) -> NextView<Seq<Seq<char>>> {
    seen(n, |v: Vec<String>| text::views(v@))
}

/// What comes next of an operation whose outcome is yes or no.
pub open spec fn bool_seen(n: Next<bool>) -> NextView<bool> {
    seen(n, |b: bool| b)
}

/// What comes next of an operation without an outcome.
pub open spec fn unit_seen(n: Next<()>) -> NextView<()> {
    seen(n, |u: ()| u)
}

/// What a command says: its trimmed standard output, or how it failed.
pub open spec fn said(args: Seq<Seq<char>>, r: ReplyView) -> Result<Seq<char>, Fault> {
    if r.success {
        Ok(text::trimmed(text::lossy(r.stdout)))
    } else {
        Err(
            Problem::Git {
                command: text::joined(args, " "@),
                message: text::trimmed(text::lossy(r.stderr)),
            },
        )
    }
}

/// The command at position `i` of an operation: it comes next, or this is what it said.
pub open spec fn command(args: Seq<Seq<char>>, replies: Seq<ReplyView>, i: int) -> NextView<Seq<char>> {
    if i < replies.len() {
        NextView::Done(said(args, replies[i]))
    } else {
        NextView::Run(args)
    }
}

/// The command at position `i` of an operation, of which only the success matters.
pub open spec fn succeeded(args: Seq<Seq<char>>, replies: Seq<ReplyView>, i: int) -> NextView<bool> {
    if i < replies.len() {
        NextView::Done(Ok(replies[i].success))
    } else {
        NextView::Run(args)
    }
}

pub(crate) fn ask(args: Vec<String>, replies: &Vec<Reply>, i: usize) -> (r: Next<String>)
    ensures
        text_seen(r) == command(text::views(args@), text::views(replies@), i as int),
{
    if i < replies.len() {
        let reply = &replies[i];
        assert(text::views(replies@)[i as int] == reply@);
        if reply.success {
            let out = text::lossy_text(&reply.stdout);
            Next::Done(Ok(text::trim(out.as_str())))
        } else {
            let command = text::join(&args, " ");
            let err = text::lossy_text(&reply.stderr);
            Next::Done(Err(Problem::Git { command, message: text::trim(err.as_str()) }))
        }
    } else {
        Next::Run(args)
    }
}

pub(crate) fn probe(args: Vec<String>, replies: &Vec<Reply>, i: usize) -> (r: Next<bool>)
    ensures
        bool_seen(r) == succeeded(text::views(args@), text::views(replies@), i as int),
{
    if i < replies.len() {
        assert(text::views(replies@)[i as int] == replies@[i as int]@);
        Next::Done(Ok(replies[i].success))
    } else {
        Next::Run(args)
    }
}

/// The reference of `branch` as the remote has it.
pub open spec fn remote_of(branch: Seq<char>) -> Seq<char> {
    "origin/"@ + branch
}

/// The branch of the signing event `event`.
pub open spec fn event_branch(event: Seq<char>) -> Seq<char> {
    "sign/"@ + event
}

/// The references of signing events on the remote.
pub open spec fn event_refs() -> Seq<char> {
    "refs/remotes/origin/sign/"@
}

pub open spec fn show_args(what: Seq<char>, rev: Seq<char>, path: Seq<char>) -> Seq<Seq<char>> {
    seq!["cat-file"@, what, rev + ":"@ + path]
}

/// The contents of `path` at `rev`, if it exists there.
pub open spec fn show_next(rev: Seq<char>, path: Seq<char>, replies: Seq<ReplyView>) -> NextView<
    Option<Seq<u8>>,
> {
    match succeeded(show_args("-e"@, rev, path), replies, 0) {
        NextView::Run(args) => NextView::Run(args),
        NextView::Done(Err(e)) => NextView::Done(Err(e)),
        NextView::Done(Ok(false)) => NextView::Done(Ok(None)),
        NextView::Done(Ok(true)) => match succeeded(show_args("blob"@, rev, path), replies, 1) {
            NextView::Run(args) => NextView::Run(args),
            NextView::Done(Err(e)) => NextView::Done(Err(e)),
            NextView::Done(Ok(true)) => NextView::Done(Ok(Some(replies[1].stdout))),
            NextView::Done(Ok(false)) => NextView::Done(
                Err(Problem::GitBlob { object: rev + ":"@ + path }),
            ),
        },
    }
}

/// The position of the first zero byte, or the end.
pub open spec fn zero_at(bytes: Seq<u8>) -> int
    decreases bytes.len(),
{
    if bytes.len() == 0 || bytes[0] == 0 {
        0
    } else {
        1 + zero_at(bytes.skip(1))
    }
}

/// The position is within the bytes.
proof fn zero_within(bytes: Seq<u8>)
    ensures
        0 <= zero_at(bytes) <= bytes.len(),
        zero_at(bytes) < bytes.len() ==> bytes[zero_at(bytes)] == 0,
    decreases bytes.len(),
{
    if bytes.len() > 0 && bytes[0] != 0 {
        zero_within(bytes.skip(1));
    }
}

/// The entries of a list in which each entry ends in a zero byte.
pub open spec fn zero_ended(bytes: Seq<u8>) -> Seq<Seq<u8>>
    decreases bytes.len(),
    via entries_decrease
{
    if bytes.len() == 0 {
        Seq::empty()
    } else if zero_at(bytes) < bytes.len() {
        seq![bytes.take(zero_at(bytes))] + zero_ended(bytes.skip(zero_at(bytes) + 1))
    } else {
        seq![bytes]
    }
}

#[via_fn]
proof fn entries_decrease(bytes: Seq<u8>) {
    zero_within(bytes);
}

/// The list with a zero byte behind each entry.
pub open spec fn with_zeros(entries: Seq<Seq<u8>>) -> Seq<u8>
    decreases entries.len(),
{
    if entries.len() == 0 {
        Seq::empty()
    } else {
        entries[0].push(0u8) + with_zeros(entries.skip(1))
    }
}

/// The first zero byte is the one that ends the first entry.
proof fn zero_ends_entry(entry: Seq<u8>, rest: Seq<u8>)
    requires
        forall|i: int| 0 <= i < entry.len() ==> entry[i] != 0,
    ensures
        zero_at(entry.push(0u8) + rest) == entry.len(),
    decreases entry.len(),
{
    let all = entry.push(0u8) + rest;
    if entry.len() > 0 {
        assert(all[0] == entry[0]);
        zero_ends_entry(entry.skip(1), rest);
        assert(all.skip(1) =~= entry.skip(1).push(0u8) + rest);
    } else {
        assert(all[0] == 0u8);
    }
}

/// A list of paths is read as it was written, whatever bytes the paths have: none of them can have
/// a zero byte.
pub proof fn listed_paths_are_read_back(entries: Seq<Seq<u8>>)
    requires
        forall|k: int, i: int|
            0 <= k < entries.len() && 0 <= i < entries[k].len() ==> #[trigger] entries[k][i] != 0,
    ensures
        zero_ended(with_zeros(entries)) == entries,
    decreases entries.len(),
{
    if entries.len() > 0 {
        let rest = entries.skip(1);
        assert forall|k: int, i: int|
            0 <= k < rest.len() && 0 <= i < rest[k].len() implies #[trigger] rest[k][i] != 0 by {
            assert(entries[k + 1][i] != 0);
        }
        listed_paths_are_read_back(rest);
        let all = with_zeros(entries);
        assert forall|i: int| 0 <= i < entries[0].len() implies entries[0][i] != 0 by {}
        zero_ends_entry(entries[0], with_zeros(rest));
        assert(all.take(entries[0].len() as int) =~= entries[0]);
        assert(all.skip(entries[0].len() as int + 1) =~= with_zeros(rest));
        assert(seq![entries[0]] + rest =~= entries);
    }
}

/// The entries that are text, as text.
pub open spec fn as_texts(entries: Seq<Seq<u8>>) -> Seq<Seq<char>>
    decreases entries.len(),
{
    if entries.len() == 0 {
        Seq::empty()
    } else if valid_utf8(entries.last()) {
        as_texts(entries.drop_last()).push(decode_utf8(entries.last()))
    } else {
        as_texts(entries.drop_last())
    }
}

/// The entries as text, with replacement characters where they are none.
pub open spec fn as_lossy_texts(entries: Seq<Seq<u8>>) -> Seq<Seq<char>> {
    entries.map_values(|e: Seq<u8>| text::lossy(e))
}

fn split_entries(bytes: &Vec<u8>) -> (r: Vec<Vec<u8>>)
    ensures
        text::views(r@) == zero_ended(bytes@),
{
    let mut out: Vec<Vec<u8>> = Vec::new();
    let mut entry: Vec<u8> = Vec::new();
    let ghost mut from: int = 0;
    let mut i: usize = 0;
    assert(bytes@.skip(0) =~= bytes@);
    assert(text::views(out@) + zero_ended(bytes@) =~= zero_ended(bytes@));
    while i < bytes.len()
        invariant
            0 <= from <= i <= bytes.len(),
            entry@ == bytes@.subrange(from, i as int),
            zero_at(bytes@.skip(from)) == i - from + zero_at(bytes@.skip(i as int)),
            zero_ended(bytes@) == text::views(out@) + zero_ended(bytes@.skip(from)),
        decreases bytes.len() - i,
    {
        let ghost rest = bytes@.skip(from);
        assert(bytes@.skip(i as int)[0] == bytes@[i as int]);
        assert(bytes@.skip(i as int).skip(1) =~= bytes@.skip(i + 1));
        if bytes[i] == 0 {
            let ghost before = text::views(out@);
            out.push(entry);
            entry = Vec::new();
            proof {
                assert(rest.take(i - from) =~= bytes@.subrange(from, i as int));
                assert(rest.skip(i - from + 1) =~= bytes@.skip(i + 1));
                let more = zero_ended(bytes@.skip(i + 1));
                assert(before + (seq![rest.take(i - from)] + more) =~= text::views(out@) + more);
                from = i + 1;
                assert(entry@ =~= bytes@.subrange(from, i + 1));
            }
        } else {
            entry.push(bytes[i]);
            assert(entry@ =~= bytes@.subrange(from, i + 1));
        }
        i = i + 1;
    }
    proof {
        assert(bytes@.skip(i as int).len() == 0);
        assert(entry@ =~= bytes@.skip(from));
    }
    if entry.len() > 0 {
        let ghost before = text::views(out@);
        out.push(entry);
        assert(before + seq![bytes@.skip(from)] =~= text::views(out@));
    } else {
        assert(text::views(out@) + Seq::<Seq<u8>>::empty() =~= text::views(out@));
    }
    out
}

fn texts_among(entries: &Vec<Vec<u8>>) -> (r: Vec<String>)
    ensures
        text::views(r@) == as_texts(text::views(entries@)),
{
    let ghost all = text::views(entries@);
    let mut out: Vec<String> = Vec::new();
    let mut i: usize = 0;
    assert(text::views(out@) =~= Seq::<Seq<char>>::empty());
    while i < entries.len()
        invariant
            i <= entries.len(),
            all == text::views(entries@),
            text::views(out@) == as_texts(all.take(i as int)),
        decreases entries.len() - i,
    {
        assert(all.take(i + 1).drop_last() =~= all.take(i as int));
        assert(all.take(i + 1).last() == entries@[i as int]@);
        match text::utf8_text(entries[i].dup()) {
            Some(t) => {
                out.push(t);
            },
            None => {},
        }
        i = i + 1;
    }
    assert(all.take(i as int) =~= all);
    out
}

fn lossy_texts(entries: &Vec<Vec<u8>>) -> (r: Vec<String>)
    ensures
        text::views(r@) == as_lossy_texts(text::views(entries@)),
{
    let ghost all = text::views(entries@);
    let mut out: Vec<String> = Vec::new();
    let mut i: usize = 0;
    while i < entries.len()
        invariant
            i <= entries.len(),
            all == text::views(entries@),
            text::views(out@) =~= as_lossy_texts(all.take(i as int)),
        decreases entries.len() - i,
    {
        out.push(text::lossy_text(&entries[i]));
        assert(as_lossy_texts(all.take(i + 1)) =~= as_lossy_texts(all.take(i as int)).push(
            text::lossy(all[i as int]),
        ));
        i = i + 1;
    }
    assert(all.take(i as int) =~= all);
    out
}

/// The command at position `i` of an operation: it comes next, or these are the bytes that it said.
pub open spec fn raw_command(args: Seq<Seq<char>>, replies: Seq<ReplyView>, i: int) -> NextView<Seq<u8>> {
    match command(args, replies, i) {
        NextView::Run(args) => NextView::Run(args),
        NextView::Done(Err(e)) => NextView::Done(Err(e)),
        NextView::Done(Ok(_)) => NextView::Done(Ok(replies[i].stdout)),
    }
}

fn ask_entries(args: Vec<String>, replies: &Vec<Reply>, i: usize) -> (r: Next<Vec<Vec<u8>>>)
    ensures
        seen(r, |v: Vec<Vec<u8>>| text::views(v@)) == match raw_command(
            text::views(args@),
            text::views(replies@),
            i as int,
        ) {
            NextView::Run(args) => NextView::Run(args),
            NextView::Done(Err(e)) => NextView::Done(Err(e)),
            NextView::Done(Ok(out)) => NextView::Done(Ok(zero_ended(out))),
        },
{
    match ask(args, replies, i) {
        Next::Run(args) => Next::Run(args),
        Next::Done(Err(e)) => Next::Done(Err(e)),
        Next::Done(Ok(_)) => {
            assert(text::views(replies@)[i as int] == replies@[i as int]@);
            Next::Done(Ok(split_entries(&replies[i].stdout)))
        },
    }
}

/// Asks for paths that end in zero bytes, which git does not quote.
pub open spec fn ls_args(rev: Seq<char>, dir: Seq<char>) -> Seq<Seq<char>> {
    seq!["ls-tree"@, "-r"@, "-z"@, "--name-only"@, rev, "--"@, dir]
}

/// The paths of all files under `dir` at `rev`, as they are. A path that is not text cannot be asked
/// for, and is left out.
pub open spec fn ls_next(rev: Seq<char>, dir: Seq<char>, replies: Seq<ReplyView>) -> NextView<
    Seq<Seq<char>>,
> {
    match raw_command(ls_args(rev, dir), replies, 0) {
        NextView::Run(args) => NextView::Run(args),
        NextView::Done(Err(e)) => NextView::Done(Err(e)),
        NextView::Done(Ok(out)) => NextView::Done(Ok(as_texts(zero_ended(out)))),
    }
}

/// Whether `path` lies in the directory `dir`, at any depth.
pub open spec fn lies_in(dir: Seq<char>, path: Seq<u8>) -> bool {
    encode_utf8(dir + "/"@).is_prefix_of(path)
}

/// Whether the answer lists the files of `tree` in `dir`, each once. A tree has the content of each
/// file by its path.
pub open spec fn answers_ls(r: ReplyView, tree: Map<Seq<u8>, Seq<u8>>, dir: Seq<char>) -> bool {
    r.success && exists|paths: Seq<Seq<u8>>|
        {
            &&& r.stdout == #[trigger] with_zeros(paths)
            &&& paths.no_duplicates()
            &&& forall|p: Seq<u8>| #[trigger]
                paths.contains(p) <==> tree.dom().contains(p) && lies_in(dir, p)
        }
}

/// Whether the answers are those to whether `tree` has the file `path`, and to what is in it.
pub open spec fn answers_show(
    replies: Seq<ReplyView>,
    tree: Map<Seq<u8>, Seq<u8>>,
    path: Seq<char>,
) -> bool {
    let p = encode_utf8(path);
    &&& replies.len() == 2
    &&& replies[0].success == tree.dom().contains(p)
    &&& tree.dom().contains(p) ==> replies[1].success && replies[1].stdout == tree[p]
}

/// The text of an entry is listed exactly where the entry is, and once where the entry is.
proof fn as_texts_hold(entries: Seq<Seq<u8>>, path: Seq<char>)
    requires
        entries.no_duplicates(),
    ensures
        as_texts(entries).contains(path) <==> entries.contains(encode_utf8(path)),
        as_texts(entries).no_duplicates(),
    decreases entries.len(),
{
    encode_utf8_valid_utf8(path);
    encode_utf8_decode_utf8(path);
    if entries.len() > 0 {
        let rest = entries.drop_last();
        let last = entries.last();
        as_texts_hold(rest, path);
        assert(rest.push(last) =~= entries);
        order::push_holds(rest, last, encode_utf8(path));
        if valid_utf8(last) {
            let word = decode_utf8(last);
            decode_utf8_encode_utf8(last);
            as_texts_hold(rest, word);
            order::push_holds(as_texts(rest), word, path);
            if rest.contains(last) {
                let i = choose|i: int| 0 <= i < rest.len() && rest[i] == last;
                assert(entries[i] == entries[entries.len() - 1]);
            }
            assert(!as_texts(rest).contains(word));
        }
    }
}

/// Listing a directory gives exactly the files in it that can be shown, each once, where git answers
/// out of one tree. No path has a zero byte.
pub proof fn listed_files_are_those_shown(
    tree: Map<Seq<u8>, Seq<u8>>,
    rev: Seq<char>,
    dir: Seq<char>,
    path: Seq<char>,
    listed: ReplyView,
    shown: Seq<ReplyView>,
)
    requires
        forall|p: Seq<u8>, i: int|
            tree.dom().contains(p) && 0 <= i < p.len() ==> #[trigger] p[i] != 0,
        answers_ls(listed, tree, dir),
        answers_show(shown, tree, path),
    ensures
        ls_next(rev, dir, seq![listed]) matches NextView::Done(Ok(paths)) && paths.no_duplicates()
            && (paths.contains(path) <==> lies_in(dir, encode_utf8(path)) && show_next(
            rev,
            path,
            shown,
        ) == NextView::<Option<Seq<u8>>>::Done(Ok(Some(tree[encode_utf8(path)])))),
        show_next(rev, path, shown) == NextView::<Option<Seq<u8>>>::Done(
            Ok(
                if tree.dom().contains(encode_utf8(path)) {
                    Some(tree[encode_utf8(path)])
                } else {
                    None
                },
            ),
        ),
{
    let paths = choose|paths: Seq<Seq<u8>>|
        {
            &&& listed.stdout == #[trigger] with_zeros(paths)
            &&& paths.no_duplicates()
            &&& forall|p: Seq<u8>| #[trigger]
                paths.contains(p) <==> tree.dom().contains(p) && lies_in(dir, p)
        };
    assert forall|k: int, i: int| 0 <= k < paths.len() && 0 <= i < paths[k].len() implies #[trigger] paths[k][i]
        != 0 by {
        assert(paths.contains(paths[k]));
    }
    listed_paths_are_read_back(paths);
    as_texts_hold(paths, path);
}

pub open spec fn clean_args(paths: Seq<Seq<char>>) -> Seq<Seq<char>> {
    seq!["status"@, "--porcelain"@, "--"@] + paths
}

/// Whether `paths` have no uncommitted changes.
pub open spec fn clean_next(paths: Seq<Seq<char>>, replies: Seq<ReplyView>) -> NextView<bool> {
    match command(clean_args(paths), replies, 0) {
        NextView::Run(args) => NextView::Run(args),
        NextView::Done(Err(e)) => NextView::Done(Err(e)),
        NextView::Done(Ok(out)) => NextView::Done(Ok(out.len() == 0)),
    }
}

pub open spec fn fetch_args() -> Seq<Seq<char>> {
    seq!["fetch"@, "--prune"@, "origin"@]
}

/// What is left of a command whose output does not matter.
pub open spec fn quiet(n: NextView<Seq<char>>) -> NextView<()> {
    match n {
        NextView::Run(args) => NextView::Run(args),
        NextView::Done(Err(e)) => NextView::Done(Err(e)),
        NextView::Done(Ok(_)) => NextView::Done(Ok(())),
    }
}

/// What follows the prefix in each of the texts that have it.
pub open spec fn after_prefix(texts: Seq<Seq<char>>, prefix: Seq<char>) -> Seq<Seq<char>>
    decreases texts.len(),
{
    if texts.len() == 0 {
        Seq::empty()
    } else {
        let earlier = after_prefix(texts.drop_last(), prefix);
        if prefix.is_prefix_of(texts.last()) {
            earlier.push(texts.last().skip(prefix.len() as int))
        } else {
            earlier
        }
    }
}

pub open spec fn events_args() -> Seq<Seq<char>> {
    seq!["for-each-ref"@, "--format=%(refname)"@, event_refs()]
}

/// Signing event names (without the `sign/` prefix) that exist on the remote.
pub open spec fn events_next(replies: Seq<ReplyView>) -> NextView<Seq<Seq<char>>> {
    match command(events_args(), replies, 0) {
        NextView::Run(args) => NextView::Run(args),
        NextView::Done(Err(e)) => NextView::Done(Err(e)),
        NextView::Done(Ok(out)) => NextView::Done(
            Ok(after_prefix(text::lines_of(out), event_refs())),
        ),
    }
}

pub open spec fn exists_args(rev: Seq<char>) -> Seq<Seq<char>> {
    seq!["rev-parse"@, "--verify"@, "--quiet"@, rev + "^{commit}"@]
}

/// The files that differ between where HEAD left `base` and HEAD. A file that was moved differs in
/// both places.
pub open spec fn changed_args(base: Seq<char>) -> Seq<Seq<char>> {
    seq!["diff"@, "--name-only"@, "--no-renames"@, "-z"@, base + "...HEAD"@]
}

/// The changed files that the command at position `i` of an operation tells. None is left out: a path
/// that is not text has replacement characters.
pub open spec fn changed_at(base: Seq<char>, replies: Seq<ReplyView>, i: int) -> NextView<
    Seq<Seq<char>>,
> {
    match raw_command(changed_args(base), replies, i) {
        NextView::Run(args) => NextView::Run(args),
        NextView::Done(Err(e)) => NextView::Done(Err(e)),
        NextView::Done(Ok(out)) => NextView::Done(Ok(as_lossy_texts(zero_ended(out)))),
    }
}

/// The steps that continue a signing event which the remote has.
pub open spec fn continue_event(branch: Seq<char>, local: bool, replies: Seq<ReplyView>) -> NextView<
    Seq<char>,
> {
    let remote = remote_of(branch);
    if local {
        match command(seq!["checkout"@, "--quiet"@, branch], replies, 4) {
            NextView::Run(args) => NextView::Run(args),
            NextView::Done(Err(e)) => NextView::Done(Err(e)),
            NextView::Done(Ok(_)) => match command(
                seq!["merge"@, "--quiet"@, "--ff-only"@, remote],
                replies,
                5,
            ) {
                NextView::Run(args) => NextView::Run(args),
                NextView::Done(Err(e)) => NextView::Done(Err(e)),
                NextView::Done(Ok(_)) => NextView::Done(Ok(branch)),
            },
        }
    } else {
        match command(seq!["checkout"@, "--quiet"@, "-b"@, branch, remote], replies, 4) {
            NextView::Run(args) => NextView::Run(args),
            NextView::Done(Err(e)) => NextView::Done(Err(e)),
            NextView::Done(Ok(_)) => NextView::Done(Ok(branch)),
        }
    }
}

/// The command that makes `branch` start afresh from the remote main branch, whatever it held.
pub open spec fn restart_args(branch: Seq<char>) -> Seq<Seq<char>> {
    seq!["checkout"@, "--quiet"@, "-B"@, branch, "origin/main"@]
}

pub open spec fn merged_args(branch: Seq<char>) -> Seq<Seq<char>> {
    seq!["merge-base"@, "--is-ancestor"@, branch, "origin/main"@]
}

/// The steps that start a signing event which the remote does not have: a local branch left over
/// from an event that has since been merged starts afresh.
pub open spec fn start_event(branch: Seq<char>, local: bool, replies: Seq<ReplyView>) -> NextView<
    Seq<char>,
> {
    match succeeded(merged_args(branch), replies, 4) {
        NextView::Run(args) => NextView::Run(args),
        NextView::Done(Err(e)) => NextView::Done(Err(e)),
        NextView::Done(Ok(merged)) => if local && !merged {
            NextView::Done(Err(Problem::Unpushed { branch }))
        } else {
            match command(restart_args(branch), replies, 5) {
                NextView::Run(args) => NextView::Run(args),
                NextView::Done(Err(e)) => NextView::Done(Err(e)),
                NextView::Done(Ok(_)) => NextView::Done(Ok(branch)),
            }
        },
    }
}

/// The steps that check out signing event `event`: uncommitted metadata is not allowed, and an
/// event that the remote has is continued from there.
pub open spec fn checkout_next(event: Seq<char>, replies: Seq<ReplyView>) -> NextView<Seq<char>> {
    let branch = event_branch(event);
    match command(clean_args(seq!["metadata"@]), replies, 0) {
        NextView::Run(args) => NextView::Run(args),
        NextView::Done(Err(e)) => NextView::Done(Err(e)),
        NextView::Done(Ok(out)) => if out.len() > 0 {
            NextView::Done(Err(Problem::Uncommitted { dir: "metadata"@ }))
        } else {
            match command(fetch_args(), replies, 1) {
                NextView::Run(args) => NextView::Run(args),
                NextView::Done(Err(e)) => NextView::Done(Err(e)),
                NextView::Done(Ok(_)) => match succeeded(
                    exists_args("refs/heads/"@ + branch),
                    replies,
                    2,
                ) {
                    NextView::Run(args) => NextView::Run(args),
                    NextView::Done(Err(e)) => NextView::Done(Err(e)),
                    NextView::Done(Ok(local)) => match succeeded(
                        exists_args(remote_of(branch)),
                        replies,
                        3,
                    ) {
                        NextView::Run(args) => NextView::Run(args),
                        NextView::Done(Err(e)) => NextView::Done(Err(e)),
                        NextView::Done(Ok(true)) => continue_event(branch, local, replies),
                        NextView::Done(Ok(false)) => start_event(branch, local, replies),
                    },
                },
            }
        },
    }
}

/// A signing event's branch is made to start afresh only where it does not exist here or where all
/// its commits are on the remote main branch: checking out an event loses no commits.
pub proof fn checkout_loses_no_commits(event: Seq<char>, replies: Seq<ReplyView>)
    requires
        checkout_next(event, replies) == NextView::<Seq<char>>::Run(
            restart_args(event_branch(event)),
        ),
    ensures
        replies.len() == 5,
        !replies[2].success || replies[4].success,
        !replies[3].success,
{
    reveal_strlit("-B");
    reveal_strlit("-b");
    reveal_strlit("checkout");
    reveal_strlit("status");
    reveal_strlit("fetch");
    reveal_strlit("rev-parse");
    reveal_strlit("merge-base");
    reveal_strlit("merge");
    let branch = event_branch(event);
    let a = restart_args(branch);
    assert(a.len() == 5 && a[0] == "checkout"@ && a[2] == "-B"@);
    assert("checkout"@[0] == 'c' && "status"@[0] == 's' && "fetch"@[0] == 'f' && "rev-parse"@[0]
        == 'r' && "merge-base"@[0] == 'm' && "merge"@[0] == 'm');
    assert("-B"@[1] != "-b"@[1]);
    let clean = clean_args(seq!["metadata"@]);
    assert(clean[0] == "status"@);
    assert(fetch_args()[0] == "fetch"@);
    assert(exists_args("refs/heads/"@ + branch)[0] == "rev-parse"@);
    assert(exists_args(remote_of(branch))[0] == "rev-parse"@);
    assert(merged_args(branch)[0] == "merge-base"@);
    let remote = remote_of(branch);
    let c1 = seq!["checkout"@, "--quiet"@, branch];
    let c2 = seq!["merge"@, "--quiet"@, "--ff-only"@, remote];
    let c3 = seq!["checkout"@, "--quiet"@, "-b"@, branch, remote];
    assert(c1.len() == 3 && c2[0] == "merge"@ && c3[2] == "-b"@);
}

/// The steps that commit all changes to `paths`, if there are any. What else is staged is left alone.
pub open spec fn commit_next(message: Seq<char>, paths: Seq<Seq<char>>, replies: Seq<ReplyView>) -> NextView<
    bool,
> {
    match command(seq!["add"@, "--all"@, "--"@] + paths, replies, 0) {
        NextView::Run(args) => NextView::Run(args),
        NextView::Done(Err(e)) => NextView::Done(Err(e)),
        NextView::Done(Ok(_)) => match succeeded(
            seq!["diff"@, "--cached"@, "--quiet"@, "--"@] + paths,
            replies,
            1,
        ) {
            NextView::Run(args) => NextView::Run(args),
            NextView::Done(Err(e)) => NextView::Done(Err(e)),
            NextView::Done(Ok(true)) => NextView::Done(Ok(false)),
            NextView::Done(Ok(false)) => match command(
                seq!["commit"@, "--quiet"@, "-m"@, message, "--"@] + paths,
                replies,
                2,
            ) {
                NextView::Run(args) => NextView::Run(args),
                NextView::Done(Err(e)) => NextView::Done(Err(e)),
                NextView::Done(Ok(_)) => NextView::Done(Ok(true)),
            },
        },
    }
}

/// Only the paths are looked at and committed: each command names them, and nothing else, behind
/// `--`.
pub proof fn commits_only_its_paths(
    message: Seq<char>,
    paths: Seq<Seq<char>>,
    replies: Seq<ReplyView>,
)
    requires
        commit_next(message, paths, replies) is Run,
    ensures
        ({
            let args = commit_next(message, paths, replies)->Run_0;
            let start = args.len() - paths.len();
            start >= 1 && args[start - 1] == "--"@ && args.skip(start) == paths
        }),
{
    let args = commit_next(message, paths, replies)->Run_0;
    assert(args.skip(args.len() - paths.len()) =~= paths);
}

pub open spec fn push_args(branch: Seq<char>) -> Seq<Seq<char>> {
    seq!["push"@, "--quiet"@, "origin"@, "HEAD:refs/heads/"@ + branch]
}

/// A list of the given texts.
pub(crate) fn list2(a: &str, b: &str) -> (r: Vec<String>)
    ensures
        text::views(r@) == seq![a@, b@],
{
    let mut v: Vec<String> = Vec::new();
    v.push(a.to_owned());
    v.push(b.to_owned());
    assert(text::views(v@) =~= seq![a@, b@]);
    v
}

pub(crate) fn list3(a: &str, b: &str, c: &str) -> (r: Vec<String>)
    ensures
        text::views(r@) == seq![a@, b@, c@],
{
    let mut v: Vec<String> = Vec::new();
    v.push(a.to_owned());
    v.push(b.to_owned());
    v.push(c.to_owned());
    assert(text::views(v@) =~= seq![a@, b@, c@]);
    v
}

pub(crate) fn list4(a: &str, b: &str, c: &str, d: &str) -> (r: Vec<String>)
    ensures
        text::views(r@) == seq![a@, b@, c@, d@],
{
    let mut v = list3(a, b, c);
    v.push(d.to_owned());
    assert(text::views(v@) =~= seq![a@, b@, c@, d@]);
    v
}

pub(crate) fn list5(a: &str, b: &str, c: &str, d: &str, e: &str) -> (r: Vec<String>)
    ensures
        text::views(r@) == seq![a@, b@, c@, d@, e@],
{
    let mut v = list4(a, b, c, d);
    v.push(e.to_owned());
    assert(text::views(v@) =~= seq![a@, b@, c@, d@, e@]);
    v
}

fn list_and(list: Vec<String>, more: &Vec<String>) -> (r: Vec<String>)
    ensures
        text::views(r@) == text::views(list@) + text::views(more@),
{
    let mut v = list;
    let ghost x = v@;
    let mut rest = strmap::copy(more);
    let ghost y = rest@;
    v.append(&mut rest);
    assert(text::views(v@) =~= text::views(x) + text::views(y));
    v
}

/// A git working tree.
#[derive(Debug)]
pub struct Git {
    dir: String,
}

impl View for Git {
    type V = Seq<char>;

    closed spec fn view(&self) -> Seq<char> {
        self.dir@
    }
}

impl Git {
    /// The working tree at `dir`.
    pub fn new(dir: String) -> (r: Git)
        ensures
            r@ == dir@,
    {
        Git { dir }
    }

    /// Where the working tree is.
    pub fn dir(&self) -> (r: &String)
        ensures
            r@ == self@,
    {
        &self.dir
    }

    /// Runs git with the arguments, for its trimmed standard output.
    pub fn run(args: &Vec<String>, replies: &Vec<Reply>) -> (r: Next<String>)
        ensures
            text_seen(r) == command(text::views(args@), text::views(replies@), 0),
    {
        ask(strmap::copy(args), replies, 0)
    }

    /// Contents of `path` at `rev`, or `None` if it does not exist there.
    pub fn show(rev: &str, path: &str, replies: &Vec<Reply>) -> (r: Next<Option<Vec<u8>>>)
        ensures
            seen(
                r,
                |o: Option<Vec<u8>>|
                    match o {
                        Some(b) => Some(b@),
                        None => None,
                    },
            ) == show_next(rev@, path@, text::views(replies@)),
    {
        let object = text::cat(text::cat(rev, ":").as_str(), path);
        match probe(list3("cat-file", "-e", object.as_str()), replies, 0) {
            Next::Run(args) => Next::Run(args),
            Next::Done(Err(e)) => Next::Done(Err(e)),
            Next::Done(Ok(false)) => Next::Done(Ok(None)),
            Next::Done(Ok(true)) => match probe(
                list3("cat-file", "blob", object.as_str()),
                replies,
                1,
            ) {
                Next::Run(args) => Next::Run(args),
                Next::Done(Err(e)) => Next::Done(Err(e)),
                Next::Done(Ok(true)) => {
                    assert(text::views(replies@)[1] == replies@[1]@);
                    Next::Done(Ok(Some(replies[1].stdout.dup())))
                },
                Next::Done(Ok(false)) => Next::Done(Err(Problem::GitBlob { object })),
            },
        }
    }

    /// Paths of all files under `dir` at `rev`. A path that is not text cannot be asked for, and is
    /// left out.
    pub fn ls(rev: &str, dir: &str, replies: &Vec<Reply>) -> (r: Next<Vec<String>>)
        ensures
            list_seen(r) == ls_next(rev@, dir@, text::views(replies@)),
    {
        let mut args = list5("ls-tree", "-r", "-z", "--name-only", rev);
        args.push("--".to_owned());
        args.push(dir.to_owned());
        assert(text::views(args@) =~= ls_args(rev@, dir@));
        match ask_entries(args, replies, 0) {
            Next::Run(args) => Next::Run(args),
            Next::Done(Ok(entries)) => Next::Done(Ok(texts_among(&entries))),
            Next::Done(Err(e)) => Next::Done(Err(e)),
        }
    }

    /// Whether `paths` have no uncommitted changes.
    pub fn is_clean(paths: &Vec<String>, replies: &Vec<Reply>) -> (r: Next<bool>)
        ensures
            bool_seen(r) == clean_next(text::views(paths@), text::views(replies@)),
    {
        match ask(list_and(list3("status", "--porcelain", "--"), paths), replies, 0) {
            Next::Run(args) => Next::Run(args),
            Next::Done(Ok(out)) => Next::Done(Ok(text::characters(out.as_str()).len() == 0)),
            Next::Done(Err(e)) => Next::Done(Err(e)),
        }
    }

    /// The name of the branch that is checked out.
    pub fn current_branch(replies: &Vec<Reply>) -> (r: Next<String>)
        ensures
            text_seen(r) == command(
                seq!["rev-parse"@, "--abbrev-ref"@, "HEAD"@],
                text::views(replies@),
                0,
            ),
    {
        ask(list3("rev-parse", "--abbrev-ref", "HEAD"), replies, 0)
    }

    /// Brings what the remote has.
    pub fn fetch(replies: &Vec<Reply>) -> (r: Next<()>)
        ensures
            unit_seen(r) == quiet(command(fetch_args(), text::views(replies@), 0)),
    {
        match ask(list3("fetch", "--prune", "origin"), replies, 0) {
            Next::Run(args) => Next::Run(args),
            Next::Done(Ok(_)) => Next::Done(Ok(())),
            Next::Done(Err(e)) => Next::Done(Err(e)),
        }
    }

    /// Signing event names (without the `sign/` prefix) that exist on the remote.
    pub fn remote_events(replies: &Vec<Reply>) -> (r: Next<Vec<String>>)
        ensures
            list_seen(r) == events_next(text::views(replies@)),
    {
        let refs = "refs/remotes/origin/sign/";
        match ask(list3("for-each-ref", "--format=%(refname)", refs), replies, 0) {
            Next::Run(args) => Next::Run(args),
            Next::Done(Ok(out)) => {
                let lines = text::lines(out.as_str());
                let ghost all = text::views(lines@);
                let mut events: Vec<String> = Vec::new();
                let mut i: usize = 0;
                assert(text::views(events@) =~= Seq::<Seq<char>>::empty());
                while i < lines.len()
                    invariant
                        i <= lines.len(),
                        all == text::views(lines@),
                        refs@ == event_refs(),
                        text::views(events@) == after_prefix(all.take(i as int), event_refs()),
                    decreases lines.len() - i,
                {
                    assert(all.take(i + 1).drop_last() =~= all.take(i as int));
                    assert(all.take(i + 1).last() == lines@[i as int]@);
                    match text::strip_prefix(lines[i].as_str(), refs) {
                        Some(event) => {
                            assert(all[i as int].skip(refs@.len() as int) =~= event@);
                            events.push(event);
                        },
                        None => {},
                    }
                    i = i + 1;
                }
                assert(all.take(i as int) =~= all);
                Next::Done(Ok(events))
            },
            Next::Done(Err(e)) => Next::Done(Err(e)),
        }
    }

    /// The reference of `branch` as the remote has it.
    pub fn remote_ref(branch: &str) -> (r: String)
        ensures
            r@ == remote_of(branch@),
    {
        text::cat("origin/", branch)
    }

    /// Whether `rev` is a commit.
    pub fn rev_exists(rev: &str, replies: &Vec<Reply>) -> (r: Next<bool>)
        ensures
            bool_seen(r) == succeeded(exists_args(rev@), text::views(replies@), 0),
    {
        rev_exists_at(rev, replies, 0)
    }

    /// Checks out signing event `event`, continuing it from the remote if it exists there and
    /// starting it from the remote main branch otherwise. Uncommitted edits to `tufops.toml` are
    /// carried along; uncommitted metadata is not allowed. Returns the event's branch.
    pub fn checkout_event(event: &str, replies: &Vec<Reply>) -> (r: Next<String>)
        ensures
            text_seen(r) == checkout_next(event@, text::views(replies@)),
    {
        let branch = text::cat("sign/", event);
        let mut paths: Vec<String> = Vec::new();
        paths.push("metadata".to_owned());
        assert(text::views(paths@) =~= seq!["metadata"@]);
        match ask(list_and(list3("status", "--porcelain", "--"), &paths), replies, 0) {
            Next::Run(args) => {
                return Next::Run(args);
            },
            Next::Done(Err(e)) => {
                return Next::Done(Err(e));
            },
            Next::Done(Ok(out)) => {
                if text::characters(out.as_str()).len() > 0 {
                    return Next::Done(Err(Problem::Uncommitted { dir: "metadata".to_owned() }));
                }
            },
        }
        match ask(list3("fetch", "--prune", "origin"), replies, 1) {
            Next::Run(args) => {
                return Next::Run(args);
            },
            Next::Done(Err(e)) => {
                return Next::Done(Err(e));
            },
            Next::Done(Ok(_)) => {},
        }
        let head = text::cat("refs/heads/", branch.as_str());
        let local = match rev_exists_at(head.as_str(), replies, 2) {
            Next::Run(args) => {
                return Next::Run(args);
            },
            Next::Done(Err(e)) => {
                return Next::Done(Err(e));
            },
            Next::Done(Ok(b)) => b,
        };
        let remote = Git::remote_ref(branch.as_str());
        match rev_exists_at(remote.as_str(), replies, 3) {
            Next::Run(args) => Next::Run(args),
            Next::Done(Err(e)) => Next::Done(Err(e)),
            Next::Done(Ok(true)) => continue_branch(branch, local, replies),
            Next::Done(Ok(false)) => start_branch(branch, local, replies),
        }
    }

    /// Commits all changes to `paths`, the outcome being false if there were none. What else is staged
    /// is left alone.
    pub fn commit(message: &str, paths: &Vec<String>, replies: &Vec<Reply>) -> (r: Next<bool>)
        ensures
            bool_seen(r) == commit_next(message@, text::views(paths@), text::views(replies@)),
    {
        match ask(list_and(list3("add", "--all", "--"), paths), replies, 0) {
            Next::Run(args) => {
                return Next::Run(args);
            },
            Next::Done(Err(e)) => {
                return Next::Done(Err(e));
            },
            Next::Done(Ok(_)) => {},
        }
        match probe(list_and(list4("diff", "--cached", "--quiet", "--"), paths), replies, 1) {
            Next::Run(args) => {
                return Next::Run(args);
            },
            Next::Done(Err(e)) => {
                return Next::Done(Err(e));
            },
            Next::Done(Ok(true)) => {
                return Next::Done(Ok(false));
            },
            Next::Done(Ok(false)) => {},
        }
        match ask(list_and(list5("commit", "--quiet", "-m", message, "--"), paths), replies, 2) {
            Next::Run(args) => Next::Run(args),
            Next::Done(Ok(_)) => Next::Done(Ok(true)),
            Next::Done(Err(e)) => Next::Done(Err(e)),
        }
    }

    /// Commits all changes to the metadata and config, the outcome being false if there were none.
    pub fn commit_all(message: &str, replies: &Vec<Reply>) -> (r: Next<bool>)
        ensures
            bool_seen(r) == commit_next(
                message@,
                seq!["metadata"@, "tufops.toml"@],
                text::views(replies@),
            ),
    {
        let mut paths: Vec<String> = Vec::new();
        paths.push("metadata".to_owned());
        paths.push("tufops.toml".to_owned());
        assert(text::views(paths@) =~= seq!["metadata"@, "tufops.toml"@]);
        Git::commit(message, &paths, replies)
    }

    /// The files that HEAD changes since it left `base`.
    pub fn changed_files(base: &str, replies: &Vec<Reply>) -> (r: Next<Vec<String>>)
        ensures
            list_seen(r) == changed_at(base@, text::views(replies@), 0),
    {
        ask_changed(base, replies, 0)
    }

    /// Pushes HEAD to `branch` on the remote.
    pub fn push(branch: &str, replies: &Vec<Reply>) -> (r: Next<()>)
        ensures
            unit_seen(r) == quiet(command(push_args(branch@), text::views(replies@), 0)),
    {
        let target = text::cat("HEAD:refs/heads/", branch);
        match ask(list4("push", "--quiet", "origin", target.as_str()), replies, 0) {
            Next::Run(args) => Next::Run(args),
            Next::Done(Ok(_)) => Next::Done(Ok(())),
            Next::Done(Err(e)) => Next::Done(Err(e)),
        }
    }
}

/// The files that HEAD changes since it left `base`.
pub(crate) fn ask_changed(base: &str, replies: &Vec<Reply>, i: usize) -> (r: Next<Vec<String>>)
    ensures
        list_seen(r) == changed_at(base@, text::views(replies@), i as int),
{
    let range = text::cat(base, "...HEAD");
    match ask_entries(list5("diff", "--name-only", "--no-renames", "-z", range.as_str()), replies, i) {
        Next::Run(args) => Next::Run(args),
        Next::Done(Ok(entries)) => Next::Done(Ok(lossy_texts(&entries))),
        Next::Done(Err(e)) => Next::Done(Err(e)),
    }
}

fn rev_exists_at(rev: &str, replies: &Vec<Reply>, i: usize) -> (r: Next<bool>)
    ensures
        bool_seen(r) == succeeded(exists_args(rev@), text::views(replies@), i as int),
{
    let commit = text::cat(rev, "^{commit}");
    probe(list4("rev-parse", "--verify", "--quiet", commit.as_str()), replies, i)
}

fn continue_branch(branch: String, local: bool, replies: &Vec<Reply>) -> (r: Next<String>)
    ensures
        text_seen(r) == continue_event(branch@, local, text::views(replies@)),
{
    let remote = Git::remote_ref(branch.as_str());
    if local {
        match ask(list3("checkout", "--quiet", branch.as_str()), replies, 4) {
            Next::Run(args) => {
                return Next::Run(args);
            },
            Next::Done(Err(e)) => {
                return Next::Done(Err(e));
            },
            Next::Done(Ok(_)) => {},
        }
        match ask(list4("merge", "--quiet", "--ff-only", remote.as_str()), replies, 5) {
            Next::Run(args) => Next::Run(args),
            Next::Done(Ok(_)) => Next::Done(Ok(branch)),
            Next::Done(Err(e)) => Next::Done(Err(e)),
        }
    } else {
        match ask(
            list5("checkout", "--quiet", "-b", branch.as_str(), remote.as_str()),
            replies,
            4,
        ) {
            Next::Run(args) => Next::Run(args),
            Next::Done(Ok(_)) => Next::Done(Ok(branch)),
            Next::Done(Err(e)) => Next::Done(Err(e)),
        }
    }
}

fn start_branch(branch: String, local: bool, replies: &Vec<Reply>) -> (r: Next<String>)
    ensures
        text_seen(r) == start_event(branch@, local, text::views(replies@)),
{
    let merged = match probe(
        list4("merge-base", "--is-ancestor", branch.as_str(), "origin/main"),
        replies,
        4,
    ) {
        Next::Run(args) => {
            return Next::Run(args);
        },
        Next::Done(Err(e)) => {
            return Next::Done(Err(e));
        },
        Next::Done(Ok(b)) => b,
    };
    if local && !merged {
        return Next::Done(Err(Problem::Unpushed { branch }));
    }
    match ask(
        list5("checkout", "--quiet", "-B", branch.as_str(), "origin/main"),
        replies,
        5,
    ) {
        Next::Run(args) => Next::Run(args),
        Next::Done(Ok(_)) => Next::Done(Ok(branch)),
        Next::Done(Err(e)) => Next::Done(Err(e)),
    }
}

} // verus!
