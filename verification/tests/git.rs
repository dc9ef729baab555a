//! What git is asked, and what is made of its answers.

use tufops::error::{Error, Problem};
use tufops::git::{Git, Next, Reply};

fn ok(stdout: &str) -> Reply {
    Reply { success: true, stdout: stdout.as_bytes().to_vec(), stderr: vec![] }
}

fn fails(stderr: &str) -> Reply {
    Reply { success: false, stdout: vec![], stderr: stderr.as_bytes().to_vec() }
}

/// Answers each command in turn, returning the commands and the outcome.
fn drive<T>(
    mut replies: Vec<Reply>,
    step: impl Fn(&Vec<Reply>) -> Next<T>,
) -> (Vec<String>, Result<T, Error>) {
    let mut given = vec![];
    let mut commands = vec![];
    loop {
        match step(&given) {
            Next::Run(args) => {
                commands.push(args.join(" "));
                assert!(!replies.is_empty(), "unexpected command {}", args.join(" "));
                given.push(replies.remove(0));
            }
            Next::Done(r) => {
                assert!(replies.is_empty());
                return (commands, r);
            }
        }
    }
}

#[test]
fn output_is_trimmed() {
    let args = vec!["rev-parse".to_owned(), "HEAD".to_owned()];
    let (commands, r) = drive(vec![ok(" abc\n")], |replies| Git::run(&args, replies));
    assert_eq!(commands, ["rev-parse HEAD"]);
    assert_eq!(r.unwrap(), "abc");
    assert_eq!(Git::new("dir".to_owned()).dir(), "dir");
}

#[test]
fn failed_commands_are_reported() {
    let args = vec!["rev-parse".to_owned(), "HEAD".to_owned()];
    let (_, r) = drive(vec![fails("fatal: no\n")], |replies| Git::run(&args, replies));
    let e = r.unwrap_err();
    assert!(matches!(&e, Problem::Git { command, .. } if command == "rev-parse HEAD"));
    assert_eq!(e.message(), "git rev-parse HEAD failed: fatal: no");
}

#[test]
fn output_need_not_be_text() {
    let reply = Reply { success: true, stdout: vec![b'a', 0xff], stderr: vec![] };
    let (_, r) = drive(vec![reply], Git::current_branch);
    assert_eq!(r.unwrap(), "a\u{fffd}");
}

#[test]
fn files_are_shown_where_they_exist() {
    let show = |replies: &Vec<Reply>| Git::show("origin/main", "tufops.toml", replies);
    let (commands, r) = drive(vec![ok(""), ok("text\n")], show);
    assert_eq!(
        commands,
        ["cat-file -e origin/main:tufops.toml", "cat-file blob origin/main:tufops.toml"]
    );
    assert_eq!(r.unwrap(), Some(b"text\n".to_vec()));
    let (_, r) = drive(vec![fails("")], show);
    assert_eq!(r.unwrap(), None);
    let (_, r) = drive(vec![ok(""), fails("")], show);
    assert_eq!(r.unwrap_err().message(), "git cat-file blob origin/main:tufops.toml failed");
}

#[test]
fn files_are_listed() {
    let (commands, r) =
        drive(vec![ok("metadata/a.json\0metadata/b.json\0")], |r| Git::ls("HEAD", "metadata", r));
    assert_eq!(commands, ["ls-tree -r -z --name-only HEAD -- metadata"]);
    assert_eq!(r.unwrap(), ["metadata/a.json", "metadata/b.json"]);
    let (_, r) = drive(vec![ok("")], |r| Git::ls("HEAD", "metadata", r));
    assert!(r.unwrap().is_empty());
    let (_, r) = drive(vec![fails("no")], |r| Git::ls("HEAD", "metadata", r));
    assert_eq!(
        r.unwrap_err().message(),
        "git ls-tree -r -z --name-only HEAD -- metadata failed: no"
    );
}

#[test]
fn unusual_paths_are_listed_as_they_are() {
    let paths =
        ["metadata/schl\u{fc}ssel.json", "metadata/a \"b\"\\\t.json", " metadata/c\nd.json\n"];
    let out: String = paths.iter().map(|p| format!("{p}\0")).collect();
    let (_, r) = drive(vec![ok(&out)], |r| Git::ls("HEAD", "metadata", r));
    assert_eq!(r.unwrap(), paths);
    let (_, r) = drive(vec![ok(&out)], |r| Git::changed_files("origin/main", r));
    assert_eq!(r.unwrap(), paths);
}

#[test]
fn paths_that_are_no_text_name_no_metadata_but_are_changes() {
    let bytes = b"metadata/\xff.json\0metadata/a.json\0".to_vec();
    let reply = || Reply { success: true, stdout: bytes.clone(), stderr: vec![] };
    let (_, r) = drive(vec![reply()], |r| Git::ls("HEAD", "metadata", r));
    assert_eq!(r.unwrap(), ["metadata/a.json"]);
    let (_, r) = drive(vec![reply()], |r| Git::changed_files("origin/main", r));
    assert_eq!(r.unwrap(), ["metadata/\u{fffd}.json", "metadata/a.json"]);
}

#[test]
fn trees_without_changes_are_clean() {
    let paths = vec!["metadata".to_owned()];
    let (commands, r) = drive(vec![ok("\n")], |r| Git::is_clean(&paths, r));
    assert_eq!(commands, ["status --porcelain -- metadata"]);
    assert!(r.unwrap());
    let (_, r) = drive(vec![ok(" M metadata/root.json")], |r| Git::is_clean(&paths, r));
    assert!(!r.unwrap());
}

#[test]
fn events_are_branches_on_the_remote() {
    let out = "refs/remotes/origin/sign/add-a\nrefs/heads/x\nrefs/remotes/origin/sign/b/c\n";
    let (commands, r) = drive(vec![ok(out)], Git::remote_events);
    assert_eq!(commands, ["for-each-ref --format=%(refname) refs/remotes/origin/sign/"]);
    assert_eq!(r.unwrap(), ["add-a", "b/c"]);
    assert_eq!(Git::remote_ref("sign/a"), "origin/sign/a");
    let (commands, r) = drive(vec![ok("")], Git::fetch);
    assert_eq!(commands, ["fetch --prune origin"]);
    assert!(r.is_ok());
    let (commands, r) = drive(vec![fails("")], |r| Git::rev_exists("x", r));
    assert_eq!(commands, ["rev-parse --verify --quiet x^{commit}"]);
    assert!(!r.unwrap());
}

#[test]
fn an_event_is_continued_from_the_remote() {
    let checkout = |r: &Vec<Reply>| Git::checkout_event("a", r);
    let (commands, r) =
        drive(vec![ok(""), ok(""), fails(""), ok(""), ok("")], checkout);
    assert_eq!(
        commands,
        [
            "status --porcelain -- metadata",
            "fetch --prune origin",
            "rev-parse --verify --quiet refs/heads/sign/a^{commit}",
            "rev-parse --verify --quiet origin/sign/a^{commit}",
            "checkout --quiet -b sign/a origin/sign/a",
        ]
    );
    assert_eq!(r.unwrap(), "sign/a");
    let (commands, r) = drive(vec![ok(""), ok(""), ok(""), ok(""), ok(""), ok("")], checkout);
    assert_eq!(
        commands[4..],
        ["checkout --quiet sign/a", "merge --quiet --ff-only origin/sign/a"]
    );
    assert_eq!(r.unwrap(), "sign/a");
}

#[test]
fn an_event_is_started_from_main() {
    let checkout = |r: &Vec<Reply>| Git::checkout_event("a", r);
    for local in [false, true] {
        let exists = if local { ok("") } else { fails("") };
        let merged = if local { ok("") } else { fails("") };
        let (commands, r) =
            drive(vec![ok(""), ok(""), exists, fails(""), merged, ok("")], checkout);
        assert_eq!(
            commands[4..],
            [
                "merge-base --is-ancestor sign/a origin/main",
                "checkout --quiet -B sign/a origin/main"
            ]
        );
        assert_eq!(r.unwrap(), "sign/a");
    }
}

#[test]
fn checking_out_an_event_loses_nothing() {
    let checkout = |r: &Vec<Reply>| Git::checkout_event("a", r);
    let (commands, r) = drive(vec![ok(" M metadata/root.json")], checkout);
    assert_eq!(commands.len(), 1);
    assert_eq!(r.unwrap_err().message(), "metadata/ has uncommitted changes");
    let (commands, r) =
        drive(vec![ok(""), ok(""), ok(""), fails(""), fails("")], checkout);
    assert_eq!(commands.len(), 5);
    assert_eq!(
        r.unwrap_err().message(),
        "sign/a has commits that are not on origin: push or delete it first"
    );
}

#[test]
fn only_changes_are_committed() {
    let paths = vec!["metadata".to_owned()];
    let (commands, r) =
        drive(vec![ok(""), fails(""), ok("")], |r| Git::commit("Sign", &paths, r));
    assert_eq!(
        commands,
        [
            "add --all -- metadata",
            "diff --cached --quiet -- metadata",
            "commit --quiet -m Sign -- metadata"
        ]
    );
    assert!(r.unwrap());
    let (commands, r) = drive(vec![ok(""), ok("")], |r| Git::commit_all("Sign", r));
    assert_eq!(
        commands,
        [
            "add --all -- metadata tufops.toml",
            "diff --cached --quiet -- metadata tufops.toml"
        ]
    );
    assert!(!r.unwrap());
}

#[test]
fn branches_are_pushed_and_compared() {
    let (commands, r) = drive(vec![ok("")], |r| Git::push("sign/a", r));
    assert_eq!(commands, ["push --quiet origin HEAD:refs/heads/sign/a"]);
    assert!(r.is_ok());
    let (commands, r) =
        drive(vec![ok("metadata/a.json\0")], |r| Git::changed_files("origin/main", r));
    assert_eq!(commands, ["diff --name-only --no-renames -z origin/main...HEAD"]);
    assert_eq!(r.unwrap(), ["metadata/a.json"]);
}
