//! Signing events: their status, what is said of them, and what is done about them.

use ring::rand::SystemRandom;
use ring::signature::{EcdsaKeyPair, KeyPair, ECDSA_P256_SHA256_ASN1_SIGNING};
use tufops::ci;
use tufops::ci::{Issue, Job, MainEvent, MainStep, Merge, Plan, PullRequest};
use tufops::cli;
use tufops::cli::{Attempt, Device, Found, OpenEvent, Session};
use tufops::config::{Config, KeyConfig, RoleConfig};
use tufops::documents::Description;
use tufops::error::Problem;
use tufops::git::{Next, Reply};
use tufops::keys::PublicKey;
use tufops::repo::Repo;
use tufops::status::{Change, EventStatus, Key, Requirement, RoleStatus, TargetFile};
use tufops::strmap::{StrMap, Value};
use tufops::time::Time;

const HELLO: &str = "2cf24dba5fb0a30e26e83b2ac5b9e29e1b161e5c1fa7425e73043362938b9824";
const EMPTY: &str = "e3b0c44298fc1c149afbf4c8996fb92427ae41e4649b934ca495991b7852b855";

struct TestKey(EcdsaKeyPair);

impl TestKey {
    fn new() -> Self {
        let rng = SystemRandom::new();
        let pkcs8 = EcdsaKeyPair::generate_pkcs8(&ECDSA_P256_SHA256_ASN1_SIGNING, &rng).unwrap();
        let pair = EcdsaKeyPair::from_pkcs8(&ECDSA_P256_SHA256_ASN1_SIGNING, pkcs8.as_ref(), &rng);
        Self(pair.unwrap())
    }

    fn pem(&self) -> String {
        let mut der = vec![
            0x30, 0x59, 0x30, 0x13, 0x06, 0x07, 0x2a, 0x86, 0x48, 0xce, 0x3d, 0x02, 0x01, 0x06, 0x08,
            0x2a, 0x86, 0x48, 0xce, 0x3d, 0x03, 0x01, 0x07, 0x03, 0x42, 0x00,
        ];
        der.extend_from_slice(self.0.public_key().as_ref());
        let ending = x509_cert::der::pem::LineEnding::LF;
        x509_cert::der::pem::encode_string("PUBLIC KEY", ending, &der).unwrap()
    }

    fn public_key(&self) -> PublicKey {
        PublicKey::from_pem(&self.pem()).unwrap()
    }

    fn sign(&self, msg: &[u8]) -> Vec<u8> {
        self.0.sign(&SystemRandom::new(), msg).unwrap().as_ref().to_vec()
    }
}

/// Three keys, and a time.
struct World {
    alice: TestKey,
    bob: TestKey,
    online: TestKey,
    now: Time,
}

fn role(keys: &[&str], threshold: u32, paths: &[&str]) -> RoleConfig {
    RoleConfig {
        keys: keys.iter().map(|k| k.to_string()).collect(),
        threshold,
        expires_days: 30,
        signing_days: 7,
        paths: paths.iter().map(|p| p.to_string()).collect(),
    }
}

impl World {
    fn new() -> Self {
        World {
            alice: TestKey::new(),
            bob: TestKey::new(),
            online: TestKey::new(),
            now: Time::new(1_790_000_000, 123).unwrap(),
        }
    }

    /// A config with the given roles besides the usual ones, or in place of them.
    fn config(&self, more: Vec<(&str, RoleConfig)>) -> Config {
        let key = |owner: Option<&str>, online: Option<&str>, key: &TestKey| KeyConfig {
            owner: owner.map(str::to_owned),
            online: online.map(str::to_owned),
            public_key: key.pem(),
        };
        let mut keys = StrMap::new();
        keys.insert("alice".to_owned(), key(Some("@alice"), None, &self.alice));
        keys.insert("bob".to_owned(), key(Some("@bob"), None, &self.bob));
        keys.insert("online".to_owned(), key(None, Some("gcpkms:k"), &self.online));
        let mut roles = StrMap::new();
        roles.insert("root".to_owned(), role(&["alice", "bob"], 2, &[]));
        roles.insert("targets".to_owned(), role(&["alice", "bob"], 1, &[]));
        roles.insert("snapshot".to_owned(), role(&["online"], 1, &[]));
        roles.insert("timestamp".to_owned(), role(&["online"], 1, &[]));
        roles.insert("nightly".to_owned(), role(&["online"], 1, &["nightly/"]));
        for (name, role) in more {
            roles.insert(name.to_owned(), role);
        }
        Config::new("gs://bucket/repo".to_owned(), keys, roles).unwrap()
    }

    fn sign(&self, repo: &mut Repo, role: &str, key: &TestKey) {
        let input = repo.signing_input(role).unwrap();
        repo.sign(role, &key.public_key(), &key.sign(&input)).unwrap();
    }

    /// Signs the roles with every key they miss.
    fn sign_all(&self, repo: &mut Repo, base: &Repo, roles: &[String]) {
        for role in roles {
            let missing = repo.missing_keys(base, role).unwrap();
            for key in [&self.alice, &self.bob, &self.online] {
                if missing.iter().any(|m| m.same_as(&key.public_key())) {
                    self.sign(repo, role, key);
                }
            }
        }
    }

    /// A repository that is signed and up to date.
    fn repository(&self, config: &Config) -> Repo {
        let nothing = Repo::new();
        let mut repo = Repo::new();
        let changed = repo.apply_config(config, None, &nothing, &self.now).unwrap();
        self.sign_all(&mut repo, &nothing, &changed);
        self.bring_online(&mut repo, config);
        repo
    }

    fn bring_online(&self, repo: &mut Repo, config: &Config) {
        let base = repo.dup();
        let changed = repo.update_online(config, None, &self.now).unwrap();
        self.sign_all(repo, &base, &changed);
    }
}

fn file(length: u64, sha256: &str) -> Description {
    Description::new(length, sha256).unwrap()
}

fn strings(parts: &[&str]) -> Vec<String> {
    parts.iter().map(|p| p.to_string()).collect()
}

fn texts(role: &RoleStatus) -> Vec<String> {
    role.changes.iter().map(|c| c.to_text()).collect()
}

/// The key in the words of a change.
fn named(label: &str, key: &TestKey) -> String {
    format!("{label} [{}]", &key.public_key().id[..8])
}

fn key(name: &str, online: bool) -> Key {
    Key { id: name.to_owned(), name: name.to_owned(), online }
}

fn requirement(threshold: u32, signed: Vec<Key>, unsigned: Vec<Key>) -> Requirement {
    Requirement { previous_root: false, threshold, signed, unsigned }
}

fn role_status(name: &str, requirements: Vec<Requirement>) -> RoleStatus {
    RoleStatus {
        role: name.to_owned(),
        base: None,
        version: 1,
        expires: Time::new(1_797_996_780, 0).unwrap(),
        changes: vec![],
        requirements,
    }
}

#[test]
fn a_new_repository_needs_everyone() {
    let world = World::new();
    let config = world.config(vec![]);
    let nothing = Repo::new();
    let mut head = Repo::new();
    let changed = head.apply_config(&config, None, &nothing, &world.now).unwrap();
    let status = EventStatus::new(&config, &nothing, &head).unwrap();
    let roles: Vec<_> = status.roles.iter().map(|r| r.role.as_str()).collect();
    assert_eq!(roles, ["root", "targets", "nightly"]);
    assert_eq!(status.waiting_for().to_vec(), ["@alice", "@bob", "online (online)"]);
    assert!(!status.complete() && status.offline());
    let root = &status.roles[0];
    assert_eq!((root.base.is_none(), root.version), (true, 1));
    assert_eq!(root.requirements.len(), 1);
    assert_eq!(root.requirements[0].threshold, 2);
    assert!(root.needs(&world.alice.public_key().id));
    assert!(!root.needs(&world.online.public_key().id));
    let mut expected = vec![];
    for (what, labels) in [
        ("root role", vec![("@alice", &world.alice), ("@bob", &world.bob)]),
        ("targets role", vec![("@alice", &world.alice), ("@bob", &world.bob)]),
        ("snapshot role", vec![("online (online)", &world.online)]),
        ("timestamp role", vec![("online (online)", &world.online)]),
    ] {
        for (label, k) in labels {
            expected.push(format!("{what}: key {} added", named(label, k)));
        }
        expected.push(format!("{what}: threshold {}", if what == "root role" { 2 } else { 1 }));
    }
    assert_eq!(texts(root), expected);
    assert_eq!(
        texts(&status.roles[1]),
        [
            "delegation nightly added".to_owned(),
            "delegation nightly: path nightly/ added".to_owned(),
            format!("delegation nightly: key {} added", named("online (online)", &world.online)),
            "delegation nightly: threshold 1".to_owned(),
        ]
    );
    world.sign_all(&mut head, &nothing, &changed);
    let status = EventStatus::new(&config, &nothing, &head).unwrap();
    assert!(status.complete());
    assert_eq!(status.waiting_for().len(), 0);
    assert!(status.needs(&world.alice.public_key().id).is_empty());
    for role in &status.roles {
        assert!(head.missing_keys(&nothing, &role.role).unwrap().is_empty());
    }
}

#[test]
fn an_event_without_changes_has_no_roles() {
    let world = World::new();
    let config = world.config(vec![]);
    let main = world.repository(&config);
    let status = EventStatus::new(&config, &main, &main).unwrap();
    assert!(status.roles.is_empty() && status.complete() && !status.offline());
    assert!(status.merges_automatically(&strings(&["metadata/x.json"])));
}

#[test]
fn a_new_root_waits_for_the_previous_keys() {
    let world = World::new();
    let main = world.repository(&world.config(vec![]));
    let config = world.config(vec![("root", role(&["online"], 1, &[]))]);
    let mut head = main.dup();
    head.apply_config(&config, None, &main, &world.now).unwrap();
    world.sign(&mut head, "root", &world.online);
    let status = EventStatus::new(&config, &main, &head).unwrap();
    let root = &status.roles[0];
    assert_eq!(root.base.as_ref().unwrap().0, 1);
    assert_eq!(root.version, 2);
    let seen: Vec<_> =
        root.requirements.iter().map(|r| (r.previous_root, r.threshold, r.met())).collect();
    assert_eq!(seen, [(false, 1, true), (true, 2, false)]);
    assert!(!root.complete() && status.offline());
    assert_eq!(status.waiting_for().to_vec(), ["@alice", "@bob"]);
    let mut removed = vec![
        format!("root role: key {} removed", named("@alice", &world.alice)),
        format!("root role: key {} removed", named("@bob", &world.bob)),
    ];
    removed.insert(0, format!("root role: key {} added", named("online (online)", &world.online)));
    removed.push("root role: threshold 2 → 1".to_owned());
    assert_eq!(texts(root), removed);
}

#[test]
fn targets_are_added_changed_and_removed() {
    let world = World::new();
    let config = world.config(vec![]);
    let mut main = world.repository(&config);
    let empty = main.dup();
    let first = vec![
        ("nightly/a".to_owned(), file(5, HELLO)),
        ("nightly/b".to_owned(), file(5, HELLO)),
    ];
    main.add_targets(&config, &empty, &first, &world.now).unwrap();
    let mut head = main.dup();
    let second = vec![
        ("nightly/a".to_owned(), file(0, EMPTY)),
        ("nightly/c".to_owned(), file(5, HELLO)),
    ];
    head.add_targets(&config, &main, &second, &world.now).unwrap();
    let status = EventStatus::new(&config, &main, &head).unwrap();
    assert_eq!(
        texts(&status.roles[0]),
        [
            format!("target nightly/a changed (0 bytes, sha256 {EMPTY})"),
            format!("target nightly/c added (5 bytes, sha256 {HELLO})"),
        ]
    );
    match &status.roles[0].changes[1] {
        Change::Target { path, kind, file: Some(file) } => {
            assert_eq!((path.as_str(), *kind), ("nightly/c", "added"));
            assert_eq!(file.object, format!("targets/nightly/{HELLO}.c"));
        }
        other => panic!("{other:?}"),
    }
    // Seen the other way round, the target was removed.
    let back = EventStatus::new(&config, &head, &main).unwrap();
    assert_eq!(texts(&back.roles[0])[1], "target nightly/c removed");
}

#[test]
fn targets_move_between_roles() {
    let world = World::new();
    let wide = world.config(vec![]);
    let mut main = world.repository(&wide);
    let empty = main.dup();
    let all = vec![
        ("fw/a".to_owned(), file(5, HELLO)),
        ("fw/b".to_owned(), file(0, EMPTY)),
        ("other".to_owned(), file(0, EMPTY)),
    ];
    main.add_targets(&wide, &empty, &all, &world.now).unwrap();
    let config = world.config(vec![("firmware", role(&["bob"], 1, &["fw/"]))]);
    let mut head = main.dup();
    head.apply_config(&config, None, &main, &world.now).unwrap();
    head.add_targets(&config, &main, &all[..2].iter().map(|(p, d)| (p.clone(), d.dup())).collect(), &world.now)
        .unwrap();
    let status = EventStatus::new(&config, &main, &head).unwrap();
    let firmware = status.roles.iter().find(|r| r.role == "firmware").unwrap();
    assert_eq!(texts(firmware), ["2 targets moved here unchanged from targets"]);
    let back = EventStatus::new(&config, &head, &main).unwrap();
    assert!(back.roles.iter().all(|r| r.role != "firmware"));
}

#[test]
fn delegations_are_removed() {
    let world = World::new();
    let wide = world.config(vec![("firmware", role(&["bob"], 1, &["fw/"]))]);
    let main = world.repository(&wide);
    let config = world.config(vec![("nightly", role(&["online", "bob"], 1, &["night/"]))]);
    let mut head = main.dup();
    head.apply_config(&config, None, &main, &world.now).unwrap();
    let status = EventStatus::new(&config, &main, &head).unwrap();
    assert_eq!(
        texts(&status.roles[0]),
        [
            "delegation firmware removed".to_owned(),
            "delegation nightly: path night/ added".to_owned(),
            "delegation nightly: path nightly/ removed".to_owned(),
            format!("delegation nightly: key {} added", named("@bob", &world.bob)),
        ]
    );
}

#[test]
fn signatures_are_counted() {
    let met = requirement(1, vec![key("a", true)], vec![key("b", true)]);
    let unmet = requirement(2, vec![key("a", true)], vec![key("b", false), key("c", true)]);
    assert!(met.met() && !unmet.met());
    let status = EventStatus { roles: vec![role_status("x", vec![met, unmet])] };
    assert!(status.roles[0].needs("b") && !status.roles[0].needs("a"));
    assert_eq!(status.needs("c").len(), 1);
    assert_eq!(status.waiting_for().to_vec(), ["b", "c"]);
    assert!(status.offline() && !status.complete());
    let online = requirement(1, vec![key("a", true)], vec![]);
    let status = EventStatus { roles: vec![role_status("x", vec![online])] };
    assert!(status.merges_automatically(&strings(&["metadata/x.json"])));
    assert!(!status.merges_automatically(&strings(&["metadata/x.json", "metadata"])));
}

#[test]
fn a_pull_request_describes_the_event() {
    let mut changed = role_status(
        "firmware",
        vec![
            requirement(2, vec![key("@alice", false)], vec![key("@bob", false), key("@eve", false)]),
            Requirement { previous_root: true, threshold: 1, signed: vec![key("k", true)], unsigned: vec![] },
        ],
    );
    changed.base = Some((3, Time::new(1_790_000_000, 0).unwrap()));
    changed.version = 4;
    changed.changes = vec![
        Change::Target {
            path: "fw/a b".to_owned(),
            kind: "added",
            file: Some(TargetFile {
                length: 5,
                sha256: HELLO.to_owned(),
                object: "targets/fw/1.a b".to_owned(),
            }),
        },
        Change::Target { path: "fw/c".to_owned(), kind: "removed", file: None },
        Change::Other("delegation x added".to_owned()),
    ];
    let status = EventStatus { roles: vec![changed, role_status("new", vec![])] };
    assert_eq!(
        ci::markdown(&status, "gs://bucket/repo").unwrap(),
        format!(
            "| Role | Version | Expires | Signatures | Signed by | Waiting for |\n\
             |---|---|---|---|---|---|\n\
             | firmware | 3 → 4 | 2026-09-21 → 2026-12-23 | ⏳ 1 of 2 | @alice | @bob, @eve |\n\
             | firmware (previous keys) | 3 → 4 | 2026-09-21 → 2026-12-23 | ✅ 1 of 1 | k | - |\n\
             \n**Changes to firmware**\n\n\
             - target [`fw/a b`](<https://storage.googleapis.com/bucket/repo/targets/fw/1.a%20b>) \
             added (5 bytes, sha256 `{HELLO}`)\n\
             - target `fw/c` removed\n\
             - delegation x added\n"
        )
    );
    let e = ci::markdown(&status, "s3://bucket").unwrap_err();
    assert!(matches!(e, Problem::Storage { .. }));
    assert_eq!(ci::waiting_names(&status), "@bob, @eve");
    assert_eq!(ci::status_description(&status), "Waiting for @bob, @eve");
    assert_eq!(cli::role_heading(&status.roles[0]), "version 3 → 4, expires 2026-12-23 03:33 UTC");
    assert_eq!(cli::role_heading(&status.roles[1]), "new, version 1, expires 2026-12-23 03:33 UTC");
    assert_eq!(
        cli::role_details(&status.roles[0]),
        [
            format!("target fw/a b added (5 bytes, sha256 {HELLO})"),
            "target fw/c removed".to_owned(),
            "delegation x added".to_owned(),
        ]
    );
}

#[test]
fn a_renewed_role_has_no_other_changes() {
    let mut renewed = role_status("targets", vec![]);
    renewed.base = Some((1, Time::new(1_790_000_000, 0).unwrap()));
    assert_eq!(cli::role_heading(&renewed), "version 1, expires 2026-12-23 03:33 UTC");
    assert!(cli::role_details(&renewed).is_empty());
    renewed.version = 2;
    assert_eq!(cli::role_details(&renewed), ["no changes besides version and expiry"]);
}

#[test]
fn requirements_are_told_line_by_line() {
    let both = requirement(2, vec![key("@a", false)], vec![key("@b", false), key("@c", false)]);
    assert_eq!(
        cli::requirement_line(&both),
        "signatures: 1 of 2, signed by @a, waiting for @b, @c"
    );
    let none = Requirement {
        previous_root: true,
        threshold: 1,
        signed: vec![],
        unsigned: vec![key("@b", false)],
    };
    assert_eq!(
        cli::requirement_line(&none),
        "signatures from the previous root keys: 0 of 1, waiting for @b"
    );
    let met = requirement(1, vec![key("@a", false)], vec![key("@b", false)]);
    assert_eq!(cli::requirement_line(&met), "signatures: 1 of 1, signed by @a");
}

#[test]
fn status_descriptions_are_cut() {
    let many = (0..40).map(|i| key(&format!("@key{i:02}"), false)).collect();
    let status = EventStatus { roles: vec![role_status("x", vec![requirement(1, vec![], many)])] };
    let description = ci::status_description(&status);
    assert_eq!(description.chars().count(), 140);
    assert!(description.starts_with("Waiting for @key00, @key01, "));
    let done = EventStatus { roles: vec![] };
    assert_eq!(ci::status_description(&done), "All signatures are in");
}

#[test]
fn the_automation_runs_on_main_and_events() {
    assert!(matches!(ci::job("sign/add-x"), Ok(Job::SigningEvent(e)) if e == "add-x"));
    assert!(matches!(ci::job("main"), Ok(Job::Main)));
    assert_eq!(
        ci::job("dev").unwrap_err().message(),
        "tufops runs on main and sign/* branches, not dev"
    );
    assert_eq!(
        ci::run_url("https://github.com", "o/r", "7"),
        "https://github.com/o/r/actions/runs/7"
    );
}

#[test]
fn events_are_reported_and_merged() {
    let world = World::new();
    let config = world.config(vec![]);
    let main = world.repository(&config);
    let mut head = main.dup();
    let added = vec![("nightly/a".to_owned(), file(5, HELLO))];
    head.add_targets(&config, &main, &added, &world.now).unwrap();
    let files = strings(&["metadata/nightly.json"]);
    let plan = |head: &Repo, files: &Vec<String>| {
        ci::signing_event(&config, &main, head, "sign/a", files).unwrap()
    };
    assert!(matches!(plan(&head, &vec![]), Plan::Nothing));
    match plan(&head, &files) {
        Plan::Report { complete, description, body, merge } => {
            assert!(!complete && !merge);
            assert_eq!(description, "Waiting for online (online)");
            assert!(body.starts_with("## Signing event `sign/a`\n\n| Role |"));
            assert!(body.ends_with(
                "\nWaiting for signatures from online (online). Signers: check out the repository \
                 and run `tufops sign`."
            ));
        }
        Plan::Nothing => unreachable!(),
    }
    world.sign(&mut head, "nightly", &world.online);
    match plan(&head, &files) {
        Plan::Report { complete, description, body, merge } => {
            assert!(complete && merge);
            assert_eq!(description, "All signatures are in");
            assert!(body.ends_with("\nAll signatures are in: merging."));
        }
        Plan::Nothing => unreachable!(),
    }
    match plan(&head, &strings(&["metadata/nightly.json", "tufops.toml"])) {
        Plan::Report { complete, body, merge, .. } => {
            assert!(complete && !merge);
            assert!(body.ends_with(
                "\nAll signatures are in: a maintainer can now review and merge this pull request."
            ));
        }
        Plan::Nothing => unreachable!(),
    }
    let status = EventStatus::new(&config, &main, &head).unwrap();
    assert_eq!(cli::outlook(&status, &files), "All signatures are in: CI merges and publishes it.");
    assert_eq!(
        cli::outlook(&status, &strings(&["tufops.toml"])),
        "All signatures are in: CI opens a pull request for a maintainer to merge."
    );
}

#[test]
fn offline_events_wait_for_a_maintainer() {
    let world = World::new();
    let config = world.config(vec![]);
    let main = world.repository(&config);
    let mut head = main.dup();
    head.add_targets(&config, &main, &vec![("a".to_owned(), file(5, HELLO))], &world.now).unwrap();
    let status = EventStatus::new(&config, &main, &head).unwrap();
    assert_eq!(
        cli::outlook(&status, &vec![]),
        "Waiting for signatures from @alice, @bob. CI opens a pull request; signers run \
         `tufops sign`."
    );
    world.sign(&mut head, "targets", &world.alice);
    let files = strings(&["metadata/targets.json"]);
    match ci::signing_event(&config, &main, &head, "sign/a", &files).unwrap() {
        Plan::Report { complete, merge, .. } => assert!(complete && !merge),
        Plan::Nothing => unreachable!(),
    }
}

#[test]
fn main_is_merged_into_events() {
    let ok = || Reply { success: true, stdout: b"metadata/a.json\0".to_vec(), stderr: vec![] };
    let fails = || Reply { success: false, stdout: vec![], stderr: b"no".to_vec() };
    let run = |n: Next<Vec<String>>| match n {
        Next::Run(args) => args.join(" "),
        Next::Done(r) => match r {
            Ok(files) => files.join(","),
            Err(e) => e.message(),
        },
    };
    let merge = |replies| run(ci::merge_main("sign/a", "abc", &replies));
    assert_eq!(merge(vec![]), "fetch --prune origin");
    assert_eq!(merge(vec![ok()]), "checkout --quiet -B sign/a abc");
    assert_eq!(merge(vec![ok(), ok()]), "merge --no-edit origin/main");
    assert_eq!(
        merge(vec![ok(), ok(), fails()]),
        "sign/a conflicts with main; start it again from main"
    );
    assert_eq!(merge(vec![ok(), ok(), ok()]), "diff --name-only --no-renames -z origin/main...HEAD");
    assert_eq!(merge(vec![ok(), ok(), ok(), ok()]), "metadata/a.json");
    assert_eq!(merge(vec![fails()]), "git fetch --prune origin failed: no");
}

#[test]
fn merges_are_tried_three_times() {
    let ok = || Reply { success: true, stdout: b"abc".to_vec(), stderr: vec![] };
    let other = || Reply { success: true, stdout: b"def".to_vec(), stderr: vec![] };
    let fails = || Reply { success: false, stdout: vec![], stderr: b"moved".to_vec() };
    let args = |n: Next<bool>| match n {
        Next::Run(args) => args.join(" "),
        Next::Done(_) => unreachable!(),
    };
    let outcome = |n: Next<bool>| match n {
        Next::Run(_) => unreachable!(),
        Next::Done(r) => r.map_err(|e| e.message()),
    };
    let refused = "git push origin HEAD:refs/heads/main failed: moved";
    let pushing = |attempt, replies| match ci::push_event("sign/a", attempt, &replies) {
        Next::Run(args) => args.join(" "),
        Next::Done(Ok(Merge::Merged)) => "merged".to_owned(),
        Next::Done(Ok(Merge::Again(e))) => format!("again: {}", e.message()),
        Next::Done(Err(e)) => e.message(),
    };
    assert_eq!(pushing(1, vec![]), "push origin HEAD:refs/heads/main");
    assert_eq!(pushing(1, vec![ok()]), "push origin --delete sign/a");
    assert_eq!(pushing(1, vec![ok(), ok()]), "merged");
    assert_eq!(pushing(3, vec![ok(), ok()]), "merged");
    assert_eq!(pushing(1, vec![ok(), fails()]), "git push origin --delete sign/a failed: moved");
    assert_eq!(pushing(1, vec![fails()]), format!("again: {refused}"));
    assert_eq!(pushing(2, vec![fails()]), format!("again: {refused}"));
    assert_eq!(pushing(3, vec![fails()]), refused);
    assert_eq!(args(ci::moved_on(&vec![ok()])), "rev-parse HEAD~1");
    assert_eq!(args(ci::moved_on(&vec![ok(), ok()])), "rev-parse origin/main");
    assert_eq!(outcome(ci::moved_on(&vec![ok(), ok(), ok()])), Ok(false));
    assert_eq!(outcome(ci::moved_on(&vec![ok(), ok(), other()])), Ok(true));
}

#[test]
fn runs_on_main_publish_what_is_pushed() {
    let roles = || strings(&["snapshot", "timestamp"]);
    let step = |e: MainEvent| ci::main_branch(&e);
    assert!(
        matches!(step(MainEvent::Updated(roles())), MainStep::Commit(m) if m == "Update snapshot, timestamp")
    );
    assert!(matches!(step(MainEvent::Committed(true)), MainStep::Push));
    assert!(matches!(step(MainEvent::Committed(false)), MainStep::Publish));
    assert!(matches!(step(MainEvent::Pushed(true)), MainStep::Publish));
    assert!(matches!(step(MainEvent::Pushed(false)), MainStep::AskMoved));
    assert!(matches!(step(MainEvent::Moved(true)), MainStep::Leave));
    assert!(matches!(step(MainEvent::Moved(false)), MainStep::Fail));
    assert!(matches!(step(MainEvent::Published), MainStep::List));
    assert!(matches!(step(MainEvent::Listed(strings(&["a"]))), MainStep::Apply));
    assert!(matches!(step(MainEvent::Listed(strings(&["a", "refresh"]))), MainStep::Finish));
    assert!(matches!(step(MainEvent::Applied(vec![])), MainStep::Finish));
    assert!(
        matches!(step(MainEvent::Applied(strings(&["root"]))), MainStep::Refresh(m) if m == "Start new versions of root")
    );
}

#[test]
fn pull_requests_are_kept_up_to_date() {
    assert_eq!(ci::pull_request(true, true), PullRequest::Update);
    assert_eq!(ci::pull_request(true, false), PullRequest::Update);
    assert_eq!(ci::pull_request(false, false), PullRequest::Create);
    assert_eq!(ci::pull_request(false, true), PullRequest::Skip);
}

#[test]
fn failures_are_reported_once() {
    let issue = |title: &str, pull_request| Issue { title: title.to_owned(), pull_request };
    let open = vec![
        issue("other", false),
        issue(ci::FAILURE_TITLE, true),
        issue(ci::FAILURE_TITLE, false),
        issue(ci::FAILURE_TITLE, false),
    ];
    assert_eq!(ci::failure_issue(&open), Some(2));
    assert_eq!(ci::failure_issue(&vec![issue("other", false)]), None);
    assert_eq!(ci::failure_body("main", "https://x/7"), "tufops failed on `main`: https://x/7");
}

#[test]
fn files_go_under_their_target_path() {
    let file = |name: &str| Found::File(name.to_owned());
    assert_eq!(cli::collect_files("x/a.bin", "fw/b.bin", &file("a.bin")).unwrap(), ["fw/b.bin"]);
    assert_eq!(cli::collect_files("x/a.bin", "fw/", &file("a.bin")).unwrap(), ["fw/a.bin"]);
    let e = cli::collect_files("x/a.bin", "/fw", &file("a.bin")).unwrap_err();
    assert_eq!(e.message(), "target path /fw");
    let dir = Found::Directory(vec![strings(&["a"]), strings(&["sub", "b"])]);
    assert_eq!(cli::collect_files("x", "/fw/v1/", &dir).unwrap(), ["fw/v1/a", "fw/v1/sub/b"]);
    assert_eq!(cli::collect_files("x", "", &dir).unwrap(), ["a", "sub/b"]);
    let e = cli::collect_files("x", "fw", &Found::Directory(vec![])).unwrap_err();
    assert_eq!(e.message(), "no files in x");
    assert_eq!(cli::add_event("/firmware/fw-1.2.bin"), "add-firmware-fw-1.2.bin");
    assert_eq!(cli::add_event("nightly/é x/"), "add-nightly---x");
}

#[test]
fn pending_events_need_the_key() {
    let world = World::new();
    let config = world.config(vec![]);
    let main = world.repository(&config);
    let open = |path: &str, event: &str| {
        let mut head = main.dup();
        let added = vec![(path.to_owned(), file(5, HELLO))];
        head.add_targets(&config, &main, &added, &world.now).unwrap();
        let status = EventStatus::new(&config, &main, &head).unwrap();
        OpenEvent { event: event.to_owned(), status }
    };
    let events = vec![open("nightly/a", "n"), open("a", "t"), open("b", "u")];
    let alice = world.alice.public_key().id;
    assert_eq!(cli::pending(&events, &alice, &vec![]), [1, 2]);
    assert_eq!(cli::pending(&events, &alice, &strings(&["u", "n"])), [2]);
    assert_eq!(cli::pending(&events, &world.online.public_key().id, &vec![]), [0]);
    assert_eq!(cli::choice(&events[1], &alice), "sign/t (signs targets)");
    assert_eq!(
        cli::prompt(&config, &alice, 1),
        format!("Your YubiKey (@alice, key {}) is needed to sign this role in ", &alice[..8])
    );
    assert!(cli::prompt(&config, "short", 2).ends_with("key ) is needed to sign these roles in "));
    assert_eq!(cli::event_roles(&main), ["nightly", "root", "targets"]);
}

#[test]
fn roles_are_signed_one_after_another() {
    let unmet = || vec![requirement(1, vec![], vec![key("k", false)])];
    let mut status =
        EventStatus { roles: vec![role_status("a", unmet()), role_status("b", unmet())] };
    status.roles[1].version = 7;
    status.roles.push(role_status("c", vec![]));
    let mut session = Session::new(&status, "k");
    assert_eq!(session.current(), Some((&"a".to_owned(), 1)));
    session.record(Attempt::Again);
    assert_eq!(session.current(), Some((&"a".to_owned(), 1)));
    session.record(Attempt::GivenUp);
    assert!(!session.signed());
    assert_eq!(session.current(), Some((&"b".to_owned(), 7)));
    session.record(Attempt::Signed);
    assert_eq!(session.current(), None);
    assert!(session.signed());
}

#[test]
fn the_only_device_is_used() {
    assert_eq!(cli::choose_device(0, true), Device::Missing);
    assert_eq!(cli::choose_device(1, false), Device::Only);
    assert_eq!(cli::choose_device(2, true), Device::Ask);
    assert_eq!(cli::choose_device(2, false), Device::Ambiguous);
}
