//! Editing, signing, verifying and publishing a repository.

use md5::{Digest, Md5};
use ring::rand::SystemRandom;
use ring::signature::{EcdsaKeyPair, Ed25519KeyPair, KeyPair, ECDSA_P256_SHA256_ASN1_SIGNING};
use tufops::cloud;
use tufops::config::{Config, KeyConfig, RoleConfig};
use tufops::documents::Description;
use tufops::keys::{signing_digest, PublicKey};
use tufops::publish;
use tufops::repo::{Repo, Shown};
use tufops::strmap::{StrMap, Value};
use tufops::time::Time;

const DAY: i64 = 86_400;
const HELLO: &str = "2cf24dba5fb0a30e26e83b2ac5b9e29e1b161e5c1fa7425e73043362938b9824";
const EMPTY: &str = "e3b0c44298fc1c149afbf4c8996fb92427ae41e4649b934ca495991b7852b855";

struct TestKey(EcdsaKeyPair);

impl TestKey {
    fn new() -> Self {
        let rng = SystemRandom::new();
        let pkcs8 = EcdsaKeyPair::generate_pkcs8(&ECDSA_P256_SHA256_ASN1_SIGNING, &rng).unwrap();
        let pair = EcdsaKeyPair::from_pkcs8(&ECDSA_P256_SHA256_ASN1_SIGNING, pkcs8.as_ref(), &rng);
        Self(pair.unwrap())
    }

    fn pem(&self) -> String {
        let mut der = vec![
            0x30, 0x59, 0x30, 0x13, 0x06, 0x07, 0x2a, 0x86, 0x48, 0xce, 0x3d, 0x02, 0x01, 0x06, 0x08,
            0x2a, 0x86, 0x48, 0xce, 0x3d, 0x03, 0x01, 0x07, 0x03, 0x42, 0x00,
        ];
        der.extend_from_slice(self.0.public_key().as_ref());
        let ending = x509_cert::der::pem::LineEnding::LF;
        x509_cert::der::pem::encode_string("PUBLIC KEY", ending, &der).unwrap()
    }

    fn public_key(&self) -> PublicKey {
        PublicKey::from_pem(&self.pem()).unwrap()
    }

    fn sign(&self, msg: &[u8]) -> Vec<u8> {
        self.0.sign(&SystemRandom::new(), msg).unwrap().as_ref().to_vec()
    }
}

/// Three keys, and a time.
struct World {
    alice: TestKey,
    bob: TestKey,
    online: TestKey,
    now: Time,
}

fn role(keys: &[&str], threshold: u32, paths: &[&str]) -> RoleConfig {
    RoleConfig {
        keys: keys.iter().map(|k| k.to_string()).collect(),
        threshold,
        expires_days: 30,
        signing_days: 7,
        paths: paths.iter().map(|p| p.to_string()).collect(),
    }
}

impl World {
    fn new() -> Self {
        World {
            alice: TestKey::new(),
            bob: TestKey::new(),
            online: TestKey::new(),
            now: Time::new(1_790_000_000, 123).unwrap(),
        }
    }

    /// A config with the given roles besides the usual ones, or in place of them.
    fn config(&self, more: Vec<(&str, RoleConfig)>) -> Config {
        let key = |owner: Option<&str>, online: Option<&str>, key: &TestKey| KeyConfig {
            owner: owner.map(str::to_owned),
            online: online.map(str::to_owned),
            public_key: key.pem(),
        };
        let mut keys = StrMap::new();
        keys.insert("alice".to_owned(), key(Some("@alice"), None, &self.alice));
        keys.insert("bob".to_owned(), key(Some("@bob"), None, &self.bob));
        keys.insert("online".to_owned(), key(None, Some("gcpkms:k"), &self.online));
        let mut roles = StrMap::new();
        roles.insert("root".to_owned(), role(&["alice", "bob"], 2, &[]));
        roles.insert("targets".to_owned(), role(&["alice", "bob"], 1, &[]));
        roles.insert("snapshot".to_owned(), role(&["online"], 1, &[]));
        roles.insert("timestamp".to_owned(), role(&["online"], 1, &[]));
        roles.insert("nightly".to_owned(), role(&["online"], 1, &["nightly/"]));
        for (name, role) in more {
            roles.insert(name.to_owned(), role);
        }
        Config::new("gs://bucket/repo".to_owned(), keys, roles).unwrap()
    }

    fn sign(&self, repo: &mut Repo, role: &str, key: &TestKey) {
        let input = repo.signing_input(role).unwrap();
        repo.sign(role, &key.public_key(), &key.sign(&input)).unwrap();
    }

    /// Signs the roles with every key they miss.
    fn sign_all(&self, repo: &mut Repo, base: &Repo, roles: &[String]) {
        for role in roles {
            let missing = repo.missing_keys(base, role).unwrap();
            for key in [&self.alice, &self.bob, &self.online] {
                if missing.iter().any(|m| m.same_as(&key.public_key())) {
                    self.sign(repo, role, key);
                }
            }
        }
    }

    /// A repository that is signed and up to date.
    fn repository(&self, config: &Config) -> Repo {
        let nothing = Repo::new();
        let mut repo = Repo::new();
        let changed = repo.apply_config(config, None, &nothing, &self.now).unwrap();
        self.sign_all(&mut repo, &nothing, &changed);
        self.bring_online(&mut repo, config);
        repo
    }

    fn bring_online(&self, repo: &mut Repo, config: &Config) {
        let base = repo.dup();
        let changed = repo.update_online(config, None, &self.now).unwrap();
        self.sign_all(repo, &base, &changed);
    }
}

fn file(length: u64, sha256: &str) -> Description {
    Description::new(length, sha256).unwrap()
}

fn text(repo: &Repo, role: &str) -> String {
    String::from_utf8(repo.raw(role).unwrap().clone()).unwrap()
}

/// The repository with the metadata of `role` changed as text.
fn altered(repo: &Repo, role: &str, from: &str, to: &str) -> Repo {
    let mut entries = vec![];
    for (name, bytes) in repo.files().to_pairs() {
        if name == format!("{role}.json") {
            let text = String::from_utf8(bytes).unwrap();
            assert!(text.contains(from));
            entries.push((name, text.replacen(from, to, 1).into_bytes()));
        } else {
            entries.push((name, bytes));
        }
    }
    Repo::load(&entries)
}

/// The repository without one of its files.
fn without(repo: &Repo, name: &str) -> Repo {
    let entries = repo.files().to_pairs();
    Repo::load(&entries.into_iter().filter(|(n, _)| n != name).collect())
}

fn refusal(repo: &Repo, now: &Time) -> String {
    publish::verify(repo, now).unwrap_err().message()
}

fn digests(names: &[&str]) -> StrMap<Vec<u8>> {
    let mut map = StrMap::new();
    for name in names {
        map.insert(name.to_string(), vec![]);
    }
    map
}

#[test]
fn new_metadata_starts_at_version_one() {
    let world = World::new();
    let config = world.config(vec![]);
    let mut repo = Repo::new();
    let changed = repo.apply_config(&config, None, &Repo::new(), &world.now).unwrap();
    assert_eq!(changed, ["root", "targets", "nightly"]);
    let expires = Time::new(1_790_000_000 + 30 * DAY, 0).unwrap();
    for role in &changed {
        assert_eq!(repo.header(role).unwrap(), Some((1, Time::new(expires.seconds(), 0).unwrap())));
    }
    assert_eq!(repo.header("snapshot").unwrap(), None);
    assert!(repo.files().contains("root_history/1.root.json"));
    assert_eq!(repo.roles(), ["nightly", "root", "targets"]);
    assert_eq!(repo.targets_roles(), ["nightly", "targets"]);
    let (version, root) = repo.root().unwrap();
    assert_eq!((version, root.consistent_snapshot, root.keys.len()), (1, true, 3));
    assert_eq!((root.root.threshold, root.root.key_ids.len()), (2, 2));
    let targets = repo.targets().unwrap();
    assert_eq!(targets.targets.len(), 0);
    assert_eq!(targets.delegations.roles.len(), 1);
    assert_eq!(targets.delegations.roles[0].name, "nightly");
    assert!(targets.delegations.roles[0].terminating);
    assert!(text(&repo, "root").ends_with("}\n"));
}

#[test]
fn applying_a_config_again_changes_nothing() {
    let world = World::new();
    let config = world.config(vec![]);
    let main = world.repository(&config);
    let mut head = main.dup();
    assert!(head.apply_config(&config, None, &main, &world.now).unwrap().is_empty());
    assert!(head.apply_config(&config, Some(&config), &main, &world.now).unwrap().is_empty());
    assert!(head.same_as(&main));
    assert!(head.update_online(&config, None, &world.now).unwrap().is_empty());
    assert!(head.same_as(&main));
}

#[test]
fn signing_days_need_no_new_version() {
    let world = World::new();
    let config = world.config(vec![]);
    let main = world.repository(&config);
    let later = world.config(vec![(
        "nightly",
        RoleConfig { signing_days: 29, ..role(&["online"], 1, &["nightly/"]) },
    )]);
    let mut head = main.dup();
    assert!(head.apply_config(&later, Some(&config), &main, &world.now).unwrap().is_empty());
    // Two days on, the role is due.
    let then = world.now.plus_days(2);
    assert_eq!(head.apply_config(&later, Some(&config), &main, &then).unwrap(), ["nightly"]);
    assert_eq!(head.header("nightly").unwrap().unwrap().0, 2);
}

#[test]
fn validity_needs_a_new_version() {
    let world = World::new();
    let config = world.config(vec![]);
    let main = world.repository(&config);
    let shorter = world.config(vec![
        ("targets", RoleConfig { expires_days: 20, ..role(&["alice", "bob"], 1, &[]) }),
        ("timestamp", RoleConfig { expires_days: 20, ..role(&["online"], 1, &[]) }),
    ]);
    let mut head = main.dup();
    let changed = head.apply_config(&shorter, Some(&config), &main, &world.now).unwrap();
    assert_eq!(changed, ["targets"]);
    let expires = Time::new(1_790_000_000 + 20 * DAY, 0).unwrap();
    assert_eq!(head.header("targets").unwrap(), Some((2, expires)));
    let changed = main.dup().update_online(&shorter, Some(&config), &world.now).unwrap();
    assert_eq!(changed, ["timestamp"]);
}

#[test]
fn roles_that_are_gone_are_removed() {
    let world = World::new();
    let config = world.config(vec![("firmware", role(&["bob"], 1, &["firmware/"]))]);
    let main = world.repository(&config);
    let mut head = main.dup();
    let changed = head.apply_config(&world.config(vec![]), None, &main, &world.now).unwrap();
    assert_eq!(changed, ["targets", "firmware"]);
    assert!(head.raw("firmware").is_none());
    assert_eq!(head.targets().unwrap().delegations.roles.len(), 1);
}

#[test]
fn targets_go_to_the_role_with_their_path() {
    let world = World::new();
    let config = world.config(vec![("firmware", role(&["bob"], 1, &["fw/", "boot"]))]);
    let main = world.repository(&config);
    for (path, expected) in [
        ("fw/a", "firmware"),
        ("fw/a/b", "firmware"),
        ("boot", "firmware"),
        ("boot/x", "targets"),
        ("nightly/x", "nightly"),
        ("fwx", "targets"),
    ] {
        assert_eq!(main.role_for_target(path).unwrap(), expected);
    }
    let mut head = main.dup();
    let added = vec![
        ("fw/a".to_owned(), file(5, HELLO)),
        ("fw/a".to_owned(), file(0, EMPTY)),
        ("other".to_owned(), file(5, HELLO)),
    ];
    let changed = head.add_targets(&config, &main, &added, &world.now).unwrap();
    assert_eq!(changed, ["firmware", "targets"]);
    let firmware = head.require_targets("firmware").unwrap();
    assert_eq!(firmware.targets.len(), 1);
    assert_eq!(firmware.targets.get("fw/a").unwrap().sha256().unwrap(), EMPTY);
    assert_eq!(firmware.targets.get("fw/a").unwrap().length(), 0);
    assert!(head.targets().unwrap().targets.contains("other"));
    assert_eq!(head.header("firmware").unwrap().unwrap().0, 2);
    // Adding more to the same event makes no further version.
    let more = vec![("fw/b".to_owned(), file(5, HELLO))];
    head.add_targets(&config, &main, &more, &world.now).unwrap();
    assert_eq!(head.header("firmware").unwrap().unwrap().0, 2);
    assert_eq!(head.require_targets("firmware").unwrap().targets.len(), 2);
}

#[test]
fn adding_targets_keeps_the_rest() {
    let world = World::new();
    let config = world.config(vec![("firmware", role(&["bob"], 1, &["fw/"]))]);
    let mut main = world.repository(&config);
    let base = main.dup();
    let first = vec![
        ("fw/a".to_owned(), file(5, HELLO)),
        ("fw/b".to_owned(), file(5, HELLO)),
        ("x".to_owned(), file(0, EMPTY)),
        ("nightly/a".to_owned(), file(5, HELLO)),
    ];
    main.add_targets(&config, &base, &first, &world.now).unwrap();
    let mut head = main.dup();
    let more = vec![
        ("y".to_owned(), file(5, HELLO)),
        ("fw/b".to_owned(), file(0, EMPTY)),
        ("fw/c".to_owned(), file(5, HELLO)),
    ];
    let changed = head.add_targets(&config, &main, &more, &world.now).unwrap();
    assert_eq!(changed, ["firmware", "targets"]);
    for role in head.roles() {
        assert_eq!(changed.contains(&role), head.raw(&role) != main.raw(&role), "{role}");
    }
    assert_eq!(head.raw("nightly"), main.raw("nightly"));
    let listed = |repo: &Repo, role: &str| -> Vec<(String, u64)> {
        let pairs = repo.require_targets(role).unwrap().targets.to_pairs();
        pairs.into_iter().map(|(path, d)| (path, d.length())).collect()
    };
    let entry = |path: &str, length| (path.to_owned(), length);
    assert_eq!(listed(&head, "firmware"), [entry("fw/a", 5), entry("fw/b", 0), entry("fw/c", 5)]);
    assert_eq!(listed(&head, "targets"), [entry("x", 0), entry("y", 5)]);
    let delegations = |repo: &Repo| -> Vec<(String, u32)> {
        let roles = repo.targets().unwrap().delegations.roles;
        roles.into_iter().map(|d| (d.name, d.threshold)).collect()
    };
    assert_eq!(delegations(&head), delegations(&main));
    assert_eq!(delegations(&head), [("firmware".to_owned(), 1), ("nightly".to_owned(), 1)]);
    // What is listed already changes nothing.
    let again = head.add_targets(&config, &main, &more, &world.now).unwrap();
    assert!(again.is_empty());
}

/// The targets that `role` lists, with their lengths.
fn lengths(repo: &Repo, role: &str) -> Vec<(String, u64)> {
    let pairs = repo.require_targets(role).unwrap().targets.to_pairs();
    pairs.into_iter().map(|(path, d)| (path, d.length())).collect()
}

/// The roles that `targets` delegates to.
fn delegates(repo: &Repo) -> Vec<String> {
    repo.targets().unwrap().delegations.roles.into_iter().map(|d| d.name).collect()
}

#[test]
fn new_versions_list_what_the_role_listed() {
    let world = World::new();
    let firmware = |keys: &[&str]| ("firmware", role(keys, 1, &["fw/"]));
    let config = world.config(vec![firmware(&["bob"])]);
    let mut main = world.repository(&config);
    let base = main.dup();
    let added = vec![
        ("fw/a".to_owned(), file(5, HELLO)),
        ("x".to_owned(), file(0, EMPTY)),
        ("nightly/a".to_owned(), file(5, HELLO)),
    ];
    main.add_targets(&config, &base, &added, &world.now).unwrap();
    // Another key for firmware, and other delegations.
    let changed = world.config(vec![
        firmware(&["alice"]),
        ("extra", role(&["bob"], 1, &["extra/"])),
    ]);
    let mut head = main.dup();
    let roles = head.apply_config(&changed, Some(&config), &main, &world.now).unwrap();
    assert!(roles.contains(&"targets".to_owned()) && roles.contains(&"extra".to_owned()));
    for role in ["targets", "firmware", "nightly"] {
        assert_eq!(lengths(&head, role), lengths(&main, role));
        assert_eq!(lengths(&head, role).len(), 1);
    }
    assert!(lengths(&head, "extra").is_empty());
    assert_eq!(delegates(&head), ["extra", "firmware", "nightly"]);
    // Online roles that are due.
    let mut later = main.dup();
    let roles =
        later.update_online(&config, None, &world.now.plus_days(25)).unwrap();
    assert_eq!(roles, ["nightly", "snapshot", "timestamp"]);
    for role in ["targets", "firmware", "nightly"] {
        assert_eq!(lengths(&later, role), lengths(&main, role));
    }
    assert_ne!(later.raw("nightly"), main.raw("nightly"));
    assert_eq!(later.raw("targets"), main.raw("targets"));
}

#[test]
fn delegations_out_of_order_are_put_in_order() {
    let world = World::new();
    let config = world.config(vec![
        ("firmware", role(&["bob"], 1, &["fw/"])),
        ("targets", role(&["online"], 1, &[])),
    ]);
    let main = world.repository(&config);
    // The same delegations, the other way round.
    let text = text(&main, "targets");
    let start = text.find("\"roles\": [").unwrap() + 10;
    let end = start + text[start..].find("\n      ]").unwrap();
    let middle = start + text[start..end].find("},").unwrap();
    let (first, second) = (text[start..middle + 1].trim(), text[middle + 2..end].trim());
    let swapped = format!(" {second},{first}");
    let odd = altered(&main, "targets", &text[start..end], &swapped);
    assert_eq!(delegates(&main), ["firmware", "nightly"]);
    assert_eq!(delegates(&odd), ["nightly", "firmware"]);
    let mut head = odd.dup();
    let added = vec![("x".to_owned(), file(5, HELLO))];
    assert_eq!(head.add_targets(&config, &odd, &added, &world.now).unwrap(), ["targets"]);
    assert_eq!(delegates(&head), ["firmware", "nightly"]);
    assert_eq!(lengths(&head, "targets"), [("x".to_owned(), 5)]);
    let later = world.now.plus_days(25);
    let mut head = odd.dup();
    let changed = head.update_online(&config, None, &later).unwrap();
    assert!(changed.contains(&"targets".to_owned()));
    assert_eq!(delegates(&head), ["firmware", "nightly"]);
    // Where nothing is due they stay as they are.
    let mut head = odd.dup();
    assert!(head.add_targets(&config, &odd, &vec![], &world.now).unwrap().is_empty());
    assert!(head.same_as(&odd));
}

#[test]
fn delegations_to_root_change_nothing_in_root() {
    let world = World::new();
    let config = world.config(vec![]);
    let main = world.repository(&config);
    let odd = altered(&main, "targets", "\"name\": \"nightly\"", "\"name\": \"root\"");
    assert_eq!(odd.role_for_target("nightly/a").unwrap(), "root");
    let mut head = odd.dup();
    let added = vec![("nightly/a".to_owned(), file(5, HELLO))];
    let e = head.add_targets(&config, &odd, &added, &world.now).unwrap_err();
    assert_eq!(e.message(), "parsing root metadata");
    assert!(head.same_as(&odd));
}

#[test]
fn bad_targets_are_refused() {
    let world = World::new();
    let config = world.config(vec![]);
    let main = world.repository(&config);
    let mut head = main.dup();
    let bad = vec![("/a".to_owned(), file(5, HELLO))];
    let e = head.add_targets(&config, &main, &bad, &world.now).unwrap_err();
    assert_eq!(e.message(), "target path /a");
    assert!(head.same_as(&main));
    let e = Repo::new().add_targets(&config, &main, &vec![("a".to_owned(), file(5, HELLO))], &world.now);
    assert_eq!(e.unwrap_err().message(), "targets metadata is missing");
    // A role that is delegated to, but gone from the config.
    let wide = world.config(vec![("firmware", role(&["bob"], 1, &["fw/"]))]);
    let main = world.repository(&wide);
    let more = vec![("fw/a".to_owned(), file(5, HELLO))];
    let e = main.dup().add_targets(&config, &main, &more, &world.now).unwrap_err();
    assert_eq!(e.message(), "role firmware is not in tufops.toml");
    let e = main.dup().update_online(&config, None, &world.now).unwrap_err();
    assert_eq!(e.message(), "role firmware is not in tufops.toml");
    assert!(Description::new(5, "xyz").is_none());
}

#[test]
fn snapshot_and_timestamp_follow_the_metadata() {
    let world = World::new();
    let config = world.config(vec![]);
    let mut repo = world.repository(&config);
    let base = repo.dup();
    let added = vec![("nightly/a".to_owned(), file(5, HELLO))];
    let changed = repo.add_targets(&config, &base, &added, &world.now).unwrap();
    world.sign_all(&mut repo, &base, &changed);
    let merged = repo.dup();
    let changed = repo.update_online(&config, None, &world.now).unwrap();
    assert_eq!(changed, ["snapshot", "timestamp"]);
    world.sign_all(&mut repo, &merged, &changed);
    assert_eq!(repo.header("snapshot").unwrap().unwrap().0, 2);
    assert!(text(&repo, "snapshot").contains("nightly.json"));
    assert!(repo.update_online(&config, None, &world.now).unwrap().is_empty());
    // A version that nobody has signed is made again.
    let mut unsigned = merged.dup();
    unsigned.update_online(&config, None, &world.now).unwrap();
    assert_eq!(
        unsigned.update_online(&config, None, &world.now).unwrap(),
        ["snapshot", "timestamp"]
    );
}

#[test]
fn online_roles_are_renewed_when_due() {
    let world = World::new();
    let config = world.config(vec![]);
    let main = world.repository(&config);
    let then = world.now.plus_days(24);
    let changed = main.dup().update_online(&config, None, &then).unwrap();
    assert_eq!(changed, ["nightly", "snapshot", "timestamp"]);
    let mut head = main.dup();
    let changed = head.apply_config(&config, None, &main, &then).unwrap();
    assert_eq!(changed, ["root", "targets", "nightly"]);
    assert_eq!(head.header("root").unwrap().unwrap().0, 2);
    assert!(head.files().contains("root_history/2.root.json"));
}

#[test]
fn signatures_replace_earlier_ones() {
    let world = World::new();
    let config = world.config(vec![]);
    let mut repo = Repo::new();
    let nothing = Repo::new();
    repo.apply_config(&config, None, &nothing, &world.now).unwrap();
    assert_eq!(repo.missing_keys(&nothing, "root").unwrap().len(), 2);
    world.sign(&mut repo, "root", &world.bob);
    world.sign(&mut repo, "root", &world.bob);
    world.sign(&mut repo, "root", &world.alice);
    assert_eq!(text(&repo, "root").matches("\"sig\"").count(), 2);
    assert!(repo.missing_keys(&nothing, "root").unwrap().is_empty());
    let need = repo.role_keys("root").unwrap();
    assert_eq!((need.threshold, need.keys.len()), (2, 2));
    assert!(need.keys[0].id < need.keys[1].id);
    assert_eq!(repo.signed_by("root", &need.keys).unwrap().len(), 2);
    assert_eq!(repo.signed_by("root", &vec![world.online.public_key()]).unwrap().len(), 0);
    assert_eq!(repo.raw("root"), repo.files().get("root_history/1.root.json"));
}

#[test]
fn bad_signatures_are_refused() {
    let world = World::new();
    let config = world.config(vec![]);
    let mut repo = Repo::new();
    repo.apply_config(&config, None, &Repo::new(), &world.now).unwrap();
    let before = repo.dup();
    let forged = world.bob.sign(&repo.signing_input("root").unwrap());
    let e = repo.sign("root", &world.alice.public_key(), &forged).unwrap_err();
    assert_eq!(e.message(), "the new signature does not verify: root");
    let e = repo.sign("snapshot", &world.online.public_key(), &forged).unwrap_err();
    assert_eq!(e.message(), "snapshot metadata is missing");
    assert!(repo.same_as(&before));
    let key = world.alice.public_key();
    let input = repo.signing_input("root").unwrap();
    assert!(key.verify(&input, &world.alice.sign(&input)));
    assert!(!key.verify(&b"other".to_vec(), &world.alice.sign(&input)));
    assert!(!key.verify(&input, &vec![]));
}

#[test]
fn a_signature_adds_its_key_to_every_list_that_has_it() {
    let world = World::new();
    let config = world.config(vec![]);
    let mut repo = Repo::new();
    repo.apply_config(&config, None, &Repo::new(), &world.now).unwrap();
    let (alice, bob, online) = (
        world.alice.public_key(),
        world.bob.public_key(),
        world.online.public_key(),
    );
    world.sign(&mut repo, "root", &world.alice);
    let before = repo.dup();
    world.sign(&mut repo, "root", &world.bob);
    let copy = |k: &PublicKey| PublicKey { id: k.id.clone(), definition: k.definition.clone() };
    let signers = |repo: &Repo, keys: &[&PublicKey]| -> Vec<String> {
        let keys = keys.iter().map(|k| copy(k)).collect();
        let mut ids: Vec<String> =
            repo.signed_by("root", &keys).unwrap().iter().map(|k| k.id.clone()).collect();
        ids.sort();
        ids
    };
    for keys in [
        vec![],
        vec![&online],
        vec![&alice],
        vec![&bob],
        vec![&bob, &online],
        vec![&alice, &bob, &online],
    ] {
        let mut expected = signers(&before, &keys);
        if keys.iter().any(|k| k.id == bob.id) {
            expected.push(bob.id.clone());
        }
        expected.sort();
        assert_eq!(signers(&repo, &keys), expected);
    }
    for role in ["targets", "nightly"] {
        assert_eq!(repo.raw(role), before.raw(role));
    }
}

#[test]
fn keys_sign_the_digest_of_a_message() {
    let hex = |bytes: Vec<u8>| -> String { bytes.iter().map(|b| format!("{b:02x}")).collect() };
    assert_eq!(hex(signing_digest(&b"hello".to_vec())), HELLO);
    assert_eq!(hex(signing_digest(&vec![])), EMPTY);
}

#[test]
fn keys_of_other_schemes_sign_too() {
    let rng = SystemRandom::new();
    let pkcs8 = Ed25519KeyPair::generate_pkcs8(&rng).unwrap();
    let pair = Ed25519KeyPair::from_pkcs8(pkcs8.as_ref()).unwrap();
    let hex: String = pair.public_key().as_ref().iter().map(|b| format!("{b:02x}")).collect();
    let definition = |scheme: &str| {
        format!(
            "{{\"keytype\":\"{scheme}\",\"scheme\":\"{scheme}\",\"keyval\":{{\"public\":\"{hex}\"}}}}"
        )
    };
    let key = PublicKey { id: "k".to_owned(), definition: definition("ed25519") };
    let message = b"message".to_vec();
    let sig = pair.sign(&message).as_ref().to_vec();
    assert!(key.verify(&message, &sig));
    assert!(!key.verify(&b"other".to_vec(), &sig));
    assert!(!key.verify(&message, &vec![0; 64]));
    assert!(!key.verify(&message, &vec![]));
    assert!(key.to_pem().is_none());
    let unknown = PublicKey { id: "k".to_owned(), definition: definition("ed448") };
    assert!(!unknown.verify(&message, &sig));
    let broken = PublicKey { id: "k".to_owned(), definition: "{".to_owned() };
    assert!(!broken.verify(&message, &sig));
}

#[test]
fn signing_keeps_the_content() {
    let world = World::new();
    let config = world.config(vec![]);
    let mut repo = Repo::new();
    repo.apply_config(&config, None, &Repo::new(), &world.now).unwrap();
    let input = repo.signing_input("root").unwrap();
    let header = repo.header("root").unwrap();
    world.sign(&mut repo, "root", &world.alice);
    assert_eq!(repo.signing_input("root").unwrap(), input);
    assert_eq!(repo.header("root").unwrap(), header);
    assert_ne!(&input, repo.raw("root").unwrap());
}

#[test]
fn a_new_root_is_signed_by_both_sets_of_keys() {
    let world = World::new();
    let main = world.repository(&world.config(vec![]));
    let config = world.config(vec![("root", role(&["online"], 1, &[]))]);
    let mut head = main.dup();
    head.apply_config(&config, None, &main, &world.now).unwrap();
    let needs = head.requirements(&main, "root").unwrap();
    assert_eq!(needs.iter().map(|n| n.threshold).collect::<Vec<_>>(), [1, 2]);
    assert_eq!(head.requirements(&main, "targets").unwrap().len(), 1);
    assert_eq!(main.requirements(&main, "root").unwrap().len(), 1);
    assert_eq!(head.missing_keys(&main, "root").unwrap().len(), 3);
}

#[test]
fn problems_with_metadata_are_reported() {
    let world = World::new();
    let config = world.config(vec![]);
    let main = world.repository(&config);
    assert_eq!(Repo::new().root().unwrap_err().message(), "root metadata is missing");
    assert_eq!(main.role_keys("x").unwrap_err().message(), "targets does not delegate to x");
    let broken = altered(&main, "targets", "{", "[");
    assert_eq!(broken.targets().unwrap_err().message(), "parsing targets metadata");
    assert_eq!(
        broken.signing_input("targets").unwrap_err().message(),
        "reading the signatures of targets"
    );
    let broken = without(&main, "root_history/1.root.json");
    assert_eq!(
        broken.root_history().unwrap_err().message(),
        "missing root_history/1.root.json"
    );
    assert_eq!(main.root_history().unwrap().len(), 1);
}

#[test]
fn versions_run_out() {
    let world = World::new();
    let config = world.config(vec![]);
    let main = world.repository(&config);
    let base = altered(&main, "nightly", "\"version\": 1", "\"version\": 4294967295");
    let added = vec![("nightly/a".to_owned(), file(5, HELLO))];
    let e = main.dup().add_targets(&config, &base, &added, &world.now).unwrap_err();
    assert_eq!(e.message(), "nightly has no version number left");
}

#[test]
fn metadata_is_loaded_from_files() {
    let entries = vec![
        ("root.json".to_owned(), b"1".to_vec()),
        ("notes.txt".to_owned(), b"2".to_vec()),
        ("root_history/1.root.json".to_owned(), b"3".to_vec()),
    ];
    let repo = Repo::load(&entries);
    assert_eq!(repo.files().len(), 2);
    assert_eq!(repo.roles(), ["root"]);
    assert_eq!(repo.raw("root"), Some(&b"1".to_vec()));
    let present = ["root.json", "gone.json", "notes.txt"].map(str::to_owned).to_vec();
    assert_eq!(repo.removals(&present), ["gone.json"]);
}

#[test]
fn saved_metadata_is_loaded_again() {
    let world = World::new();
    let repo = world.repository(&world.config(vec![]));
    // A working tree with some metadata, some of which is gone, and other files.
    let mut tree: Vec<(String, Vec<u8>)> = vec![
        ("gone.json".to_owned(), b"1".to_vec()),
        ("targets.json".to_owned(), b"2".to_vec()),
        ("notes.txt".to_owned(), b"3".to_vec()),
    ];
    let names = tree.iter().map(|(name, _)| name.clone()).collect();
    let removed = repo.removals(&names);
    assert_eq!(removed, ["gone.json"]);
    tree.retain(|(name, _)| !removed.contains(name));
    for (name, bytes) in repo.files().to_pairs() {
        tree.retain(|(n, _)| *n != name);
        tree.push((name, bytes));
    }
    assert!(Repo::load(&tree).same_as(&repo));
    assert!(tree.contains(&("notes.txt".to_owned(), b"3".to_vec())));
}

#[test]
fn metadata_may_expire_in_a_leap_second() {
    let world = World::new();
    let main = world.repository(&world.config(vec![]));
    let shown = main.header("nightly").unwrap().unwrap().1;
    let date = shown.minute().replace(' ', "T").replace("TUTC", "");
    let text = text(&main, "nightly");
    let at = text.find(&date).unwrap() + date.len();
    let second = &text[at..at + 4];
    let leap = altered(&main, "nightly", &format!("{date}{second}"), &format!("{date}:60Z"));
    let expires = leap.header("nightly").unwrap().unwrap().1;
    assert_eq!(expires.subsec_nanos(), 1_000_000_000);
    assert_eq!(expires.seconds() % 60, 59);
    assert!(!expires.earlier_than(&shown));
}

#[test]
fn metadata_is_loaded_from_a_revision() {
    let paths = ["metadata/root.json", "metadata/x.txt", "other/y.json"].map(str::to_owned).to_vec();
    assert_eq!(Repo::metadata_paths(&paths), ["metadata/root.json"]);
    let shown = |content| Shown { path: "metadata/root.json".to_owned(), content };
    let repo = Repo::load_rev(&vec![shown(Some(b"1".to_vec()))]).unwrap();
    assert_eq!(repo.raw("root"), Some(&b"1".to_vec()));
    let e = Repo::load_rev(&vec![shown(None)]).unwrap_err();
    assert_eq!(e.message(), "missing metadata/root.json");
}

#[test]
fn clients_accept_a_signed_repository() {
    let world = World::new();
    let main = world.repository(&world.config(vec![]));
    publish::verify(&main, &world.now).unwrap();
    // Until the moment it expires.
    let expires = Time::new(1_790_000_000 + 30 * DAY, 0).unwrap();
    assert!(publish::verify(&main, &Time::new(expires.seconds() - 1, 999_999_999).unwrap()).is_ok());
    assert_eq!(refusal(&main, &expires), "clients refuse timestamp");
}

#[test]
fn clients_refuse_what_is_not_signed() {
    let world = World::new();
    let config = world.config(vec![]);
    let main = world.repository(&config);
    for (role, expected) in [
        ("timestamp", "clients refuse timestamp"),
        ("snapshot", "clients refuse snapshot"),
        ("targets", "clients refuse targets"),
        ("nightly", "clients refuse nightly"),
    ] {
        let tampered = altered(&main, role, "\"version\": 1", "\"version\": 2");
        assert_eq!(refusal(&tampered, &world.now), expected);
        let name = format!("{role}.json");
        let expected = format!("{role} metadata is missing");
        let gone = without(&main, &name);
        if role == "nightly" {
            assert!(publish::verify(&gone, &world.now).is_ok());
        } else {
            assert_eq!(refusal(&gone, &world.now), expected);
        }
    }
    let mut unsigned = Repo::new();
    unsigned.apply_config(&config, None, &Repo::new(), &world.now).unwrap();
    assert_eq!(refusal(&unsigned, &world.now), "clients refuse root v1");
    assert_eq!(refusal(&Repo::new(), &world.now), "root metadata is missing");
}

#[test]
fn clients_walk_from_root_to_root() {
    let world = World::new();
    let main = world.repository(&world.config(vec![]));
    let config = world.config(vec![("root", role(&["online"], 1, &[]))]);
    let mut head = main.dup();
    let changed = head.apply_config(&config, None, &main, &world.now).unwrap();
    assert_eq!(changed, ["root"]);
    world.sign(&mut head, "root", &world.online);
    world.sign(&mut head, "root", &world.alice);
    assert_eq!(refusal(&head, &world.now), "clients refuse root v2");
    world.sign(&mut head, "root", &world.bob);
    publish::verify(&head, &world.now).unwrap();
    assert_eq!(head.root_history().unwrap().len(), 2);
}

#[test]
fn objects_are_uploaded_once_and_timestamp_last() {
    let world = World::new();
    let main = world.repository(&world.config(vec![]));
    let page = b"<html>".to_vec();
    let uploads =
        publish::publish(&main, &world.now, &digests(&[]), &digests(&[]), &page).unwrap();
    let names: Vec<_> = uploads.iter().map(|u| u.name.as_str()).collect();
    assert_eq!(
        names,
        [
            "index.html",
            "metadata/1.nightly.json",
            "metadata/1.root.json",
            "metadata/1.snapshot.json",
            "metadata/1.targets.json",
            "metadata/timestamp.json",
        ]
    );
    assert_eq!(uploads[0].data, page);
    assert_eq!(&uploads[5].data, main.raw("timestamp").unwrap());
    let mut published = digests(&[]);
    for upload in &uploads {
        published.insert(upload.name.clone(), Md5::digest(&upload.data).to_vec());
    }
    let again = publish::publish(&main, &world.now, &digests(&[]), &published, &page).unwrap();
    assert!(again.is_empty());
    // An object that differs is uploaded again.
    published.insert("metadata/1.root.json".to_owned(), vec![0; 16]);
    let again = publish::publish(&main, &world.now, &digests(&[]), &published, &page).unwrap();
    assert_eq!(again.len(), 1);
    assert_eq!(again[0].name, "metadata/1.root.json");
}

#[test]
fn targets_are_uploaded_before_they_are_published() {
    let world = World::new();
    let config = world.config(vec![]);
    let mut repo = world.repository(&config);
    let base = repo.dup();
    let added = vec![("nightly/app.bin".to_owned(), file(5, HELLO))];
    let changed = repo.add_targets(&config, &base, &added, &world.now).unwrap();
    world.sign_all(&mut repo, &base, &changed);
    world.bring_online(&mut repo, &config);
    let object = format!("targets/nightly/{HELLO}.app.bin");
    assert_eq!(publish::target_object("nightly/app.bin", &file(5, HELLO)).unwrap(), object);
    assert_eq!(publish::target_object("app", &file(5, HELLO)).unwrap(), format!("targets/{HELLO}.app"));
    let page = vec![];
    let e = publish::publish(&repo, &world.now, &digests(&[]), &digests(&[]), &page).unwrap_err();
    assert_eq!(
        e.message(),
        format!("target nightly/app.bin of nightly was never uploaded ({object})")
    );
    assert!(publish::check_uploaded(&repo, &digests(&[&object])).is_ok());
    let uploaded = digests(&[&object]);
    assert!(publish::publish(&repo, &world.now, &uploaded, &digests(&[]), &page).is_ok());
    let e = publish::publish(&repo, &world.now.plus_days(60), &uploaded, &digests(&[]), &page);
    assert_eq!(e.unwrap_err().message(), "clients refuse timestamp");
}

#[test]
fn online_keys_that_are_missing_are_found() {
    let world = World::new();
    let config = world.config(vec![]);
    let mut repo = Repo::new();
    let nothing = Repo::new();
    repo.apply_config(&config, None, &nothing, &world.now).unwrap();
    assert_eq!(cloud::online_signers(&config, &nothing, &repo, "nightly").unwrap(), ["gcpkms:k"]);
    assert!(cloud::online_signers(&config, &nothing, &repo, "root").unwrap().is_empty());
    world.sign(&mut repo, "nightly", &world.online);
    assert!(cloud::online_signers(&config, &nothing, &repo, "nightly").unwrap().is_empty());
    let e = cloud::online_signers(&config, &nothing, &repo, "x").unwrap_err();
    assert_eq!(e.message(), "targets does not delegate to x");
}

#[test]
fn unusual_metadata_is_reported() {
    let world = World::new();
    let config = world.config(vec![]);
    let mut repo = world.repository(&config);
    let base = repo.dup();
    let added = vec![("nightly/a".to_owned(), file(5, HELLO))];
    repo.add_targets(&config, &base, &added, &world.now).unwrap();
    // A target without a SHA-256 digest.
    let other = altered(&repo, "nightly", "sha256", "sha512");
    let e = publish::check_uploaded(&other, &digests(&[])).unwrap_err();
    assert_eq!(e.message(), "target nightly/a has no sha256");
    // A number that the canonical form does not have.
    let odd = altered(&repo, "nightly", "\"version\": 2", "\"version\": 2, \"x\": 1.5");
    assert_eq!(
        odd.signing_input("nightly").unwrap_err().message(),
        "nightly metadata has no canonical form"
    );
    // A year with five digits.
    let long = RoleConfig { expires_days: 3_650_000, ..role(&["online"], 1, &["nightly/"]) };
    let config = world.config(vec![("nightly", long)]);
    assert!(config.expiries_fit(&world.now));
    let e = base.dup().apply_config(&config, Some(&world.config(vec![])), &base, &world.now);
    assert_eq!(e.unwrap_err().message(), "writing nightly metadata");
}

#[test]
fn no_key_counts_twice() {
    let world = World::new();
    let config = world.config(vec![]);
    let mut repo = Repo::new();
    repo.apply_config(&config, None, &Repo::new(), &world.now).unwrap();
    world.sign(&mut repo, "root", &world.alice);
    let mut entries = repo.files().to_pairs();
    for (name, bytes) in &mut entries {
        if name.ends_with("root.json") {
            let mut value: serde_json::Value = serde_json::from_slice(bytes).unwrap();
            let signatures = value["signatures"].as_array_mut().unwrap();
            signatures.push(signatures[0].clone());
            *bytes = serde_json::to_vec(&value).unwrap();
        }
    }
    let twice = Repo::load(&entries);
    assert_eq!(text(&twice, "root").matches("\"sig\"").count(), 2);
    let keys = twice.role_keys("root").unwrap().keys;
    assert_eq!(twice.signed_by("root", &keys).unwrap().len(), 1);
    assert_eq!(refusal(&twice, &world.now), "clients refuse root v1");
}
