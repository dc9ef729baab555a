//! A repository's life cycle with in-memory keys and storage.

use std::collections::HashMap;

use md5::Digest;
use ring::rand::SystemRandom;
use ring::signature::{EcdsaKeyPair, KeyPair, ECDSA_P256_SHA256_ASN1_SIGNING};
use tufops::config::{Config, KeyConfig, RoleConfig};
use tufops::documents::Description;
use tufops::error::Error;
use tufops::keys::PublicKey;
use tufops::publish;
use tufops::repo::Repo;
use tufops::status::EventStatus;
use tufops::strmap::{StrMap, Value};
use tufops::time::Time;

const DAY: i64 = 86_400;

struct TestKey(EcdsaKeyPair);

impl TestKey {
    fn new() -> Self {
        let rng = SystemRandom::new();
        let pkcs8 = EcdsaKeyPair::generate_pkcs8(&ECDSA_P256_SHA256_ASN1_SIGNING, &rng).unwrap();
        let pair = EcdsaKeyPair::from_pkcs8(&ECDSA_P256_SHA256_ASN1_SIGNING, pkcs8.as_ref(), &rng);
        Self(pair.unwrap())
    }

    fn pem(&self) -> String {
        let mut der = vec![
            0x30, 0x59, 0x30, 0x13, 0x06, 0x07, 0x2a, 0x86, 0x48, 0xce, 0x3d, 0x02, 0x01, 0x06, 0x08,
            0x2a, 0x86, 0x48, 0xce, 0x3d, 0x03, 0x01, 0x07, 0x03, 0x42, 0x00,
        ];
        der.extend_from_slice(self.0.public_key().as_ref());
        let ending = x509_cert::der::pem::LineEnding::LF;
        x509_cert::der::pem::encode_string("PUBLIC KEY", ending, &der).unwrap()
    }

    fn public_key(&self) -> PublicKey {
        PublicKey::from_pem(&self.pem()).unwrap()
    }

    fn sign(&self, msg: &[u8]) -> Vec<u8> {
        self.0.sign(&SystemRandom::new(), msg).unwrap().as_ref().to_vec()
    }
}

#[derive(Default)]
struct MemStore(HashMap<String, Vec<u8>>);

impl MemStore {
    fn list(&self, prefix: &str) -> StrMap<Vec<u8>> {
        let mut listed = StrMap::new();
        for (name, data) in self.0.iter().filter(|(name, _)| name.starts_with(prefix)) {
            listed.insert(name.clone(), md5::Md5::digest(data).to_vec());
        }
        listed
    }

    fn put(&mut self, name: &str, data: Vec<u8>) {
        self.0.insert(name.to_owned(), data);
    }
}

/// Publishes to `store`, returning the objects uploaded.
fn publish_to(repo: &Repo, store: &mut MemStore, now: &Time) -> Result<Vec<String>, Error> {
    let uploaded = store.list(publish::TARGETS_PREFIX);
    let mut published = store.list(publish::METADATA_PREFIX);
    let page = store.list(publish::INDEX_PAGE);
    for i in 0..page.len() {
        published.insert(page.key(i).clone(), page.value(i).clone());
    }
    let uploads = publish::publish(repo, now, &uploaded, &published, &b"<html>".to_vec())?;
    let names = uploads.iter().map(|u| u.name.clone()).collect();
    for upload in uploads {
        store.put(&upload.name, upload.data);
    }
    Ok(names)
}

fn make_config(alice: &TestKey, bob: &TestKey, online: &TestKey, root_threshold: u32) -> Config {
    make_config_with(alice, bob, online, root_threshold, 365)
}

fn key(owner: Option<&str>, online: Option<&str>, public: &TestKey) -> KeyConfig {
    KeyConfig {
        owner: owner.map(str::to_owned),
        online: online.map(str::to_owned),
        public_key: public.pem(),
    }
}

fn role(keys: &[&str], threshold: u32, expires_days: i64, signing_days: i64, paths: &[&str]) -> RoleConfig {
    RoleConfig {
        keys: keys.iter().map(|k| k.to_string()).collect(),
        threshold,
        expires_days,
        signing_days,
        paths: paths.iter().map(|p| p.to_string()).collect(),
    }
}

fn make_config_with(
    alice: &TestKey,
    bob: &TestKey,
    online: &TestKey,
    root_threshold: u32,
    root_days: i64,
) -> Config {
    let kms = "gcpkms:projects/p/locations/l/keyRings/r/cryptoKeys/k/cryptoKeyVersions/1";
    let mut keys = StrMap::new();
    keys.insert("alice".to_owned(), key(Some("@alice"), None, alice));
    keys.insert("bob".to_owned(), key(Some("@bob"), None, bob));
    keys.insert("online".to_owned(), key(None, Some(kms), online));
    let mut roles = StrMap::new();
    roles.insert("root".to_owned(), role(&["alice", "bob"], root_threshold, root_days, 60, &[]));
    roles.insert("targets".to_owned(), role(&["alice", "bob"], 1, 365, 60, &[]));
    roles.insert("snapshot".to_owned(), role(&["online"], 1, 365, 60, &[]));
    roles.insert("timestamp".to_owned(), role(&["online"], 1, 2, 1, &[]));
    roles.insert("nightly".to_owned(), role(&["online"], 1, 30, 7, &["nightly/"]));
    Config::new("gs://bucket/repo".to_owned(), keys, roles).unwrap()
}

fn sign_all(repo: &mut Repo, base: &Repo, roles: &[String], keys: &[&TestKey]) {
    for role in roles {
        let missing = repo.missing_keys(base, role).unwrap();
        for key in keys {
            let public = key.public_key();
            if missing.iter().any(|m| m.same_as(&public)) {
                let input = repo.signing_input(role).unwrap();
                repo.sign(role, &public, &key.sign(&input)).unwrap();
            }
        }
    }
}

fn now() -> Time {
    let now = chrono::Utc::now();
    Time::new(now.timestamp(), now.timestamp_subsec_nanos()).unwrap()
}

#[test]
fn life_cycle() {
    let (alice, bob, online) = (TestKey::new(), TestKey::new(), TestKey::new());
    let config = make_config(&alice, &bob, &online, 2);
    let now = now();
    assert!(config.expiries_fit(&now));

    // Initial signing event: everything is new.
    let main = Repo::new();
    let mut head = main.dup();
    let changed = head.apply_config(&config, None, &main, &now).unwrap();
    assert_eq!(changed, ["root", "targets", "nightly"]);
    sign_all(&mut head, &main, &changed, &[&online, &alice]);
    let status = EventStatus::new(&config, &main, &head).unwrap();
    assert!(!status.complete());
    let needs: Vec<_> =
        status.needs(&bob.public_key().id).iter().map(|r| r.role.clone()).collect();
    assert_eq!(needs, ["root"]);
    assert!(status.offline());
    sign_all(&mut head, &main, &changed, &[&bob]);
    let status = EventStatus::new(&config, &main, &head).unwrap();
    assert!(status.complete());
    let files = vec!["metadata/root.json".to_owned()];
    assert!(
        !status.merges_automatically(&files),
        "offline events go through a pull request"
    );

    // Merged into main: CI adds snapshot and timestamp, then publishes.
    let mut main = head;
    let online_changed = main.update_online(&config, None, &now).unwrap();
    assert_eq!(online_changed, ["snapshot", "timestamp"]);
    sign_all(&mut main, &Repo::new(), &online_changed, &[&online]);
    let mut store = MemStore::default();
    let uploaded = publish_to(&main, &mut store, &now).unwrap();
    assert_eq!(uploaded.last().unwrap(), "metadata/timestamp.json");
    assert!(
        publish_to(&main, &mut store, &now).unwrap().is_empty(),
        "nothing changed"
    );

    // Adding a nightly build only needs the online key; the target must be uploaded first.
    let mut head = main.dup();
    let path = "nightly/app.bin".to_owned();
    let sha256 = "2cf24dba5fb0a30e26e83b2ac5b9e29e1b161e5c1fa7425e73043362938b9824";
    let desc = Description::new(5, sha256).unwrap();
    let changed = head
        .add_targets(&config, &main, &vec![(path.clone(), desc.dup())], &now)
        .unwrap();
    assert_eq!(changed, ["nightly"]);
    sign_all(&mut head, &main, &changed, &[&online]);
    let status = EventStatus::new(&config, &main, &head).unwrap();
    assert!(status.complete());
    let files = vec!["metadata/nightly.json".to_owned()];
    assert!(
        status.merges_automatically(&files),
        "online-only events merge by themselves"
    );
    let files = vec!["metadata/nightly.json".to_owned(), "tufops.toml".to_owned()];
    assert!(
        !status.merges_automatically(&files),
        "config changes need review"
    );
    assert!(status.roles[0].changes[0]
        .to_text()
        .starts_with("target nightly/app.bin added (5 bytes, sha256 2cf24dba"));
    let mut main = head;
    let online_changed = main.update_online(&config, None, &now).unwrap();
    sign_all(&mut main, &Repo::new(), &online_changed, &[&online]);
    assert!(
        publish_to(&main, &mut store, &now).is_err(),
        "target not uploaded"
    );
    store.put(&publish::target_object(&path, &desc).unwrap(), b"hello".to_vec());
    publish_to(&main, &mut store, &now).unwrap();

    // Rotating root to a threshold of 1 needs the previous root's threshold of 2 as well.
    let config = make_config(&alice, &bob, &online, 1);
    let mut head = main.dup();
    let changed = head.apply_config(&config, None, &main, &now).unwrap();
    assert_eq!(changed, ["root"]);
    sign_all(&mut head, &main, &changed, &[&alice]);
    assert!(!EventStatus::new(&config, &main, &head).unwrap().complete());
    sign_all(&mut head, &main, &changed, &[&bob]);
    assert!(EventStatus::new(&config, &main, &head).unwrap().complete());
    let mut main = head;
    let online_changed = main.update_online(&config, None, &now).unwrap();
    sign_all(&mut main, &Repo::new(), &online_changed, &[&online]);
    publish_to(&main, &mut store, &now).unwrap();

    // Rotating the online key: root and targets change offline; roles the new key signs get
    // new versions even though their content is the same.
    let online2 = TestKey::new();
    let config = make_config(&alice, &bob, &online2, 1);
    let mut head = main.dup();
    let changed = head.apply_config(&config, None, &main, &now).unwrap();
    assert_eq!(changed, ["root", "targets", "nightly"]);
    sign_all(&mut head, &main, &changed, &[&alice, &online2]);
    assert!(EventStatus::new(&config, &main, &head).unwrap().complete());
    let mut main = head;
    let online_changed = main.update_online(&config, None, &now).unwrap();
    assert_eq!(online_changed, ["snapshot", "timestamp"]);
    sign_all(&mut main, &Repo::new(), &online_changed, &[&online2]);
    publish_to(&main, &mut store, &now).unwrap();

    // Changing how long root is valid for gives root a new version with the new expiry, which
    // its keys must sign; applying the same config again changes nothing more.
    let old_config = make_config(&alice, &bob, &online2, 1);
    let config = make_config_with(&alice, &bob, &online2, 1, 180);
    let mut head = main.dup();
    let changed = head
        .apply_config(&config, Some(&old_config), &main, &now)
        .unwrap();
    assert_eq!(changed, ["root"]);
    let status = EventStatus::new(&config, &main, &head).unwrap();
    let root = &status.roles[0];
    assert_eq!(root.expires, Time::new(now.seconds() + 180 * DAY, 0).unwrap());
    assert!(root.changes.is_empty(), "only version and expiry change");
    assert!(!status.complete());
    let again = head
        .apply_config(&config, Some(&config), &main, &now)
        .unwrap();
    assert!(again.is_empty());
    let config = old_config;

    // Two days later the timestamp is refreshed; after ten months, offline roles need signing.
    let later = now.plus_days(2);
    assert_eq!(
        main.dup().update_online(&config, None, &later).unwrap(),
        ["timestamp"]
    );
    let mut head = main.dup();
    let changed = head
        .apply_config(&config, None, &main, &now.plus_days(310))
        .unwrap();
    assert_eq!(changed, ["root", "targets", "nightly"]);
}
