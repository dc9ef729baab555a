//! What a config may say.

use ring::rand::SystemRandom;
use ring::signature::{EcdsaKeyPair, KeyPair, ECDSA_P256_SHA256_ASN1_SIGNING};
use tufops::config::{Config, KeyConfig, RoleConfig};
use tufops::error::Error;
use tufops::keys::PublicKey;
use tufops::strmap::StrMap;
use tufops::time::Time;

fn pem() -> String {
    let rng = SystemRandom::new();
    let pkcs8 = EcdsaKeyPair::generate_pkcs8(&ECDSA_P256_SHA256_ASN1_SIGNING, &rng).unwrap();
    let pair =
        EcdsaKeyPair::from_pkcs8(&ECDSA_P256_SHA256_ASN1_SIGNING, pkcs8.as_ref(), &rng).unwrap();
    let mut der = vec![
        0x30, 0x59, 0x30, 0x13, 0x06, 0x07, 0x2a, 0x86, 0x48, 0xce, 0x3d, 0x02, 0x01, 0x06, 0x08,
        0x2a, 0x86, 0x48, 0xce, 0x3d, 0x03, 0x01, 0x07, 0x03, 0x42, 0x00,
    ];
    der.extend_from_slice(pair.public_key().as_ref());
    encode(&der)
}

fn encode(der: &[u8]) -> String {
    x509_cert::der::pem::encode_string("PUBLIC KEY", x509_cert::der::pem::LineEnding::LF, der)
        .unwrap()
}

fn role(keys: &[&str], paths: &[&str]) -> RoleConfig {
    RoleConfig {
        keys: keys.iter().map(|k| k.to_string()).collect(),
        threshold: 1,
        expires_days: 30,
        signing_days: 7,
        paths: paths.iter().map(|p| p.to_string()).collect(),
    }
}

struct Draft {
    keys: StrMap<KeyConfig>,
    roles: StrMap<RoleConfig>,
}

impl Draft {
    fn new() -> Self {
        let mut draft = Draft { keys: StrMap::new(), roles: StrMap::new() };
        draft.key("alice", Some("@alice"), None, pem());
        draft.key("online", None, Some("gcpkms:x"), pem());
        draft.role("root", role(&["alice"], &[]));
        draft.role("targets", role(&["alice"], &[]));
        draft.role("snapshot", role(&["online"], &[]));
        draft.role("timestamp", role(&["online"], &[]));
        draft.role("nightly", role(&["online"], &["nightly/"]));
        draft
    }

    fn key(&mut self, name: &str, owner: Option<&str>, online: Option<&str>, public_key: String) {
        let key = KeyConfig {
            owner: owner.map(str::to_owned),
            online: online.map(str::to_owned),
            public_key,
        };
        self.keys.insert(name.to_owned(), key);
    }

    fn role(&mut self, name: &str, role: RoleConfig) {
        self.roles.insert(name.to_owned(), role);
    }

    fn check(self) -> Result<Config, Error> {
        Config::new("gs://bucket".to_owned(), self.keys, self.roles)
    }

    fn problem(self) -> String {
        self.check().unwrap_err().message()
    }
}

#[test]
fn a_config_is_read() {
    let config = Draft::new().check().unwrap();
    assert_eq!(config.storage(), "gs://bucket");
    assert_eq!(config.keys().len(), 2);
    assert_eq!(config.roles().len(), 5);
    assert_eq!(config.role("nightly").unwrap().paths, ["nightly/"]);
    assert_eq!(config.role("firmware").unwrap_err().message(), "role firmware is not in tufops.toml");
    let delegated: Vec<_> = config.delegations().iter().map(|(name, _)| name.to_string()).collect();
    assert_eq!(delegated, ["nightly"]);
    assert_eq!(config.public_key("bob").unwrap_err().message(), "unknown key bob");
}

#[test]
fn keys_are_described() {
    let config = Draft::new().check().unwrap();
    let alice = config.public_key("alice").unwrap();
    let online = config.public_key("online").unwrap();
    assert_eq!(alice.id.len(), 64);
    assert_eq!(config.keys_by_id().get(&alice.id), Some(&"alice".to_owned()));
    assert_eq!(config.describe_key(&alice.id), "@alice");
    assert_eq!(config.describe_key(&online.id), "online (online)");
    assert_eq!(config.describe_key("f00"), "unknown key");
    assert!(config.is_online(&online.id));
    assert!(!config.is_online(&alice.id) && !config.is_online("f00"));
}

#[test]
fn keys_have_one_holder() {
    let mut draft = Draft::new();
    draft.key("alice", None, None, pem());
    assert_eq!(draft.problem(), "key alice: set exactly one of `owner` or `online`");
    let mut draft = Draft::new();
    draft.key("alice", Some("@alice"), Some("gcpkms:y"), pem());
    assert_eq!(draft.problem(), "key alice: set exactly one of `owner` or `online`");
}

#[test]
fn keys_are_on_p256() {
    let ed25519 = [
        vec![0x30, 0x2a, 0x30, 0x05, 0x06, 0x03, 0x2b, 0x65, 0x70, 0x03, 0x21, 0x00],
        vec![7; 32],
    ];
    for public_key in ["".to_owned(), "no key".to_owned(), encode(&ed25519.concat())] {
        assert!(PublicKey::from_pem(&public_key).is_none());
        let mut draft = Draft::new();
        draft.key("alice", Some("@alice"), None, public_key);
        assert_eq!(draft.problem(), "key alice: public_key");
    }
}

#[test]
fn keys_are_read_and_written_as_pem() {
    let text = pem();
    let key = PublicKey::from_pem(&text).unwrap();
    let again = key.to_pem().unwrap();
    assert_eq!(again.trim(), text.trim());
    assert_eq!(PublicKey::from_pem(&again).unwrap().id, key.id);
    assert_ne!(PublicKey::from_pem(&pem()).unwrap().id, key.id);
}

#[test]
fn top_level_roles_are_required() {
    for name in ["root", "targets", "snapshot", "timestamp"] {
        let mut draft = Draft::new();
        draft.roles.remove(name);
        assert_eq!(draft.problem(), format!("missing role {name}"));
    }
}

#[test]
fn roles_name_metadata() {
    let mut draft = Draft::new();
    draft.role("", role(&["online"], &["a/"]));
    assert_eq!(draft.problem(), "role name ");
}

#[test]
fn thresholds_can_be_reached() {
    for threshold in [0, 2] {
        let mut draft = Draft::new();
        draft.role("nightly", RoleConfig { threshold, ..role(&["online"], &["nightly/"]) });
        assert_eq!(
            draft.problem(),
            "role nightly: threshold must be between 1 and the number of keys"
        );
    }
}

#[test]
fn days_are_in_order() {
    for (signing_days, expires_days) in [(0, 30), (-1, 30), (30, 30), (31, 30)] {
        let mut draft = Draft::new();
        let days = RoleConfig { signing_days, expires_days, ..role(&["online"], &["nightly/"]) };
        draft.role("nightly", days);
        assert_eq!(draft.problem(), "role nightly: need 0 < signing_days < expires_days");
    }
}

#[test]
fn roles_have_configured_keys() {
    let mut draft = Draft::new();
    draft.role("nightly", role(&["bob"], &["nightly/"]));
    assert_eq!(draft.problem(), "role nightly: unknown key bob");
    for name in ["snapshot", "timestamp"] {
        let mut draft = Draft::new();
        draft.role(name, role(&["alice"], &[]));
        assert_eq!(draft.problem(), format!("role {name}: key alice must be online"));
    }
}

#[test]
fn delegated_roles_have_paths() {
    let mut draft = Draft::new();
    draft.role("nightly", role(&["online"], &[]));
    assert_eq!(draft.problem(), "role nightly: `paths` must be set on delegated roles only");
    let mut draft = Draft::new();
    draft.role("targets", role(&["alice"], &["a"]));
    assert_eq!(draft.problem(), "role targets: `paths` must be set on delegated roles only");
    let mut draft = Draft::new();
    draft.role("nightly", role(&["online"], &["/nightly"]));
    assert_eq!(draft.problem(), "role nightly: path /nightly");
}

#[test]
fn paths_belong_to_one_role() {
    for (path, overlaps) in [
        ("nightly/", true),
        ("nightly/linux/", true),
        ("nightly/app.bin", true),
        ("nightly2/", false),
        ("nightly", false),
        ("other/", false),
    ] {
        let mut draft = Draft::new();
        draft.role("zz", role(&["alice"], &[path]));
        match draft.check() {
            Ok(_) => assert!(!overlaps, "{path}"),
            Err(e) => {
                assert!(overlaps, "{path}");
                assert_eq!(
                    e.message(),
                    format!(
                        "roles nightly (nightly/) and zz ({path}) overlap: \
                         each path may belong to one role only"
                    )
                );
            }
        }
    }
}

#[test]
fn a_config_is_read_at_a_revision() {
    assert_eq!(Config::load_rev("HEAD", Some(b"x = 1".to_vec())).unwrap(), "x = 1");
    assert_eq!(Config::load_rev("HEAD", None).unwrap_err().message(), "no tufops.toml at HEAD");
    assert_eq!(
        Config::load_rev("HEAD", Some(vec![0xff])).unwrap_err().message(),
        "tufops.toml is not text at HEAD"
    );
}

#[test]
fn roles_are_due_within_their_signing_days() {
    let now = Time::new(1_700_000_000, 0).unwrap();
    let role = role(&["online"], &[]);
    assert!(role.in_signing_period(&now.plus_days(6), &now));
    assert!(!role.in_signing_period(&now.plus_days(7), &now));
    assert!(role.in_signing_period(&now.plus_days(-1), &now));
}

#[test]
fn expiries_lie_in_the_calendar() {
    let now = Time::new(1_700_000_000, 0).unwrap();
    assert!(Draft::new().check().unwrap().expiries_fit(&now));
    let mut draft = Draft::new();
    let long = RoleConfig { expires_days: i64::MAX, ..role(&["online"], &["nightly/"]) };
    draft.role("nightly", long);
    assert!(!draft.check().unwrap().expiries_fit(&now));
}
