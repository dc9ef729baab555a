//! `tufops.toml`: the declarative description of keys and roles.

use vstd::prelude::*;
use vstd::utf8::*;

use crate::documents;
use crate::error;
use crate::error::{Error, Fault, Problem};
use crate::keys;
use crate::keys::{KeyView, PublicKey};
use crate::strmap;
use crate::strmap::StrMap;
use crate::text;
use crate::time;
use crate::time::Time;

verus! {

broadcast use crate::text::views_push;

/// The name of the config file.
pub const FILE: &'static str = "tufops.toml";

/// A key that signs metadata.
#[derive(Debug)]
pub struct KeyConfig {
    /// GitHub user (`@name`) who holds this key on a YubiKey.
    pub owner: Option<String>,
    /// Cloud KMS URI of an online key.
    pub online: Option<String>,
    /// PEM encoded ECDSA P-256 public key.
    pub public_key: String,
}

/// A configured key as contracts speak of it.
pub struct KeyConfigView {
    pub owner: Option<Seq<char>>,
    pub online: Option<Seq<char>>,
    pub public_key: Seq<char>,
}

/// The view of a text that may be missing.
pub open spec fn optional(s: Option<String>) -> Option<Seq<char>> {
    match s {
        Some(t) => Some(t@),
        None => None,
    }
}

impl View for KeyConfig {
    type V = KeyConfigView;

    open spec fn view(&self) -> KeyConfigView {
        KeyConfigView {
            owner: optional(self.owner),
            online: optional(self.online),
            public_key: self.public_key@,
        }
    }
}

/// A role: who signs it, and how often.
#[derive(Debug)]
pub struct RoleConfig {
    pub keys: Vec<String>,
    pub threshold: u32,
    /// How long a new version of the role is valid for.
    pub expires_days: i64,
    /// How long before expiry a new version is signed.
    pub signing_days: i64,
    /// Target paths delegated to this role; only for roles delegated from `targets`.
    pub paths: Vec<String>,
}

/// A configured role as contracts speak of it.
pub struct RoleConfigView {
    pub keys: Seq<Seq<char>>,
    pub threshold: int,
    pub expires_days: int,
    pub signing_days: int,
    pub paths: Seq<Seq<char>>,
}

impl View for RoleConfig {
    type V = RoleConfigView;

    open spec fn view(&self) -> RoleConfigView {
        RoleConfigView {
            keys: text::views(self.keys@),
            threshold: self.threshold as int,
            expires_days: self.expires_days as int,
            signing_days: self.signing_days as int,
            paths: text::views(self.paths@),
        }
    }
}

/// Whether metadata that expires at the instant `expires` is due for a new version.
pub open spec fn due(signing_days: int, expires: int, now: int) -> bool {
    time::elapsed(now, expires) < signing_days * time::day() * time::second()
}

impl RoleConfig {
    /// Whether metadata of the role that expires at `expires` is due for a new version. A number of
    /// days whose milliseconds do not fit in 64 bits is out of the question.
    pub fn in_signing_period(&self, expires: &Time, now: &Time) -> (r: bool)
        requires
            -106_751_991_167 <= self.signing_days <= 106_751_991_167,
        ensures
            r == due(self@.signing_days, expires@, now@),
    {
        now.within_days_of(expires, self.signing_days)
    }
}

/// What a config consists of, before it is checked.
#[derive(Debug)]
struct Parts {
    storage: String,
    keys: StrMap<KeyConfig>,
    roles: StrMap<RoleConfig>,
}

/// A config as contracts speak of it.
pub struct ConfigView {
    /// Where the repository is published, for example `gs://bucket/prefix`.
    pub storage: Seq<char>,
    pub keys: Map<Seq<char>, KeyConfigView>,
    /// Top-level roles, plus roles delegated from `targets` (those with `paths`).
    pub roles: Map<Seq<char>, RoleConfigView>,
}

impl View for Parts {
    type V = ConfigView;

    closed spec fn view(&self) -> ConfigView {
        ConfigView { storage: self.storage@, keys: self.keys@, roles: self.roles@ }
    }
}

/// Whether every repository has the role. Any other role is delegated from `targets`.
pub open spec fn top_level(role: Seq<char>) -> bool {
    role == "root"@ || role == "targets"@ || role == "snapshot"@ || role == "timestamp"@
}

/// The top-level roles are different roles.
pub proof fn different_top_level()
    ensures
        "root"@ != "targets"@,
        "root"@ != "snapshot"@,
        "targets"@ != "snapshot"@,
        "targets"@ != "timestamp"@,
        "snapshot"@ != "timestamp"@,
        "root"@ != "timestamp"@,
{
    reveal_strlit("root");
    reveal_strlit("targets");
    reveal_strlit("snapshot");
    reveal_strlit("timestamp");
    assert("root"@[0] == 'r' && "targets"@[0] == 't' && "snapshot"@[0] == 's' && "timestamp"@[0]
        == 't' && "targets"@[1] == 'a' && "timestamp"@[1] == 'i');
}

/// Whether every repository has the role.
pub fn is_top_level(role: &str) -> (r: bool)
    ensures
        r == top_level(role@),
{
    text::same(role, "root") || text::same(role, "targets") || text::same(role, "snapshot")
        || text::same(role, "timestamp")
}

/// Whether `dir` is a directory, written with a slash at its end, that `path` lies in.
pub open spec fn covers(dir: Seq<char>, path: Seq<char>) -> bool {
    "/"@.is_suffix_of(dir) && dir.is_prefix_of(path)
}

/// Whether `dir` is a directory that `path` lies in.
pub fn is_covered(dir: &str, path: &str) -> (r: bool)
    ensures
        r == covers(dir@, path@),
{
    text::has_suffix(dir, "/") && text::has_prefix(path, dir)
}

/// What is wrong with the key `name`.
pub open spec fn key_problem(name: Seq<char>, key: KeyConfigView) -> Option<Fault> {
    if (key.owner is Some) == (key.online is Some) {
        Some(Problem::KeyHolder { key: name })
    } else if keys::key_from_pem(key.public_key) is None {
        Some(Problem::PublicKey { key: name })
    } else {
        None
    }
}

/// What is wrong with the key `key` of the role `role`: it must be configured, and online where CI
/// signs the role.
pub open spec fn role_key_problem(
    keys: Map<Seq<char>, KeyConfigView>,
    role: Seq<char>,
    key: Seq<char>,
) -> Option<Fault> {
    if !keys.dom().contains(key) {
        Some(Problem::RoleKey { role, key })
    } else if (role == "snapshot"@ || role == "timestamp"@) && keys[key].online is None {
        Some(Problem::OfflineKey { role, key })
    } else {
        None
    }
}

/// What is wrong with the role `name`.
pub open spec fn role_problem(
    keys: Map<Seq<char>, KeyConfigView>,
    name: Seq<char>,
    role: RoleConfigView,
) -> Option<Fault> {
    let of_keys = error::first(
        |i: int| role_key_problem(keys, name, role.keys[i]),
        role.keys.len() as int,
    );
    if !documents::names_metadata(name) {
        Some(Problem::RoleName { role: name })
    } else if !(1 <= role.threshold <= role.keys.len()) {
        Some(Problem::Threshold { role: name })
    } else if !(0 < role.signing_days < role.expires_days) {
        Some(Problem::Days { role: name })
    } else if of_keys is Some {
        of_keys
    } else if top_level(name) != (role.paths.len() == 0) {
        Some(Problem::Paths { role: name })
    } else {
        error::first(|i: int| role_path_problem(name, role.paths[i]), role.paths.len() as int)
    }
}

/// What is wrong with the path `path` of the role `role`.
pub open spec fn role_path_problem(role: Seq<char>, path: Seq<char>) -> Option<Fault> {
    if documents::names_target(path) {
        None
    } else {
        Some(Problem::RolePath { role, path })
    }
}

/// The pairs of a role and one of its paths, in the order of the role names.
pub open spec fn claims(
    roles: Map<Seq<char>, RoleConfigView>,
    names: Seq<Seq<char>>,
) -> Seq<(Seq<char>, Seq<char>)>
    decreases names.len(),
{
    if names.len() == 0 {
        Seq::empty()
    } else {
        claims(roles, names.drop_last()) + roles[names.last()].paths.map_values(
            |path: Seq<char>| (names.last(), path),
        )
    }
}

/// Whether two paths have targets in common.
pub open spec fn overlapping(p: Seq<char>, q: Seq<char>) -> bool {
    p == q || covers(p, q) || covers(q, p)
}

/// What is wrong with two pairs of a role and a path: each path may belong to one role only.
pub open spec fn overlap_problem(
    a: (Seq<char>, Seq<char>),
    b: (Seq<char>, Seq<char>),
) -> Option<Fault> {
    if a.0 != b.0 && overlapping(a.1, b.1) {
        Some(Problem::Overlap { role: a.0, path: a.1, other_role: b.0, other_path: b.1 })
    } else {
        None
    }
}

/// What is wrong with the pair at position `i` and a later one.
pub open spec fn later_overlap(c: Seq<(Seq<char>, Seq<char>)>, i: int) -> Option<Fault> {
    error::first(|k: int| overlap_problem(c[i], c[i + 1 + k]), c.len() - i - 1)
}

/// The names of the keys and of the roles, in order.
pub open spec fn key_names(c: ConfigView) -> Seq<Seq<char>> {
    strmap::listing(c.keys.dom())
}

pub open spec fn role_names(c: ConfigView) -> Seq<Seq<char>> {
    strmap::listing(c.roles.dom())
}

/// The first problem with the keys.
pub open spec fn keys_problem(c: ConfigView) -> Option<Fault> {
    error::first(|i: int| key_problem(key_names(c)[i], c.keys[key_names(c)[i]]), key_names(c).len() as int)
}

/// The first top-level role that is missing.
pub open spec fn top_level_problem(c: ConfigView) -> Option<Fault> {
    if !c.roles.dom().contains("root"@) {
        Some(Problem::TopLevelRole { role: "root"@ })
    } else if !c.roles.dom().contains("targets"@) {
        Some(Problem::TopLevelRole { role: "targets"@ })
    } else if !c.roles.dom().contains("snapshot"@) {
        Some(Problem::TopLevelRole { role: "snapshot"@ })
    } else if !c.roles.dom().contains("timestamp"@) {
        Some(Problem::TopLevelRole { role: "timestamp"@ })
    } else {
        None
    }
}

/// The first problem with the roles, each seen by itself.
pub open spec fn roles_problem(c: ConfigView) -> Option<Fault> {
    error::first(
        |i: int| role_problem(c.keys, role_names(c)[i], c.roles[role_names(c)[i]]),
        role_names(c).len() as int,
    )
}

/// The first overlap of paths.
pub open spec fn paths_problem(c: ConfigView) -> Option<Fault> {
    let all = claims(c.roles, role_names(c));
    error::first(|i: int| later_overlap(all, i), all.len() as int)
}

/// The first problem with the config.
pub open spec fn first_problem(c: ConfigView) -> Option<Fault> {
    if keys_problem(c) is Some {
        keys_problem(c)
    } else if top_level_problem(c) is Some {
        top_level_problem(c)
    } else if roles_problem(c) is Some {
        roles_problem(c)
    } else {
        paths_problem(c)
    }
}

/// Whether nothing is wrong with the config.
pub open spec fn valid(c: ConfigView) -> bool {
    c.keys.dom().finite() && c.roles.dom().finite() && first_problem(c) is None
}

fn check_key(name: &String, key: &KeyConfig) -> (r: Result<(), Error>)
    ensures
        r is Ok <==> key_problem(name@, key@) is None,
        r matches Err(e) ==> key_problem(name@, key@) == Some(e@),
{
    if key.owner.is_some() == key.online.is_some() {
        return Err(Problem::KeyHolder { key: name.clone() });
    }
    match PublicKey::from_pem(key.public_key.as_str()) {
        Some(_) => Ok(()),
        None => Err(Problem::PublicKey { key: name.clone() }),
    }
}

fn check_role_keys(keys: &StrMap<KeyConfig>, name: &String, role: &RoleConfig) -> (r: Result<
    (),
    Error,
>)
    ensures
        ({
            let p = error::first(
                |i: int| role_key_problem(keys@, name@, role@.keys[i]),
                role@.keys.len() as int,
            );
            &&& r is Ok <==> p is None
            &&& r matches Err(e) ==> p == Some(e@)
        }),
{
    let ghost f = |i: int| role_key_problem(keys@, name@, role@.keys[i]);
    let by_ci = text::same(name.as_str(), "snapshot") || text::same(name.as_str(), "timestamp");
    let mut i: usize = 0;
    while i < role.keys.len()
        invariant
            i <= role.keys.len(),
            f == (|i: int| role_key_problem(keys@, name@, role@.keys[i])),
            by_ci == (name@ == "snapshot"@ || name@ == "timestamp"@),
            error::first(f, i as int) is None,
        decreases role.keys.len() - i,
    {
        let key = &role.keys[i];
        assert(role@.keys[i as int] == key@);
        assert(f(i as int) == role_key_problem(keys@, name@, key@));
        let found = keys.get(key.as_str());
        let problem = match found {
            None => Some(Problem::RoleKey { role: name.clone(), key: key.clone() }),
            Some(k) => if by_ci && k.online.is_none() {
                Some(Problem::OfflineKey { role: name.clone(), key: key.clone() })
            } else {
                None
            },
        };
        match problem {
            Some(e) => {
                proof {
                    error::first_stays(f, i + 1, role.keys.len() as int);
                }
                return Err(e);
            },
            None => {},
        }
        i = i + 1;
    }
    Ok(())
}

fn check_role_paths(name: &String, role: &RoleConfig) -> (r: Result<(), Error>)
    ensures
        ({
            let p = error::first(
                |i: int| role_path_problem(name@, role@.paths[i]),
                role@.paths.len() as int,
            );
            &&& r is Ok <==> p is None
            &&& r matches Err(e) ==> p == Some(e@)
        }),
{
    let ghost f = |i: int| role_path_problem(name@, role@.paths[i]);
    let mut i: usize = 0;
    while i < role.paths.len()
        invariant
            i <= role.paths.len(),
            f == (|i: int| role_path_problem(name@, role@.paths[i])),
            error::first(f, i as int) is None,
        decreases role.paths.len() - i,
    {
        let path = &role.paths[i];
        assert(role@.paths[i as int] == path@);
        assert(f(i as int) == role_path_problem(name@, path@));
        if !documents::check_target_path(path.as_str()) {
            proof {
                error::first_stays(f, i + 1, role.paths.len() as int);
            }
            return Err(Problem::RolePath { role: name.clone(), path: path.clone() });
        }
        i = i + 1;
    }
    Ok(())
}

fn check_role(keys: &StrMap<KeyConfig>, name: &String, role: &RoleConfig) -> (r: Result<(), Error>)
    ensures
        r is Ok <==> role_problem(keys@, name@, role@) is None,
        r matches Err(e) ==> role_problem(keys@, name@, role@) == Some(e@),
{
    if !documents::check_metadata_name(name.as_str()) {
        return Err(Problem::RoleName { role: name.clone() });
    }
    if role.threshold < 1 || role.threshold as u64 > role.keys.len() as u64 {
        return Err(Problem::Threshold { role: name.clone() });
    }
    if !(0 < role.signing_days && role.signing_days < role.expires_days) {
        return Err(Problem::Days { role: name.clone() });
    }
    match check_role_keys(keys, name, role) {
        Ok(_) => {},
        Err(e) => {
            return Err(e);
        },
    }
    if is_top_level(name.as_str()) != (role.paths.len() == 0) {
        return Err(Problem::Paths { role: name.clone() });
    }
    check_role_paths(name, role)
}

fn check_keys(c: &Parts) -> (r: Result<(), Error>)
    ensures
        c@.keys.dom().finite(),
        r is Ok <==> keys_problem(c@) is None,
        r matches Err(e) ==> keys_problem(c@) == Some(e@),
{
    let ghost f = |i: int| key_problem(key_names(c@)[i], c@.keys[key_names(c@)[i]]);
    let n = c.keys.len();
    let mut i: usize = 0;
    while i < n
        invariant
            i <= n,
            n == key_names(c@).len(),
            c@.keys.dom().finite(),
            f == (|i: int| key_problem(key_names(c@)[i], c@.keys[key_names(c@)[i]])),
            error::first(f, i as int) is None,
        decreases n - i,
    {
        assert(f(i as int) == key_problem(key_names(c@)[i as int], c@.keys[key_names(c@)[i as int]]));
        match check_key(c.keys.key(i), c.keys.value(i)) {
            Ok(_) => {},
            Err(e) => {
                proof {
                    error::first_stays(f, i + 1, n as int);
                }
                return Err(e);
            },
        }
        i = i + 1;
    }
    Ok(())
}

fn check_top_level(c: &Parts) -> (r: Result<(), Error>)
    ensures
        r is Ok <==> top_level_problem(c@) is None,
        r matches Err(e) ==> top_level_problem(c@) == Some(e@),
{
    if !c.roles.contains("root") {
        Err(Problem::TopLevelRole { role: "root".to_owned() })
    } else if !c.roles.contains("targets") {
        Err(Problem::TopLevelRole { role: "targets".to_owned() })
    } else if !c.roles.contains("snapshot") {
        Err(Problem::TopLevelRole { role: "snapshot".to_owned() })
    } else if !c.roles.contains("timestamp") {
        Err(Problem::TopLevelRole { role: "timestamp".to_owned() })
    } else {
        Ok(())
    }
}

fn check_roles(c: &Parts) -> (r: Result<(), Error>)
    ensures
        c@.roles.dom().finite(),
        r is Ok <==> roles_problem(c@) is None,
        r matches Err(e) ==> roles_problem(c@) == Some(e@),
{
    let ghost f = |i: int| role_problem(c@.keys, role_names(c@)[i], c@.roles[role_names(c@)[i]]);
    let n = c.roles.len();
    let mut i: usize = 0;
    while i < n
        invariant
            i <= n,
            n == role_names(c@).len(),
            c@.roles.dom().finite(),
            f == (|i: int| role_problem(c@.keys, role_names(c@)[i], c@.roles[role_names(c@)[i]])),
            error::first(f, i as int) is None,
        decreases n - i,
    {
        assert(f(i as int) == role_problem(
            c@.keys,
            role_names(c@)[i as int],
            c@.roles[role_names(c@)[i as int]],
        ));
        match check_role(&c.keys, c.roles.key(i), c.roles.value(i)) {
            Ok(_) => {},
            Err(e) => {
                proof {
                    error::first_stays(f, i + 1, n as int);
                }
                return Err(e);
            },
        }
        i = i + 1;
    }
    Ok(())
}

/// A pair of a role and one of its paths.
struct Claim {
    role: String,
    path: String,
}

impl View for Claim {
    type V = (Seq<char>, Seq<char>);

    closed spec fn view(&self) -> (Seq<char>, Seq<char>) {
        (self.role@, self.path@)
    }
}

fn all_claims(c: &Parts) -> (r: Vec<Claim>)
    ensures
        text::views(r@) == claims(c@.roles, role_names(c@)),
{
    let n = c.roles.len();
    let mut out: Vec<Claim> = Vec::new();
    let mut i: usize = 0;
    let ghost names = role_names(c@);
    while i < n
        invariant
            i <= n,
            n == names.len(),
            names == role_names(c@),
            text::views(out@) =~= claims(c@.roles, names.take(i as int)),
        decreases n - i,
    {
        let name = c.roles.key(i);
        let role = c.roles.value(i);
        let ghost before = text::views(out@);
        let ghost mine = role@.paths.map_values(|path: Seq<char>| (name@, path));
        let mut j: usize = 0;
        while j < role.paths.len()
            invariant
                j <= role.paths.len(),
                mine == role@.paths.map_values(|path: Seq<char>| (name@, path)),
                text::views(out@) =~= before + mine.take(j as int),
            decreases role.paths.len() - j,
        {
            out.push(Claim { role: name.clone(), path: role.paths[j].clone() });
            assert(mine.take(j + 1) =~= mine.take(j as int).push(mine[j as int]));
            j = j + 1;
        }
        proof {
            assert(mine.take(j as int) =~= mine);
            assert(names.take(i + 1).drop_last() =~= names.take(i as int));
            assert(names.take(i + 1).last() == name@);
            assert(c@.roles[name@].paths.map_values(
                |path: Seq<char>| (names.take(i + 1).last(), path),
            ) =~= mine);
        }
        i = i + 1;
    }
    assert(names.take(i as int) =~= names);
    out
}

fn check_claim(all: &Vec<Claim>, i: usize) -> (r: Result<(), Error>)
    requires
        i < all.len(),
    ensures
        r is Ok <==> later_overlap(text::views(all@), i as int) is None,
        r matches Err(e) ==> later_overlap(text::views(all@), i as int) == Some(e@),
{
    let ghost c = text::views(all@);
    let ghost f = |k: int| overlap_problem(c[i as int], c[i + 1 + k]);
    let mut j: usize = i + 1;
    while j < all.len()
        invariant
            i < j <= all.len(),
            c == text::views(all@),
            f == (|k: int| overlap_problem(c[i as int], c[i + 1 + k])),
            error::first(f, j - i - 1) is None,
        decreases all.len() - j,
    {
        let a = &all[i];
        let b = &all[j];
        assert(c[i as int] == a@ && c[j as int] == b@);
        assert(f(j - i - 1) == overlap_problem(a@, b@));
        let p = a.path.as_str();
        let q = b.path.as_str();
        if a.role != b.role && (text::same(p, q) || is_covered(p, q) || is_covered(q, p)) {
            proof {
                error::first_stays(f, j - i, all.len() - i - 1);
            }
            return Err(
                Problem::Overlap {
                    role: a.role.clone(),
                    path: a.path.clone(),
                    other_role: b.role.clone(),
                    other_path: b.path.clone(),
                },
            );
        }
        j = j + 1;
    }
    Ok(())
}

fn check_paths(c: &Parts) -> (r: Result<(), Error>)
    ensures
        r is Ok <==> paths_problem(c@) is None,
        r matches Err(e) ==> paths_problem(c@) == Some(e@),
{
    let all = all_claims(c);
    let ghost f = |i: int| later_overlap(text::views(all@), i);
    let mut i: usize = 0;
    while i < all.len()
        invariant
            i <= all.len(),
            f == (|i: int| later_overlap(text::views(all@), i)),
            text::views(all@) == claims(c@.roles, role_names(c@)),
            error::first(f, i as int) is None,
        decreases all.len() - i,
    {
        assert(f(i as int) == later_overlap(text::views(all@), i as int));
        match check_claim(&all, i) {
            Ok(_) => {},
            Err(e) => {
                proof {
                    error::first_stays(f, i + 1, all.len() as int);
                }
                return Err(e);
            },
        }
        i = i + 1;
    }
    Ok(())
}

/// The keys and roles of a repository, and where it is published.
#[derive(Debug)]
pub struct Config {
    parts: Parts,
}

impl View for Config {
    type V = ConfigView;

    closed spec fn view(&self) -> ConfigView {
        self.parts@
    }
}

/// The text of the config at the revision `rev`, from the bytes that it has there.
pub open spec fn text_at(rev: Seq<char>, shown: Option<Seq<u8>>) -> Result<Seq<char>, Fault> {
    match shown {
        None => Err(Problem::NoConfig { rev }),
        Some(bytes) => if valid_utf8(bytes) {
            Ok(decode_utf8(bytes))
        } else {
            Err(Problem::NotText { rev })
        },
    }
}

impl Config {
    #[verifier::type_invariant]
    pub open spec fn checked(self) -> bool {
        valid(self@)
    }

    /// The config with the given parts, or the first problem with it.
    pub fn new(storage: String, keys: StrMap<KeyConfig>, roles: StrMap<RoleConfig>) -> (r: Result<
        Config,
        Error,
    >)
        ensures
            ({
                let c = ConfigView { storage: storage@, keys: keys@, roles: roles@ };
                &&& r is Ok <==> first_problem(c) is None
                &&& r matches Ok(config) ==> config@ == c
                &&& r matches Err(e) ==> first_problem(c) == Some(e@)
            }),
    {
        let parts = Parts { storage, keys, roles };
        match check_keys(&parts) {
            Ok(_) => {},
            Err(e) => {
                return Err(e);
            },
        }
        match check_top_level(&parts) {
            Ok(_) => {},
            Err(e) => {
                return Err(e);
            },
        }
        match check_roles(&parts) {
            Ok(_) => {},
            Err(e) => {
                return Err(e);
            },
        }
        match check_paths(&parts) {
            Ok(_) => {},
            Err(e) => {
                return Err(e);
            },
        }
        Ok(Config { parts })
    }

    /// The text of the config at the revision `rev`, where `shown` is what git shows of the file
    /// there.
    pub fn load_rev(rev: &str, shown: Option<Vec<u8>>) -> (r: Result<String, Error>)
        ensures
            error::outcome(r) == text_at(
                rev@,
                match shown {
                    Some(b) => Some(b@),
                    None => None,
                },
            ),
    {
        match shown {
            None => Err(Problem::NoConfig { rev: rev.to_owned() }),
            Some(bytes) => match text::utf8_text(bytes) {
                Some(t) => Ok(t),
                None => Err(Problem::NotText { rev: rev.to_owned() }),
            },
        }
    }

    /// Where the repository is published.
    pub fn storage(&self) -> (r: &String)
        ensures
            r@ == self@.storage,
    {
        &self.parts.storage
    }

    /// The keys by name.
    pub fn keys(&self) -> (r: &StrMap<KeyConfig>)
        ensures
            r@ == self@.keys,
    {
        &self.parts.keys
    }

    /// The roles by name.
    pub fn roles(&self) -> (r: &StrMap<RoleConfig>)
        ensures
            r@ == self@.roles,
    {
        &self.parts.roles
    }

    /// The role `name`.
    pub fn role(&self, name: &str) -> (r: Result<&RoleConfig, Error>)
        ensures
            r is Ok <==> self@.roles.dom().contains(name@),
            r matches Ok(role) ==> role@ == self@.roles[name@],
            r matches Err(e) ==> e@ == (Problem::NotConfigured { role: name@ }),
    {
        match self.parts.roles.get(name) {
            Some(role) => Ok(role),
            None => Err(Problem::NotConfigured { role: name.to_owned() }),
        }
    }
}

/// What is wrong with no key, or with no role, is wrong with none that is configured.
proof fn no_problem_at(
    c: ConfigView,
    k: Seq<char>,
    r: Seq<char>,
)
    requires
        valid(c),
    ensures
        c.keys.dom().contains(k) ==> key_problem(k, c.keys[k]) is None,
        c.roles.dom().contains(r) ==> role_problem(c.keys, r, c.roles[r]) is None,
{
    strmap::listing_exists(c.keys.dom());
    strmap::listing_exists(c.roles.dom());
    let f = |i: int| key_problem(key_names(c)[i], c.keys[key_names(c)[i]]);
    let g = |i: int| role_problem(c.keys, role_names(c)[i], c.roles[role_names(c)[i]]);
    error::first_none(f, key_names(c).len() as int);
    error::first_none(g, role_names(c).len() as int);
    if c.keys.dom().contains(k) {
        assert(key_names(c).to_set().contains(k));
        let i = choose|i: int| 0 <= i < key_names(c).len() && key_names(c)[i] == k;
        assert(f(i) is None);
    }
    if c.roles.dom().contains(r) {
        assert(role_names(c).to_set().contains(r));
        let i = choose|i: int| 0 <= i < role_names(c).len() && role_names(c)[i] == r;
        assert(g(i) is None);
    }
}

/// In a valid config every key has either an owner or a location, and is an ECDSA P-256 key.
pub proof fn valid_key(c: ConfigView, key: Seq<char>)
    requires
        valid(c),
        c.keys.dom().contains(key),
    ensures
        (c.keys[key].owner is Some) != (c.keys[key].online is Some),
        keys::key_from_pem(c.keys[key].public_key) is Some,
{
    no_problem_at(c, key, key);
}

/// In a valid config every top-level role is there.
pub proof fn valid_top_level(c: ConfigView, role: Seq<char>)
    requires
        valid(c),
        top_level(role),
    ensures
        c.roles.dom().contains(role),
{
}

/// In a valid config each role has configured keys that can reach its threshold, days in order, and
/// paths exactly where it is delegated.
pub proof fn valid_role(c: ConfigView, role: Seq<char>)
    requires
        valid(c),
        c.roles.dom().contains(role),
    ensures
        documents::names_metadata(role),
        1 <= c.roles[role].threshold <= c.roles[role].keys.len(),
        0 < c.roles[role].signing_days < c.roles[role].expires_days,
        forall|i: int|
            0 <= i < c.roles[role].keys.len() ==> c.keys.dom().contains(
                #[trigger] c.roles[role].keys[i],
            ),
        role == "snapshot"@ || role == "timestamp"@ ==> forall|i: int|
            0 <= i < c.roles[role].keys.len() ==> c.keys[#[trigger] c.roles[role].keys[i]].online is Some,
        top_level(role) <==> c.roles[role].paths.len() == 0,
        forall|i: int|
            0 <= i < c.roles[role].paths.len() ==> documents::names_target(
                #[trigger] c.roles[role].paths[i],
            ),
{
    no_problem_at(c, role, role);
    let r = c.roles[role];
    let f = |i: int| role_key_problem(c.keys, role, r.keys[i]);
    let g = |i: int| role_path_problem(role, r.paths[i]);
    error::first_none(f, r.keys.len() as int);
    error::first_none(g, r.paths.len() as int);
    assert forall|i: int| 0 <= i < r.keys.len() implies c.keys.dom().contains(
        #[trigger] r.keys[i],
    ) && ((role == "snapshot"@ || role == "timestamp"@) ==> c.keys[r.keys[i]].online is Some) by {
        assert(f(i) is None);
    }
    assert forall|i: int| 0 <= i < r.paths.len() implies documents::names_target(
        #[trigger] r.paths[i],
    ) by {
        assert(g(i) is None);
    }
}

/// Each path of each role is among the claims.
proof fn claimed(
    roles: Map<Seq<char>, RoleConfigView>,
    names: Seq<Seq<char>>,
    n: int,
    p: int,
)
    requires
        0 <= n < names.len(),
        0 <= p < roles[names[n]].paths.len(),
    ensures
        claims(roles, names).contains((names[n], roles[names[n]].paths[p])),
    decreases names.len(),
{
    let before = claims(roles, names.drop_last());
    let mine = roles[names.last()].paths.map_values(|path: Seq<char>| (names.last(), path));
    if n < names.len() - 1 {
        claimed(roles, names.drop_last(), n, p);
        assert(names.drop_last()[n] == names[n]);
        let i = choose|i: int|
            0 <= i < before.len() && before[i] == (names[n], roles[names[n]].paths[p]);
        assert((before + mine)[i] == before[i]);
    } else {
        assert((before + mine)[before.len() + p] == mine[p]);
    }
}

/// In a valid config the paths of different roles have no target in common.
pub proof fn valid_paths(c: ConfigView, a: Seq<char>, p: int, b: Seq<char>, q: int)
    requires
        valid(c),
        c.roles.dom().contains(a),
        c.roles.dom().contains(b),
        a != b,
        0 <= p < c.roles[a].paths.len(),
        0 <= q < c.roles[b].paths.len(),
    ensures
        !overlapping(c.roles[a].paths[p], c.roles[b].paths[q]),
{
    strmap::listing_exists(c.roles.dom());
    let names = role_names(c);
    assert(names.to_set().contains(a) && names.to_set().contains(b));
    let n = choose|n: int| 0 <= n < names.len() && names[n] == a;
    let m = choose|m: int| 0 <= m < names.len() && names[m] == b;
    let all = claims(c.roles, names);
    claimed(c.roles, names, n, p);
    claimed(c.roles, names, m, q);
    let x = (a, c.roles[a].paths[p]);
    let y = (b, c.roles[b].paths[q]);
    let i = choose|i: int| 0 <= i < all.len() && all[i] == x;
    let j = choose|j: int| 0 <= j < all.len() && all[j] == y;
    let f = |i: int| later_overlap(all, i);
    error::first_none(f, all.len() as int);
    assert(f(i) is None && f(j) is None);
    let g = |k: int| overlap_problem(all[i], all[i + 1 + k]);
    let h = |k: int| overlap_problem(all[j], all[j + 1 + k]);
    error::first_none(g, all.len() - i - 1);
    error::first_none(h, all.len() - j - 1);
    if i < j {
        assert(g(j - i - 1) is None);
    } else {
        assert(h(i - j - 1) is None);
    }
}

/// Whether a role with the path `pattern` is responsible for the target `path`.
pub open spec fn responsible(pattern: Seq<char>, path: Seq<char>) -> bool {
    pattern == path || covers(pattern, path)
}

/// In a valid config at most one delegated role is responsible for a target, whatever its path.
pub proof fn one_role_per_target(
    c: ConfigView,
    a: Seq<char>,
    p: int,
    b: Seq<char>,
    q: int,
    path: Seq<char>,
)
    requires
        valid(c),
        c.roles.dom().contains(a),
        c.roles.dom().contains(b),
        0 <= p < c.roles[a].paths.len(),
        0 <= q < c.roles[b].paths.len(),
        responsible(c.roles[a].paths[p], path),
        responsible(c.roles[b].paths[q], path),
    ensures
        a == b,
{
    let x = c.roles[a].paths[p];
    let y = c.roles[b].paths[q];
    if a != b {
        valid_paths(c, a, p, b, q);
        if x != path && y != path {
            if x.len() <= y.len() {
                assert(x =~= y.take(x.len() as int));
                assert(x.is_prefix_of(y));
            } else {
                assert(y =~= x.take(y.len() as int));
                assert(y.is_prefix_of(x));
            }
        }
    }
}

/// The names of the delegated roles, in order.
pub open spec fn delegated(c: ConfigView) -> Seq<Seq<char>> {
    role_names(c).filter(|name: Seq<char>| c.roles[name].paths.len() > 0)
}

/// The key with the given name, in a valid config.
pub open spec fn key_of(c: ConfigView, name: Seq<char>) -> KeyView {
    keys::key_from_pem(c.keys[name].public_key)->0
}

/// The names of the keys by key id: where keys have the same id, the last name.
pub open spec fn names_by_id(c: ConfigView, names: Seq<Seq<char>>) -> Map<Seq<char>, Seq<char>>
    decreases names.len(),
{
    if names.len() == 0 {
        Map::empty()
    } else {
        names_by_id(c, names.drop_last()).insert(key_of(c, names.last()).id, names.last())
    }
}

/// The configured names of the keys by key id.
pub open spec fn holders(c: ConfigView) -> Map<Seq<char>, Seq<char>> {
    names_by_id(c, key_names(c))
}

/// A human readable name for a key id: its owner, or its name for online keys.
pub open spec fn key_label(c: ConfigView, id: Seq<char>) -> Seq<char> {
    if holders(c).dom().contains(id) {
        let name = holders(c)[id];
        match c.keys[name].owner {
            Some(owner) => owner,
            None => name + " (online)"@,
        }
    } else {
        "unknown key"@
    }
}

/// Whether the key with the given id is configured as online.
pub open spec fn online(c: ConfigView, id: Seq<char>) -> bool {
    holders(c).dom().contains(id) && c.keys[holders(c)[id]].online is Some
}

/// Whether the calendar has every date on which a role would expire that is renewed now.
pub open spec fn expiries_in_calendar(c: ConfigView, now: int) -> bool {
    forall|role: Seq<char>| #[trigger]
        c.roles.dom().contains(role) ==> time::in_calendar(
            time::second_of(now) + c.roles[role].expires_days * time::day(),
        )
}

/// Each name among those by key id is one that was given, and has that id.
proof fn names_by_id_hold(c: ConfigView, names: Seq<Seq<char>>, id: Seq<char>)
    requires
        names_by_id(c, names).dom().contains(id),
    ensures
        names.contains(names_by_id(c, names)[id]),
        key_of(c, names_by_id(c, names)[id]).id == id,
    decreases names.len(),
{
    if key_of(c, names.last()).id != id {
        names_by_id_hold(c, names.drop_last(), id);
        let i = choose|i: int|
            0 <= i < names.drop_last().len() && names.drop_last()[i] == names_by_id(c, names)[id];
        assert(names[i] == names_by_id(c, names)[id]);
    } else {
        assert(names[names.len() - 1] == names.last());
    }
}

/// Each name among the holders is that of a configured key with that id.
pub proof fn holders_configured(c: ConfigView, id: Seq<char>)
    requires
        valid(c),
        holders(c).dom().contains(id),
    ensures
        c.keys.dom().contains(holders(c)[id]),
        key_of(c, holders(c)[id]).id == id,
{
    strmap::listing_exists(c.keys.dom());
    names_by_id_hold(c, key_names(c), id);
    assert(key_names(c).to_set().contains(holders(c)[id]));
}

impl Config {
    /// Roles delegated from `targets`, in the order of their names.
    pub fn delegations(&self) -> (r: Vec<(&String, &RoleConfig)>)
        ensures
            r@.len() == delegated(self@).len(),
            forall|i: int|
                0 <= i < r@.len() ==> (#[trigger] r@[i]).0@ == delegated(self@)[i]
                    && self@.roles.dom().contains(r@[i].0@) && r@[i].1@ == self@.roles[r@[i].0@],
    {
        let n = self.parts.roles.len();
        let mut out: Vec<(&String, &RoleConfig)> = Vec::new();
        let ghost names = role_names(self@);
        let ghost p = |name: Seq<char>| self@.roles[name].paths.len() > 0;
        let mut i: usize = 0;
        proof {
            reveal(Seq::filter);
        }
        while i < n
            invariant
                i <= n,
                n == names.len(),
                names == role_names(self@),
                p == (|name: Seq<char>| self@.roles[name].paths.len() > 0),
                out@.len() == names.take(i as int).filter(p).len(),
                forall|j: int|
                    0 <= j < out@.len() ==> (#[trigger] out@[j]).0@ == names.take(i as int).filter(p)[j]
                        && self@.roles.dom().contains(out@[j].0@) && out@[j].1@
                        == self@.roles[out@[j].0@],
            decreases n - i,
        {
            let name = self.parts.roles.key(i);
            let role = self.parts.roles.value(i);
            proof {
                reveal(Seq::filter);
                assert(names.take(i + 1).drop_last() =~= names.take(i as int));
                assert(names.take(i + 1).last() == name@);
            }
            if role.paths.len() > 0 {
                out.push((name, role));
            }
            i = i + 1;
        }
        assert(names.take(i as int) =~= names);
        out
    }

    /// The key with the configured name `name`.
    pub fn public_key(&self, name: &str) -> (r: Result<PublicKey, Error>)
        ensures
            r is Ok <==> self@.keys.dom().contains(name@),
            r matches Ok(k) ==> k@ == key_of(self@, name@) && keys::key_sound(k@),
            r matches Err(e) ==> e@ == (Problem::UnknownKey { key: name@ }),
    {
        proof {
            use_type_invariant(self);
        }
        match self.parts.keys.get(name) {
            Some(k) => {
                proof {
                    valid_key(self@, name@);
                }
                match PublicKey::from_pem(k.public_key.as_str()) {
                    Some(key) => Ok(key),
                    None => Err(Problem::PublicKey { key: name.to_owned() }),
                }
            },
            None => Err(Problem::UnknownKey { key: name.to_owned() }),
        }
    }

    /// The names of the configured keys by key id.
    pub fn keys_by_id(&self) -> (r: StrMap<String>)
        ensures
            r@ == holders(self@),
    {
        proof {
            use_type_invariant(self);
        }
        let n = self.parts.keys.len();
        let mut out: StrMap<String> = StrMap::new();
        let ghost names = key_names(self@);
        let mut i: usize = 0;
        while i < n
            invariant
                i <= n,
                n == names.len(),
                names == key_names(self@),
                valid(self@),
                out@ == names_by_id(self@, names.take(i as int)),
            decreases n - i,
        {
            let name = self.parts.keys.key(i);
            let k = self.parts.keys.value(i);
            proof {
                valid_key(self@, name@);
                assert(names.take(i + 1).drop_last() =~= names.take(i as int));
            }
            match PublicKey::from_pem(k.public_key.as_str()) {
                Some(key) => {
                    out.insert(key.id, name.clone());
                },
                None => {},
            }
            i = i + 1;
        }
        assert(names.take(i as int) =~= names);
        out
    }

    /// A human readable name for a key id: its owner, or its name for online keys.
    pub fn describe_key(&self, id: &str) -> (r: String)
        ensures
            r@ == key_label(self@, id@),
    {
        proof {
            use_type_invariant(self);
        }
        let by_id = self.keys_by_id();
        match by_id.get(id) {
            Some(name) => {
                proof {
                    holders_configured(self@, id@);
                }
                match self.parts.keys.get(name.as_str()) {
                    Some(k) => match &k.owner {
                        Some(owner) => owner.clone(),
                        None => text::cat(name.as_str(), " (online)"),
                    },
                    None => String::new(),
                }
            },
            None => "unknown key".to_owned(),
        }
    }

    /// Whether the key with the given id is configured as online.
    pub fn is_online(&self, id: &str) -> (r: bool)
        ensures
            r == online(self@, id@),
    {
        proof {
            use_type_invariant(self);
        }
        let by_id = self.keys_by_id();
        match by_id.get(id) {
            Some(name) => {
                proof {
                    holders_configured(self@, id@);
                }
                match self.parts.keys.get(name.as_str()) {
                    Some(k) => k.online.is_some(),
                    None => false,
                }
            },
            None => false,
        }
    }

    /// Whether the calendar has every date on which a role would expire that is renewed at `now`.
    pub fn expiries_fit(&self, now: &Time) -> (r: bool)
        ensures
            r == expiries_in_calendar(self@, now@),
    {
        let n = self.parts.roles.len();
        let ghost names = role_names(self@);
        let secs: i64 = now.seconds();
        let mut i: usize = 0;
        while i < n
            invariant
                i <= n,
                n == names.len(),
                names == role_names(self@),
                names.to_set() == self@.roles.dom(),
                secs == time::second_of(now@),
                time::in_calendar(secs as int),
                forall|j: int|
                    0 <= j < i ==> time::in_calendar(
                        time::second_of(now@) + self@.roles[#[trigger] names[j]].expires_days
                            * time::day(),
                    ),
            decreases n - i,
        {
            let role = self.parts.roles.value(i);
            let at: i128 = secs as i128 + role.expires_days as i128 * 86_400;
            if at < time::FIRST_SECOND as i128 || at > time::LAST_SECOND as i128 {
                assert(self@.roles.dom().contains(names[i as int]));
                return false;
            }
            i = i + 1;
        }
        assert forall|role: Seq<char>| #[trigger]
            self@.roles.dom().contains(role) implies time::in_calendar(
            time::second_of(now@) + self@.roles[role].expires_days * time::day(),
        ) by {
            assert(names.to_set().contains(role));
            let j = choose|j: int| 0 <= j < names.len() && names[j] == role;
        }
        true
    }
}

} // verus!
