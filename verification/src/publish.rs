//! Publishing the repository to object storage: what clients accept, and which objects to upload.

use vstd::prelude::*;

use crate::config;
use crate::documents;
use crate::documents::{
    Description, DescriptionView, HeaderView, RoleKeysView, RootView, TargetsView, VersionView,
};
use crate::error;
use crate::error::{Error, Fault, Problem};
use crate::keys;
use crate::keys::{KeyView, PublicKey, Signature, SignatureView};
use crate::metadata;
use crate::metadata::{Content, ContentView, Kind, Metadata, RoleKeys, Root, Targets};
use crate::order;
use crate::repo;
use crate::repo::{Files, Need, Repo};
use crate::strmap;
use crate::strmap::{StrMap, Value};
use crate::text;
use crate::time::Time;

verus! {

broadcast use crate::text::views_push;

/// Where metadata and targets are published, relative to the storage root.
pub const METADATA_PREFIX: &'static str = "metadata/";

pub const TARGETS_PREFIX: &'static str = "targets/";

/// A web page summarizing the repository, published next to `metadata/` and `targets/`. It reads
/// the metadata in the browser, so it only changes with tufops itself.
pub const INDEX_PAGE: &'static str = "index.html";

/// How many characters the directories of `path` take, with the slash behind the last of them.
pub open spec fn dir_len(path: Seq<char>) -> int
    decreases path.len(),
{
    if path.len() == 0 || path.last() == '/' {
        path.len() as int
    } else {
        dir_len(path.drop_last())
    }
}

/// The path with `hash` and a dot before its file name.
pub open spec fn hash_prefixed(path: Seq<char>, hash: Seq<char>) -> Seq<char> {
    path.take(dir_len(path)) + hash + "."@ + path.skip(dir_len(path))
}

/// Object name of a target file: consistent snapshots prefix the file name with its SHA-256.
pub open spec fn object_of(path: Seq<char>, d: DescriptionView) -> Result<Seq<char>, Fault> {
    match d.sha256 {
        None => Err(Problem::NoDigest { path }),
        Some(hash) => if documents::names_target(hash_prefixed(path, hash)) {
            Ok("targets/"@ + hash_prefixed(path, hash))
        } else {
            Err(Problem::TargetPath { path })
        },
    }
}

/// The path with `hash` and a dot before its file name.
fn with_hash_prefix(path: &str, hash: &str) -> (r: String)
    ensures
        r@ == hash_prefixed(path@, hash@),
{
    let chars = text::characters(path);
    let mut n: usize = chars.len();
    assert(path@.take(n as int) =~= path@);
    while n > 0 && chars[n - 1] != '/'
        invariant
            n <= chars.len(),
            chars@ == path@,
            dir_len(path@) == dir_len(path@.take(n as int)),
        decreases n,
    {
        assert(path@.take(n as int).drop_last() =~= path@.take(n - 1));
        n = n - 1;
    }
    assert(dir_len(path@) == n);
    let dir = text::text_of(&chars, 0, n);
    let name = text::text_of(&chars, n, chars.len());
    assert(dir@ =~= path@.take(n as int));
    assert(name@ =~= path@.skip(n as int));
    text::cat(text::cat(text::cat(dir.as_str(), hash).as_str(), ".").as_str(), name.as_str())
}

/// Object name of a target file: consistent snapshots prefix the file name with its SHA-256.
pub fn target_object(path: &str, d: &Description) -> (r: Result<String, Error>)
    ensures
        error::outcome(r) == object_of(path@, d@),
{
    match d.sha256() {
        None => Err(Problem::NoDigest { path: path.to_owned() }),
        Some(hash) => {
            let name = with_hash_prefix(path, hash.as_str());
            if documents::check_target_path(name.as_str()) {
                Ok(text::cat("targets/", name.as_str()))
            } else {
                Err(Problem::TargetPath { path: path.to_owned() })
            }
        },
    }
}

/// The signature of each key, the last one where there are several.
pub open spec fn last_signatures(sigs: Seq<SignatureView>) -> Map<Seq<char>, Seq<u8>>
    decreases sigs.len(),
{
    if sigs.len() == 0 {
        Map::empty()
    } else {
        last_signatures(sigs.drop_last()).insert(sigs.last().key_id, sigs.last().value)
    }
}

/// The keys by their ids.
pub open spec fn by_id(keys: Seq<KeyView>) -> Map<Seq<char>, KeyView>
    decreases keys.len(),
{
    if keys.len() == 0 {
        Map::empty()
    } else {
        by_id(keys.drop_last()).insert(keys.last().id, keys.last())
    }
}

/// How many of the key ids have a valid signature by an authorized key.
pub open spec fn valid_signatures(
    ids: Seq<Seq<char>>,
    sigs: Map<Seq<char>, Seq<u8>>,
    keys: Map<Seq<char>, KeyView>,
    input: Seq<u8>,
) -> int
    decreases ids.len(),
{
    if ids.len() == 0 {
        0
    } else {
        let id = ids.last();
        let rest = valid_signatures(ids.drop_last(), sigs, keys, input);
        if keys.dom().contains(id) && keys::accepts(keys[id], input, sigs[id]) {
            rest + 1
        } else {
            rest
        }
    }
}

/// Whether the file has signatures by at least the threshold of the keys.
pub open spec fn enough(file: Seq<u8>, need: (int, Seq<KeyView>)) -> bool {
    match (documents::signatures_in(file), documents::signing_input(file)) {
        (Some(sigs), Some(input)) => {
            let last = last_signatures(sigs);
            1 <= need.0 <= valid_signatures(
                strmap::listing(last.dom()),
                last,
                by_id(need.1),
                input,
            )
        },
        _ => false,
    }
}

/// What the file says, if a client that trusts the keys accepts it as metadata of the given kind.
pub open spec fn accepted(kind: Kind, file: Seq<u8>, need: (int, Seq<KeyView>)) -> Option<
    (HeaderView, ContentView),
> {
    if enough(file, need) {
        metadata::parsed(kind, file)
    } else {
        None
    }
}

/// Root metadata in the file, if a client accepts it from those who hold its own keys.
pub open spec fn self_signed_root(file: Seq<u8>) -> Option<(HeaderView, RootView)> {
    match documents::root_in(file) {
        Some((h, r)) => if enough(file, repo::picked(r.root, r.keys)) {
            Some((h, r))
        } else {
            None
        },
        None => None,
    }
}

/// Root metadata in the file, if a client that trusts `trusted` accepts it as its successor: it is
/// signed by enough keys of both, and its version is the next.
pub open spec fn next_root(trusted: (HeaderView, RootView), file: Seq<u8>) -> Option<
    (HeaderView, RootView),
> {
    match self_signed_root(file) {
        Some((h, r)) => if enough(file, repo::picked(trusted.1.root, trusted.1.keys)) && h.version
            == trusted.0.version + 1 {
            Some((h, r))
        } else {
            None
        },
        None => None,
    }
}

/// The root that a client trusts who walks through the versions, starting from the first.
pub open spec fn trusted_root(history: Seq<Seq<u8>>) -> Result<(HeaderView, RootView), Fault>
    decreases history.len(),
{
    let refused = Err(
        Problem::RefusedRoot { version: text::decimal(history.len()) },
    );
    if history.len() <= 1 {
        match self_signed_root(history[0]) {
            Some(root) => Ok(root),
            None => refused,
        }
    } else {
        match trusted_root(history.drop_last()) {
            Err(e) => Err(e),
            Ok(trusted) => match next_root(trusted, history.last()) {
                Some(root) => Ok(root),
                None => refused,
            },
        }
    }
}

/// The metadata of `role` as it stands in its file, which must be there.
pub open spec fn present(files: Files, role: Seq<char>) -> Result<Seq<u8>, Fault> {
    match repo::raw_of(files, role) {
        Some(file) => Ok(file),
        None => Err(Problem::MissingMetadata { role }),
    }
}

/// What a client that trusts `root` learns from timestamp and snapshot: the versions of the roles,
/// and when the snapshot expires.
pub open spec fn trusted_snapshot(
    files: Files,
    root: (HeaderView, RootView),
    now: int,
) -> Result<(HeaderView, Map<Seq<char>, VersionView>), Fault> {
    let refused_timestamp = Err(Problem::Refused { role: "timestamp"@ });
    let refused_snapshot = Err(Problem::Refused { role: "snapshot"@ });
    match present(files, "timestamp"@) {
        Err(e) => Err(e),
        Ok(file) => match accepted(
            Kind::Timestamp,
            file,
            repo::picked(root.1.timestamp, root.1.keys),
        ) {
            Some((t, ContentView::Timestamp(v))) => if t.expires <= now {
                refused_timestamp
            } else {
                match present(files, "snapshot"@) {
                    Err(e) => Err(e),
                    Ok(file) => match accepted(
                        Kind::Snapshot,
                        file,
                        repo::picked(root.1.snapshot, root.1.keys),
                    ) {
                        Some((s, ContentView::Snapshot(versions))) => if root.0.expires > now
                            && s.version == v.version {
                            Ok((s, versions))
                        } else {
                            refused_snapshot
                        },
                        _ => refused_snapshot,
                    },
                }
            },
            _ => refused_timestamp,
        },
    }
}

/// The targets metadata in the file, if a client accepts it as that of `role`: its version is the
/// one in the snapshot, and neither it nor the snapshot has expired.
pub open spec fn accepted_targets(
    file: Seq<u8>,
    role: Seq<char>,
    need: (int, Seq<KeyView>),
    snapshot: (HeaderView, Map<Seq<char>, VersionView>),
    now: int,
) -> Option<(HeaderView, TargetsView)> {
    match accepted(Kind::Targets, file, need) {
        Some((h, ContentView::Targets(t))) => if snapshot.0.expires > now
            && snapshot.1.dom().contains(role) && snapshot.1[role].version == h.version && h.expires
            > now {
            Some((h, t))
        } else {
            None
        },
        _ => None,
    }
}

/// The metadata of `targets`, if a client accepts it.
pub open spec fn trusted_targets(
    files: Files,
    root: (HeaderView, RootView),
    snapshot: (HeaderView, Map<Seq<char>, VersionView>),
    now: int,
) -> Result<TargetsView, Fault> {
    match present(files, "targets"@) {
        Err(e) => Err(e),
        Ok(file) => match accepted_targets(
            file,
            "targets"@,
            repo::picked(root.1.targets, root.1.keys),
            snapshot,
            now,
        ) {
            Some((_, t)) => Ok(t),
            None => Err(Problem::Refused { role: "targets"@ }),
        },
    }
}

/// What a client objects to in the metadata of the delegated role `role`.
pub open spec fn delegation_refused(
    files: Files,
    targets: TargetsView,
    snapshot: (HeaderView, Map<Seq<char>, VersionView>),
    now: int,
    role: Seq<char>,
) -> Option<Fault> {
    if role == "targets"@ {
        None
    } else if !documents::names_metadata(role) {
        Some(Problem::RoleName { role })
    } else {
        match present(files, role) {
            Err(e) => Some(e),
            Ok(file) => match repo::delegation_to(targets, role) {
                None => Some(Problem::Refused { role }),
                Some(i) => {
                    let d = targets.delegations.roles[i];
                    let need = repo::picked(
                        RoleKeysView { threshold: d.threshold, key_ids: d.key_ids },
                        targets.delegations.keys,
                    );
                    if accepted_targets(file, role, need, snapshot, now) is Some {
                        None
                    } else {
                        Some(Problem::Refused { role })
                    }
                },
            },
        }
    }
}

/// What a client objects to in the delegated roles.
pub open spec fn delegations_refused(
    files: Files,
    targets: TargetsView,
    snapshot: (HeaderView, Map<Seq<char>, VersionView>),
    now: int,
) -> Option<Fault> {
    let roles = repo::targets_roles_of(files);
    error::first(
        |i: int| delegation_refused(files, targets, snapshot, now, roles[i]),
        roles.len() as int,
    )
}

/// What a client objects to in the metadata: the root chain from version 1, then timestamp,
/// snapshot, targets and delegated targets, including expiry.
pub open spec fn refused(files: Files, now: int) -> Option<Fault> {
    match repo::root_history_of(files) {
        Err(e) => Some(e),
        Ok(history) => match trusted_root(history) {
            Err(e) => Some(e),
            Ok(root) => match trusted_snapshot(files, root, now) {
                Err(e) => Some(e),
                Ok(snapshot) => match trusted_targets(files, root, snapshot, now) {
                    Err(e) => Some(e),
                    Ok(targets) => delegations_refused(files, targets, snapshot, now),
                },
            },
        },
    }
}

fn keys_by_id(keys: &Vec<PublicKey>) -> (r: StrMap<PublicKey>)
    ensures
        r@ == by_id(text::views(keys@)),
{
    let ghost all = text::views(keys@);
    let mut out: StrMap<PublicKey> = StrMap::new();
    let mut i: usize = 0;
    while i < keys.len()
        invariant
            i <= keys.len(),
            all == text::views(keys@),
            out@ == by_id(all.take(i as int)),
        decreases keys.len() - i,
    {
        assert(all.take(i + 1).drop_last() =~= all.take(i as int));
        assert(all.take(i + 1).last() == keys@[i as int]@);
        out.insert(keys[i].id.clone(), keys[i].dup());
        i = i + 1;
    }
    assert(all.take(i as int) =~= all);
    out
}

fn signatures_by_id(sigs: &Vec<Signature>) -> (r: StrMap<Vec<u8>>)
    ensures
        r@ == last_signatures(text::views(sigs@)),
{
    let ghost all = text::views(sigs@);
    let mut out: StrMap<Vec<u8>> = StrMap::new();
    let mut i: usize = 0;
    while i < sigs.len()
        invariant
            i <= sigs.len(),
            all == text::views(sigs@),
            out@ == last_signatures(all.take(i as int)),
        decreases sigs.len() - i,
    {
        assert(all.take(i + 1).drop_last() =~= all.take(i as int));
        assert(all.take(i + 1).last() == sigs@[i as int]@);
        out.insert(sigs[i].key_id.clone(), sigs[i].value.dup());
        i = i + 1;
    }
    assert(all.take(i as int) =~= all);
    out
}

/// Whether the file has signatures by at least the threshold of the keys.
fn has_enough(file: &Vec<u8>, need: &Need) -> (r: bool)
    ensures
        r == enough(file@, need@),
{
    let sigs = match documents::read_signatures(file) {
        Some(s) => signatures_by_id(&s),
        None => {
            return false;
        },
    };
    let input = match documents::canonical_form(file) {
        Some(b) => b,
        None => {
            return false;
        },
    };
    let keys = keys_by_id(&need.keys);
    let n = sigs.len();
    let ghost ids = strmap::listing(sigs@.dom());
    let mut valid: usize = 0;
    let mut i: usize = 0;
    while i < n
        invariant
            i <= n,
            valid <= i,
            n == ids.len(),
            ids == strmap::listing(sigs@.dom()),
            valid == valid_signatures(ids.take(i as int), sigs@, keys@, input@),
        decreases n - i,
    {
        let id = sigs.key(i);
        assert(ids.take(i + 1).drop_last() =~= ids.take(i as int));
        assert(ids.take(i + 1).last() == id@);
        match keys.get(id.as_str()) {
            Some(key) => {
                if key.verify(&input, sigs.value(i)) {
                    valid = valid + 1;
                }
            },
            None => {},
        }
        i = i + 1;
    }
    assert(ids.take(i as int) =~= ids);
    1 <= need.threshold && need.threshold as u64 <= valid as u64
}

/// Parsed metadata, if a client that trusts the keys accepts it.
fn accept(kind: Kind, file: &Vec<u8>, need: &Need) -> (r: Option<Metadata>)
    ensures
        r is Some <==> accepted(kind, file@, need@) is Some,
        r matches Some(m) ==> accepted(kind, file@, need@) == Some(m@),
{
    if has_enough(file, need) {
        metadata::parse(kind, file)
    } else {
        None
    }
}

/// Root metadata with its version and expiry.
struct TrustedRoot {
    version: u32,
    expires: Time,
    plain: bool,
    root: Root,
}

impl View for TrustedRoot {
    type V = (HeaderView, RootView);

    closed spec fn view(&self) -> (HeaderView, RootView) {
        (
            HeaderView {
                version: self.version as int,
                expires: self.expires@,
                plain: self.plain,
            },
            self.root@,
        )
    }
}

fn pick_from(root: &Root, k: &RoleKeys) -> (r: Need)
    ensures
        r@ == repo::picked(k@, root@.keys),
{
    repo::pick(k.threshold, &k.key_ids, &root.keys)
}

fn read_self_signed(file: &Vec<u8>) -> (r: Option<TrustedRoot>)
    ensures
        r is Some <==> self_signed_root(file@) is Some,
        r matches Some(t) ==> self_signed_root(file@) == Some(t@),
{
    let m = metadata::parse(Kind::Root, file)?;
    match m.content {
        Content::Root(root) => if has_enough(file, &pick_from(&root, &root.root)) {
            Some(TrustedRoot { version: m.version, expires: m.expires, plain: m.plain, root })
        } else {
            None
        },
        _ => None,
    }
}

fn read_next(trusted: &TrustedRoot, file: &Vec<u8>) -> (r: Option<TrustedRoot>)
    ensures
        r is Some <==> next_root(trusted@, file@) is Some,
        r matches Some(t) ==> next_root(trusted@, file@) == Some(t@),
{
    let next = read_self_signed(file)?;
    if has_enough(file, &pick_from(&trusted.root, &trusted.root.root)) && next.version as u64
        == trusted.version as u64 + 1 {
        Some(next)
    } else {
        None
    }
}

proof fn root_chain_broken(history: Seq<Seq<u8>>, i: int)
    requires
        1 <= i <= history.len(),
        trusted_root(history.take(i)) is Err,
    ensures
        trusted_root(history) == trusted_root(history.take(i)),
    decreases history.len(),
{
    if i < history.len() {
        assert(history.drop_last().take(i) =~= history.take(i));
        root_chain_broken(history.drop_last(), i);
    } else {
        assert(history.take(i) =~= history);
    }
}

/// The root that a client trusts who walks through the versions, starting from the first.
fn walk_roots(history: &Vec<&Vec<u8>>) -> (r: Result<TrustedRoot, Error>)
    requires
        history@.len() >= 1,
    ensures
        error::outcome(r) == trusted_root(text::views(history@)),
{
    let ghost all = text::views(history@);
    assert(all.take(1)[0] == history@[0]@);
    let mut trusted = match read_self_signed(history[0]) {
        Some(t) => t,
        None => {
            proof {
                root_chain_broken(all, 1);
            }
            return Err(Problem::RefusedRoot { version: text::to_decimal(1) });
        },
    };
    let mut i: usize = 1;
    while i < history.len()
        invariant
            1 <= i <= history.len(),
            all == text::views(history@),
            trusted_root(all.take(i as int)) == Ok::<(HeaderView, RootView), Fault>(trusted@),
        decreases history.len() - i,
    {
        assert(all.take(i + 1).drop_last() =~= all.take(i as int));
        assert(all.take(i + 1).last() == history@[i as int]@);
        match read_next(&trusted, history[i]) {
            Some(t) => {
                trusted = t;
            },
            None => {
                proof {
                    root_chain_broken(all, i + 1);
                }
                return Err(Problem::RefusedRoot { version: text::to_decimal(i as u64 + 1) });
            },
        }
        i = i + 1;
    }
    assert(all.take(i as int) =~= all);
    Ok(trusted)
}

fn get<'a>(repo: &'a Repo, role: &str) -> (r: Result<&'a Vec<u8>, Error>)
    ensures
        error::outcome(r) == present(repo@, role@),
{
    match repo.raw(role) {
        Some(file) => Ok(file),
        None => Err(Problem::MissingMetadata { role: role.to_owned() }),
    }
}

/// Snapshot metadata with its version and expiry.
struct TrustedSnapshot {
    version: u32,
    expires: Time,
    plain: bool,
    versions: StrMap<documents::RawVersion>,
}

impl View for TrustedSnapshot {
    type V = (HeaderView, Map<Seq<char>, VersionView>);

    closed spec fn view(&self) -> (HeaderView, Map<Seq<char>, VersionView>) {
        (
            HeaderView {
                version: self.version as int,
                expires: self.expires@,
                plain: self.plain,
            },
            self.versions@,
        )
    }
}

fn check_snapshot(repo: &Repo, trusted: &TrustedRoot, now: &Time) -> (r: Result<
    TrustedSnapshot,
    Error,
>)
    ensures
        error::outcome(r) == trusted_snapshot(repo@, trusted@, now@),
{
    let root = &trusted.root;
    let file = match get(repo, "timestamp") {
        Ok(f) => f,
        Err(e) => {
            return Err(e);
        },
    };
    let version = match accept(Kind::Timestamp, file, &pick_from(root, &root.timestamp)) {
        Some(m) => match m.content {
            Content::Timestamp(v) => if now.earlier_than(&m.expires) {
                v.version
            } else {
                return Err(Problem::Refused { role: "timestamp".to_owned() });
            },
            _ => {
                return Err(Problem::Refused { role: "timestamp".to_owned() });
            },
        },
        None => {
            return Err(Problem::Refused { role: "timestamp".to_owned() });
        },
    };
    let file = match get(repo, "snapshot") {
        Ok(f) => f,
        Err(e) => {
            return Err(e);
        },
    };
    match accept(Kind::Snapshot, file, &pick_from(root, &root.snapshot)) {
        Some(m) => match m.content {
            Content::Snapshot(versions) => if now.earlier_than(&trusted.expires) && m.version
                == version {
                Ok(
                    TrustedSnapshot {
                        version: m.version,
                        expires: m.expires,
                        plain: m.plain,
                        versions,
                    },
                )
            } else {
                Err(Problem::Refused { role: "snapshot".to_owned() })
            },
            _ => Err(Problem::Refused { role: "snapshot".to_owned() }),
        },
        None => Err(Problem::Refused { role: "snapshot".to_owned() }),
    }
}

fn accept_targets(
    file: &Vec<u8>,
    role: &str,
    need: &Need,
    snapshot: &TrustedSnapshot,
    now: &Time,
) -> (r: Option<Targets>)
    ensures
        r is Some <==> accepted_targets(file@, role@, need@, snapshot@, now@) is Some,
        r matches Some(t) ==> (accepted_targets(file@, role@, need@, snapshot@, now@)->0).1 == t@,
{
    let m = accept(Kind::Targets, file, need)?;
    match m.content {
        Content::Targets(t) => {
            let listed = match snapshot.versions.get(role) {
                Some(v) => v.version == m.version,
                None => false,
            };
            if listed && now.earlier_than(&snapshot.expires) && now.earlier_than(&m.expires) {
                Some(t)
            } else {
                None
            }
        },
        _ => None,
    }
}

fn check_delegation(
    repo: &Repo,
    targets: &Targets,
    snapshot: &TrustedSnapshot,
    now: &Time,
    role: &str,
) -> (r: Result<(), Error>)
    ensures
        r is Ok <==> delegation_refused(repo@, targets@, snapshot@, now@, role@) is None,
        r matches Err(e) ==> delegation_refused(repo@, targets@, snapshot@, now@, role@) == Some(e@),
{
    if text::same(role, "targets") {
        return Ok(());
    }
    if !documents::check_metadata_name(role) {
        return Err(Problem::RoleName { role: role.to_owned() });
    }
    let file = match get(repo, role) {
        Ok(f) => f,
        Err(e) => {
            return Err(e);
        },
    };
    let ghost roles = targets@.delegations.roles;
    let mut i: usize = 0;
    while i < targets.delegations.roles.len()
        invariant
            i <= targets.delegations.roles.len(),
            roles == targets@.delegations.roles,
            roles == text::views(targets.delegations.roles@),
            role@ != "targets"@,
            documents::names_metadata(role@),
            present(repo@, role@) == Ok::<Seq<u8>, Fault>(file@),
            forall|j: int| 0 <= j < i ==> (#[trigger] roles[j]).name != role@,
        decreases targets.delegations.roles.len() - i,
    {
        let d = &targets.delegations.roles[i];
        assert(roles[i as int] == d@);
        if text::same(d.name.as_str(), role) {
            proof {
                repo::first_delegation(targets@, role@, i as int);
            }
            let need = repo::pick(d.threshold, &d.key_ids, &targets.delegations.keys);
            return match accept_targets(file, role, &need, snapshot, now) {
                Some(_) => Ok(()),
                None => Err(Problem::Refused { role: role.to_owned() }),
            };
        }
        i = i + 1;
    }
    Err(Problem::Refused { role: role.to_owned() })
}

/// Checks the metadata the way a client would at the given time: the root chain from version 1,
/// then timestamp, snapshot, targets and delegated targets, including expiry.
pub fn verify(repo: &Repo, now: &Time) -> (r: Result<(), Error>)
    ensures
        r is Ok <==> refused(repo@, now@) is None,
        r matches Err(e) ==> refused(repo@, now@) == Some(e@),
{
    let history = match repo.root_history() {
        Ok(h) => h,
        Err(e) => {
            return Err(e);
        },
    };
    let trusted = match walk_roots(&history) {
        Ok(t) => t,
        Err(e) => {
            return Err(e);
        },
    };
    let snapshot = match check_snapshot(repo, &trusted, now) {
        Ok(s) => s,
        Err(e) => {
            return Err(e);
        },
    };
    let file = match get(repo, "targets") {
        Ok(f) => f,
        Err(e) => {
            return Err(e);
        },
    };
    let need = pick_from(&trusted.root, &trusted.root.targets);
    let targets = match accept_targets(file, "targets", &need, &snapshot, now) {
        Some(t) => t,
        None => {
            return Err(Problem::Refused { role: "targets".to_owned() });
        },
    };
    let roles = repo.targets_roles();
    let ghost names = repo::targets_roles_of(repo@);
    let ghost f = |i: int| delegation_refused(repo@, targets@, snapshot@, now@, names[i]);
    assert(refused(repo@, now@) == error::first(f, names.len() as int));
    let mut i: usize = 0;
    while i < roles.len()
        invariant
            i <= roles.len(),
            names == text::views(roles@),
            f == (|i: int| delegation_refused(repo@, targets@, snapshot@, now@, names[i])),
            refused(repo@, now@) == error::first(f, names.len() as int),
            error::first(f, i as int) is None,
        decreases roles.len() - i,
    {
        assert(names[i as int] == roles@[i as int]@);
        assert(f(i as int) == delegation_refused(
            repo@,
            targets@,
            snapshot@,
            now@,
            names[i as int],
        ));
        match check_delegation(repo, &targets, &snapshot, now, roles[i].as_str()) {
            Ok(_) => {},
            Err(e) => {
                proof {
                    error::first_stays(f, i + 1, names.len() as int);
                }
                return Err(e);
            },
        }
        i = i + 1;
    }
    Ok(())
}

/// The MD5 digest of the bytes.
pub uninterp spec fn md5_of(bytes: Seq<u8>) -> Seq<u8>;

/// Calls `md5::Md5::digest`: the contract only names the digest, which depends on the bytes alone.
#[verifier::external_body]
fn md5(bytes: &Vec<u8>) -> (r: Vec<u8>)
    ensures
        r@ == md5_of(bytes@),
{
    <md5::Md5 as md5::Digest>::digest(bytes).to_vec()
}

/// The object that a client fetches as version `version` of `role`.
pub open spec fn versioned_object(version: int, role: Seq<char>) -> Seq<char> {
    "metadata/"@ + text::decimal(version as nat) + "."@ + role + ".json"@
}

/// The object that clients start from.
pub open spec fn timestamp_object() -> Seq<char> {
    "metadata/timestamp.json"@
}

/// The root versions as clients fetch them.
pub open spec fn root_objects(history: Seq<Seq<u8>>) -> Files
    decreases history.len(),
{
    if history.len() == 0 {
        Map::empty()
    } else {
        root_objects(history.drop_last()).insert(
            versioned_object(history.len() as int, "root"@),
            history.last(),
        )
    }
}

/// `objects` with the metadata of the roles as clients fetch it.
pub open spec fn role_objects(files: Files, objects: Files, roles: Seq<Seq<char>>) -> Result<
    Files,
    Fault,
>
    decreases roles.len(),
{
    if roles.len() == 0 {
        Ok(objects)
    } else {
        let role = roles.last();
        match role_objects(files, objects, roles.drop_last()) {
            Err(e) => Err(e),
            Ok(earlier) => match repo::header_of(files, role) {
                Err(e) => Err(e),
                Ok(None) => Err(Problem::MissingMetadata { role }),
                Ok(Some(h)) => Ok(
                    earlier.insert(
                        versioned_object(h.version, role),
                        repo::raw_of(files, role)->0,
                    ),
                ),
            },
        }
    }
}

/// Object names and contents of the metadata as clients fetch it.
pub open spec fn objects_of(files: Files) -> Result<Files, Fault> {
    match repo::root_history_of(files) {
        Err(e) => Err(e),
        Ok(history) => match role_objects(
            files,
            root_objects(history),
            repo::targets_roles_of(files).push("snapshot"@),
        ) {
            Err(e) => Err(e),
            Ok(objects) => match present(files, "timestamp"@) {
                Err(e) => Err(e),
                Ok(file) => Ok(objects.insert(timestamp_object(), file)),
            },
        },
    }
}

/// Whether an object is missing from what is published, or differs from it.
pub open spec fn outdated(published: Map<Seq<char>, Seq<u8>>, name: Seq<char>, data: Seq<u8>) -> bool {
    !published.dom().contains(name) || published[name] != md5_of(data)
}

/// Whether the object is uploaded after those for which this does not hold.
pub open spec fn comes_last(name: Seq<char>) -> bool {
    "timestamp.json"@.is_suffix_of(name)
}

/// The names of the objects to upload, in the order in which to upload them: clients start from
/// `timestamp.json`, so it must only refer to files already uploaded.
pub open spec fn uploads(objects: Files, published: Map<Seq<char>, Seq<u8>>) -> Seq<Seq<char>> {
    let names = strmap::listing(objects.dom()).filter(
        |name: Seq<char>| outdated(published, name, objects[name]),
    );
    names.filter(|name: Seq<char>| !comes_last(name)) + names.filter(
        |name: Seq<char>| comes_last(name),
    )
}

/// The target at position `i` of those that `role` lists, if it was never uploaded.
pub open spec fn not_uploaded(
    role: Seq<char>,
    path: Seq<char>,
    d: DescriptionView,
    uploaded: Map<Seq<char>, Seq<u8>>,
) -> Option<Fault> {
    match object_of(path, d) {
        Err(e) => Some(e),
        Ok(object) => if uploaded.dom().contains(object) {
            None
        } else {
            Some(Problem::NotUploaded { path, role, object })
        },
    }
}

/// The first target of `role` that was never uploaded.
pub open spec fn role_not_uploaded(
    files: Files,
    uploaded: Map<Seq<char>, Seq<u8>>,
    role: Seq<char>,
) -> Option<Fault> {
    match repo::targets_of(files, role) {
        Err(e) => Some(e),
        Ok((_, t)) => {
            let paths = strmap::listing(t.targets.dom());
            error::first(
                |i: int| not_uploaded(role, paths[i], t.targets[paths[i]], uploaded),
                paths.len() as int,
            )
        },
    }
}

/// The first target that was never uploaded.
pub open spec fn any_not_uploaded(files: Files, uploaded: Map<Seq<char>, Seq<u8>>) -> Option<Fault> {
    let roles = repo::targets_roles_of(files);
    error::first(|i: int| role_not_uploaded(files, uploaded, roles[i]), roles.len() as int)
}

/// The objects to publish: the metadata, and the summary page.
pub open spec fn published_objects(files: Files, page: Seq<u8>) -> Result<Files, Fault> {
    match objects_of(files) {
        Err(e) => Err(e),
        Ok(objects) => Ok(objects.insert("index.html"@, page)),
    }
}

/// The objects to upload with their contents, in order, unless clients would refuse the metadata or
/// a target file is missing.
pub open spec fn publish_of(
    files: Files,
    now: int,
    uploaded: Map<Seq<char>, Seq<u8>>,
    published: Map<Seq<char>, Seq<u8>>,
    page: Seq<u8>,
) -> Result<Seq<(Seq<char>, Seq<u8>)>, Fault> {
    match refused(files, now) {
        Some(e) => Err(e),
        None => match any_not_uploaded(files, uploaded) {
            Some(e) => Err(e),
            None => match published_objects(files, page) {
                Err(e) => Err(e),
                Ok(objects) => Ok(
                    uploads(objects, published).map_values(
                        |name: Seq<char>| (name, objects[name]),
                    ),
                ),
            },
        },
    }
}

proof fn role_objects_fail(files: Files, objects: Files, roles: Seq<Seq<char>>, i: int)
    requires
        0 <= i <= roles.len(),
        role_objects(files, objects, roles.take(i)) is Err,
    ensures
        role_objects(files, objects, roles) == role_objects(files, objects, roles.take(i)),
    decreases roles.len(),
{
    if i < roles.len() {
        assert(roles.drop_last().take(i) =~= roles.take(i));
        role_objects_fail(files, objects, roles.drop_last(), i);
    } else {
        assert(roles.take(i) =~= roles);
    }
}

fn versioned_name(version: u64, role: &str) -> (r: String)
    ensures
        r@ == versioned_object(version as int, role@),
{
    let start = text::cat("metadata/", text::to_decimal(version).as_str());
    text::cat(
        text::cat(text::cat(start.as_str(), ".").as_str(), role).as_str(),
        ".json",
    )
}

/// Object names and contents of the metadata as clients fetch it.
fn metadata_objects(repo: &Repo) -> (r: Result<StrMap<Vec<u8>>, Error>)
    ensures
        error::outcome(r) == objects_of(repo@),
{
    let history = match repo.root_history() {
        Ok(h) => h,
        Err(e) => {
            return Err(e);
        },
    };
    let ghost all = text::views(history@);
    let mut objects: StrMap<Vec<u8>> = StrMap::new();
    let mut i: usize = 0;
    while i < history.len()
        invariant
            i <= history.len(),
            all == text::views(history@),
            objects@ == root_objects(all.take(i as int)),
        decreases history.len() - i,
    {
        assert(all.take(i + 1).drop_last() =~= all.take(i as int));
        assert(all.take(i + 1).last() == history@[i as int]@);
        objects.insert(versioned_name(i as u64 + 1, "root"), history[i].dup());
        i = i + 1;
    }
    assert(all.take(i as int) =~= all);
    let ghost roots = objects@;
    let mut roles = repo.targets_roles();
    roles.push("snapshot".to_owned());
    let ghost names = text::views(roles@);
    let mut i: usize = 0;
    while i < roles.len()
        invariant
            i <= roles.len(),
            names == text::views(roles@),
            names == repo::targets_roles_of(repo@).push("snapshot"@),
            repo::root_history_of(repo@) == Ok::<Seq<Seq<u8>>, Fault>(all),
            roots == root_objects(all),
            role_objects(repo@, roots, names.take(i as int)) == Ok::<Files, Fault>(objects@),
        decreases roles.len() - i,
    {
        let role = &roles[i];
        proof {
            assert(names.take(i + 1).drop_last() =~= names.take(i as int));
            assert(names.take(i + 1).last() == role@);
        }
        let problem = match repo.header(role.as_str()) {
            Ok(Some((version, _))) => match repo.raw(role.as_str()) {
                Some(file) => {
                    objects.insert(versioned_name(version as u64, role.as_str()), file.dup());
                    None
                },
                None => Some(Problem::MissingMetadata { role: role.clone() }),
            },
            Ok(None) => Some(Problem::MissingMetadata { role: role.clone() }),
            Err(e) => Some(e),
        };
        match problem {
            Some(e) => {
                proof {
                    role_objects_fail(repo@, roots, names, i + 1);
                }
                return Err(e);
            },
            None => {},
        }
        i = i + 1;
    }
    assert(names.take(i as int) =~= names);
    match get(repo, "timestamp") {
        Ok(file) => {
            objects.insert("metadata/timestamp.json".to_owned(), file.dup());
            Ok(objects)
        },
        Err(e) => Err(e),
    }
}

fn check_role_uploaded(repo: &Repo, uploaded: &StrMap<Vec<u8>>, role: &String) -> (r: Result<
    (),
    Error,
>)
    ensures
        r is Ok <==> role_not_uploaded(repo@, uploaded@, role@) is None,
        r matches Err(e) ==> role_not_uploaded(repo@, uploaded@, role@) == Some(e@),
{
    let t = match repo.require_targets(role.as_str()) {
        Ok(t) => t,
        Err(e) => {
            return Err(e);
        },
    };
    let n = t.targets.len();
    let ghost paths = strmap::listing(t@.targets.dom());
    let ghost f = |i: int| not_uploaded(role@, paths[i], t@.targets[paths[i]], uploaded@);
    assert(role_not_uploaded(repo@, uploaded@, role@) == error::first(f, n as int));
    let mut i: usize = 0;
    while i < n
        invariant
            i <= n,
            n == paths.len(),
            paths == strmap::listing(t@.targets.dom()),
            f == (|i: int| not_uploaded(role@, paths[i], t@.targets[paths[i]], uploaded@)),
            role_not_uploaded(repo@, uploaded@, role@) == error::first(f, n as int),
            error::first(f, i as int) is None,
        decreases n - i,
    {
        let path = t.targets.key(i);
        assert(f(i as int) == not_uploaded(role@, path@, t@.targets[path@], uploaded@));
        let problem = match target_object(path.as_str(), t.targets.value(i)) {
            Ok(object) => if uploaded.contains(object.as_str()) {
                None
            } else {
                Some(Problem::NotUploaded { path: path.clone(), role: role.clone(), object })
            },
            Err(e) => Some(e),
        };
        match problem {
            Some(e) => {
                proof {
                    error::first_stays(f, i + 1, n as int);
                }
                return Err(e);
            },
            None => {},
        }
        i = i + 1;
    }
    Ok(())
}

/// Checks that every target file is among the objects `uploaded`.
pub fn check_uploaded(repo: &Repo, uploaded: &StrMap<Vec<u8>>) -> (r: Result<(), Error>)
    ensures
        r is Ok <==> any_not_uploaded(repo@, uploaded@) is None,
        r matches Err(e) ==> any_not_uploaded(repo@, uploaded@) == Some(e@),
{
    let roles = repo.targets_roles();
    let ghost names = repo::targets_roles_of(repo@);
    let ghost f = |i: int| role_not_uploaded(repo@, uploaded@, names[i]);
    let mut i: usize = 0;
    while i < roles.len()
        invariant
            i <= roles.len(),
            names == text::views(roles@),
            names == repo::targets_roles_of(repo@),
            f == (|i: int| role_not_uploaded(repo@, uploaded@, names[i])),
            error::first(f, i as int) is None,
        decreases roles.len() - i,
    {
        assert(names[i as int] == roles@[i as int]@);
        assert(f(i as int) == role_not_uploaded(repo@, uploaded@, names[i as int]));
        match check_role_uploaded(repo, uploaded, &roles[i]) {
            Ok(_) => {},
            Err(e) => {
                proof {
                    error::first_stays(f, i + 1, names.len() as int);
                }
                return Err(e);
            },
        }
        i = i + 1;
    }
    Ok(())
}

/// An object to upload.
#[derive(Debug)]
pub struct Upload {
    pub name: String,
    pub data: Vec<u8>,
}

impl View for Upload {
    type V = (Seq<char>, Seq<u8>);

    open spec fn view(&self) -> (Seq<char>, Seq<u8>) {
        (self.name@, self.data@)
    }
}

/// The outdated objects for which `comes_last` is as given, in the order of their names.
fn outdated_objects(objects: &StrMap<Vec<u8>>, published: &StrMap<Vec<u8>>, last: bool) -> (r: Vec<
    Upload,
>)
    ensures
        text::views(r@) == strmap::listing(objects@.dom()).filter(
            |name: Seq<char>| outdated(published@, name, objects@[name]),
        ).filter(|name: Seq<char>| comes_last(name) == last).map_values(
            |name: Seq<char>| (name, objects@[name]),
        ),
{
    let n = objects.len();
    let ghost names = strmap::listing(objects@.dom());
    let ghost p = |name: Seq<char>| outdated(published@, name, objects@[name]);
    let ghost q = |name: Seq<char>| comes_last(name) == last;
    let ghost f = |name: Seq<char>| (name, objects@[name]);
    let mut out: Vec<Upload> = Vec::new();
    let mut i: usize = 0;
    proof {
        reveal(Seq::filter);
        assert(names.take(0).filter(p) =~= Seq::empty());
        assert(names.take(0).filter(p).filter(q) =~= Seq::empty());
        assert(text::views(out@) =~= names.take(0).filter(p).filter(q).map_values(f));
    }
    while i < n
        invariant
            i <= n,
            n == names.len(),
            names == strmap::listing(objects@.dom()),
            p == (|name: Seq<char>| outdated(published@, name, objects@[name])),
            q == (|name: Seq<char>| comes_last(name) == last),
            f == (|name: Seq<char>| (name, objects@[name])),
            text::views(out@) == names.take(i as int).filter(p).filter(q).map_values(f),
        decreases n - i,
    {
        let name = objects.key(i);
        let data = objects.value(i);
        let ghost kept = names.take(i as int).filter(p);
        proof {
            reveal(Seq::filter);
            assert(names.take(i + 1).drop_last() =~= names.take(i as int));
            assert(names.take(i + 1).last() == name@);
            assert(kept.push(name@).drop_last() =~= kept);
            assert(kept.filter(q).push(name@).map_values(f) =~= kept.filter(q).map_values(f).push(
                f(name@),
            ));
        }
        let stale = match published.get(name.as_str()) {
            Some(digest) => !digest.same_as(&md5(data)),
            None => true,
        };
        if stale && text::has_suffix(name.as_str(), "timestamp.json") == last {
            out.push(Upload { name: name.clone(), data: data.dup() });
        }
        i = i + 1;
    }
    assert(names.take(i as int) =~= names);
    out
}

/// Verifies the repository, checks every target file has been uploaded, and returns the metadata
/// objects and the summary page that are missing or differ, in the order in which to upload them,
/// timestamp last. `uploaded` and `published` are the objects under `targets/`, and the other
/// objects, with the MD5 digest of each; `page` is the summary page.
pub fn publish(
    repo: &Repo,
    now: &Time,
    uploaded: &StrMap<Vec<u8>>,
    published: &StrMap<Vec<u8>>,
    page: &Vec<u8>,
) -> (r: Result<Vec<Upload>, Error>)
    ensures
        repo::listed(r) == publish_of(repo@, now@, uploaded@, published@, page@),
{
    match verify(repo, now) {
        Ok(_) => {},
        Err(e) => {
            return Err(e);
        },
    }
    match check_uploaded(repo, uploaded) {
        Ok(_) => {},
        Err(e) => {
            return Err(e);
        },
    }
    let mut objects = match metadata_objects(repo) {
        Ok(o) => o,
        Err(e) => {
            return Err(e);
        },
    };
    objects.insert("index.html".to_owned(), page.dup());
    let mut first = outdated_objects(&objects, published, false);
    let mut last = outdated_objects(&objects, published, true);
    let ghost a = first@;
    let ghost b = last@;
    first.append(&mut last);
    proof {
        let names = strmap::listing(objects@.dom()).filter(
            |name: Seq<char>| outdated(published@, name, objects@[name]),
        );
        let f = |name: Seq<char>| (name, objects@[name]);
        filter_same(
            names,
            |name: Seq<char>| comes_last(name) == false,
            |name: Seq<char>| !comes_last(name),
        );
        filter_same(
            names,
            |name: Seq<char>| comes_last(name) == true,
            |name: Seq<char>| comes_last(name),
        );
        let x = names.filter(|name: Seq<char>| !comes_last(name));
        let y = names.filter(|name: Seq<char>| comes_last(name));
        assert((x + y).map_values(f) =~= x.map_values(f) + y.map_values(f));
        assert(text::views(first@) =~= text::views(a) + text::views(b));
    }
    Ok(first)
}

/// Filters that keep the same elements give the same.
pub proof fn filter_same<A>(s: Seq<A>, p: spec_fn(A) -> bool, q: spec_fn(A) -> bool)
    requires
        forall|e: A| #[trigger] p(e) == q(e),
    ensures
        s.filter(p) == s.filter(q),
{
    repo::filter_alike(s, q, p);
}

/// Whether the names all come before `timestamp.json`, but for itself.
pub open spec fn before_timestamp(names: Set<Seq<char>>) -> bool {
    forall|name: Seq<char>| #[trigger]
        names.contains(name) ==> name == timestamp_object() || text::precedes(
            name,
            timestamp_object(),
        )
}

proof fn versioned_before(version: int, role: Seq<char>)
    ensures
        text::precedes(versioned_object(version, role), timestamp_object()),
{
    let n = text::decimal(version as nat);
    let rest = n + "."@ + role + ".json"@;
    reveal_strlit("metadata/");
    reveal_strlit("metadata/timestamp.json");
    text::decimal_starts(version as nat);
    assert(versioned_object(version, role) =~= "metadata/"@ + rest);
    let end = timestamp_object().skip(9);
    assert(timestamp_object() =~= "metadata/"@ + end);
    text::precedes_behind("metadata/"@, rest, end);
    assert(rest[0] == n[0]);
    assert(end[0] == 't');
}

proof fn roots_before(history: Seq<Seq<u8>>)
    ensures
        before_timestamp(root_objects(history).dom()),
        root_objects(history).dom().finite(),
    decreases history.len(),
{
    if history.len() > 0 {
        roots_before(history.drop_last());
        versioned_before(history.len() as int, "root"@);
    }
}

proof fn roles_before(files: Files, objects: Files, roles: Seq<Seq<char>>)
    requires
        before_timestamp(objects.dom()),
        objects.dom().finite(),
        role_objects(files, objects, roles) is Ok,
    ensures
        before_timestamp(role_objects(files, objects, roles)->Ok_0.dom()),
        role_objects(files, objects, roles)->Ok_0.dom().finite(),
    decreases roles.len(),
{
    if roles.len() > 0 {
        roles_before(files, objects, roles.drop_last());
        let role = roles.last();
        versioned_before((repo::header_of(files, role)->Ok_0->0).version, role);
    }
}

/// All objects come before `timestamp.json` in the order of their names.
pub proof fn objects_before(files: Files, page: Seq<u8>)
    requires
        published_objects(files, page) is Ok,
    ensures
        before_timestamp(published_objects(files, page)->Ok_0.dom()),
        published_objects(files, page)->Ok_0.dom().finite(),
{
    let history = repo::root_history_of(files)->Ok_0;
    let roles = repo::targets_roles_of(files).push("snapshot"@);
    roots_before(history);
    roles_before(files, root_objects(history), roles);
    reveal_strlit("index.html");
    reveal_strlit("metadata/timestamp.json");
    assert("index.html"@[0] == 'i' && timestamp_object()[0] == 'm');
}

/// Clients start from `timestamp.json`: where it is uploaded, it is uploaded after everything else.
pub proof fn timestamp_is_last(
    files: Files,
    page: Seq<u8>,
    published: Map<Seq<char>, Seq<u8>>,
    i: int,
)
    requires
        published_objects(files, page) is Ok,
        0 <= i < uploads(published_objects(files, page)->Ok_0, published).len(),
        uploads(published_objects(files, page)->Ok_0, published)[i] == timestamp_object(),
    ensures
        i == uploads(published_objects(files, page)->Ok_0, published).len() - 1,
{
    let objects = published_objects(files, page)->Ok_0;
    let all = strmap::listing(objects.dom());
    let p = |name: Seq<char>| outdated(published, name, objects[name]);
    let q = |name: Seq<char>| !comes_last(name);
    let r = |name: Seq<char>| comes_last(name);
    let names = all.filter(p);
    let x = names.filter(q);
    let y = names.filter(r);
    let ts = timestamp_object();
    objects_before(files, page);
    strmap::listing_exists(objects.dom());
    strmap::filter_ascending(all, p);
    strmap::filter_ascending(names, r);
    assert(comes_last(ts)) by {
        reveal_strlit("metadata/timestamp.json");
        reveal_strlit("timestamp.json");
        assert(ts.subrange(ts.len() - 14, ts.len() as int) =~= "timestamp.json"@);
    }
    if i < x.len() {
        assert(x[i] == ts);
        assert(x.contains(ts));
        repo::filter_holds(names, q, ts);
    } else if i < (x + y).len() - 1 {
        let k = i - x.len();
        let after = y[k + 1];
        assert(y[k] == ts);
        assert(text::precedes(y[k], y[k + 1]));
        assert(y.contains(after));
        repo::filter_holds(names, r, after);
        repo::filter_holds(all, p, after);
        assert(all.to_set().contains(after));
        text::precedes_asymmetric(ts, after);
        text::precedes_irreflexive(ts);
    }
}

/// What is published after the objects `names` were uploaded, with the MD5 digest of each.
pub open spec fn after_upload(
    objects: Files,
    published: Map<Seq<char>, Seq<u8>>,
    names: Seq<Seq<char>>,
) -> Map<Seq<char>, Seq<u8>> {
    published.union_prefer_right(
        Map::new(|name: Seq<char>| names.contains(name), |name: Seq<char>| md5_of(objects[name])),
    )
}

/// Publishing the same repository again uploads nothing.
pub proof fn publishing_again_uploads_nothing(objects: Files, published: Map<Seq<char>, Seq<u8>>)
    requires
        objects.dom().finite(),
    ensures
        uploads(objects, after_upload(objects, published, uploads(objects, published))).len() == 0,
{
    let done = uploads(objects, published);
    let after = after_upload(objects, published, done);
    let all = strmap::listing(objects.dom());
    let p = |name: Seq<char>| outdated(published, name, objects[name]);
    let q = |name: Seq<char>| !comes_last(name);
    let r = |name: Seq<char>| comes_last(name);
    let p2 = |name: Seq<char>| outdated(after, name, objects[name]);
    let names = all.filter(p);
    let names2 = all.filter(p2);
    if names2.len() > 0 {
        let name = names2[0];
        assert(names2.contains(name));
        repo::filter_holds(all, p2, name);
        repo::filter_holds(all, p, name);
        if p(name) {
            repo::filter_holds(names, q, name);
            repo::filter_holds(names, r, name);
            let x = names.filter(q);
            let y = names.filter(r);
            if comes_last(name) {
                let k = choose|k: int| 0 <= k < y.len() && y[k] == name;
                assert(done[x.len() + k] == name);
            } else {
                let k = choose|k: int| 0 <= k < x.len() && x[k] == name;
                assert(done[k] == name);
            }
            assert(done.contains(name));
        }
        assert(false);
    }
    reveal(Seq::filter);
}

/// Nothing is uploaded unless every target file that the metadata lists has been.
pub proof fn published_targets_are_uploaded(
    files: Files,
    now: int,
    uploaded: Map<Seq<char>, Seq<u8>>,
    published: Map<Seq<char>, Seq<u8>>,
    page: Seq<u8>,
    role: Seq<char>,
    path: Seq<char>,
)
    requires
        publish_of(files, now, uploaded, published, page) is Ok,
        repo::targets_roles_of(files).contains(role),
        repo::targets_of(files, role) matches Ok((_, t)) && t.targets.dom().finite()
            && t.targets.dom().contains(path),
    ensures
        ({
            let d = repo::targets_of(files, role)->Ok_0.1.targets[path];
            object_of(path, d) matches Ok(object) && uploaded.dom().contains(object)
        }),
{
    let roles = repo::targets_roles_of(files);
    let f = |i: int| role_not_uploaded(files, uploaded, roles[i]);
    error::first_none(f, roles.len() as int);
    let i = choose|i: int| 0 <= i < roles.len() && roles[i] == role;
    assert(f(i) is None);
    let t = repo::targets_of(files, role)->Ok_0.1;
    let paths = strmap::listing(t.targets.dom());
    strmap::listing_exists(t.targets.dom());
    let g = |i: int| not_uploaded(role, paths[i], t.targets[paths[i]], uploaded);
    error::first_none(g, paths.len() as int);
    assert(paths.to_set().contains(path));
    let k = choose|k: int| 0 <= k < paths.len() && paths[k] == path;
    assert(g(k) is None);
}

/// Whether there is metadata of `role` that has not expired.
pub open spec fn unexpired(files: Files, role: Seq<char>, now: int) -> bool {
    repo::header_of(files, role) matches Ok(Some(h)) && h.expires > now
}

/// What clients accept has not expired: neither timestamp and snapshot nor any role that lists
/// targets.
pub proof fn accepted_has_not_expired(files: Files, now: int, role: Seq<char>)
    requires
        refused(files, now) is None,
        role == "timestamp"@ || role == "snapshot"@ || role == "targets"@
            || repo::targets_roles_of(files).contains(role),
    ensures
        unexpired(files, role, now),
{
    config::different_top_level();
    let history = repo::root_history_of(files)->Ok_0;
    let root = trusted_root(history)->Ok_0;
    let snapshot = trusted_snapshot(files, root, now)->Ok_0;
    let targets = trusted_targets(files, root, snapshot, now)->Ok_0;
    if role != "timestamp"@ && role != "snapshot"@ && role != "targets"@ {
        let roles = repo::targets_roles_of(files);
        repo::filter_holds(
            repo::roles_of(files),
            |role: Seq<char>| repo::lists_targets(role),
            role,
        );
        let f = |i: int| delegation_refused(files, targets, snapshot, now, roles[i]);
        error::first_none(f, roles.len() as int);
        let i = choose|i: int| 0 <= i < roles.len() && roles[i] == role;
        assert(f(i) is None);
    }
}

/// The keys with ascending ids have distinct ids, each that of one of the ids.
pub proof fn chosen_distinct(ids: Seq<Seq<char>>, keys: Map<Seq<char>, KeyView>)
    requires
        strmap::ascending(ids),
        documents::keys_sound(keys),
    ensures
        order::distinct(repo::chosen(ids, keys), |k: KeyView| k.id),
        forall|i: int|
            0 <= i < repo::chosen(ids, keys).len() ==> ids.contains(
                (#[trigger] repo::chosen(ids, keys)[i]).id,
            ),
    decreases ids.len(),
{
    if ids.len() > 0 {
        let t = ids.drop_last();
        let u = repo::chosen(t, keys);
        assert(strmap::ascending(t)) by {
            assert forall|i: int, j: int| 0 <= i < j < t.len() implies text::precedes(
                #[trigger] t[i],
                #[trigger] t[j],
            ) by {
                assert(t[i] == ids[i] && t[j] == ids[j]);
            }
        }
        chosen_distinct(t, keys);
        assert forall|i: int| 0 <= i < u.len() implies ids.contains((#[trigger] u[i]).id) && u[i].id
            != ids.last() by {
            let j = choose|j: int| 0 <= j < t.len() && t[j] == u[i].id;
            assert(ids[j] == u[i].id);
            assert(text::precedes(ids[j], ids[ids.len() - 1]));
            text::precedes_irreflexive(ids[j]);
        }
        assert(ids[ids.len() - 1] == ids.last());
    }
}

/// Keys with distinct ids are found again under their ids.
pub proof fn by_id_finds(keys: Seq<KeyView>, i: int)
    requires
        order::distinct(keys, |k: KeyView| k.id),
        0 <= i < keys.len(),
    ensures
        by_id(keys).dom().contains(keys[i].id),
        by_id(keys)[keys[i].id] == keys[i],
    decreases keys.len(),
{
    let t = keys.drop_last();
    if i < t.len() {
        let label = |k: KeyView| k.id;
        assert(label(keys[i]) != label(keys[keys.len() - 1]));
        assert(order::distinct(t, label)) by {
            assert forall|i: int, j: int| 0 <= i < j < t.len() implies label(#[trigger] t[i]) != label(
                #[trigger] t[j],
            ) by {
                assert(t[i] == keys[i] && t[j] == keys[j]);
            }
        }
        by_id_finds(t, i);
        assert(t[i] == keys[i]);
    }
}

/// Where no key has two signatures, each signature is the last of its key.
pub proof fn last_signature_is(sigs: Seq<SignatureView>, i: int)
    requires
        repo::one_each(sigs),
        0 <= i < sigs.len(),
    ensures
        last_signatures(sigs).dom().contains(sigs[i].key_id),
        last_signatures(sigs)[sigs[i].key_id] == sigs[i].value,
    decreases sigs.len(),
{
    let t = sigs.drop_last();
    if i < t.len() {
        let label = |s: SignatureView| s.key_id;
        assert(label(sigs[i]) != label(sigs[sigs.len() - 1]));
        assert(order::distinct(t, label)) by {
            assert forall|i: int, j: int| 0 <= i < j < t.len() implies label(#[trigger] t[i]) != label(
                #[trigger] t[j],
            ) by {
                assert(t[i] == sigs[i] && t[j] == sigs[j]);
            }
        }
        last_signature_is(t, i);
        assert(t[i] == sigs[i]);
    }
}

pub proof fn last_signatures_finite(sigs: Seq<SignatureView>)
    ensures
        last_signatures(sigs).dom().finite(),
    decreases sigs.len(),
{
    if sigs.len() > 0 {
        last_signatures_finite(sigs.drop_last());
    }
}

/// Counting the valid signatures is counting the ids that have one.
pub proof fn valid_signatures_count(
    ids: Seq<Seq<char>>,
    sigs: Map<Seq<char>, Seq<u8>>,
    keys: Map<Seq<char>, KeyView>,
    input: Seq<u8>,
)
    ensures
        valid_signatures(ids, sigs, keys, input) == ids.filter(
            |id: Seq<char>| keys.dom().contains(id) && keys::accepts(keys[id], input, sigs[id]),
        ).len(),
    decreases ids.len(),
{
    reveal(Seq::filter);
    if ids.len() > 0 {
        valid_signatures_count(ids.drop_last(), sigs, keys, input);
    }
}

/// How many of the keys have a valid signature on the file.
pub open spec fn signers_of(file: Seq<u8>, need: (int, Seq<KeyView>)) -> nat {
    match (documents::signatures_in(file), documents::signing_input(file)) {
        (Some(sigs), Some(input)) => need.1.filter(|k: KeyView| repo::signed(sigs, input, k)).len(),
        _ => 0,
    }
}

/// Whether no key has signed the file twice.
pub open spec fn signed_once(file: Seq<u8>) -> bool {
    documents::signatures_in(file) matches Some(sigs) && repo::one_each(sigs)
}

/// Where as many of the keys have signed the file as the threshold asks for, and no key has signed
/// twice, clients find the threshold reached.
proof fn threshold_reached(file: Seq<u8>, k: RoleKeysView, keys: Map<Seq<char>, KeyView>)
    requires
        k.key_ids.finite(),
        documents::keys_sound(keys),
        signed_once(file),
        1 <= k.threshold <= signers_of(file, repo::picked(k, keys)),
    ensures
        enough(file, repo::picked(k, keys)),
{
    let sigs = documents::signatures_in(file)->0;
    let input = documents::signing_input(file)->0;
    let ids = strmap::listing(k.key_ids);
    let need = repo::picked(k, keys).1;
    let label = |k: KeyView| k.id;
    strmap::listing_exists(k.key_ids);
    chosen_distinct(ids, keys);
    order::sorted_distinct::<PublicKey>(repo::chosen(ids, keys), label);
    let p = |k: KeyView| repo::signed(sigs, input, k);
    let done = need.filter(p);
    repo::filter_distinct(need, p, label);
    let last = last_signatures(sigs);
    last_signatures_finite(sigs);
    strmap::listing_exists(last.dom());
    let all = strmap::listing(last.dom());
    let table = by_id(need);
    let q = |id: Seq<char>| table.dom().contains(id) && keys::accepts(table[id], input, last[id]);
    valid_signatures_count(all, last, table, input);
    let valid = all.filter(q);
    let named = done.map_values(label);
    assert(named.no_duplicates()) by {
        assert forall|i: int, j: int|
            0 <= i < named.len() && 0 <= j < named.len() && i != j implies named[i] != named[j] by {
            if i < j {
                assert(label(done[i]) != label(done[j]));
            } else {
                assert(label(done[j]) != label(done[i]));
            }
        }
    }
    assert forall|id: Seq<char>| named.to_set().contains(id) implies #[trigger]
        valid.to_set().contains(id) by {
        let i = choose|i: int| 0 <= i < named.len() && named[i] == id;
        let key = done[i];
        assert(done.contains(key));
        repo::filter_holds(need, p, key);
        let n = choose|n: int| 0 <= n < need.len() && need[n] == key;
        by_id_finds(need, n);
        let j = choose|j: int|
            0 <= j < sigs.len() && (#[trigger] sigs[j]).key_id == key.id && keys::accepts(
                key,
                input,
                sigs[j].value,
            );
        last_signature_is(sigs, j);
        assert(all.to_set().contains(id));
        repo::filter_holds(all, q, id);
    }
    named.unique_seq_to_set();
    valid.lemma_cardinality_of_set();
    vstd::set_lib::lemma_len_subset(named.to_set(), valid.to_set());
}

/// Clients accept what the status counts as signed: where enough of a role's keys have signed its
/// metadata, and no key has signed twice, a client that trusts these keys finds the threshold
/// reached.
pub proof fn clients_count_the_same_signatures(
    files: Files,
    role: Seq<char>,
    k: RoleKeysView,
    keys: Map<Seq<char>, KeyView>,
)
    requires
        k.key_ids.finite(),
        documents::keys_sound(keys),
        1 <= k.threshold,
        repo::signed_part(files, role) is Ok,
        repo::one_each(repo::signed_part(files, role)->Ok_0.0),
        repo::signed_by_of(files, role, repo::picked(k, keys).1)->Ok_0.len() >= k.threshold,
    ensures
        enough(repo::raw_of(files, role)->0, repo::picked(k, keys)),
{
    let file = repo::raw_of(files, role)->0;
    assert(signers_of(file, repo::picked(k, keys)) >= k.threshold);
    threshold_reached(file, k, keys);
}

/// Clients move on to a new root that both sets of keys have signed: where they trust the versions
/// so far, the file is root metadata with the next version, and enough of its own keys and of those
/// of the root before it have signed it, they trust that version too.
pub proof fn clients_move_on_to_a_new_root(history: Seq<Seq<u8>>, file: Seq<u8>)
    requires
        history.len() >= 1,
        trusted_root(history) is Ok,
        documents::root_in(file) is Some,
        signed_once(file),
        ({
            let was = trusted_root(history)->Ok_0;
            let new = documents::root_in(file)->0;
            &&& new.0.version == was.0.version + 1
            &&& finite_ids(was.1.root) && finite_ids(new.1.root)
            &&& documents::keys_sound(was.1.keys) && documents::keys_sound(new.1.keys)
            &&& 1 <= was.1.root.threshold <= signers_of(
                file,
                repo::picked(was.1.root, was.1.keys),
            )
            &&& 1 <= new.1.root.threshold <= signers_of(
                file,
                repo::picked(new.1.root, new.1.keys),
            )
        }),
    ensures
        trusted_root(history.push(file)) == Ok::<(HeaderView, RootView), Fault>(
            documents::root_in(file)->0,
        ),
{
    let was = trusted_root(history)->Ok_0;
    let new = documents::root_in(file)->0;
    threshold_reached(file, was.1.root, was.1.keys);
    threshold_reached(file, new.1.root, new.1.keys);
    assert(history.push(file).drop_last() =~= history);
}

/// Whether the signers are different keys of the need, as many as its threshold asks for, and each
/// has a valid signature on the file.
pub open spec fn vouched(file: Seq<u8>, need: (int, Seq<KeyView>), signers: Seq<KeyView>) -> bool {
    &&& signers.len() >= need.0
    &&& order::distinct(signers, |k: KeyView| k.id)
    &&& match (documents::signatures_in(file), documents::signing_input(file)) {
        (Some(sigs), Some(input)) => forall|i: int|
            0 <= i < signers.len() ==> need.1.contains(#[trigger] signers[i]) && repo::signed(
                sigs,
                input,
                signers[i],
            ),
        _ => false,
    }
}

/// A key that is found under an id has that id, and is one of the keys.
proof fn by_id_holds(keys: Seq<KeyView>, id: Seq<char>)
    requires
        by_id(keys).dom().contains(id),
    ensures
        by_id(keys)[id].id == id,
        keys.contains(by_id(keys)[id]),
    decreases keys.len(),
{
    if keys.len() > 0 {
        order::push_holds(keys.drop_last(), keys.last(), by_id(keys)[id]);
        assert(keys.drop_last().push(keys.last()) =~= keys);
        if id != keys.last().id {
            by_id_holds(keys.drop_last(), id);
        }
    }
}

/// The last signature of a key is one of its signatures.
proof fn last_signatures_hold(sigs: Seq<SignatureView>, id: Seq<char>)
    requires
        last_signatures(sigs).dom().contains(id),
    ensures
        exists|i: int|
            0 <= i < sigs.len() && (#[trigger] sigs[i]).key_id == id && sigs[i].value
                == last_signatures(sigs)[id],
    decreases sigs.len(),
{
    if sigs.len() > 0 {
        let n = sigs.len() - 1;
        assert(sigs[n] == sigs.last());
        if id != sigs.last().key_id {
            let t = sigs.drop_last();
            last_signatures_hold(t, id);
            let i = choose|i: int|
                0 <= i < t.len() && (#[trigger] t[i]).key_id == id && t[i].value
                    == last_signatures(t)[id];
            assert(sigs[i] == t[i]);
        }
    }
}

/// Nothing is accepted that was not signed: behind every file that clients accept stand as many
/// different keys of the role as its threshold asks for, each with a valid signature.
pub proof fn nothing_is_accepted_unsigned(file: Seq<u8>, need: (int, Seq<KeyView>))
    requires
        enough(file, need),
    ensures
        exists|signers: Seq<KeyView>| vouched(file, need, signers),
{
    let sigs = documents::signatures_in(file)->0;
    let input = documents::signing_input(file)->0;
    let last = last_signatures(sigs);
    let table = by_id(need.1);
    let q = |id: Seq<char>| table.dom().contains(id) && keys::accepts(table[id], input, last[id]);
    last_signatures_finite(sigs);
    strmap::listing_exists(last.dom());
    let all = strmap::listing(last.dom());
    valid_signatures_count(all, last, table, input);
    strmap::filter_ascending(all, q);
    let ids = all.filter(q);
    let signers = ids.map_values(|id: Seq<char>| table[id]);
    assert forall|i: int| 0 <= i < signers.len() implies need.1.contains(#[trigger] signers[i])
        && repo::signed(sigs, input, signers[i]) && signers[i].id == ids[i] by {
        assert(ids.contains(ids[i]));
        repo::filter_holds(all, q, ids[i]);
        by_id_holds(need.1, ids[i]);
        assert(all.to_set().contains(ids[i]));
        last_signatures_hold(sigs, ids[i]);
        let j = choose|j: int|
            0 <= j < sigs.len() && (#[trigger] sigs[j]).key_id == ids[i] && sigs[j].value
                == last[ids[i]];
        assert(sigs[j].key_id == signers[i].id && keys::accepts(signers[i], input, sigs[j].value));
    }
    let label = |k: KeyView| k.id;
    assert forall|i: int, j: int| 0 <= i < j < signers.len() implies label(#[trigger] signers[i])
        != label(#[trigger] signers[j]) by {
        assert(text::precedes(ids[i], ids[j]));
        text::precedes_irreflexive(ids[i]);
    }
    assert(vouched(file, need, signers));
}

/// Whether enough keys have signed the metadata of `role`, none of them twice.
pub open spec fn well_signed(files: Files, role: Seq<char>) -> bool {
    match (repo::role_keys_of(files, role), repo::signed_part(files, role)) {
        (Ok(need), Ok((sigs, input))) => {
            &&& 1 <= need.0 <= need.1.filter(|k: KeyView| repo::signed(sigs, input, k)).len()
            &&& repo::one_each(sigs)
        },
        _ => false,
    }
}

/// Whether the key ids are finitely many.
pub open spec fn finite_ids(k: RoleKeysView) -> bool {
    k.key_ids.finite()
}

/// Whether root and `targets` give each of their keys under its own id.
pub open spec fn keys_in_place(files: Files) -> bool {
    &&& repo::root_of(files) matches Ok((_, r)) && documents::keys_sound(r.keys) && finite_ids(r.root)
        && finite_ids(r.targets) && finite_ids(r.snapshot) && finite_ids(r.timestamp)
    &&& repo::targets_of(files, "targets"@) matches Ok((_, t)) && documents::keys_sound(
        t.delegations.keys,
    ) && forall|i: int|
        0 <= i < t.delegations.roles.len() ==> (#[trigger] t.delegations.roles[i]).key_ids.finite()
}

/// Metadata that is well signed has enough signatures for clients.
proof fn well_signed_is_enough(
    files: Files,
    role: Seq<char>,
    k: RoleKeysView,
    keys: Map<Seq<char>, KeyView>,
)
    requires
        well_signed(files, role),
        repo::role_keys_of(files, role) == Ok::<(int, Seq<KeyView>), Fault>(repo::picked(k, keys)),
        finite_ids(k),
        documents::keys_sound(keys),
    ensures
        enough(repo::raw_of(files, role)->0, repo::picked(k, keys)),
        repo::raw_of(files, role) is Some,
        documents::names_metadata(role),
{
    clients_count_the_same_signatures(files, role, k, keys);
}

/// Clients accept a repository that is complete: whose root they get to trust, whose metadata is
/// well signed and has not expired, and whose snapshot and timestamp are up to date.
pub proof fn clients_accept_what_is_complete(files: Files, now: int)
    requires
        files.dom().finite(),
        keys_in_place(files),
        repo::root_history_of(files) matches Ok(history) && trusted_root(history) == repo::root_of(
            files,
        ),
        (repo::root_of(files)->Ok_0).0.expires > now,
        crate::update::up_to_date(files),
        repo::targets_roles_of(files).contains("targets"@),
        well_signed(files, "timestamp"@) && unexpired(files, "timestamp"@, now),
        well_signed(files, "snapshot"@) && unexpired(files, "snapshot"@, now),
        forall|role: Seq<char>| #[trigger]
            repo::targets_roles_of(files).contains(role) ==> well_signed(files, role) && unexpired(
                files,
                role,
                now,
            ),
    ensures
        refused(files, now) is None,
{
    config::different_top_level();
    let root = repo::root_of(files)->Ok_0;
    let r = root.1;
    well_signed_is_enough(files, "timestamp"@, r.timestamp, r.keys);
    well_signed_is_enough(files, "snapshot"@, r.snapshot, r.keys);
    well_signed_is_enough(files, "targets"@, r.targets, r.keys);
    let snapshot = trusted_snapshot(files, root, now)->Ok_0;
    assert(trusted_snapshot(files, root, now) is Ok);
    assert(snapshot.1.dom().contains("targets"@));
    assert(trusted_targets(files, root, snapshot, now) is Ok);
    let targets = trusted_targets(files, root, snapshot, now)->Ok_0;
    let roles = repo::targets_roles_of(files);
    let f = |i: int| delegation_refused(files, targets, snapshot, now, roles[i]);
    assert forall|i: int| 0 <= i < roles.len() implies #[trigger] f(i) is None by {
        let role = roles[i];
        assert(roles.contains(role));
        if role != "targets"@ {
            repo::filter_holds(
                repo::roles_of(files),
                |role: Seq<char>| repo::lists_targets(role),
                role,
            );
            let at = repo::delegation_to(targets, role)->0;
            let d = targets.delegations.roles[at];
            delegation_found(targets, role);
            well_signed_is_enough(
                files,
                role,
                RoleKeysView { threshold: d.threshold, key_ids: d.key_ids },
                targets.delegations.keys,
            );
            assert(snapshot.1.dom().contains(role));
        }
    }
    error::first_none(f, roles.len() as int);
}

/// The position of a delegation is one of the list.
pub proof fn delegation_found(t: TargetsView, role: Seq<char>)
    requires
        repo::delegation_to(t, role) is Some,
    ensures
        0 <= repo::delegation_to(t, role)->0 < t.delegations.roles.len(),
        t.delegations.roles[repo::delegation_to(t, role)->0].name == role,
        forall|j: int|
            0 <= j < repo::delegation_to(t, role)->0 ==> (#[trigger] t.delegations.roles[j]).name
                != role,
{
    let i = choose|i: int|
        0 <= i < t.delegations.roles.len() && (#[trigger] t.delegations.roles[i]).name == role;
    first_at(t, role, i);
}

/// Where there is a delegation to the role, there is a first.
proof fn first_at(t: TargetsView, role: Seq<char>, i: int)
    requires
        0 <= i < t.delegations.roles.len(),
        t.delegations.roles[i].name == role,
    ensures
        exists|k: int|
            0 <= k < t.delegations.roles.len() && (#[trigger] t.delegations.roles[k]).name == role
                && forall|j: int| 0 <= j < k ==> (#[trigger] t.delegations.roles[j]).name != role,
    decreases i,
{
    if exists|j: int| 0 <= j < i && (#[trigger] t.delegations.roles[j]).name == role {
        let j = choose|j: int| 0 <= j < i && (#[trigger] t.delegations.roles[j]).name == role;
        first_at(t, role, j);
    }
}

} // verus!
