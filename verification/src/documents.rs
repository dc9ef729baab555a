//! Signed metadata files: what they say, and how they are written. Reading and writing the format
//! itself is the work of the `tuf` and `serde_json` crates; the functions here hand plain values
//! to them and take plain values back.

use std::collections::{BTreeMap, HashMap, HashSet};

use tuf::crypto::{HashAlgorithm, KeyId};
use tuf::metadata::{
    Delegation, Delegations, Metadata, MetadataDescription, MetadataPath, RawSignedMetadata,
    RoleDefinition, RootMetadata, SignedMetadataBuilder, SnapshotMetadata, TargetDescription,
    TargetPath, TargetsMetadata, TimestampMetadata,
};
use tuf::pouf::{Pouf, Pouf1};
use vstd::prelude::*;

use crate::keys;
use crate::keys::{KeyView, PublicKey, Signature, SignatureView};
use crate::strmap;
use crate::strmap::Value;
use crate::text;
use crate::time;

verus! {

/// What every kind of metadata has: its version, when it expires, and whether it has no fields
/// besides the standard ones.
pub struct HeaderView {
    pub version: int,
    pub expires: int,
    pub plain: bool,
}

/// A threshold of signatures, and the ids of the keys that may give them.
pub struct RoleKeysView {
    pub threshold: int,
    pub key_ids: Set<Seq<char>>,
}

/// What root metadata says.
pub struct RootView {
    pub consistent_snapshot: bool,
    pub keys: Map<Seq<char>, KeyView>,
    pub root: RoleKeysView,
    pub targets: RoleKeysView,
    pub snapshot: RoleKeysView,
    pub timestamp: RoleKeysView,
}

/// A target file: its length, its SHA-256 digest, and all that metadata says of it as text.
pub struct DescriptionView {
    pub length: int,
    pub sha256: Option<Seq<char>>,
    pub text: Seq<char>,
}

/// A role that `targets` delegates paths to.
pub struct DelegationView {
    pub name: Seq<char>,
    pub terminating: bool,
    pub threshold: int,
    pub key_ids: Set<Seq<char>>,
    pub paths: Set<Seq<char>>,
}

/// The delegations of targets metadata, with their keys.
pub struct DelegationsView {
    pub keys: Map<Seq<char>, KeyView>,
    pub roles: Seq<DelegationView>,
}

/// What targets metadata says.
pub struct TargetsView {
    pub targets: Map<Seq<char>, DescriptionView>,
    pub delegations: DelegationsView,
}

/// What snapshot or timestamp metadata says of another file: its version, and whether that is all.
pub struct VersionView {
    pub version: int,
    pub bare: bool,
}

/// What root metadata in `file` says, if it is root metadata.
pub uninterp spec fn root_in(file: Seq<u8>) -> Option<(HeaderView, RootView)>;

/// What targets metadata in `file` says, if it is targets metadata.
pub uninterp spec fn targets_in(file: Seq<u8>) -> Option<(HeaderView, TargetsView)>;

/// What snapshot metadata in `file` says, if it is snapshot metadata.
pub uninterp spec fn snapshot_in(file: Seq<u8>) -> Option<(HeaderView, Map<Seq<char>, VersionView>)>;

/// What timestamp metadata in `file` says, if it is timestamp metadata.
pub uninterp spec fn timestamp_in(file: Seq<u8>) -> Option<(HeaderView, VersionView)>;

/// The signatures in `file`, if it is a signed file.
pub uninterp spec fn signatures_in(file: Seq<u8>) -> Option<Seq<SignatureView>>;

/// The bytes that the signatures in `file` cover, if its content has a canonical form.
pub uninterp spec fn signing_input(file: Seq<u8>) -> Option<Seq<u8>>;

/// Header fields as plain values. In a leap second the nanoseconds go on from one second to two.
#[derive(Debug)]
pub struct RawHeader {
    pub version: u32,
    pub secs: i64,
    pub nanos: u32,
    pub plain: bool,
}

impl View for RawHeader {
    type V = HeaderView;

    open spec fn view(&self) -> HeaderView {
        HeaderView {
            version: self.version as int,
            expires: time::instant(self.secs as int, self.nanos as int),
            plain: self.plain,
        }
    }
}

/// Whether the header is one that parsed metadata can have: the version is not zero, and the time
/// is one that four-digit years reach.
pub open spec fn plausible(h: RawHeader) -> bool {
    h.version >= 1 && -62_167_392_000 <= h.secs <= 253_402_473_600 && h.nanos < time::room()
}

/// A threshold and key ids as plain values.
#[derive(Debug)]
pub struct RawRole {
    pub threshold: u32,
    pub key_ids: Vec<String>,
}

impl View for RawRole {
    type V = RoleKeysView;

    open spec fn view(&self) -> RoleKeysView {
        RoleKeysView {
            threshold: self.threshold as int,
            key_ids: text::views(self.key_ids@).to_set(),
        }
    }
}

/// Parses root metadata with `RawSignedMetadata::parse_untrusted` and `assume_valid` and reads its
/// version, expiry and whether snapshots are consistent: the contract says that these are what
/// `root_in` names, that the version is not zero, and that the expiry, which comes from RFC 3339
/// text, lies within four-digit years.
#[verifier::external_body]
pub(crate) fn read_root(file: &Vec<u8>) -> (r: Option<(RawHeader, bool)>)
    ensures
        r is Some <==> root_in(file@) is Some,
        r matches Some((h, consistent)) ==> (root_in(file@)->0).0 == h@ && (root_in(
            file@,
        )->0).1.consistent_snapshot == consistent && plausible(h),
{
    let raw = RawSignedMetadata::<Pouf1, RootMetadata>::new(file.clone());
    let m = raw.parse_untrusted().ok()?.assume_valid().ok()?;
    let (secs, nanos) = (m.expires().timestamp(), m.expires().timestamp_subsec_nanos());
    let plain = m.additional_fields().is_empty();
    let header = RawHeader { version: m.version(), secs, nanos, plain };
    Some((header, m.consistent_snapshot()))
}

/// The four top-level roles as plain values.
#[derive(Debug)]
pub struct RawRoles {
    pub root: RawRole,
    pub targets: RawRole,
    pub snapshot: RawRole,
    pub timestamp: RawRole,
}

/// Parses root metadata as `read_root` does and reads the threshold and key ids of each role: the
/// contract says that these are what `root_in` names.
#[verifier::external_body]
pub(crate) fn read_root_roles(file: &Vec<u8>) -> (r: Option<RawRoles>)
    ensures
        r is Some <==> root_in(file@) is Some,
        r matches Some(roles) ==> {
            let root = (root_in(file@)->0).1;
            root.root == roles.root@ && root.targets == roles.targets@ && root.snapshot
                == roles.snapshot@ && root.timestamp == roles.timestamp@
        },
{
    let raw = RawSignedMetadata::<Pouf1, RootMetadata>::new(file.clone());
    let m = raw.parse_untrusted().ok()?.assume_valid().ok()?;
    let role = |threshold, ids: &HashSet<KeyId>| RawRole {
        threshold,
        key_ids: ids.iter().map(|k| k.to_string()).collect(),
    };
    Some(RawRoles {
        root: role(m.root().threshold(), m.root().key_ids()),
        targets: role(m.targets().threshold(), m.targets().key_ids()),
        snapshot: role(m.snapshot().threshold(), m.snapshot().key_ids()),
        timestamp: role(m.timestamp().threshold(), m.timestamp().key_ids()),
    })
}

/// Parses root metadata as `read_root` does and reads its keys with `RootMetadata::keys`, in any
/// order: the contract says that these are the keys that `root_in` names, each under its own id.
#[verifier::external_body]
pub(crate) fn read_root_keys(file: &Vec<u8>) -> (r: Option<Vec<(String, PublicKey)>>)
    ensures
        r is Some <==> root_in(file@) is Some,
        r matches Some(k) ==> strmap::pairs_map(k@) == (root_in(file@)->0).1.keys && keys_sound(
            (root_in(file@)->0).1.keys,
        ),
{
    let raw = RawSignedMetadata::<Pouf1, RootMetadata>::new(file.clone());
    let m = raw.parse_untrusted().ok()?.assume_valid().ok()?;
    let one = |k: &tuf::crypto::PublicKey| {
        let definition = serde_json::to_string(k).ok()?;
        Some(PublicKey { id: k.key_id().to_string(), definition })
    };
    m.keys().iter().map(|(id, k)| Some((id.to_string(), one(k)?))).collect()
}

/// What metadata says of a target file.
#[derive(Debug)]
pub struct Description {
    length: u64,
    sha256: Option<String>,
    text: String,
}

impl View for Description {
    type V = DescriptionView;

    closed spec fn view(&self) -> DescriptionView {
        DescriptionView {
            length: self.length as int,
            sha256: match self.sha256 {
                Some(s) => Some(s@),
                None => None,
            },
            text: self.text@,
        }
    }
}

/// What targets metadata in `file` says of the target `path`, if it lists it.
pub open spec fn listed(file: Seq<u8>, path: Seq<char>) -> Option<DescriptionView> {
    match targets_in(file) {
        Some((_, t)) => if t.targets.dom().contains(path) {
            Some(t.targets[path])
        } else {
            None
        },
        None => None,
    }
}

/// The description of a file of the given length with the given SHA-256 digest, if that is a digest
/// in lower-case hexadecimal.
pub uninterp spec fn file_description(length: int, sha256: Seq<char>) -> Option<DescriptionView>;

/// Whether the description was read from metadata or made of a length and a digest.
pub open spec fn genuine(d: DescriptionView) -> bool {
    ||| exists|file: Seq<u8>, path: Seq<char>| #[trigger] listed(file, path) == Some(d)
    ||| exists|length: int, sha256: Seq<char>| #[trigger] file_description(length, sha256) == Some(d)
}

/// Whether each description was read from metadata or made of a length and a digest.
pub open spec fn all_genuine(targets: Map<Seq<char>, DescriptionView>) -> bool {
    forall|path: Seq<char>| #[trigger] targets.dom().contains(path) ==> genuine(targets[path])
}

/// Calls `tuf::metadata::TargetDescription::new` with one SHA-256 digest and nothing else: the
/// contract names the description, and says that it has that length and digest.
#[verifier::external_body]
fn describe_file(length: u64, sha256: &str) -> (r: Option<Description>)
    ensures
        r is Some <==> file_description(length as int, sha256@) is Some,
        r matches Some(d) ==> file_description(length as int, sha256@) == Some(d@)
            && d@.length == length && d@.sha256 == Some(sha256@),
{
    let digest: tuf::crypto::HashValue = serde_json::from_value(sha256.into()).ok()?;
    let hex = digest.to_string();
    let hashes = HashMap::from([(HashAlgorithm::Sha256, digest)]);
    let d = TargetDescription::new(length, hashes, HashMap::new()).ok()?;
    Some(Description { length, sha256: Some(hex), text: serde_json::to_string(&d).ok()? })
}

impl Description {
    #[verifier::type_invariant]
    pub open spec fn is_genuine(self) -> bool {
        genuine(self@)
    }

    /// The description of a file of `length` bytes with the SHA-256 digest `sha256` in lower-case
    /// hexadecimal.
    pub fn new(length: u64, sha256: &str) -> (r: Option<Description>)
        ensures
            r is Some <==> file_description(length as int, sha256@) is Some,
            r matches Some(d) ==> file_description(length as int, sha256@) == Some(d@)
                && d@.length == length && d@.sha256 == Some(sha256@) && genuine(d@),
    {
        describe_file(length, sha256)
    }

    /// The length of the file in bytes.
    pub fn length(&self) -> (r: u64)
        ensures
            r == self@.length,
    {
        self.length
    }

    /// The SHA-256 digest of the file in hexadecimal, if metadata gives it.
    pub fn sha256(&self) -> (r: Option<&String>)
        ensures
            r is Some <==> self@.sha256 is Some,
            r matches Some(s) ==> self@.sha256 == Some(s@),
    {
        self.sha256.as_ref()
    }

    /// All that metadata says of the file, as text.
    pub fn text(&self) -> (r: &String)
        ensures
            r@ == self@.text,
    {
        &self.text
    }
}

impl Value for Description {
    fn dup(&self) -> (r: Self) {
        proof {
            use_type_invariant(self);
        }
        let sha256 = match &self.sha256 {
            Some(s) => Some(s.clone()),
            None => None,
        };
        Description { length: self.length, sha256, text: self.text.clone() }
    }

    fn same_as(&self, other: &Self) -> (r: bool) {
        let same_digest = match (&self.sha256, &other.sha256) {
            (Some(a), Some(b)) => *a == *b,
            (None, None) => true,
            _ => false,
        };
        same_digest && self.length == other.length && self.text == other.text
    }
}

/// Parses targets metadata with `RawSignedMetadata::parse_untrusted` and `assume_valid` and reads
/// its version and expiry: the contract says that they are what `targets_in` names, that the version
/// is not zero, and that the expiry lies within four-digit years.
#[verifier::external_body]
pub(crate) fn read_targets_header(file: &Vec<u8>) -> (r: Option<RawHeader>)
    ensures
        r is Some <==> targets_in(file@) is Some,
        r matches Some(h) ==> (targets_in(file@)->0).0 == h@ && plausible(h),
{
    let raw = RawSignedMetadata::<Pouf1, TargetsMetadata>::new(file.clone());
    let m = raw.parse_untrusted().ok()?.assume_valid().ok()?;
    let (secs, nanos) = (m.expires().timestamp(), m.expires().timestamp_subsec_nanos());
    let plain = m.additional_fields().is_empty();
    Some(RawHeader { version: m.version(), secs, nanos, plain })
}

/// Parses targets metadata as `read_targets_header` does and reads its targets with
/// `TargetsMetadata::targets`, in any order: the contract says that they are what `targets_in` names.
#[verifier::external_body]
pub(crate) fn read_targets(file: &Vec<u8>) -> (r: Option<Vec<(String, Description)>>)
    ensures
        r is Some <==> targets_in(file@) is Some,
        r matches Some(t) ==> strmap::pairs_map(t@) == (targets_in(file@)->0).1.targets,
{
    let raw = RawSignedMetadata::<Pouf1, TargetsMetadata>::new(file.clone());
    let m = raw.parse_untrusted().ok()?.assume_valid().ok()?;
    let mut targets = vec![];
    for (path, d) in m.targets() {
        let sha256 = d.hashes().get(&HashAlgorithm::Sha256).map(|h| h.to_string());
        let text = serde_json::to_string(d).ok()?;
        targets.push((path.to_string(), Description { length: d.length(), sha256, text }));
    }
    Some(targets)
}

/// A delegated role as plain values.
#[derive(Debug)]
pub struct RawDelegation {
    pub name: String,
    pub terminating: bool,
    pub threshold: u32,
    pub key_ids: Vec<String>,
    pub paths: Vec<String>,
}

impl View for RawDelegation {
    type V = DelegationView;

    open spec fn view(&self) -> DelegationView {
        DelegationView {
            name: self.name@,
            terminating: self.terminating,
            threshold: self.threshold as int,
            key_ids: text::views(self.key_ids@).to_set(),
            paths: text::views(self.paths@).to_set(),
        }
    }
}

/// Parses targets metadata as `read_targets_header` does and reads the keys of its delegations with
/// `Delegations::keys`, in any order: the contract says that they are what `targets_in` names, that
/// each key's definition gives its id, and that delegations that were read can be written.
#[verifier::external_body]
pub(crate) fn read_delegation_keys(file: &Vec<u8>) -> (r: Option<Vec<(String, PublicKey)>>)
    ensures
        r is Some <==> targets_in(file@) is Some,
        r matches Some(k) ==> strmap::pairs_map(k@) == (targets_in(file@)->0).1.delegations.keys
            && keys_defined((targets_in(file@)->0).1.delegations.keys) && delegations_text(
            (targets_in(file@)->0).1.delegations,
        ) is Some,
{
    let raw = RawSignedMetadata::<Pouf1, TargetsMetadata>::new(file.clone());
    let m = raw.parse_untrusted().ok()?.assume_valid().ok()?;
    let one = |k: &tuf::crypto::PublicKey| {
        let definition = serde_json::to_string(k).ok()?;
        Some(PublicKey { id: k.key_id().to_string(), definition })
    };
    m.delegations().keys().iter().map(|(id, k)| Some((id.to_string(), one(k)?))).collect()
}

/// Parses targets metadata as `read_targets_header` does and reads its delegations with
/// `Delegations::roles`: the contract says that they are what `targets_in` names.
#[verifier::external_body]
pub(crate) fn read_delegations(file: &Vec<u8>) -> (r: Option<Vec<RawDelegation>>)
    ensures
        r is Some <==> targets_in(file@) is Some,
        r matches Some(d) ==> text::views(d@) == (targets_in(file@)->0).1.delegations.roles,
{
    let raw = RawSignedMetadata::<Pouf1, TargetsMetadata>::new(file.clone());
    let m = raw.parse_untrusted().ok()?.assume_valid().ok()?;
    Some(m.delegations().roles().iter().map(|d| RawDelegation {
        name: d.name().to_string(),
        terminating: d.terminating(),
        threshold: d.threshold(),
        key_ids: d.key_ids().iter().map(|k| k.to_string()).collect(),
        paths: d.paths().iter().map(|p| p.to_string()).collect(),
    }).collect())
}

/// A version as plain values.
#[derive(Debug)]
pub struct RawVersion {
    pub version: u32,
    /// Whether a length is given.
    pub sized: bool,
    /// Whether a digest is given.
    pub hashed: bool,
}

impl View for RawVersion {
    type V = VersionView;

    open spec fn view(&self) -> VersionView {
        VersionView { version: self.version as int, bare: !self.sized && !self.hashed }
    }
}

impl Value for RawVersion {
    fn dup(&self) -> (r: Self) {
        RawVersion { version: self.version, sized: self.sized, hashed: self.hashed }
    }

    fn same_as(&self, other: &Self) -> (r: bool) {
        self.version == other.version && (self.sized || self.hashed) == (other.sized
            || other.hashed)
    }
}

/// Parses snapshot metadata with `RawSignedMetadata::parse_untrusted` and `assume_valid` and reads
/// its version, expiry and the versions it lists, these in any order: the contract says that they
/// are what `snapshot_in` names.
#[verifier::external_body]
pub(crate) fn read_snapshot(file: &Vec<u8>) -> (r: Option<(RawHeader, Vec<(String, RawVersion)>)>)
    ensures
        r is Some <==> snapshot_in(file@) is Some,
        r matches Some((h, v)) ==> (snapshot_in(file@)->0).0 == h@ && strmap::pairs_map(v@)
            == (snapshot_in(file@)->0).1 && plausible(h),
{
    let raw = RawSignedMetadata::<Pouf1, SnapshotMetadata>::new(file.clone());
    let m = raw.parse_untrusted().ok()?.assume_valid().ok()?;
    let (secs, nanos) = (m.expires().timestamp(), m.expires().timestamp_subsec_nanos());
    let plain = m.additional_fields().is_empty();
    let header = RawHeader { version: m.version(), secs, nanos, plain };
    let one = |d: &MetadataDescription<TargetsMetadata>| RawVersion {
        version: d.version(),
        sized: d.length().is_some(),
        hashed: !d.hashes().is_empty(),
    };
    Some((header, m.meta().iter().map(|(path, d)| (path.to_string(), one(d))).collect()))
}

/// Parses timestamp metadata with `RawSignedMetadata::parse_untrusted` and `assume_valid` and reads
/// its version, expiry and the version of the snapshot: the contract says that they are what
/// `timestamp_in` names.
#[verifier::external_body]
pub(crate) fn read_timestamp(file: &Vec<u8>) -> (r: Option<(RawHeader, RawVersion)>)
    ensures
        r is Some <==> timestamp_in(file@) is Some,
        r matches Some((h, v)) ==> timestamp_in(file@) == Some((h@, v@)) && plausible(h),
{
    let raw = RawSignedMetadata::<Pouf1, TimestampMetadata>::new(file.clone());
    let m = raw.parse_untrusted().ok()?.assume_valid().ok()?;
    let (secs, nanos) = (m.expires().timestamp(), m.expires().timestamp_subsec_nanos());
    let plain = m.additional_fields().is_empty();
    let header = RawHeader { version: m.version(), secs, nanos, plain };
    let (sized, hashed) = (m.snapshot().length().is_some(), !m.snapshot().hashes().is_empty());
    Some((header, RawVersion { version: m.snapshot().version(), sized, hashed }))
}

/// The text of a threshold and key ids, if a role can have them.
pub uninterp spec fn role_text(r: RoleKeysView) -> Option<Seq<char>>;

/// Calls `RoleDefinition::new` and writes the definition as JSON: the contract only names the text,
/// which depends on the threshold and the key ids alone.
#[verifier::external_body]
pub(crate) fn write_role(role: &RawRole) -> (r: Option<String>)
    ensures
        r is Some <==> role_text(role@) is Some,
        r matches Some(t) ==> role_text(role@) == Some(t@),
{
    let ids = role.key_ids.iter().map(|k| k.parse().ok()).collect::<Option<_>>()?;
    serde_json::to_string(&RoleDefinition::<RootMetadata>::new(role.threshold, ids).ok()?).ok()
}

/// The texts of the four top-level roles.
pub struct RoleTexts {
    pub root: Seq<char>,
    pub targets: Seq<char>,
    pub snapshot: Seq<char>,
    pub timestamp: Seq<char>,
}

/// The texts of the top-level roles of root metadata, if they can have them.
pub open spec fn role_texts(r: RootView) -> Option<RoleTexts> {
    match (role_text(r.root), role_text(r.targets), role_text(r.snapshot), role_text(r.timestamp)) {
        (Some(root), Some(targets), Some(snapshot), Some(timestamp)) => Some(
            RoleTexts { root, targets, snapshot, timestamp },
        ),
        _ => None,
    }
}

/// The text of keys by id, if they can be written.
pub uninterp spec fn keys_text(keys: Map<Seq<char>, KeyView>) -> Option<Seq<char>>;

/// Reads the definitions as `tuf::crypto::PublicKey` and writes them as JSON, by id: the contract
/// only names the text, which depends on the ids and definitions alone.
#[verifier::external_body]
pub(crate) fn write_keys(keys: &Vec<(String, PublicKey)>) -> (r: Option<String>)
    requires
        strmap::distinct_names(keys@),
    ensures
        r is Some <==> keys_text(strmap::pairs_map(keys@)) is Some,
        r matches Some(t) ==> keys_text(strmap::pairs_map(keys@)) == Some(t@),
{
    let mut table = BTreeMap::<KeyId, tuf::crypto::PublicKey>::new();
    for (id, key) in keys {
        table.insert(id.parse().ok()?, serde_json::from_str(&key.definition).ok()?);
    }
    serde_json::to_string(&table).ok()
}

/// The file of root metadata without signatures that expires at the given second, with the given
/// texts of its keys and roles, if it can be written.
pub uninterp spec fn root_file(
    version: int,
    secs: int,
    consistent_snapshot: bool,
    keys: Seq<char>,
    roles: RoleTexts,
) -> Option<Seq<u8>>;

/// The texts of the four top-level roles as plain values.
#[derive(Debug)]
pub struct RawRoleTexts {
    pub root: String,
    pub targets: String,
    pub snapshot: String,
    pub timestamp: String,
}

impl View for RawRoleTexts {
    type V = RoleTexts;

    open spec fn view(&self) -> RoleTexts {
        RoleTexts {
            root: self.root@,
            targets: self.targets@,
            snapshot: self.snapshot@,
            timestamp: self.timestamp@,
        }
    }
}

/// The header of a file that was written with the given version and expiry.
pub open spec fn written_header(version: int, secs: int) -> HeaderView {
    HeaderView { version, expires: time::instant(secs, 0), plain: true }
}

/// Whether the file is signed, by no key yet, and has a canonical form.
pub open spec fn unsigned(file: Seq<u8>) -> bool {
    signatures_in(file) == Some(Seq::<SignatureView>::empty()) && signing_input(file) is Some
}

/// Whether each key's definition gives its id.
pub open spec fn keys_defined(keys: Map<Seq<char>, KeyView>) -> bool {
    forall|id: Seq<char>| #[trigger] keys.dom().contains(id) ==> keys::key_sound(keys[id])
}

/// Whether each key's definition gives its id, and the key stands under it.
pub open spec fn keys_sound(keys: Map<Seq<char>, KeyView>) -> bool {
    keys_defined(keys) && forall|id: Seq<char>| #[trigger]
        keys.dom().contains(id) ==> keys[id].id == id
}

/// Writes root metadata with `RootMetadata::new`, `SignedMetadataBuilder` and `to_raw`: the contract
/// names the file, and says that parsing it gives back what was written, where the keys stand under
/// their own ids, that it has no signatures yet, and that it is no targets metadata.
#[verifier::external_body]
pub(crate) fn write_root(
    version: u32,
    secs: i64,
    consistent: bool,
    keys: &str,
    roles: &RawRoleTexts,
) -> (r: Option<Vec<u8>>)
    ensures
        r is Some <==> root_file(version as int, secs as int, consistent, keys@, roles@) is Some,
        r matches Some(f) ==> {
            &&& root_file(version as int, secs as int, consistent, keys@, roles@) == Some(f@)
            &&& unsigned(f@) && root_in(f@) is Some && targets_in(f@) is None
            &&& (root_in(f@)->0).0 == written_header(version as int, secs as int)
            &&& forall|root: RootView| #[trigger]
                role_texts(root) == Some(roles@) && keys_text(root.keys) == Some(keys@)
                    && keys_sound(root.keys) && root.consistent_snapshot == consistent ==> (root_in(
                    f@,
                )->0).1 == root
        },
{
    let table = serde_json::from_str(keys).ok()?;
    let root = serde_json::from_str(&roles.root).ok()?;
    let targets = serde_json::from_str(&roles.targets).ok()?;
    let snapshot = serde_json::from_str(&roles.snapshot).ok()?;
    let timestamp = serde_json::from_str(&roles.timestamp).ok()?;
    let expires = chrono::DateTime::from_timestamp(secs, 0)?;
    let m = RootMetadata::new(
        version, expires, consistent, table, root, snapshot, targets, timestamp, HashMap::new(),
    ).ok()?;
    let signed = SignedMetadataBuilder::<Pouf1, _>::from_metadata(&m).ok()?.build();
    Some(signed.to_raw().ok()?.as_bytes().to_vec())
}

/// The text of a delegation, if it is such as metadata can hold.
pub uninterp spec fn delegation_text(d: DelegationView) -> Option<Seq<char>>;

/// Calls `Delegation::new` and writes the delegation as JSON: the contract only names the text,
/// which depends on the delegation alone.
#[verifier::external_body]
pub(crate) fn write_delegation(d: &RawDelegation) -> (r: Option<String>)
    ensures
        r is Some <==> delegation_text(d@) is Some,
        r matches Some(t) ==> delegation_text(d@) == Some(t@),
{
    let ids = d.key_ids.iter().map(|k| k.parse().ok()).collect::<Option<_>>()?;
    let paths = d.paths.iter().map(|p| TargetPath::new(p.clone()).ok()).collect::<Option<_>>()?;
    let name = MetadataPath::new(d.name.clone()).ok()?;
    serde_json::to_string(&Delegation::new(name, d.terminating, d.threshold, ids, paths).ok()?).ok()
}

/// The texts of delegations, if they are such as metadata can hold.
pub open spec fn delegation_texts(roles: Seq<DelegationView>) -> Option<Seq<Seq<char>>>
    decreases roles.len(),
{
    if roles.len() == 0 {
        Some(Seq::empty())
    } else {
        match (delegation_texts(roles.drop_last()), delegation_text(roles.last())) {
            (Some(earlier), Some(t)) => Some(earlier.push(t)),
            _ => None,
        }
    }
}

/// The text of delegations with the given texts of their keys and roles, if no two of the roles are
/// the same.
pub uninterp spec fn combined_text(keys: Seq<char>, roles: Seq<Seq<char>>) -> Option<Seq<char>>;

/// Calls `Delegations::new` and writes the delegations as JSON: the contract only names the text,
/// which depends on the texts of the keys and roles alone.
#[verifier::external_body]
pub(crate) fn write_delegations(keys: &str, roles: &Vec<String>) -> (r: Option<String>)
    ensures
        r is Some <==> combined_text(keys@, text::views(roles@)) is Some,
        r matches Some(t) ==> combined_text(keys@, text::views(roles@)) == Some(t@),
{
    let mut list = vec![];
    for role in roles {
        list.push(serde_json::from_str(role).ok()?);
    }
    serde_json::to_string(&Delegations::new(serde_json::from_str(keys).ok()?, list).ok()?).ok()
}

/// The text of delegations, if they are such as metadata can hold.
pub open spec fn delegations_text(d: DelegationsView) -> Option<Seq<char>> {
    match (keys_text(d.keys), delegation_texts(d.roles)) {
        (Some(keys), Some(roles)) => combined_text(keys, roles),
        _ => None,
    }
}

/// The file of targets metadata without signatures that expires at the given second, with the
/// texts of its targets and of its delegations, if it can be written.
pub uninterp spec fn targets_file(
    version: int,
    secs: int,
    targets: Map<Seq<char>, Seq<char>>,
    delegations: Seq<char>,
) -> Option<Seq<u8>>;

/// The texts of the descriptions.
pub open spec fn texts(targets: Map<Seq<char>, DescriptionView>) -> Map<Seq<char>, Seq<char>> {
    targets.map_values(|d: DescriptionView| d.text)
}

/// Whether the delegations are in the order of their names.
pub open spec fn in_name_order(roles: Seq<DelegationView>) -> bool {
    strmap::ascending(roles.map_values(|d: DelegationView| d.name))
}

/// Whether `a` are the delegations `b`, put in the order of their names.
pub open spec fn arranged(a: DelegationsView, b: DelegationsView) -> bool {
    &&& a.keys == b.keys
    &&& in_name_order(a.roles)
    &&& a.roles.to_multiset() == b.roles.to_multiset()
}

/// Whether `a` are the delegations `b`, in the same order where these are in the order of their names.
pub open spec fn same_delegations(a: DelegationsView, b: DelegationsView) -> bool {
    &&& a.keys == b.keys
    &&& a.roles.to_multiset() == b.roles.to_multiset()
    &&& in_name_order(b.roles) ==> a.roles == b.roles
}

/// Delegations that are put in the order of their names stay the same.
pub proof fn arranged_same(a: DelegationsView, b: DelegationsView)
    requires
        arranged(a, b),
    ensures
        same_delegations(a, b),
{
    broadcast use vstd::seq_lib::group_to_multiset_ensures;

    if in_name_order(b.roles) {
        let f = |d: DelegationView| d.name;
        let x = a.roles.map_values(f);
        let y = b.roles.map_values(f);
        assert forall|d: DelegationView| #[trigger] a.roles.contains(d) <==> b.roles.contains(d) by {
            assert(a.roles.contains(d) <==> a.roles.to_multiset().count(d) > 0);
            assert(b.roles.contains(d) <==> b.roles.to_multiset().count(d) > 0);
        }
        assert(x.to_set() =~= y.to_set()) by {
            assert forall|name: Seq<char>| x.contains(name) implies y.contains(name) by {
                let i = choose|i: int| 0 <= i < x.len() && x[i] == name;
                assert(a.roles.contains(a.roles[i]));
                assert(b.roles.contains(a.roles[i]));
                let j = choose|j: int| 0 <= j < b.roles.len() && b.roles[j] == a.roles[i];
                assert(y[j] == name);
            }
            assert forall|name: Seq<char>| y.contains(name) implies x.contains(name) by {
                let i = choose|i: int| 0 <= i < y.len() && y[i] == name;
                assert(a.roles.contains(b.roles[i]));
                let j = choose|j: int| 0 <= j < a.roles.len() && a.roles[j] == b.roles[i];
                assert(x[j] == name);
            }
        }
        strmap::listing_is(x, x.to_set());
        strmap::listing_is(y, x.to_set());
        assert(x.len() == a.roles.len() && y.len() == b.roles.len());
        assert forall|i: int| 0 <= i < a.roles.len() implies a.roles[i] == b.roles[i] by {
            assert(a.roles.contains(a.roles[i]));
            assert(b.roles.contains(a.roles[i]));
            let j = choose|j: int| 0 <= j < b.roles.len() && b.roles[j] == a.roles[i];
            assert(y[j] == x[i] && y[i] == x[i]);
            text::precedes_irreflexive(y[i]);
        }
        assert(a.roles =~= b.roles);
    }
}

/// Whether `file` is targets metadata with the given targets and delegations, these in the order of
/// their names, and no root metadata.
pub open spec fn targets_read_back(file: Seq<u8>, t: TargetsView) -> bool {
    &&& targets_in(file) matches Some((_, u)) && u.targets == t.targets && arranged(
        u.delegations,
        t.delegations,
    )
    &&& root_in(file) is None
}

/// Writes targets metadata with `TargetsMetadata::new`, `SignedMetadataBuilder` and `to_raw`: the
/// contract names the file, and says that it has no signatures yet, that it is no root metadata, and
/// that parsing it gives back the version and expiry. It gives back all that was written where the
/// descriptions were read from metadata or made of a length and a digest, and the keys of the
/// delegations are what their definitions say, but for the order of the delegations: in the file it
/// is that of their names. (What `tuf` writes has no fractional numbers, which might be read back
/// differently: it refuses to write them.)
#[verifier::external_body]
pub(crate) fn write_targets(
    version: u32,
    secs: i64,
    targets: &Vec<(String, String)>,
    delegations: &str,
) -> (r: Option<Vec<u8>>)
    requires
        strmap::distinct_names(targets@),
    ensures
        r is Some <==> targets_file(
            version as int,
            secs as int,
            strmap::pairs_map(targets@),
            delegations@,
        ) is Some,
        r matches Some(f) ==> {
            &&& targets_file(
                version as int,
                secs as int,
                strmap::pairs_map(targets@),
                delegations@,
            ) == Some(f@)
            &&& unsigned(f@) && targets_in(f@) is Some
            &&& (targets_in(f@)->0).0 == written_header(version as int, secs as int)
            &&& forall|t: TargetsView|
                #![trigger texts(t.targets), delegations_text(t.delegations)]
                texts(t.targets) == strmap::pairs_map(targets@) && all_genuine(t.targets)
                    && delegations_text(t.delegations) == Some(delegations@) && keys_defined(
                    t.delegations.keys,
                ) ==> targets_read_back(f@, t)
            &&& root_in(f@) is None
        },
{
    let mut files = HashMap::new();
    for (path, d) in targets {
        files.insert(TargetPath::new(path.as_str()).ok()?, serde_json::from_str(d).ok()?);
    }
    let expires = chrono::DateTime::from_timestamp(secs, 0)?;
    let delegations = serde_json::from_str(delegations).ok()?;
    let m = TargetsMetadata::new(version, expires, files, delegations, HashMap::new()).ok()?;
    let signed = SignedMetadataBuilder::<Pouf1, _>::from_metadata(&m).ok()?.build();
    Some(signed.to_raw().ok()?.as_bytes().to_vec())
}

/// The file of snapshot metadata without signatures that lists the given versions and expires at
/// the given second, if it can be written.
pub uninterp spec fn snapshot_file(
    version: int,
    secs: int,
    versions: Map<Seq<char>, VersionView>,
) -> Option<Seq<u8>>;

/// Whether nothing but versions is listed.
pub open spec fn all_bare(versions: Map<Seq<char>, VersionView>) -> bool {
    forall|name: Seq<char>| #[trigger] versions.dom().contains(name) ==> versions[name].bare
}

/// Writes snapshot metadata with `SnapshotMetadata::new`, `SignedMetadataBuilder` and `to_raw`: the
/// contract names the file, and says that parsing it gives back what was written and that it has
/// no signatures yet.
#[verifier::external_body]
pub(crate) fn write_snapshot(version: u32, secs: i64, versions: &Vec<(String, RawVersion)>) -> (r: Option<
    Vec<u8>,
>)
    requires
        strmap::distinct_names(versions@),
        all_bare(strmap::pairs_map(versions@)),
    ensures
        r is Some <==> snapshot_file(
            version as int,
            secs as int,
            strmap::pairs_map(versions@),
        ) is Some,
        r matches Some(f) ==> {
            &&& snapshot_file(version as int, secs as int, strmap::pairs_map(versions@)) == Some(f@)
            &&& unsigned(f@)
            &&& snapshot_in(f@) == Some(
                (written_header(version as int, secs as int), strmap::pairs_map(versions@)),
            )
        },
{
    let mut meta = HashMap::new();
    for (role, v) in versions {
        let d = MetadataDescription::new(v.version, None, HashMap::new()).ok()?;
        meta.insert(MetadataPath::new(role.clone()).ok()?, d);
    }
    let expires = chrono::DateTime::from_timestamp(secs, 0)?;
    let m = SnapshotMetadata::new(version, expires, meta, HashMap::new()).ok()?;
    let signed = SignedMetadataBuilder::<Pouf1, _>::from_metadata(&m).ok()?.build();
    Some(signed.to_raw().ok()?.as_bytes().to_vec())
}

/// The file of timestamp metadata without signatures that names the given version of the snapshot
/// and expires at the given second, if it can be written.
pub uninterp spec fn timestamp_file(version: int, secs: int, snapshot: int) -> Option<Seq<u8>>;

/// Writes timestamp metadata with `TimestampMetadata::new`, `SignedMetadataBuilder` and `to_raw`:
/// the contract names the file, and says that parsing it gives back what was written and that it
/// has no signatures yet.
#[verifier::external_body]
pub(crate) fn write_timestamp(version: u32, secs: i64, snapshot: u32) -> (r: Option<Vec<u8>>)
    ensures
        r is Some <==> timestamp_file(version as int, secs as int, snapshot as int) is Some,
        r matches Some(f) ==> {
            &&& timestamp_file(version as int, secs as int, snapshot as int) == Some(f@)
            &&& unsigned(f@)
            &&& timestamp_in(f@) == Some(
                (
                    written_header(version as int, secs as int),
                    VersionView { version: snapshot as int, bare: true },
                ),
            )
        },
{
    let expires = chrono::DateTime::from_timestamp(secs, 0)?;
    let described = MetadataDescription::new(snapshot, None, HashMap::new()).ok()?;
    let m = TimestampMetadata::new(version, expires, described, HashMap::new()).ok()?;
    let signed = SignedMetadataBuilder::<Pouf1, _>::from_metadata(&m).ok()?.build();
    Some(signed.to_raw().ok()?.as_bytes().to_vec())
}

/// Reads the signatures of a signed file with `RawSignedMetadata::parse_untrusted` and `signatures`:
/// the contract only names them; they depend on the file alone.
#[verifier::external_body]
pub(crate) fn read_signatures(file: &Vec<u8>) -> (r: Option<Vec<Signature>>)
    ensures
        r is Some <==> signatures_in(file@) is Some,
        r matches Some(s) ==> signatures_in(file@) == Some(text::views(s@)),
{
    let raw = RawSignedMetadata::<Pouf1, TargetsMetadata>::new(file.clone());
    let signed = raw.parse_untrusted().ok()?;
    let one = |s: &tuf::crypto::Signature| Signature {
        key_id: s.key_id().to_string(),
        value: s.value().as_bytes().to_vec(),
    };
    Some(signed.signatures().iter().map(one).collect())
}

/// Calls `Pouf1::canonicalize` on the part of a signed file that signatures cover: the contract
/// only names the bytes, which depend on the file alone.
#[verifier::external_body]
pub(crate) fn canonical_form(file: &Vec<u8>) -> (r: Option<Vec<u8>>)
    ensures
        r is Some <==> signing_input(file@) is Some,
        r matches Some(b) ==> signing_input(file@) == Some(b@),
{
    let whole: serde_json::Value = serde_json::from_slice(file).ok()?;
    Pouf1::canonicalize(whole.get("signed")?).ok()
}

/// Whether two files say the same, whatever their signatures.
pub open spec fn same_content(a: Seq<u8>, b: Seq<u8>) -> bool {
    &&& root_in(a) == root_in(b)
    &&& targets_in(a) == targets_in(b)
    &&& snapshot_in(a) == snapshot_in(b)
    &&& timestamp_in(a) == timestamp_in(b)
    &&& signing_input(a) == signing_input(b)
}

/// The file with the same content as `file` and the given signatures.
pub uninterp spec fn resigned(file: Seq<u8>, signatures: Seq<SignatureView>) -> Option<Seq<u8>>;

/// Puts the given signatures beside the content of a signed file and writes both with `serde_json`:
/// the contract names the new file, and says that it has the same content and exactly those
/// signatures. Key ids are 64 bytes long, which is what reading them back takes.
#[verifier::external_body]
pub(crate) fn replace_signatures(file: &Vec<u8>, signatures: &Vec<Signature>) -> (r: Option<Vec<u8>>)
    requires
        signatures_in(file@) is Some,
        signing_input(file@) is Some,
    ensures
        r is Some <==> resigned(file@, text::views(signatures@)) is Some,
        r matches Some(f) ==> {
            &&& resigned(file@, text::views(signatures@)) == Some(f@)
            &&& same_content(f@, file@)
            &&& signatures_in(f@) == Some(text::views(signatures@))
        },
{
    let mut whole: serde_json::Value = serde_json::from_slice(file).ok()?;
    let mut list = vec![];
    for s in signatures {
        let id: KeyId = s.key_id.parse().ok()?;
        let value = tuf::crypto::SignatureValue::new(s.value.clone());
        let sig = serde_json::to_value(value).ok()?;
        let fields = [("keyid", serde_json::to_value(id).ok()?), ("sig", sig)];
        list.push(fields.into_iter().collect::<serde_json::Value>());
    }
    let parts = [("signatures", list.into()), ("signed", whole.get_mut("signed")?.take())];
    serde_json::to_vec(&parts.into_iter().collect::<serde_json::Value>()).ok()
}

/// The JSON text in `file` in a layout for people, if it is JSON.
pub uninterp spec fn readable(file: Seq<u8>) -> Option<Seq<u8>>;

/// Calls `serde_json::from_slice` and `serde_json::to_vec_pretty`: the contract names the text, and
/// says of a signed file with a canonical form that it is JSON, and that the new text with a line
/// feed after it has the same content and signatures.
#[verifier::external_body]
pub(crate) fn make_readable(file: &Vec<u8>) -> (r: Option<Vec<u8>>)
    ensures
        r is Some <==> readable(file@) is Some,
        r matches Some(f) ==> readable(file@) == Some(f@),
        signatures_in(file@) is Some && signing_input(file@) is Some ==> r is Some && same_content(
            r->0@.push(10u8),
            file@,
        ) && signatures_in(r->0@.push(10u8)) == signatures_in(file@),
{
    let value: serde_json::Value = serde_json::from_slice(file).ok()?;
    serde_json::to_vec_pretty(&value).ok()
}

/// Whether `name` can name metadata.
pub uninterp spec fn names_metadata(name: Seq<char>) -> bool;

/// Calls `tuf::metadata::MetadataPath::new`: the contract only names whether it succeeds, which
/// depends on the name alone.
#[verifier::external_body]
pub(crate) fn check_metadata_name(name: &str) -> (r: bool)
    ensures
        r == names_metadata(name@),
{
    MetadataPath::new(name.to_owned()).is_ok()
}

/// Whether `path` can name a target.
pub uninterp spec fn names_target(path: Seq<char>) -> bool;

/// Calls `tuf::metadata::TargetPath::new`: the contract only names whether it succeeds, which
/// depends on the path alone.
#[verifier::external_body]
pub(crate) fn check_target_path(path: &str) -> (r: bool)
    ensures
        r == names_target(path@),
{
    TargetPath::new(path).is_ok()
}

} // verus!
