//! Parsed metadata: the four kinds of it, their content, and turning files into content and back.

use vstd::prelude::*;

use crate::documents;
use crate::documents::{
    DelegationView, DelegationsView, Description, HeaderView, RawDelegation, RawHeader, RawRole,
    RawRoleTexts, RawVersion, RoleKeysView, RootView, TargetsView, VersionView,
};
use crate::keys::PublicKey;
use crate::strmap;
use crate::strmap::{StrMap, StrSet, Value};
use crate::text;
use crate::time;
use crate::time::Time;

verus! {

broadcast use crate::text::views_push;

/// The kinds of metadata.
#[derive(Clone, Copy, Debug, PartialEq, Eq, Structural)]
pub enum Kind {
    Root,
    Targets,
    Snapshot,
    Timestamp,
}

/// The kind of metadata that `role` has: whatever is not another top-level role lists targets.
pub open spec fn kind_of(role: Seq<char>) -> Kind {
    if role == "root"@ {
        Kind::Root
    } else if role == "snapshot"@ {
        Kind::Snapshot
    } else if role == "timestamp"@ {
        Kind::Timestamp
    } else {
        Kind::Targets
    }
}

/// The kind of metadata that `role` has.
pub fn kind(role: &str) -> (r: Kind)
    ensures
        r == kind_of(role@),
{
    if text::same(role, "root") {
        Kind::Root
    } else if text::same(role, "snapshot") {
        Kind::Snapshot
    } else if text::same(role, "timestamp") {
        Kind::Timestamp
    } else {
        Kind::Targets
    }
}

/// A threshold of signatures, and the ids of the keys that may give them.
#[derive(Debug)]
pub struct RoleKeys {
    pub threshold: u32,
    pub key_ids: StrSet,
}

impl View for RoleKeys {
    type V = RoleKeysView;

    open spec fn view(&self) -> RoleKeysView {
        RoleKeysView { threshold: self.threshold as int, key_ids: self.key_ids@ }
    }
}

impl Value for RoleKeys {
    fn dup(&self) -> (r: Self) {
        RoleKeys { threshold: self.threshold, key_ids: self.key_ids.dup() }
    }

    fn same_as(&self, other: &Self) -> (r: bool) {
        self.threshold == other.threshold && self.key_ids.same_as(&other.key_ids)
    }
}

/// What root metadata says.
#[derive(Debug)]
pub struct Root {
    pub consistent_snapshot: bool,
    pub keys: StrMap<PublicKey>,
    pub root: RoleKeys,
    pub targets: RoleKeys,
    pub snapshot: RoleKeys,
    pub timestamp: RoleKeys,
}

impl View for Root {
    type V = RootView;

    open spec fn view(&self) -> RootView {
        RootView {
            consistent_snapshot: self.consistent_snapshot,
            keys: self.keys@,
            root: self.root@,
            targets: self.targets@,
            snapshot: self.snapshot@,
            timestamp: self.timestamp@,
        }
    }
}

impl Value for Root {
    fn dup(&self) -> (r: Self) {
        Root {
            consistent_snapshot: self.consistent_snapshot,
            keys: self.keys.dup(),
            root: self.root.dup(),
            targets: self.targets.dup(),
            snapshot: self.snapshot.dup(),
            timestamp: self.timestamp.dup(),
        }
    }

    fn same_as(&self, other: &Self) -> (r: bool) {
        self.consistent_snapshot == other.consistent_snapshot && self.keys.same_as(&other.keys)
            && self.root.same_as(&other.root) && self.targets.same_as(&other.targets)
            && self.snapshot.same_as(&other.snapshot) && self.timestamp.same_as(&other.timestamp)
    }
}

/// A role that `targets` delegates paths to.
#[derive(Debug)]
pub struct Delegation {
    pub name: String,
    pub terminating: bool,
    pub threshold: u32,
    pub key_ids: StrSet,
    pub paths: StrSet,
}

impl View for Delegation {
    type V = DelegationView;

    open spec fn view(&self) -> DelegationView {
        DelegationView {
            name: self.name@,
            terminating: self.terminating,
            threshold: self.threshold as int,
            key_ids: self.key_ids@,
            paths: self.paths@,
        }
    }
}

impl Value for Delegation {
    fn dup(&self) -> (r: Self) {
        Delegation {
            name: self.name.clone(),
            terminating: self.terminating,
            threshold: self.threshold,
            key_ids: self.key_ids.dup(),
            paths: self.paths.dup(),
        }
    }

    fn same_as(&self, other: &Self) -> (r: bool) {
        self.name == other.name && self.terminating == other.terminating && self.threshold
            == other.threshold && self.key_ids.same_as(&other.key_ids) && self.paths.same_as(
            &other.paths,
        )
    }
}

/// The delegations of targets metadata, with their keys.
#[derive(Debug)]
pub struct Delegations {
    pub keys: StrMap<PublicKey>,
    pub roles: Vec<Delegation>,
}

impl View for Delegations {
    type V = DelegationsView;

    open spec fn view(&self) -> DelegationsView {
        DelegationsView { keys: self.keys@, roles: text::views(self.roles@) }
    }
}

/// No delegations.
pub open spec fn no_delegations() -> DelegationsView {
    DelegationsView { keys: Map::empty(), roles: Seq::empty() }
}

impl Delegations {
    /// No delegations.
    pub fn none() -> (r: Delegations)
        ensures
            r@ == no_delegations(),
    {
        let r = Delegations { keys: StrMap::new(), roles: Vec::new() };
        assert(text::views(r.roles@) =~= Seq::<DelegationView>::empty());
        r
    }
}

impl Value for Delegations {
    fn dup(&self) -> (r: Self) {
        let roles = strmap::copy(&self.roles);
        Delegations { keys: self.keys.dup(), roles }
    }

    fn same_as(&self, other: &Self) -> (r: bool) {
        self.keys.same_as(&other.keys) && strmap::alike(&self.roles, &other.roles)
    }
}

/// What targets metadata says.
#[derive(Debug)]
pub struct Targets {
    pub targets: StrMap<Description>,
    pub delegations: Delegations,
}

impl View for Targets {
    type V = TargetsView;

    open spec fn view(&self) -> TargetsView {
        TargetsView { targets: self.targets@, delegations: self.delegations@ }
    }
}

impl Value for Targets {
    fn dup(&self) -> (r: Self) {
        Targets { targets: self.targets.dup(), delegations: self.delegations.dup() }
    }

    fn same_as(&self, other: &Self) -> (r: bool) {
        self.targets.same_as(&other.targets) && self.delegations.same_as(&other.delegations)
    }
}

/// What metadata says besides its version and expiry.
#[derive(Debug)]
pub enum Content {
    Root(Root),
    Targets(Targets),
    Snapshot(StrMap<RawVersion>),
    Timestamp(RawVersion),
}

/// The content of metadata as contracts speak of it.
#[verifier::ext_equal]
pub enum ContentView {
    Root(RootView),
    Targets(TargetsView),
    Snapshot(Map<Seq<char>, VersionView>),
    Timestamp(VersionView),
}

impl View for Content {
    type V = ContentView;

    open spec fn view(&self) -> ContentView {
        match self {
            Content::Root(r) => ContentView::Root(r@),
            Content::Targets(t) => ContentView::Targets(t@),
            Content::Snapshot(m) => ContentView::Snapshot(m@),
            Content::Timestamp(v) => ContentView::Timestamp(v@),
        }
    }
}

impl Value for Content {
    fn dup(&self) -> (r: Self) {
        match self {
            Content::Root(r) => Content::Root(r.dup()),
            Content::Targets(t) => Content::Targets(t.dup()),
            Content::Snapshot(m) => Content::Snapshot(m.dup()),
            Content::Timestamp(v) => Content::Timestamp(v.dup()),
        }
    }

    fn same_as(&self, other: &Self) -> (r: bool) {
        match (self, other) {
            (Content::Root(a), Content::Root(b)) => a.same_as(b),
            (Content::Targets(a), Content::Targets(b)) => a.same_as(b),
            (Content::Snapshot(a), Content::Snapshot(b)) => a.same_as(b),
            (Content::Timestamp(a), Content::Timestamp(b)) => a.same_as(b),
            _ => false,
        }
    }
}

/// The kind of metadata that has the content.
pub open spec fn content_kind(c: ContentView) -> Kind {
    match c {
        ContentView::Root(_) => Kind::Root,
        ContentView::Targets(_) => Kind::Targets,
        ContentView::Snapshot(_) => Kind::Snapshot,
        ContentView::Timestamp(_) => Kind::Timestamp,
    }
}

/// What metadata of the given kind in `file` says, if that is what the file holds.
pub open spec fn parsed(kind: Kind, file: Seq<u8>) -> Option<(HeaderView, ContentView)> {
    match kind {
        Kind::Root => match documents::root_in(file) {
            Some((h, r)) => Some((h, ContentView::Root(r))),
            None => None,
        },
        Kind::Targets => match documents::targets_in(file) {
            Some((h, t)) => Some((h, ContentView::Targets(t))),
            None => None,
        },
        Kind::Snapshot => match documents::snapshot_in(file) {
            Some((h, m)) => Some((h, ContentView::Snapshot(m))),
            None => None,
        },
        Kind::Timestamp => match documents::timestamp_in(file) {
            Some((h, v)) => Some((h, ContentView::Timestamp(v))),
            None => None,
        },
    }
}

/// Whether the content is one that metadata can have: each key is what its definition says, and
/// each target's description comes from metadata or from a file.
pub open spec fn sound(c: ContentView) -> bool {
    match c {
        ContentView::Root(r) => documents::keys_sound(r.keys),
        ContentView::Targets(t) => documents::all_genuine(t.targets) && documents::keys_defined(
            t.delegations.keys,
        ),
        _ => true,
    }
}

/// Parsed metadata.
#[derive(Debug)]
pub struct Metadata {
    pub version: u32,
    pub expires: Time,
    /// Whether there are no fields besides the standard ones.
    pub plain: bool,
    pub content: Content,
}

impl View for Metadata {
    type V = (HeaderView, ContentView);

    open spec fn view(&self) -> (HeaderView, ContentView) {
        (
            HeaderView {
                version: self.version as int,
                expires: self.expires@,
                plain: self.plain,
            },
            self.content@,
        )
    }
}

fn expiry(h: &RawHeader) -> (r: Time)
    requires
        documents::plausible(*h),
    ensures
        r@ == h@.expires,
{
    Time::new(h.secs, h.nanos).unwrap()
}

fn role_keys(r: &RawRole) -> (k: RoleKeys)
    ensures
        k@ == r@,
{
    RoleKeys { threshold: r.threshold, key_ids: StrSet::from_vec(&r.key_ids) }
}

fn delegations(raw: &Vec<RawDelegation>) -> (r: Vec<Delegation>)
    ensures
        text::views(r@) == text::views(raw@),
{
    let mut out: Vec<Delegation> = Vec::new();
    let mut i: usize = 0;
    while i < raw.len()
        invariant
            i <= raw.len(),
            text::views(out@) =~= text::views(raw@.take(i as int)),
        decreases raw.len() - i,
    {
        let d = &raw[i];
        out.push(
            Delegation {
                name: d.name.clone(),
                terminating: d.terminating,
                threshold: d.threshold,
                key_ids: StrSet::from_vec(&d.key_ids),
                paths: StrSet::from_vec(&d.paths),
            },
        );
        assert(raw@.take(i + 1) =~= raw@.take(i as int).push(raw@[i as int]));
        i = i + 1;
    }
    assert(raw@.take(i as int) =~= raw@);
    out
}

/// Descriptions that were read from metadata are genuine.
proof fn listed_genuine(file: Seq<u8>)
    requires
        documents::targets_in(file) is Some,
    ensures
        documents::all_genuine((documents::targets_in(file)->0).1.targets),
{
    let t = (documents::targets_in(file)->0).1.targets;
    assert forall|path: Seq<char>| #[trigger] t.dom().contains(path) implies documents::genuine(
        t[path],
    ) by {
        assert(documents::listed(file, path) == Some(t[path]));
    }
}

/// Parses metadata of the given kind.
pub fn parse(kind: Kind, file: &Vec<u8>) -> (r: Option<Metadata>)
    ensures
        r is Some <==> parsed(kind, file@) is Some,
        r matches Some(m) ==> parsed(kind, file@) == Some(m@) && sound(m@.1) && m.version >= 1
            && (m@.1 matches ContentView::Targets(t) ==> documents::delegations_text(
            t.delegations,
        ) is Some),
{
    match kind {
        Kind::Root => {
            let (h, consistent_snapshot) = documents::read_root(file)?;
            let roles = documents::read_root_roles(file)?;
            let keys = documents::read_root_keys(file)?;
            let root = Root {
                consistent_snapshot,
                keys: strmap::collect(&keys),
                root: role_keys(&roles.root),
                targets: role_keys(&roles.targets),
                snapshot: role_keys(&roles.snapshot),
                timestamp: role_keys(&roles.timestamp),
            };
            let expires = expiry(&h);
            Some(
                Metadata {
                    version: h.version,
                    expires,
                    plain: h.plain,
                    content: Content::Root(root),
                },
            )
        },
        Kind::Targets => {
            let h = documents::read_targets_header(file)?;
            let targets = documents::read_targets(file)?;
            let keys = documents::read_delegation_keys(file)?;
            let roles = documents::read_delegations(file)?;
            proof {
                listed_genuine(file@);
            }
            let content = Targets {
                targets: strmap::collect(&targets),
                delegations: Delegations {
                    keys: strmap::collect(&keys),
                    roles: delegations(&roles),
                },
            };
            let expires = expiry(&h);
            Some(
                Metadata {
                    version: h.version,
                    expires,
                    plain: h.plain,
                    content: Content::Targets(content),
                },
            )
        },
        Kind::Snapshot => {
            let (h, versions) = documents::read_snapshot(file)?;
            let expires = expiry(&h);
            Some(
                Metadata {
                    version: h.version,
                    expires,
                    plain: h.plain,
                    content: Content::Snapshot(strmap::collect(&versions)),
                },
            )
        },
        Kind::Timestamp => {
            let (h, v) = documents::read_timestamp(file)?;
            let expires = expiry(&h);
            Some(
                Metadata {
                    version: h.version,
                    expires,
                    plain: h.plain,
                    content: Content::Timestamp(v),
                },
            )
        },
    }
}

/// The file with the given content and no signatures, if it can be written.
pub open spec fn written(version: int, secs: int, c: ContentView) -> Option<Seq<u8>> {
    match c {
        ContentView::Root(r) => match (documents::keys_text(r.keys), documents::role_texts(r)) {
            (Some(keys), Some(roles)) => documents::root_file(
                version,
                secs,
                r.consistent_snapshot,
                keys,
                roles,
            ),
            _ => None,
        },
        ContentView::Targets(t) => match documents::delegations_text(t.delegations) {
            Some(d) => documents::targets_file(version, secs, documents::texts(t.targets), d),
            None => None,
        },
        ContentView::Snapshot(m) => documents::snapshot_file(version, secs, m),
        ContentView::Timestamp(v) => documents::timestamp_file(version, secs, v.version),
    }
}

/// Whether a file with the content says exactly that: delegations stand in it in the order of their
/// names, and of other metadata just versions.
pub open spec fn regular(c: ContentView) -> bool {
    match c {
        ContentView::Root(_) => true,
        ContentView::Targets(t) => documents::in_name_order(t.delegations.roles),
        ContentView::Snapshot(m) => documents::all_bare(m),
        ContentView::Timestamp(v) => v.bare,
    }
}

fn role_text(k: &RoleKeys) -> (r: Option<String>)
    ensures
        r is Some <==> documents::role_text(k@) is Some,
        r matches Some(t) ==> documents::role_text(k@) == Some(t@),
{
    documents::write_role(&RawRole { threshold: k.threshold, key_ids: k.key_ids.to_vec() })
}

proof fn delegation_texts_fail(roles: Seq<DelegationView>, i: int)
    requires
        0 <= i <= roles.len(),
        documents::delegation_texts(roles.take(i)) is None,
    ensures
        documents::delegation_texts(roles) is None,
    decreases roles.len(),
{
    if i < roles.len() {
        assert(roles.drop_last().take(i) =~= roles.take(i));
        delegation_texts_fail(roles.drop_last(), i);
    } else {
        assert(roles.take(i) =~= roles);
    }
}

fn delegation_texts(roles: &Vec<Delegation>) -> (r: Option<Vec<String>>)
    ensures
        r is Some <==> documents::delegation_texts(text::views(roles@)) is Some,
        r matches Some(t) ==> documents::delegation_texts(text::views(roles@)) == Some(
            text::views(t@),
        ),
{
    let ghost all = text::views(roles@);
    let mut out: Vec<String> = Vec::new();
    let mut i: usize = 0;
    assert(text::views(out@) =~= Seq::<Seq<char>>::empty());
    while i < roles.len()
        invariant
            i <= roles.len(),
            all == text::views(roles@),
            documents::delegation_texts(all.take(i as int)) == Some(text::views(out@)),
        decreases roles.len() - i,
    {
        let d = &roles[i];
        let raw = RawDelegation {
            name: d.name.clone(),
            terminating: d.terminating,
            threshold: d.threshold,
            key_ids: d.key_ids.to_vec(),
            paths: d.paths.to_vec(),
        };
        proof {
            assert(all.take(i + 1).drop_last() =~= all.take(i as int));
            assert(all.take(i + 1).last() == d@);
            assert(raw@ == d@);
        }
        match documents::write_delegation(&raw) {
            Some(t) => {
                out.push(t);
            },
            None => {
                proof {
                    delegation_texts_fail(all, i + 1);
                }
                return None;
            },
        }
        i = i + 1;
    }
    assert(all.take(i as int) =~= all);
    Some(out)
}

/// Writes down the delegations.
pub fn delegations_text(d: &Delegations) -> (r: Option<String>)
    ensures
        r is Some <==> documents::delegations_text(d@) is Some,
        r matches Some(t) ==> documents::delegations_text(d@) == Some(t@),
{
    let keys = documents::write_keys(&d.keys.to_pairs())?;
    let roles = delegation_texts(&d.roles)?;
    documents::write_delegations(keys.as_str(), &roles)
}

fn target_texts(targets: &StrMap<Description>) -> (r: Vec<(String, String)>)
    ensures
        strmap::pairs_map(r@) == documents::texts(targets@),
        strmap::distinct_names(r@),
{
    let pairs = targets.to_pairs();
    let mut out: Vec<(String, String)> = Vec::new();
    let mut i: usize = 0;
    while i < pairs.len()
        invariant
            i <= pairs.len(),
            strmap::distinct_names(pairs@),
            out@.len() == i,
            forall|j: int| 0 <= j < i ==> (#[trigger] out@[j]).0@ == pairs@[j].0@,
            strmap::pairs_map(out@) =~= documents::texts(
                strmap::pairs_map(pairs@.take(i as int)),
            ),
        decreases pairs.len() - i,
    {
        let pair = (pairs[i].0.clone(), pairs[i].1.text().clone());
        proof {
            strmap::pairs_map_push(out@, pair);
            strmap::pairs_map_push(pairs@.take(i as int), pairs@[i as int]);
            assert(pairs@.take(i + 1) =~= pairs@.take(i as int).push(pairs@[i as int]));
        }
        out.push(pair);
        i = i + 1;
    }
    assert(pairs@.take(i as int) =~= pairs@);
    out
}

/// Writes a file with the given content that expires at the second `secs`, without signatures.
pub fn write(version: u32, secs: i64, content: &Content) -> (r: Option<Vec<u8>>)
    requires
        sound(content@),
        content@ matches ContentView::Snapshot(m) ==> documents::all_bare(m),
    ensures
        r is Some <==> written(version as int, secs as int, content@) is Some,
        r matches Some(f) ==> written(version as int, secs as int, content@) == Some(f@)
            && documents::unsigned(f@) && parsed(content_kind(content@), f@) is Some && (parsed(
            content_kind(content@),
            f@,
        )->0).0 == documents::written_header(version as int, secs as int) && (regular(
            content@,
        ) ==> parsed(
            content_kind(content@),
            f@,
        ) == Some((documents::written_header(version as int, secs as int), content@))),
        r matches Some(f) ==> (content@ matches ContentView::Targets(t)
            ==> documents::targets_read_back(f@, t)),
        r matches Some(f) ==> (content@ is Root ==> documents::targets_in(f@) is None),
{
    match content {
        Content::Root(root) => {
            let roles = RawRoleTexts {
                root: role_text(&root.root)?,
                targets: role_text(&root.targets)?,
                snapshot: role_text(&root.snapshot)?,
                timestamp: role_text(&root.timestamp)?,
            };
            let keys = documents::write_keys(&root.keys.to_pairs())?;
            assert(documents::role_texts(root@) == Some(roles@));
            documents::write_root(version, secs, root.consistent_snapshot, keys.as_str(), &roles)
        },
        Content::Targets(t) => {
            let d = delegations_text(&t.delegations)?;
            let texts = target_texts(&t.targets);
            let r = documents::write_targets(version, secs, &texts, d.as_str());
            assert(documents::texts(t@.targets) == strmap::pairs_map(texts@));
            proof {
                if r is Some {
                    assert(documents::targets_read_back(r->0@, t@));
                    documents::arranged_same(
                        (documents::targets_in(r->0@)->0).1.delegations,
                        t@.delegations,
                    );
                }
            }
            r
        },
        Content::Snapshot(m) => {
            let pairs = m.to_pairs();
            documents::write_snapshot(version, secs, &pairs)
        },
        Content::Timestamp(v) => documents::write_timestamp(version, secs, v.version),
    }
}

} // verus!
