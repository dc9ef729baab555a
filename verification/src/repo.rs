//! The TUF metadata of a repository: loading, reading and signing it.

use vstd::prelude::*;

use crate::config;
use crate::documents;
use crate::documents::{HeaderView, RoleKeysView, RootView, TargetsView};
use crate::error;
use crate::error::{Error, Fault, Problem};
use crate::keys;
use crate::keys::{KeyView, PublicKey, Signature, SignatureView};
use crate::metadata;
use crate::metadata::{Content, ContentView, Kind, Metadata, Root, RoleKeys, Targets};
use crate::order;
use crate::strmap;
use crate::strmap::{StrMap, StrSet, Value};
use crate::text;

verus! {

broadcast use crate::text::views_push;

/// Directory in the git repository that holds the metadata.
pub const METADATA: &'static str = "metadata";

/// Directory below it with every root version, which clients need to walk from the root they trust
/// to the newest.
pub const ROOT_HISTORY: &'static str = "root_history";

/// Files by their path relative to `metadata/`.
pub type Files = Map<Seq<char>, Seq<u8>>;

/// The metadata files of one state of the repository, keyed by path relative to `metadata/`.
#[derive(Debug)]
pub struct Repo {
    files: StrMap<Vec<u8>>,
}

impl View for Repo {
    type V = Files;

    closed spec fn view(&self) -> Files {
        self.files@
    }
}

impl Value for Repo {
    fn dup(&self) -> (r: Self) {
        Repo { files: self.files.dup() }
    }

    fn same_as(&self, other: &Self) -> (r: bool) {
        self.files.same_as(&other.files)
    }
}

/// The file of the role `role`.
pub open spec fn file_name(role: Seq<char>) -> Seq<char> {
    role + ".json"@
}

/// The file that keeps version `version` of root.
pub open spec fn history_name(version: int) -> Seq<char> {
    "root_history/"@ + text::decimal(version as nat) + ".root.json"@
}

/// The file of the role `role`.
pub fn file_of(role: &str) -> (r: String)
    ensures
        r@ == file_name(role@),
{
    text::cat(role, ".json")
}

/// The file that keeps version `version` of root.
pub fn history_file(version: u32) -> (r: String)
    ensures
        r@ == history_name(version as int),
{
    text::cat(
        text::cat("root_history/", text::to_decimal(version as u64).as_str()).as_str(),
        ".root.json",
    )
}

/// Different roles have different files.
pub proof fn file_name_injective(a: Seq<char>, b: Seq<char>)
    ensures
        file_name(a) == file_name(b) ==> a == b,
{
    if file_name(a) == file_name(b) {
        assert(file_name(a).len() == a.len() + ".json"@.len());
        assert(file_name(b).len() == b.len() + ".json"@.len());
        assert(a =~= file_name(a).take(a.len() as int));
        assert(b =~= file_name(b).take(b.len() as int));
    }
}

/// The metadata of `role` as it stands in its file.
pub open spec fn raw_of(files: Files, role: Seq<char>) -> Option<Seq<u8>> {
    if files.dom().contains(file_name(role)) {
        Some(files[file_name(role)])
    } else {
        None
    }
}

/// The metadata of `role` read as metadata of the given kind, if there is any.
pub open spec fn metadata_of(files: Files, kind: Kind, role: Seq<char>) -> Result<
    Option<(HeaderView, ContentView)>,
    Fault,
> {
    match raw_of(files, role) {
        None => Ok(None),
        Some(file) => match metadata::parsed(kind, file) {
            Some(m) => Ok(Some(m)),
            None => Err(Problem::Unparsable { role }),
        },
    }
}

/// The metadata of `role` read as metadata of the given kind.
pub open spec fn required(files: Files, kind: Kind, role: Seq<char>) -> Result<
    (HeaderView, ContentView),
    Fault,
> {
    match metadata_of(files, kind, role) {
        Ok(Some(m)) => Ok(m),
        Ok(None) => Err(Problem::MissingMetadata { role }),
        Err(e) => Err(e),
    }
}

/// Root metadata.
pub open spec fn root_of(files: Files) -> Result<(HeaderView, RootView), Fault> {
    match required(files, Kind::Root, "root"@) {
        Ok((h, ContentView::Root(r))) => Ok((h, r)),
        Ok(_) => Err(Problem::Unparsable { role: "root"@ }),
        Err(e) => Err(e),
    }
}

/// The metadata of `role`, which lists targets.
pub open spec fn targets_of(files: Files, role: Seq<char>) -> Result<(HeaderView, TargetsView), Fault> {
    match required(files, Kind::Targets, role) {
        Ok((h, ContentView::Targets(t))) => Ok((h, t)),
        Ok(_) => Err(Problem::Unparsable { role }),
        Err(e) => Err(e),
    }
}

/// Version and expiry of `role`, if it has metadata.
pub open spec fn header_of(files: Files, role: Seq<char>) -> Result<Option<HeaderView>, Fault> {
    match metadata_of(files, metadata::kind_of(role), role) {
        Ok(Some((h, _))) => Ok(Some(h)),
        Ok(None) => Ok(None),
        Err(e) => Err(e),
    }
}

/// The metadata, from the files at each version of root up to the current one.
pub open spec fn history_of(files: Files, version: int) -> Result<Seq<Seq<u8>>, Fault>
    decreases version,
{
    if version <= 0 {
        Ok(Seq::empty())
    } else {
        match history_of(files, version - 1) {
            Err(e) => Err(e),
            Ok(earlier) => if files.dom().contains(history_name(version)) {
                Ok(earlier.push(files[history_name(version)]))
            } else {
                Err(Problem::MissingFile { name: history_name(version) })
            },
        }
    }
}

/// Every root version, oldest first.
pub open spec fn root_history_of(files: Files) -> Result<Seq<Seq<u8>>, Fault> {
    match root_of(files) {
        Ok((h, _)) => history_of(files, h.version),
        Err(e) => Err(e),
    }
}

/// The role that a file belongs to, if it is the file of a role.
pub open spec fn role_of(name: Seq<char>) -> Option<Seq<char>> {
    if ".json"@.is_suffix_of(name) && !name.contains('/') {
        Some(name.take(name.len() - 5))
    } else {
        None
    }
}

/// The roles that the files belong to.
pub open spec fn roles_in(names: Seq<Seq<char>>) -> Seq<Seq<char>>
    decreases names.len(),
{
    if names.len() == 0 {
        Seq::empty()
    } else {
        match role_of(names.last()) {
            Some(role) => roles_in(names.drop_last()).push(role),
            None => roles_in(names.drop_last()),
        }
    }
}

/// The file of a role has the name of the role's file.
pub proof fn role_of_file(name: Seq<char>)
    requires
        role_of(name) is Some,
    ensures
        name == file_name(role_of(name)->0),
{
    reveal_strlit(".json");
    assert(name =~= name.take(name.len() - 5) + name.skip(name.len() - 5));
    assert(name.skip(name.len() - 5) =~= ".json"@);
}

/// The roles are those that have a file.
pub proof fn roles_in_holds(names: Seq<Seq<char>>, role: Seq<char>)
    ensures
        roles_in(names).contains(role) <==> exists|i: int|
            0 <= i < names.len() && role_of(#[trigger] names[i]) == Some(role),
    decreases names.len(),
{
    if names.len() > 0 {
        let t = names.drop_last();
        roles_in_holds(t, role);
        if role_of(names.last()) is Some {
            order::push_holds(roles_in(t), role_of(names.last())->0, role);
        }
        if roles_in(names).contains(role) {
            if roles_in(t).contains(role) {
                let i = choose|i: int| 0 <= i < t.len() && role_of(#[trigger] t[i]) == Some(role);
                assert(role_of(names[i]) == Some(role));
            } else {
                assert(role_of(names[names.len() - 1]) == Some(role));
            }
        }
        if exists|i: int| 0 <= i < names.len() && role_of(#[trigger] names[i]) == Some(role) {
            let i = choose|i: int| 0 <= i < names.len() && role_of(#[trigger] names[i]) == Some(role);
            if i < t.len() {
                assert(role_of(t[i]) == Some(role));
            }
        }
    }
}

/// Names of all roles present, in the order of their files.
pub open spec fn roles_of(files: Files) -> Seq<Seq<char>> {
    roles_in(strmap::listing(files.dom()))
}

/// Whether `role` is `targets` or a role delegated from it.
pub open spec fn lists_targets(role: Seq<char>) -> bool {
    role == "targets"@ || !config::top_level(role)
}

/// `targets` and the roles delegated from it, in the order of their files.
pub open spec fn targets_roles_of(files: Files) -> Seq<Seq<char>> {
    roles_of(files).filter(|role: Seq<char>| lists_targets(role))
}

/// A role lists targets and is present exactly where there is a file of it.
pub proof fn targets_role_has_file(files: Files, role: Seq<char>)
    requires
        files.dom().finite(),
    ensures
        targets_roles_of(files).contains(role) <==> lists_targets(role) && exists|name: Seq<char>| #[trigger]
            files.dom().contains(name) && role_of(name) == Some(role),
{
    let names = strmap::listing(files.dom());
    strmap::listing_exists(files.dom());
    roles_in_holds(names, role);
    filter_holds(roles_of(files), |role: Seq<char>| lists_targets(role), role);
    if exists|i: int| 0 <= i < names.len() && role_of(#[trigger] names[i]) == Some(role) {
        let i = choose|i: int| 0 <= i < names.len() && role_of(#[trigger] names[i]) == Some(role);
        assert(names.to_set().contains(names[i]));
        assert(files.dom().contains(names[i]));
    }
    if exists|name: Seq<char>| #[trigger] files.dom().contains(name) && role_of(name) == Some(role) {
        let name = choose|name: Seq<char>| #[trigger]
            files.dom().contains(name) && role_of(name) == Some(role);
        assert(names.to_set().contains(name));
        let i = choose|i: int| 0 <= i < names.len() && names[i] == name;
        assert(role_of(names[i]) == Some(role));
    }
}

/// The keys with the given ids, in the order of the ids.
pub open spec fn chosen(ids: Seq<Seq<char>>, keys: Map<Seq<char>, KeyView>) -> Seq<KeyView>
    decreases ids.len(),
{
    if ids.len() == 0 {
        Seq::empty()
    } else if keys.dom().contains(ids.last()) {
        chosen(ids.drop_last(), keys).push(keys[ids.last()])
    } else {
        chosen(ids.drop_last(), keys)
    }
}

/// The threshold and the keys of a role, in the order of the keys.
pub open spec fn picked(k: RoleKeysView, keys: Map<Seq<char>, KeyView>) -> (int, Seq<KeyView>) {
    (k.threshold, order::sorted::<PublicKey>(chosen(strmap::listing(k.key_ids), keys)))
}

/// The position of the first delegation to `role`, if there is one.
pub open spec fn delegation_to(t: TargetsView, role: Seq<char>) -> Option<int> {
    if exists|i: int| 0 <= i < t.delegations.roles.len() && (#[trigger] t.delegations.roles[i]).name == role {
        Some(
            choose|i: int|
                0 <= i < t.delegations.roles.len() && (#[trigger] t.delegations.roles[i]).name == role
                    && forall|j: int| 0 <= j < i ==> (#[trigger] t.delegations.roles[j]).name != role,
        )
    } else {
        None
    }
}

/// The threshold and key ids that root gives a top-level role.
pub open spec fn top_level_keys(r: RootView, role: Seq<char>) -> RoleKeysView {
    if role == "root"@ {
        r.root
    } else if role == "targets"@ {
        r.targets
    } else if role == "snapshot"@ {
        r.snapshot
    } else {
        r.timestamp
    }
}

/// Threshold and keys that `role` must be signed with, according to the metadata.
pub open spec fn role_keys_of(files: Files, role: Seq<char>) -> Result<(int, Seq<KeyView>), Fault> {
    if config::top_level(role) {
        match root_of(files) {
            Ok((_, r)) => Ok(picked(top_level_keys(r, role), r.keys)),
            Err(e) => Err(e),
        }
    } else {
        match targets_of(files, "targets"@) {
            Err(e) => Err(e),
            Ok((_, t)) => match delegation_to(t, role) {
                None => Err(Problem::NotDelegated { role }),
                Some(i) => {
                    let d = t.delegations.roles[i];
                    Ok(
                        picked(
                            RoleKeysView { threshold: d.threshold, key_ids: d.key_ids },
                            t.delegations.keys,
                        ),
                    )
                },
            },
        }
    }
}

/// Whether there is a root in `base` that the files' root is a successor of.
pub open spec fn root_replaced(files: Files, base: Files) -> bool {
    raw_of(base, "root"@) is Some && raw_of(base, "root"@) != raw_of(files, "root"@)
}

/// The key sets whose thresholds `role` must meet: its own, and for a new root version also the
/// previous root's.
pub open spec fn requirements_of(files: Files, base: Files, role: Seq<char>) -> Result<
    Seq<(int, Seq<KeyView>)>,
    Fault,
> {
    match role_keys_of(files, role) {
        Err(e) => Err(e),
        Ok(own) => if role == "root"@ && root_replaced(files, base) {
            match role_keys_of(base, "root"@) {
                Err(e) => Err(e),
                Ok(previous) => Ok(seq![own, previous]),
            }
        } else {
            Ok(seq![own])
        },
    }
}

/// Whether one of the signatures is a valid one by `key`.
pub open spec fn signed(sigs: Seq<SignatureView>, input: Seq<u8>, key: KeyView) -> bool {
    exists|i: int|
        0 <= i < sigs.len() && (#[trigger] sigs[i]).key_id == key.id && keys::accepts(
            key,
            input,
            sigs[i].value,
        )
}

/// Whether a key is `key`, or one of the signatures is a valid one by it.
pub open spec fn signer_or(sigs: Seq<SignatureView>, input: Seq<u8>, key: KeyView) -> spec_fn(
    KeyView,
) -> bool {
    |k: KeyView| k == key || signed(sigs, input, k)
}

/// Those of the keys with a valid signature, and `key` if it is one of them.
pub open spec fn signers_and(
    sigs: Seq<SignatureView>,
    input: Seq<u8>,
    key: KeyView,
    keys: Seq<KeyView>,
) -> Seq<KeyView> {
    keys.filter(signer_or(sigs, input, key))
}

/// The signatures of `role`, and what they cover.
pub open spec fn signed_part(files: Files, role: Seq<char>) -> Result<
    (Seq<SignatureView>, Seq<u8>),
    Fault,
> {
    match raw_of(files, role) {
        None => Err(Problem::MissingMetadata { role }),
        Some(file) => match (documents::signatures_in(file), documents::signing_input(file)) {
            (None, _) => Err(Problem::Signatures { role }),
            (_, None) => Err(Problem::NotCanonical { role }),
            (Some(sigs), Some(input)) => if documents::names_metadata(role) {
                Ok((sigs, input))
            } else {
                Err(Problem::RoleName { role })
            },
        },
    }
}

/// Those among `keys` with a valid signature on `role`.
pub open spec fn signed_by_of(files: Files, role: Seq<char>, keys: Seq<KeyView>) -> Result<
    Seq<KeyView>,
    Fault,
> {
    match signed_part(files, role) {
        Err(e) => Err(e),
        Ok((sigs, input)) => Ok(keys.filter(|k: KeyView| signed(sigs, input, k))),
    }
}

/// Those of `keys` whose signatures on `role` are missing, if the threshold is not reached.
pub open spec fn missing_for(files: Files, role: Seq<char>, need: (int, Seq<KeyView>)) -> Result<
    Seq<KeyView>,
    Fault,
> {
    match signed_by_of(files, role, need.1) {
        Err(e) => Err(e),
        Ok(done) => if done.len() < need.0 {
            Ok(need.1.filter(|k: KeyView| !done.contains(k)))
        } else {
            Ok(Seq::empty())
        },
    }
}

/// The missing keys for each of the needs, after one another.
pub open spec fn missing_for_all(
    files: Files,
    role: Seq<char>,
    needs: Seq<(int, Seq<KeyView>)>,
) -> Result<Seq<KeyView>, Fault>
    decreases needs.len(),
{
    if needs.len() == 0 {
        Ok(Seq::empty())
    } else {
        match missing_for_all(files, role, needs.drop_last()) {
            Err(e) => Err(e),
            Ok(earlier) => match missing_for(files, role, needs.last()) {
                Err(e) => Err(e),
                Ok(more) => Ok(earlier + more),
            },
        }
    }
}

/// Keys whose signatures `role` still needs to reach its thresholds.
pub open spec fn missing_keys_of(files: Files, base: Files, role: Seq<char>) -> Result<
    Seq<KeyView>,
    Fault,
> {
    match requirements_of(files, base, role) {
        Err(e) => Err(e),
        Ok(needs) => missing_for_all(files, role, needs),
    }
}

/// The files after `file` was stored as the metadata of `role`, in a layout for people. Versions of
/// root are kept in the root history as well.
pub open spec fn put_of(files: Files, role: Seq<char>, file: Seq<u8>) -> Result<Files, Fault> {
    match documents::readable(file) {
        None => Err(Problem::NotJson { role }),
        Some(text) => {
            let pretty = text.push(10u8);
            if role == "root"@ {
                match documents::root_in(pretty) {
                    None => Err(Problem::Unparsable { role }),
                    Some((h, _)) => Ok(
                        files.insert(history_name(h.version), pretty).insert(
                            file_name(role),
                            pretty,
                        ),
                    ),
                }
            } else {
                Ok(files.insert(file_name(role), pretty))
            }
        },
    }
}

/// Whether the metadata of `role` says the same as `file`, with the same signatures.
pub open spec fn stored(files: Files, role: Seq<char>, file: Seq<u8>) -> bool {
    raw_of(files, role) matches Some(f) && documents::same_content(f, file)
        && documents::signatures_in(f) == documents::signatures_in(file)
}

/// The signatures with that of the key `sig.key_id` replaced by `sig`, or added, in order.
pub open spec fn with_signature(sigs: Seq<SignatureView>, sig: SignatureView) -> Seq<SignatureView> {
    order::sorted::<Signature>(
        sigs.filter(|s: SignatureView| s.key_id != sig.key_id).push(sig),
    )
}

/// Whether all files are as they were but that of `role`, and for root the one that keeps its version
/// in the root history, which is the same.
pub open spec fn others_stay(before: Files, after: Files, role: Seq<char>) -> bool {
    if role == "root"@ {
        exists|version: int|
            {
                let kept = #[trigger] history_name(version);
                &&& root_of(after) matches Ok((h, _)) && h.version == version
                &&& after.dom().contains(kept) && raw_of(after, role) == Some(after[kept])
                &&& after.remove(kept).remove(file_name(role)) == before.remove(kept).remove(
                    file_name(role),
                )
            }
    } else {
        after.remove(file_name(role)) == before.remove(file_name(role))
    }
}

/// The files after the signature `value` of `key` was added to `role`.
pub open spec fn sign_of(files: Files, role: Seq<char>, key: KeyView, value: Seq<u8>) -> Result<
    Files,
    Fault,
> {
    match signed_part(files, role) {
        Err(e) => Err(e),
        Ok((sigs, input)) => if !keys::accepts(key, input, value) {
            Err(Problem::BadSignature { role })
        } else {
            match documents::resigned(
                raw_of(files, role)->0,
                with_signature(sigs, SignatureView { key_id: key.id, value }),
            ) {
                None => Err(Problem::Unwritable { role }),
                Some(file) => put_of(files, role, file),
            }
        },
    }
}

fn stripped(name: &str) -> (r: Option<String>)
    ensures
        r is Some <==> role_of(name@) is Some,
        r matches Some(role) ==> role_of(name@) == Some(role@),
{
    if text::has_char(name, '/') {
        return None;
    }
    proof {
        reveal_strlit(".json");
    }
    let r = text::strip_suffix(name, ".json");
    assert(r is Some ==> r->0@ =~= name@.take(name@.len() - 5));
    r
}

/// The threshold and the keys of a role, in the order of the keys.
pub(crate) fn pick(threshold: u32, key_ids: &StrSet, keys: &StrMap<PublicKey>) -> (r: Need)
    ensures
        r@ == picked(
            RoleKeysView { threshold: threshold as int, key_ids: key_ids@ },
            keys@,
        ),
{
    let n = key_ids.len();
    let ghost ids = strmap::listing(key_ids@);
    let mut out: Vec<PublicKey> = Vec::new();
    let mut i: usize = 0;
    assert(text::views(out@) =~= chosen(ids.take(0), keys@));
    while i < n
        invariant
            i <= n,
            n == ids.len(),
            ids == strmap::listing(key_ids@),
            text::views(out@) == chosen(ids.take(i as int), keys@),
        decreases n - i,
    {
        let id = key_ids.item(i);
        assert(ids.take(i + 1).drop_last() =~= ids.take(i as int));
        assert(ids.take(i + 1).last() == id@);
        match keys.get(id.as_str()) {
            Some(k) => {
                out.push(k.dup());
            },
            None => {},
        }
        i = i + 1;
    }
    assert(ids.take(i as int) =~= ids);
    Need { threshold, keys: order::sort(&out) }
}

/// A threshold and the keys that may meet it.
#[derive(Debug)]
pub struct Need {
    pub threshold: u32,
    pub keys: Vec<PublicKey>,
}

impl View for Need {
    type V = (int, Seq<KeyView>);

    open spec fn view(&self) -> (int, Seq<KeyView>) {
        (self.threshold as int, text::views(self.keys@))
    }
}

/// The view of a list of values.
pub open spec fn listed<T: View>(r: Result<Vec<T>, Error>) -> Result<Seq<T::V>, Fault> {
    match r {
        Ok(v) => Ok(text::views(v@)),
        Err(e) => Err(e@),
    }
}

/// The view of a value that may be missing.
pub open spec fn maybe<T: View>(r: Result<Option<T>, Error>) -> Result<Option<T::V>, Fault> {
    match r {
        Ok(Some(t)) => Ok(Some(t@)),
        Ok(None) => Ok(None),
        Err(e) => Err(e@),
    }
}

impl Repo {
    /// A repository without metadata.
    pub fn new() -> (r: Repo)
        ensures
            r@ == Files::empty(),
    {
        Repo { files: StrMap::new() }
    }

    /// The metadata of `role` as it stands in its file.
    pub fn raw(&self, role: &str) -> (r: Option<&Vec<u8>>)
        ensures
            r is Some <==> raw_of(self@, role@) is Some,
            r matches Some(b) ==> raw_of(self@, role@) == Some(b@),
    {
        self.files.get(file_of(role).as_str())
    }

    /// Parses `role` as metadata of the given kind, without checking its signatures.
    pub fn metadata(&self, kind: Kind, role: &str) -> (r: Result<Option<Metadata>, Error>)
        ensures
            maybe(r) == metadata_of(self@, kind, role@),
            r matches Ok(Some(m)) ==> metadata::sound(m@.1) && m.version >= 1 && (m@.1 matches ContentView::Targets(t)
                ==> documents::delegations_text(t.delegations) is Some),
    {
        match self.raw(role) {
            None => Ok(None),
            Some(file) => match metadata::parse(kind, file) {
                Some(m) => Ok(Some(m)),
                None => Err(Problem::Unparsable { role: role.to_owned() }),
            },
        }
    }

    /// Parses `role` as metadata of the given kind, which must be there.
    fn require(&self, kind: Kind, role: &str) -> (r: Result<Metadata, Error>)
        ensures
            error::outcome(r) == required(self@, kind, role@),
            r matches Ok(m) ==> metadata::sound(m@.1) && m.version >= 1 && (m@.1 matches ContentView::Targets(t)
                ==> documents::delegations_text(t.delegations) is Some),
    {
        match self.metadata(kind, role) {
            Ok(Some(m)) => Ok(m),
            Ok(None) => Err(Problem::MissingMetadata { role: role.to_owned() }),
            Err(e) => Err(e),
        }
    }

    /// The version of root, and what it says.
    pub fn root(&self) -> (r: Result<(u32, Root), Error>)
        ensures
            r is Ok <==> root_of(self@) is Ok,
            r matches Ok((version, root)) ==> root_of(self@)->Ok_0.0.version == version && root_of(
                self@,
            )->Ok_0.1 == root@ && documents::keys_sound(root@.keys) && version >= 1,
            r matches Err(e) ==> root_of(self@) == Err::<(HeaderView, RootView), Fault>(e@),
    {
        match self.require(Kind::Root, "root") {
            Ok(m) => match m.content {
                Content::Root(root) => Ok((m.version, root)),
                _ => Err(Problem::Unparsable { role: "root".to_owned() }),
            },
            Err(e) => Err(e),
        }
    }

    /// What the metadata of `role`, which lists targets, says.
    pub fn require_targets(&self, role: &str) -> (r: Result<Targets, Error>)
        ensures
            r is Ok <==> targets_of(self@, role@) is Ok,
            r matches Ok(t) ==> targets_of(self@, role@)->Ok_0.1 == t@ && documents::all_genuine(
                t@.targets,
            ) && documents::keys_defined(t@.delegations.keys) && documents::delegations_text(
                t@.delegations,
            ) is Some,
            r matches Err(e) ==> targets_of(self@, role@) == Err::<(HeaderView, TargetsView), Fault>(
                e@,
            ),
    {
        match self.require(Kind::Targets, role) {
            Ok(m) => match m.content {
                Content::Targets(t) => Ok(t),
                _ => Err(Problem::Unparsable { role: role.to_owned() }),
            },
            Err(e) => Err(e),
        }
    }

    /// What the metadata of `targets` says.
    pub fn targets(&self) -> (r: Result<Targets, Error>)
        ensures
            r is Ok <==> targets_of(self@, "targets"@) is Ok,
            r matches Ok(t) ==> targets_of(self@, "targets"@)->Ok_0.1 == t@
                && documents::all_genuine(t@.targets) && documents::keys_defined(
                t@.delegations.keys,
            ) && documents::delegations_text(t@.delegations) is Some,
            r matches Err(e) ==> targets_of(self@, "targets"@) == Err::<
                (HeaderView, TargetsView),
                Fault,
            >(e@),
    {
        self.require_targets("targets")
    }

    /// Every root version, oldest first.
    pub fn root_history(&self) -> (r: Result<Vec<&Vec<u8>>, Error>)
        ensures
            listed(r) == root_history_of(self@),
            r matches Ok(v) ==> v@.len() == root_of(self@)->Ok_0.0.version && v@.len() >= 1,
    {
        let version = match self.root() {
            Ok((v, _)) => v,
            Err(e) => {
                return Err(e);
            },
        };
        let mut out: Vec<&Vec<u8>> = Vec::new();
        let mut v: u32 = 0;
        assert(text::views(out@) =~= Seq::<Seq<u8>>::empty());
        while v < version
            invariant
                v <= version,
                out@.len() == v,
                version == root_of(self@)->Ok_0.0.version,
                root_of(self@) is Ok,
                history_of(self@, v as int) == Ok::<Seq<Seq<u8>>, Fault>(text::views(out@)),
            decreases version - v,
        {
            let name = history_file(v + 1);
            match self.files.get(name.as_str()) {
                Some(file) => {
                    out.push(file);
                },
                None => {
                    proof {
                        history_missing(self@, v + 1, version as int);
                    }
                    return Err(Problem::MissingFile { name });
                },
            }
            v = v + 1;
        }
        Ok(out)
    }

    /// Names of all roles present, in the order of their files.
    pub fn roles(&self) -> (r: Vec<String>)
        ensures
            text::views(r@) == roles_of(self@),
            self@.dom().finite(),
    {
        let n = self.files.len();
        let ghost names = strmap::listing(self@.dom());
        let mut out: Vec<String> = Vec::new();
        let mut i: usize = 0;
        assert(text::views(out@) =~= roles_in(names.take(0)));
        while i < n
            invariant
                i <= n,
                n == names.len(),
                names == strmap::listing(self@.dom()),
                self@.dom().finite(),
                text::views(out@) == roles_in(names.take(i as int)),
            decreases n - i,
        {
            let name = self.files.key(i);
            assert(names.take(i + 1).drop_last() =~= names.take(i as int));
            assert(names.take(i + 1).last() == name@);
            match stripped(name.as_str()) {
                Some(role) => {
                    out.push(role);
                },
                None => {},
            }
            i = i + 1;
        }
        assert(names.take(i as int) =~= names);
        out
    }

    /// `targets` and the roles delegated from it, in the order of their files.
    pub fn targets_roles(&self) -> (r: Vec<String>)
        ensures
            text::views(r@) == targets_roles_of(self@),
            self@.dom().finite(),
    {
        let all = self.roles();
        let ghost names = roles_of(self@);
        let ghost p = |role: Seq<char>| lists_targets(role);
        let mut out: Vec<String> = Vec::new();
        let mut i: usize = 0;
        proof {
            reveal(Seq::filter);
            assert(text::views(out@) =~= names.take(0).filter(p));
        }
        while i < all.len()
            invariant
                i <= all.len(),
                names == text::views(all@),
                self@.dom().finite(),
                p == (|role: Seq<char>| lists_targets(role)),
                text::views(out@) == names.take(i as int).filter(p),
            decreases all.len() - i,
        {
            proof {
                reveal(Seq::filter);
                assert(names.take(i + 1).drop_last() =~= names.take(i as int));
                assert(names.take(i + 1).last() == all@[i as int]@);
            }
            let role = &all[i];
            if text::same(role.as_str(), "targets") || !config::is_top_level(role.as_str()) {
                out.push(role.clone());
            }
            i = i + 1;
        }
        assert(names.take(i as int) =~= names);
        out
    }

    /// Version and expiry of `role`.
    pub fn header(&self, role: &str) -> (r: Result<Option<(u32, crate::time::Time)>, Error>)
        ensures
            r is Ok <==> header_of(self@, role@) is Ok,
            r matches Ok(h) ==> (h is Some <==> header_of(self@, role@)->Ok_0 is Some),
            r matches Ok(Some((version, expires))) ==> header_of(self@, role@)->Ok_0->0.version
                == version && header_of(self@, role@)->Ok_0->0.expires == expires@ && version >= 1,
            r matches Err(e) ==> header_of(self@, role@) == Err::<Option<HeaderView>, Fault>(e@),
    {
        match self.metadata(metadata::kind(role), role) {
            Ok(Some(m)) => Ok(Some((m.version, m.expires))),
            Ok(None) => Ok(None),
            Err(e) => Err(e),
        }
    }
}

/// A version that is missing in the root history is missing for every later one.
proof fn history_missing(files: Files, v: int, version: int)
    requires
        0 < v <= version,
        history_of(files, v) is Err,
    ensures
        history_of(files, version) == history_of(files, v),
    decreases version - v,
{
    if v < version {
        history_missing(files, v, version - 1);
    }
}

/// The first delegation to `role` is the one before which there is none.
pub proof fn first_delegation(t: TargetsView, role: Seq<char>, i: int)
    requires
        0 <= i < t.delegations.roles.len(),
        t.delegations.roles[i].name == role,
        forall|j: int| 0 <= j < i ==> (#[trigger] t.delegations.roles[j]).name != role,
    ensures
        delegation_to(t, role) == Some(i),
{
    let k = delegation_to(t, role)->0;
    assert(0 <= k < t.delegations.roles.len() && t.delegations.roles[k].name == role && forall|j: int|
        0 <= j < k ==> (#[trigger] t.delegations.roles[j]).name != role);
}

/// Whether `key` is in the list.
pub(crate) fn holds(list: &Vec<PublicKey>, key: &PublicKey) -> (r: bool)
    ensures
        r == text::views(list@).contains(key@),
{
    let mut i: usize = 0;
    while i < list.len()
        invariant
            i <= list.len(),
            forall|j: int| 0 <= j < i ==> #[trigger] text::views(list@)[j] != key@,
        decreases list.len() - i,
    {
        if list[i].same_as(key) {
            assert(text::views(list@)[i as int] == key@);
            return true;
        }
        i = i + 1;
    }
    false
}

/// Whether one of the signatures is a valid one by `key`.
fn is_signed(sigs: &Vec<Signature>, input: &Vec<u8>, key: &PublicKey) -> (r: bool)
    ensures
        r == signed(text::views(sigs@), input@, key@),
{
    let ghost s = text::views(sigs@);
    let mut i: usize = 0;
    while i < sigs.len()
        invariant
            i <= sigs.len(),
            s == text::views(sigs@),
            forall|j: int|
                0 <= j < i ==> !((#[trigger] s[j]).key_id == key@.id && keys::accepts(
                    key@,
                    input@,
                    s[j].value,
                )),
        decreases sigs.len() - i,
    {
        assert(s[i as int] == sigs@[i as int]@);
        if sigs[i].key_id == key.id && key.verify(input, &sigs[i].value) {
            return true;
        }
        i = i + 1;
    }
    false
}

impl Repo {
    /// Threshold and keys `role` must be signed with, according to this repository's metadata.
    pub fn role_keys(&self, role: &str) -> (r: Result<Need, Error>)
        ensures
            error::outcome(r) == role_keys_of(self@, role@),
    {
        if !config::is_top_level(role) {
            let t = match self.targets() {
                Ok(t) => t,
                Err(e) => {
                    return Err(e);
                },
            };
            let ghost roles = t@.delegations.roles;
            let mut i: usize = 0;
            while i < t.delegations.roles.len()
                invariant
                    i <= t.delegations.roles.len(),
                    roles == text::views(t.delegations.roles@),
                    roles == t@.delegations.roles,
                    !config::top_level(role@),
                    targets_of(self@, "targets"@) is Ok,
                    targets_of(self@, "targets"@)->Ok_0.1 == t@,
                    forall|j: int| 0 <= j < i ==> (#[trigger] roles[j]).name != role@,
                decreases t.delegations.roles.len() - i,
            {
                let d = &t.delegations.roles[i];
                assert(roles[i as int] == d@);
                if text::same(d.name.as_str(), role) {
                    proof {
                        first_delegation(t@, role@, i as int);
                    }
                    return Ok(pick(d.threshold, &d.key_ids, &t.delegations.keys));
                }
                i = i + 1;
            }
            return Err(Problem::NotDelegated { role: role.to_owned() });
        }
        let root = match self.root() {
            Ok((_, root)) => root,
            Err(e) => {
                return Err(e);
            },
        };
        let k: &RoleKeys = if text::same(role, "root") {
            &root.root
        } else if text::same(role, "targets") {
            &root.targets
        } else if text::same(role, "snapshot") {
            &root.snapshot
        } else {
            &root.timestamp
        };
        Ok(pick(k.threshold, &k.key_ids, &root.keys))
    }

    /// Whether there is a root in `base` that this repository's root is a successor of.
    fn replaces_root(&self, base: &Repo) -> (r: bool)
        ensures
            r == root_replaced(self@, base@),
    {
        match (base.raw("root"), self.raw("root")) {
            (Some(a), Some(b)) => !a.same_as(b),
            (Some(_), None) => true,
            (None, _) => false,
        }
    }

    /// The key sets whose thresholds `role` must meet: its own, and for a new root version also
    /// the previous root's.
    pub fn requirements(&self, base: &Repo, role: &str) -> (r: Result<Vec<Need>, Error>)
        ensures
            listed(r) == requirements_of(self@, base@, role@),
    {
        let own = match self.role_keys(role) {
            Ok(n) => n,
            Err(e) => {
                return Err(e);
            },
        };
        let mut needs: Vec<Need> = Vec::new();
        let ghost first = own@;
        needs.push(own);
        assert(text::views(needs@) =~= seq![first]);
        if text::same(role, "root") && self.replaces_root(base) {
            match base.role_keys("root") {
                Ok(n) => {
                    let ghost second = n@;
                    needs.push(n);
                    assert(text::views(needs@) =~= seq![first, second]);
                },
                Err(e) => {
                    return Err(e);
                },
            }
        }
        Ok(needs)
    }

    /// The signatures of `role`, and what they cover.
    fn signatures(&self, role: &str) -> (r: Result<(Vec<Signature>, Vec<u8>), Error>)
        ensures
            r is Ok <==> signed_part(self@, role@) is Ok,
            r matches Ok((sigs, input)) ==> signed_part(self@, role@) == Ok::<
                (Seq<SignatureView>, Seq<u8>),
                Fault,
            >((text::views(sigs@), input@)),
            r matches Err(e) ==> signed_part(self@, role@) == Err::<
                (Seq<SignatureView>, Seq<u8>),
                Fault,
            >(e@),
    {
        let file = match self.raw(role) {
            Some(f) => f,
            None => {
                return Err(Problem::MissingMetadata { role: role.to_owned() });
            },
        };
        let sigs = match documents::read_signatures(file) {
            Some(s) => s,
            None => {
                return Err(Problem::Signatures { role: role.to_owned() });
            },
        };
        let input = match documents::canonical_form(file) {
            Some(b) => b,
            None => {
                return Err(Problem::NotCanonical { role: role.to_owned() });
            },
        };
        if !documents::check_metadata_name(role) {
            return Err(Problem::RoleName { role: role.to_owned() });
        }
        Ok((sigs, input))
    }

    /// What a signature on `role` covers.
    pub fn signing_input(&self, role: &str) -> (r: Result<Vec<u8>, Error>)
        ensures
            error::outcome(r) == match signed_part(self@, role@) {
                Ok((_, input)) => Ok::<Seq<u8>, Fault>(input),
                Err(e) => Err::<Seq<u8>, Fault>(e),
            },
    {
        match self.signatures(role) {
            Ok((_, input)) => Ok(input),
            Err(e) => Err(e),
        }
    }

    /// Keys among `keys` with a valid signature on `role`.
    pub fn signed_by(&self, role: &str, keys: &Vec<PublicKey>) -> (r: Result<Vec<PublicKey>, Error>)
        ensures
            listed(r) == signed_by_of(self@, role@, text::views(keys@)),
    {
        let (sigs, input) = match self.signatures(role) {
            Ok(p) => p,
            Err(e) => {
                return Err(e);
            },
        };
        let ghost all = text::views(keys@);
        let ghost p = |k: KeyView| signed(text::views(sigs@), input@, k);
        let mut out: Vec<PublicKey> = Vec::new();
        let mut i: usize = 0;
        proof {
            reveal(Seq::filter);
            assert(text::views(out@) =~= all.take(0).filter(p));
        }
        while i < keys.len()
            invariant
                i <= keys.len(),
                all == text::views(keys@),
                p == (|k: KeyView| signed(text::views(sigs@), input@, k)),
                text::views(out@) == all.take(i as int).filter(p),
            decreases keys.len() - i,
        {
            proof {
                reveal(Seq::filter);
                assert(all.take(i + 1).drop_last() =~= all.take(i as int));
                assert(all.take(i + 1).last() == keys@[i as int]@);
            }
            if is_signed(&sigs, &input, &keys[i]) {
                out.push(keys[i].dup());
            }
            i = i + 1;
        }
        assert(all.take(i as int) =~= all);
        Ok(out)
    }

    /// Those of the keys whose signatures on `role` are missing, if the threshold is not reached.
    fn missing_of(&self, role: &str, need: &Need) -> (r: Result<Vec<PublicKey>, Error>)
        ensures
            listed(r) == missing_for(self@, role@, need@),
    {
        let done = match self.signed_by(role, &need.keys) {
            Ok(d) => d,
            Err(e) => {
                return Err(e);
            },
        };
        let mut out: Vec<PublicKey> = Vec::new();
        assert(text::views(out@) =~= Seq::<KeyView>::empty());
        assert(text::views(done@).len() == done@.len());
        if (done.len() as u64) < need.threshold as u64 {
            let ghost all = text::views(need.keys@);
            let ghost d = text::views(done@);
            let ghost p = |k: KeyView| !d.contains(k);
            let mut i: usize = 0;
            proof {
                reveal(Seq::filter);
                assert(text::views(out@) =~= all.take(0).filter(p));
            }
            while i < need.keys.len()
                invariant
                    i <= need.keys.len(),
                    all == text::views(need.keys@),
                    d == text::views(done@),
                    p == (|k: KeyView| !d.contains(k)),
                    text::views(out@) == all.take(i as int).filter(p),
                decreases need.keys.len() - i,
            {
                proof {
                    reveal(Seq::filter);
                    assert(all.take(i + 1).drop_last() =~= all.take(i as int));
                    assert(all.take(i + 1).last() == need.keys@[i as int]@);
                }
                if !holds(&done, &need.keys[i]) {
                    out.push(need.keys[i].dup());
                }
                i = i + 1;
            }
            assert(all.take(i as int) =~= all);
        }
        Ok(out)
    }

    /// Keys whose signatures `role` still needs to reach its thresholds.
    pub fn missing_keys(&self, base: &Repo, role: &str) -> (r: Result<Vec<PublicKey>, Error>)
        ensures
            listed(r) == missing_keys_of(self@, base@, role@),
    {
        let needs = match self.requirements(base, role) {
            Ok(n) => n,
            Err(e) => {
                return Err(e);
            },
        };
        let ghost all = text::views(needs@);
        let mut out: Vec<PublicKey> = Vec::new();
        let mut i: usize = 0;
        assert(text::views(out@) =~= Seq::<KeyView>::empty());
        while i < needs.len()
            invariant
                i <= needs.len(),
                all == text::views(needs@),
                requirements_of(self@, base@, role@) == Ok::<Seq<(int, Seq<KeyView>)>, Fault>(all),
                missing_for_all(self@, role@, all.take(i as int)) == Ok::<Seq<KeyView>, Fault>(
                    text::views(out@),
                ),
            decreases needs.len() - i,
        {
            proof {
                assert(all.take(i + 1).drop_last() =~= all.take(i as int));
                assert(all.take(i + 1).last() == needs@[i as int]@);
            }
            match self.missing_of(role, &needs[i]) {
                Ok(mut more) => {
                    let ghost a = out@;
                    let ghost b = more@;
                    out.append(&mut more);
                    assert(text::views(out@) =~= text::views(a) + text::views(b));
                },
                Err(e) => {
                    proof {
                        missing_fails(self@, role@, all, i + 1);
                    }
                    return Err(e);
                },
            }
            i = i + 1;
        }
        assert(all.take(i as int) =~= all);
        Ok(out)
    }

    /// Stores `file` as the metadata of `role`, in a layout for people: signatures only cover the
    /// canonical form.
    pub(crate) fn put(&mut self, role: &str, file: &Vec<u8>) -> (r: Result<(), Error>)
        ensures
            r is Ok <==> put_of(old(self)@, role@, file@) is Ok,
            r is Ok ==> put_of(old(self)@, role@, file@) == Ok::<Files, Fault>(final(self)@),
            r matches Err(e) ==> put_of(old(self)@, role@, file@) == Err::<Files, Fault>(e@)
                && final(self)@ == old(self)@,
            documents::signatures_in(file@) is Some && documents::signing_input(file@) is Some ==> {
                &&& r is Ok <==> role@ != "root"@ || documents::root_in(file@) is Some
                &&& r is Ok ==> stored(final(self)@, role@, file@)
            },
    {
        let mut pretty = match documents::make_readable(file) {
            Some(p) => p,
            None => {
                return Err(Problem::NotJson { role: role.to_owned() });
            },
        };
        pretty.push(10);
        if text::same(role, "root") {
            match metadata::parse(Kind::Root, &pretty) {
                Some(m) => {
                    self.files.insert(history_file(m.version), pretty.dup());
                },
                None => {
                    return Err(Problem::Unparsable { role: role.to_owned() });
                },
            }
        }
        let ghost stored_file = pretty@;
        self.files.insert(file_of(role), pretty);
        assert(raw_of(self@, role@) == Some(stored_file));
        Ok(())
    }

    /// Removes the metadata of `role`.
    pub(crate) fn discard(&mut self, role: &str)
        ensures
            final(self)@ == old(self)@.remove(file_name(role@)),
    {
        self.files.remove(file_of(role).as_str());
    }

    /// Adds the signature `value` of `key` to `role`, replacing any earlier one from the same key.
    pub fn sign(&mut self, role: &str, key: &PublicKey, value: &Vec<u8>) -> (r: Result<(), Error>)
        ensures
            r is Ok <==> sign_of(old(self)@, role@, key@, value@) is Ok,
            r is Ok ==> sign_of(old(self)@, role@, key@, value@) == Ok::<Files, Fault>(
                final(self)@,
            ),
            r matches Err(e) ==> sign_of(old(self)@, role@, key@, value@) == Err::<Files, Fault>(e@)
                && final(self)@ == old(self)@,
            r is Ok ==> documents::same_content(
                raw_of(final(self)@, role@)->0,
                raw_of(old(self)@, role@)->0,
            ) && signed_part(final(self)@, role@) == Ok::<(Seq<SignatureView>, Seq<u8>), Fault>(
                (
                    with_signature(
                        signed_part(old(self)@, role@)->Ok_0.0,
                        SignatureView { key_id: key@.id, value: value@ },
                    ),
                    signed_part(old(self)@, role@)->Ok_0.1,
                ),
            ),
            r is Ok ==> forall|keys: Seq<KeyView>|
                (forall|i: int|
                    0 <= i < keys.len() && (#[trigger] keys[i]).id == key@.id ==> keys[i] == key@)
                    ==> #[trigger] signed_by_of(final(self)@, role@, keys) == Ok::<
                    Seq<KeyView>,
                    Fault,
                >(
                    signers_and(
                        signed_part(old(self)@, role@)->Ok_0.0,
                        signed_part(old(self)@, role@)->Ok_0.1,
                        key@,
                        keys,
                    ),
                ),
            r is Ok ==> others_stay(old(self)@, final(self)@, role@),
    {
        let (sigs, input) = match self.signatures(role) {
            Ok(p) => p,
            Err(e) => {
                return Err(e);
            },
        };
        if !key.verify(&input, value) {
            return Err(Problem::BadSignature { role: role.to_owned() });
        }
        let ghost all = text::views(sigs@);
        let ghost p = |s: SignatureView| s.key_id != key@.id;
        let mut kept: Vec<Signature> = Vec::new();
        let mut i: usize = 0;
        proof {
            reveal(Seq::filter);
            assert(text::views(kept@) =~= all.take(0).filter(p));
        }
        while i < sigs.len()
            invariant
                i <= sigs.len(),
                all == text::views(sigs@),
                p == (|s: SignatureView| s.key_id != key@.id),
                text::views(kept@) == all.take(i as int).filter(p),
            decreases sigs.len() - i,
        {
            proof {
                reveal(Seq::filter);
                assert(all.take(i + 1).drop_last() =~= all.take(i as int));
                assert(all.take(i + 1).last() == sigs@[i as int]@);
            }
            if sigs[i].key_id != key.id {
                kept.push(sigs[i].dup());
            }
            i = i + 1;
        }
        assert(all.take(i as int) =~= all);
        let sig = Signature { key_id: key.id.clone(), value: value.dup() };
        assert(sig@ == (SignatureView { key_id: key@.id, value: value@ }));
        kept.push(sig);
        let sorted = order::sort(&kept);
        let file = match self.raw(role) {
            Some(f) => match documents::replace_signatures(f, &sorted) {
                Some(f) => f,
                None => {
                    return Err(Problem::Unwritable { role: role.to_owned() });
                },
            },
            None => {
                return Err(Problem::MissingMetadata { role: role.to_owned() });
            },
        };
        let ghost before = self@;
        let r = self.put(role, &file);
        proof {
            if r is Ok {
                put_stays(before, role@, file@);
                let ours = SignatureView { key_id: key@.id, value: value@ };
                assert(signed_part(self@, role@) == Ok::<(Seq<SignatureView>, Seq<u8>), Fault>(
                    (with_signature(all, ours), input@),
                ));
                assert forall|keys: Seq<KeyView>|
                    (forall|i: int|
                        0 <= i < keys.len() && (#[trigger] keys[i]).id == key@.id ==> keys[i]
                            == key@) implies #[trigger] signed_by_of(self@, role@, keys) == Ok::<
                    Seq<KeyView>,
                    Fault,
                >(signers_and(all, input@, key@, keys)) by {
                    signers_after_signing(all, input@, key@, value@, keys);
                    let new = with_signature(all, ours);
                    let sent = input@;
                    assert(signed_by_of(self@, role@, keys) == Ok::<Seq<KeyView>, Fault>(
                        keys.filter(|k: KeyView| signed(new, sent, k)),
                    ));
                }
            }
        }
        r
    }
}

/// Storing metadata of a role changes no other file, but for the root history.
proof fn put_stays(files: Files, role: Seq<char>, file: Seq<u8>)
    requires
        put_of(files, role, file) is Ok,
    ensures
        others_stay(files, put_of(files, role, file)->Ok_0, role),
{
    let after = put_of(files, role, file)->Ok_0;
    if role == "root"@ {
        let pretty = (documents::readable(file)->0).push(10u8);
        let version = (documents::root_in(pretty)->0).0.version;
        let kept = history_name(version);
        assert(after.remove(kept).remove(file_name(role)) =~= files.remove(kept).remove(
            file_name(role),
        ));
    } else {
        assert(after.remove(file_name(role)) =~= files.remove(file_name(role)));
    }
}

/// A need that fails makes the whole fail, in the same way.
proof fn missing_fails(files: Files, role: Seq<char>, needs: Seq<(int, Seq<KeyView>)>, i: int)
    requires
        0 <= i <= needs.len(),
        missing_for_all(files, role, needs.take(i)) is Err,
    ensures
        missing_for_all(files, role, needs) == missing_for_all(files, role, needs.take(i)),
    decreases needs.len(),
{
    if i < needs.len() {
        assert(needs.drop_last().take(i) =~= needs.take(i));
        missing_fails(files, role, needs.drop_last(), i);
    } else {
        assert(needs.take(i) =~= needs);
    }
}

/// A signature that the key accepts counts once it was added, whatever signatures were there.
pub proof fn signature_counts(sigs: Seq<SignatureView>, input: Seq<u8>, key: KeyView, value: Seq<u8>)
    requires
        keys::accepts(key, input, value),
    ensures
        signed(with_signature(sigs, SignatureView { key_id: key.id, value }), input, key),
{
    let sig = SignatureView { key_id: key.id, value };
    let kept = sigs.filter(|s: SignatureView| s.key_id != sig.key_id);
    let all = with_signature(sigs, sig);
    order::push_holds(kept, sig, sig);
    order::sorted_holds::<Signature>(kept.push(sig), sig);
    let i = choose|i: int| 0 <= i < all.len() && all[i] == sig;
    assert(all[i].key_id == key.id && keys::accepts(key, input, all[i].value));
}

/// Adding a signature by one key changes nothing for keys with other ids.
pub proof fn other_signatures_stay(
    sigs: Seq<SignatureView>,
    input: Seq<u8>,
    sig: SignatureView,
    other: KeyView,
)
    requires
        other.id != sig.key_id,
    ensures
        signed(with_signature(sigs, sig), input, other) <==> signed(sigs, input, other),
{
    let p = |s: SignatureView| s.key_id != sig.key_id;
    let kept = sigs.filter(p);
    let all = with_signature(sigs, sig);
    assert forall|e: SignatureView| e.key_id != sig.key_id implies (all.contains(e)
        <==> sigs.contains(e)) by {
        order::push_holds(kept, sig, e);
        order::sorted_holds::<Signature>(kept.push(sig), e);
        filter_holds(sigs, p, e);
    }
    if signed(sigs, input, other) {
        let i = choose|i: int|
            0 <= i < sigs.len() && (#[trigger] sigs[i]).key_id == other.id && keys::accepts(
                other,
                input,
                sigs[i].value,
            );
        assert(sigs.contains(sigs[i]));
        let j = choose|j: int| 0 <= j < all.len() && all[j] == sigs[i];
        assert(all[j].key_id == other.id);
    }
    if signed(all, input, other) {
        let i = choose|i: int|
            0 <= i < all.len() && (#[trigger] all[i]).key_id == other.id && keys::accepts(
                other,
                input,
                all[i].value,
            );
        assert(all.contains(all[i]));
        let j = choose|j: int| 0 <= j < sigs.len() && sigs[j] == all[i];
        assert(sigs[j].key_id == other.id);
    }
}

/// The signatures after one was added are the earlier ones of other keys, and the new one.
pub proof fn signatures_after_signing(sigs: Seq<SignatureView>, sig: SignatureView, s: SignatureView)
    ensures
        with_signature(sigs, sig).contains(s) <==> s == sig || (sigs.contains(s) && s.key_id
            != sig.key_id),
{
    let p = |s: SignatureView| s.key_id != sig.key_id;
    let kept = sigs.filter(p);
    order::push_holds(kept, sig, s);
    order::sorted_holds::<Signature>(kept.push(sig), s);
    filter_holds(sigs, p, s);
}

/// After a signature was added it is the only one of its key, however many there were.
pub proof fn one_signature_by_the_signer(sigs: Seq<SignatureView>, sig: SignatureView)
    ensures
        with_signature(sigs, sig).filter(|s: SignatureView| s.key_id == sig.key_id) == seq![sig],
{
    let p = |s: SignatureView| s.key_id != sig.key_id;
    let q = |s: SignatureView| s.key_id == sig.key_id;
    let kept = sigs.filter(p);
    nothing_left(kept, sigs, p, q);
    assert(kept.push(sig).drop_last() =~= kept);
    assert(kept.push(sig).filter(q) =~= seq![sig]) by {
        reveal(Seq::filter);
    }
    sorted_filter(kept.push(sig), q);
    let r = with_signature(sigs, sig).filter(q);
    assert(r.len() == 1);
    assert(r.contains(r[0]));
    filter_holds(with_signature(sigs, sig), q, r[0]);
    signatures_after_signing(sigs, sig, r[0]);
    assert(r =~= seq![sig]);
}

/// A filter that keeps what another does not keeps nothing of what that one leaves.
proof fn nothing_left<A>(kept: Seq<A>, s: Seq<A>, p: spec_fn(A) -> bool, q: spec_fn(A) -> bool)
    requires
        kept == s.filter(p),
        forall|e: A| #[trigger] p(e) == !q(e),
    ensures
        kept.filter(q) == Seq::<A>::empty(),
{
    let r = kept.filter(q);
    if r.len() > 0 {
        assert(r.contains(r[0]));
        filter_holds(kept, q, r[0]);
        filter_holds(s, p, r[0]);
        assert(p(r[0]) == !q(r[0]));
    }
    assert(r =~= Seq::<A>::empty());
}

/// A filter keeps one element more where it keeps the inserted one, else as many as before.
proof fn inserted_filter(s: Seq<SignatureView>, x: SignatureView, q: spec_fn(SignatureView) -> bool)
    ensures
        order::inserted::<Signature>(s, x).filter(q).len() == s.push(x).filter(q).len(),
    decreases s.len(),
{
    if s.len() > 0 && <Signature as order::Ordered>::before(x, s.last()) {
        let t = s.drop_last();
        inserted_filter(t, x, q);
        push_filter(order::inserted::<Signature>(t, x), s.last(), q);
        push_filter(t, x, q);
        push_filter(t, s.last(), q);
        push_filter(s, x, q);
        assert(t.push(s.last()) =~= s);
    }
}

/// What a filter keeps of a longer sequence.
proof fn push_filter<A>(s: Seq<A>, x: A, q: spec_fn(A) -> bool)
    ensures
        s.push(x).filter(q) == if q(x) {
            s.filter(q).push(x)
        } else {
            s.filter(q)
        },
{
    reveal(Seq::filter);
    assert(s.push(x).drop_last() =~= s);
}

/// Putting signatures in order does not change how many of them a filter keeps.
proof fn sorted_filter(s: Seq<SignatureView>, q: spec_fn(SignatureView) -> bool)
    ensures
        order::sorted::<Signature>(s).filter(q).len() == s.filter(q).len(),
    decreases s.len(),
{
    reveal(Seq::filter);
    if s.len() > 0 {
        let t = order::sorted::<Signature>(s.drop_last());
        sorted_filter(s.drop_last(), q);
        inserted_filter(t, s.last(), q);
        assert(t.push(s.last()).drop_last() =~= t);
    }
}

/// After signing, those that count as signers among the keys are those that did before, and the
/// signer. Two keys of the list may not have the same id, as none do whose ids their definitions give.
pub proof fn signers_after_signing(
    sigs: Seq<SignatureView>,
    input: Seq<u8>,
    key: KeyView,
    value: Seq<u8>,
    keys: Seq<KeyView>,
)
    requires
        keys::accepts(key, input, value),
        forall|i: int| 0 <= i < keys.len() && (#[trigger] keys[i]).id == key.id ==> keys[i] == key,
    ensures
        ({
            let all = with_signature(sigs, SignatureView { key_id: key.id, value });
            keys.filter(|k: KeyView| signed(all, input, k)) == signers_and(sigs, input, key, keys)
        }),
{
    let sig = SignatureView { key_id: key.id, value };
    let all = with_signature(sigs, sig);
    let p = |k: KeyView| signed(all, input, k);
    let q = signer_or(sigs, input, key);
    assert forall|k: KeyView| keys.contains(k) implies #[trigger] q(k) == p(k) by {
        let i = choose|i: int| 0 <= i < keys.len() && keys[i] == k;
        if keys[i].id == key.id {
            signature_counts(sigs, input, key, value);
        } else {
            other_signatures_stay(sigs, input, sig, k);
        }
    }
    filter_alike(keys, p, q);
}

/// Filters that agree on the elements keep the same.
pub proof fn filter_alike<A>(s: Seq<A>, p: spec_fn(A) -> bool, q: spec_fn(A) -> bool)
    requires
        forall|e: A| s.contains(e) ==> #[trigger] q(e) == p(e),
    ensures
        s.filter(q) == s.filter(p),
    decreases s.len(),
{
    reveal(Seq::filter);
    if s.len() > 0 {
        assert forall|e: A| s.drop_last().contains(e) implies #[trigger] q(e) == p(e) by {
            let i = choose|i: int| 0 <= i < s.drop_last().len() && s.drop_last()[i] == e;
            assert(s[i] == e);
        }
        filter_alike(s.drop_last(), p, q);
        assert(s[s.len() - 1] == s.last());
        assert(q(s.last()) == p(s.last()));
    }
}

/// Whether no key has two signatures in the list.
pub open spec fn one_each(sigs: Seq<SignatureView>) -> bool {
    order::distinct(sigs, |s: SignatureView| s.key_id)
}

/// What a filter keeps has distinct labels where all had.
pub proof fn filter_distinct<A>(s: Seq<A>, p: spec_fn(A) -> bool, label: spec_fn(A) -> Seq<char>)
    requires
        order::distinct(s, label),
    ensures
        order::distinct(s.filter(p), label),
    decreases s.len(),
{
    reveal(Seq::filter);
    if s.len() > 0 {
        let t = s.drop_last();
        let u = t.filter(p);
        assert(order::distinct(t, label)) by {
            assert forall|i: int, j: int| 0 <= i < j < t.len() implies label(#[trigger] t[i]) != label(
                #[trigger] t[j],
            ) by {
                assert(t[i] == s[i] && t[j] == s[j]);
            }
        }
        filter_distinct(t, p, label);
        assert forall|i: int| 0 <= i < u.len() implies label(#[trigger] u[i]) != label(s.last()) by {
            assert(u.contains(u[i]));
            filter_holds(t, p, u[i]);
            let j = choose|j: int| 0 <= j < t.len() && t[j] == u[i];
            assert(s[j] == u[i]);
            assert(s[s.len() - 1] == s.last());
        }
    }
}

/// Adding a signature never leaves two by the same key, where there were none.
pub proof fn signatures_stay_single(sigs: Seq<SignatureView>, sig: SignatureView)
    requires
        one_each(sigs),
    ensures
        one_each(with_signature(sigs, sig)),
{
    let label = |s: SignatureView| s.key_id;
    let p = |s: SignatureView| s.key_id != sig.key_id;
    let kept = sigs.filter(p);
    filter_distinct(sigs, p, label);
    assert forall|i: int| 0 <= i < kept.len() implies label(#[trigger] kept[i]) != label(sig) by {
        assert(kept.contains(kept[i]));
        filter_holds(sigs, p, kept[i]);
    }
    order::sorted_distinct::<Signature>(kept.push(sig), label);
}

/// What a filter keeps.
pub proof fn filter_holds<A>(s: Seq<A>, p: spec_fn(A) -> bool, e: A)
    ensures
        s.filter(p).contains(e) <==> s.contains(e) && p(e),
    decreases s.len(),
{
    reveal(Seq::filter);
    if s.len() > 0 {
        filter_holds(s.drop_last(), p, e);
        order::push_holds(s.drop_last(), s.last(), e);
        assert(s.drop_last().push(s.last()) =~= s);
        order::push_holds(s.drop_last().filter(p), s.last(), e);
    }
}

/// The metadata among files that are named relative to `metadata/`.
pub open spec fn loaded(entries: Seq<(Seq<char>, Seq<u8>)>) -> Files
    decreases entries.len(),
{
    if entries.len() == 0 {
        Map::empty()
    } else {
        let (name, bytes) = entries.last();
        if ".json"@.is_suffix_of(name) {
            loaded(entries.drop_last()).insert(name, bytes)
        } else {
            loaded(entries.drop_last())
        }
    }
}

/// The name relative to `metadata/` of a path in the git repository, if it is that of metadata.
pub open spec fn name_in_metadata(path: Seq<char>) -> Option<Seq<char>> {
    if "metadata/"@.is_prefix_of(path) && ".json"@.is_suffix_of(path.skip(9)) {
        Some(path.skip(9))
    } else {
        None
    }
}

/// What git shows of a file at a revision.
#[derive(Debug)]
pub struct Shown {
    pub path: String,
    pub content: Option<Vec<u8>>,
}

impl View for Shown {
    type V = (Seq<char>, Option<Seq<u8>>);

    open spec fn view(&self) -> (Seq<char>, Option<Seq<u8>>) {
        (
            self.path@,
            match self.content {
                Some(b) => Some(b@),
                None => None,
            },
        )
    }
}

/// The metadata among the files that git shows at a revision.
pub open spec fn loaded_rev(shown: Seq<(Seq<char>, Option<Seq<u8>>)>) -> Result<Files, Fault>
    decreases shown.len(),
{
    if shown.len() == 0 {
        Ok(Map::empty())
    } else {
        match loaded_rev(shown.drop_last()) {
            Err(e) => Err(e),
            Ok(files) => match name_in_metadata(shown.last().0) {
                None => Ok(files),
                Some(name) => match shown.last().1 {
                    Some(bytes) => Ok(files.insert(name, bytes)),
                    None => Err(Problem::MissingFile { name: shown.last().0 }),
                },
            },
        }
    }
}

/// A failure on the way is the failure of the whole.
proof fn loaded_rev_fails(shown: Seq<(Seq<char>, Option<Seq<u8>>)>, i: int)
    requires
        0 <= i <= shown.len(),
        loaded_rev(shown.take(i)) is Err,
    ensures
        loaded_rev(shown) == loaded_rev(shown.take(i)),
    decreases shown.len(),
{
    if i < shown.len() {
        assert(shown.drop_last().take(i) =~= shown.take(i));
        loaded_rev_fails(shown.drop_last(), i);
    } else {
        assert(shown.take(i) =~= shown);
    }
}

/// Whether a file of the directory `metadata` is removed when the files are saved there: it is
/// metadata of a role that no longer exists.
pub open spec fn obsolete(files: Files, name: Seq<char>) -> bool {
    ".json"@.is_suffix_of(name) && !files.dom().contains(name)
}

/// What the directory `metadata` holds after the files were saved in it: `before` are its files and
/// those of `root_history/`, from which nothing is removed.
pub open spec fn saved(files: Files, before: Files) -> Files {
    before.remove_keys(
        before.dom().filter(|name: Seq<char>| !name.contains('/') && obsolete(files, name)),
    ).union_prefer_right(files)
}

/// What was saved is found again: the roles are those that were saved, with the same metadata,
/// whatever the directory held before. Every version of root that was saved is found too.
pub proof fn saved_roles_found(files: Files, before: Files, role: Seq<char>)
    requires
        !role.contains('/'),
    ensures
        raw_of(saved(files, before), role) == raw_of(files, role),
        forall|name: Seq<char>| #[trigger]
            files.dom().contains(name) ==> saved(files, before).dom().contains(name) && saved(
                files,
                before,
            )[name] == files[name],
{
    let name = file_name(role);
    assert(name.skip(role.len() as int) =~= ".json"@);
    assert(".json"@.is_suffix_of(name)) by {
        reveal_strlit(".json");
        assert(name.subrange(name.len() - 5, name.len() as int) =~= ".json"@);
    }
    assert(!name.contains('/')) by {
        reveal_strlit(".json");
        if name.contains('/') {
            let i = choose|i: int| 0 <= i < name.len() && name[i] == '/';
            if i < role.len() {
                assert(role[i] == '/');
            } else {
                assert(name[i] == ".json"@[i - role.len()]);
            }
        }
    }
}

/// What a directory holds, as a list of its files tells it.
pub open spec fn held(entries: Seq<(Seq<char>, Seq<u8>)>) -> Files
    decreases entries.len(),
{
    if entries.len() == 0 {
        Map::empty()
    } else {
        held(entries.drop_last()).insert(entries.last().0, entries.last().1)
    }
}

/// What is loaded is the metadata that the directory holds.
proof fn loaded_is_held(entries: Seq<(Seq<char>, Seq<u8>)>, name: Seq<char>)
    ensures
        loaded(entries).dom().contains(name) <==> held(entries).dom().contains(name)
            && ".json"@.is_suffix_of(name),
        loaded(entries).dom().contains(name) ==> loaded(entries)[name] == held(entries)[name],
    decreases entries.len(),
{
    if entries.len() > 0 {
        loaded_is_held(entries.drop_last(), name);
    }
}

/// Loading gives back what was saved: every file of it byte for byte, and nothing else. The directory
/// may have held anything before, but for metadata in a subdirectory, where nothing is removed.
pub proof fn loading_gives_back_what_was_saved(
    files: Files,
    before: Files,
    entries: Seq<(Seq<char>, Seq<u8>)>,
)
    requires
        forall|name: Seq<char>| #[trigger]
            files.dom().contains(name) ==> ".json"@.is_suffix_of(name),
        forall|name: Seq<char>| #[trigger]
            before.dom().contains(name) && name.contains('/') && ".json"@.is_suffix_of(name)
                ==> files.dom().contains(name),
        held(entries) == saved(files, before),
    ensures
        loaded(entries) == files,
{
    assert forall|name: Seq<char>|
        loaded(entries).dom().contains(name) <==> files.dom().contains(name) by {
        loaded_is_held(entries, name);
    }
    assert forall|name: Seq<char>| files.dom().contains(name) implies loaded(entries)[name]
        == files[name] by {
        loaded_is_held(entries, name);
    }
    assert(loaded(entries) =~= files);
}

/// Saving leaves alone what is not metadata, and whatever is in a subdirectory.
pub proof fn saving_leaves_the_rest(files: Files, before: Files, name: Seq<char>)
    requires
        before.dom().contains(name),
        !files.dom().contains(name),
        !".json"@.is_suffix_of(name) || name.contains('/'),
    ensures
        saved(files, before).dom().contains(name),
        saved(files, before)[name] == before[name],
{
}

impl Repo {
    /// The metadata among the files of a working tree: `entries` are the plain files of `metadata/`
    /// and of `metadata/root_history/`, named relative to `metadata/`.
    pub fn load(entries: &Vec<(String, Vec<u8>)>) -> (r: Repo)
        ensures
            r@ == loaded(text::views(entries@)),
    {
        let ghost all = text::views(entries@);
        let mut files: StrMap<Vec<u8>> = StrMap::new();
        let mut i: usize = 0;
        while i < entries.len()
            invariant
                i <= entries.len(),
                all == text::views(entries@),
                files@ == loaded(all.take(i as int)),
            decreases entries.len() - i,
        {
            let (name, bytes) = &entries[i];
            assert(all.take(i + 1).drop_last() =~= all.take(i as int));
            assert(all.take(i + 1).last() == (name@, bytes@));
            if text::has_suffix(name.as_str(), ".json") {
                files.insert(name.clone(), bytes.dup());
            }
            i = i + 1;
        }
        assert(all.take(i as int) =~= all);
        Repo { files }
    }

    /// The paths of metadata among the paths that git lists.
    pub fn metadata_paths(paths: &Vec<String>) -> (r: Vec<String>)
        ensures
            text::views(r@) == text::views(paths@).filter(
                |path: Seq<char>| name_in_metadata(path) is Some,
            ),
    {
        let ghost all = text::views(paths@);
        let ghost p = |path: Seq<char>| name_in_metadata(path) is Some;
        let mut out: Vec<String> = Vec::new();
        let mut i: usize = 0;
        proof {
            reveal(Seq::filter);
            assert(text::views(out@) =~= all.take(0).filter(p));
        }
        while i < paths.len()
            invariant
                i <= paths.len(),
                all == text::views(paths@),
                p == (|path: Seq<char>| name_in_metadata(path) is Some),
                text::views(out@) == all.take(i as int).filter(p),
            decreases paths.len() - i,
        {
            proof {
                reveal(Seq::filter);
                assert(all.take(i + 1).drop_last() =~= all.take(i as int));
                assert(all.take(i + 1).last() == paths@[i as int]@);
            }
            if below_metadata(paths[i].as_str()).is_some() {
                out.push(paths[i].clone());
            }
            i = i + 1;
        }
        assert(all.take(i as int) =~= all);
        out
    }

    /// The metadata at a git revision, where `shown` is what git shows of the files there.
    pub fn load_rev(shown: &Vec<Shown>) -> (r: Result<Repo, Error>)
        ensures
            error::outcome(r) == loaded_rev(text::views(shown@)),
    {
        let ghost all = text::views(shown@);
        let mut files: StrMap<Vec<u8>> = StrMap::new();
        let mut i: usize = 0;
        while i < shown.len()
            invariant
                i <= shown.len(),
                all == text::views(shown@),
                loaded_rev(all.take(i as int)) == Ok::<Files, Fault>(files@),
            decreases shown.len() - i,
        {
            assert(all.take(i + 1).drop_last() =~= all.take(i as int));
            assert(all.take(i + 1).last() == shown@[i as int]@);
            match below_metadata(shown[i].path.as_str()) {
                None => {},
                Some(name) => match &shown[i].content {
                    Some(bytes) => {
                        files.insert(name, bytes.dup());
                    },
                    None => {
                        proof {
                            loaded_rev_fails(all, i + 1);
                        }
                        return Err(Problem::MissingFile { name: shown[i].path.clone() });
                    },
                },
            }
            i = i + 1;
        }
        assert(all.take(i as int) =~= all);
        Ok(Repo { files })
    }

    /// Which of the plain files `present` in the directory `metadata` are to be removed when this
    /// repository is saved there.
    pub fn removals(&self, present: &Vec<String>) -> (r: Vec<String>)
        ensures
            text::views(r@) == text::views(present@).filter(|name: Seq<char>| obsolete(self@, name)),
    {
        let ghost all = text::views(present@);
        let ghost p = |name: Seq<char>| obsolete(self@, name);
        let mut out: Vec<String> = Vec::new();
        let mut i: usize = 0;
        proof {
            reveal(Seq::filter);
            assert(text::views(out@) =~= all.take(0).filter(p));
        }
        while i < present.len()
            invariant
                i <= present.len(),
                all == text::views(present@),
                p == (|name: Seq<char>| obsolete(self@, name)),
                text::views(out@) == all.take(i as int).filter(p),
            decreases present.len() - i,
        {
            proof {
                reveal(Seq::filter);
                assert(all.take(i + 1).drop_last() =~= all.take(i as int));
                assert(all.take(i + 1).last() == present@[i as int]@);
            }
            let name = &present[i];
            if text::has_suffix(name.as_str(), ".json") && !self.files.contains(name.as_str()) {
                out.push(name.clone());
            }
            i = i + 1;
        }
        assert(all.take(i as int) =~= all);
        out
    }

    /// The files, keyed by path relative to `metadata/`.
    pub fn files(&self) -> (r: &StrMap<Vec<u8>>)
        ensures
            r@ == self@,
    {
        &self.files
    }
}

fn below_metadata(path: &str) -> (r: Option<String>)
    ensures
        r is Some <==> name_in_metadata(path@) is Some,
        r matches Some(n) ==> name_in_metadata(path@) == Some(n@),
{
    let name = text::strip_prefix(path, "metadata/")?;
    proof {
        reveal_strlit("metadata/");
        assert(path@.skip(9) =~= name@);
    }
    if text::has_suffix(name.as_str(), ".json") {
        Some(name)
    } else {
        None
    }
}

} // verus!
