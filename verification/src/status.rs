//! What a signing event changes, and who still has to sign it.

use vstd::prelude::*;

use crate::config;
use crate::config::{Config, ConfigView};
use crate::documents::{
    DelegationView, Description, DescriptionView, HeaderView, RoleKeysView, RootView, TargetsView,
};
use crate::error;
use crate::error::{Error, Fault, Problem};
use crate::keys::{KeyView, PublicKey};
use crate::metadata::{Content, ContentView, Delegation, Kind, RoleKeys, Root, Targets};
use crate::order;
use crate::publish;
use crate::repo;
use crate::repo::{Files, Need, Repo};
use crate::strmap;
use crate::strmap::{StrMap, StrSet, Value};
use crate::text;
use crate::time::Time;

verus! {

broadcast use crate::text::views_push;

/// A key that signs a role, as the config names it.
#[derive(Debug)]
pub struct Key {
    pub id: String,
    /// The owner of an offline key, or the name of an online key.
    pub name: String,
    pub online: bool,
}

/// A key that signs a role, as contracts speak of it.
pub struct SignerView {
    pub id: Seq<char>,
    pub name: Seq<char>,
    pub online: bool,
}

impl View for Key {
    type V = SignerView;

    open spec fn view(&self) -> SignerView {
        SignerView { id: self.id@, name: self.name@, online: self.online }
    }
}

/// A threshold of signatures a role must reach.
#[derive(Debug)]
pub struct Requirement {
    /// Whether these are the previous root's keys, which must also sign a new root version.
    pub previous_root: bool,
    pub threshold: u32,
    pub signed: Vec<Key>,
    pub unsigned: Vec<Key>,
}

/// A threshold of signatures, as contracts speak of it.
pub struct RequirementView {
    pub previous_root: bool,
    pub threshold: int,
    pub signed: Seq<SignerView>,
    pub unsigned: Seq<SignerView>,
}

impl View for Requirement {
    type V = RequirementView;

    open spec fn view(&self) -> RequirementView {
        RequirementView {
            previous_root: self.previous_root,
            threshold: self.threshold as int,
            signed: text::views(self.signed@),
            unsigned: text::views(self.unsigned@),
        }
    }
}

/// Whether the threshold is reached.
pub open spec fn is_met(r: RequirementView) -> bool {
    r.signed.len() >= r.threshold
}

impl Requirement {
    /// Whether the threshold is reached.
    pub fn met(&self) -> (r: bool)
        ensures
            r == is_met(self@),
    {
        assert(text::views(self.signed@).len() == self.signed@.len());
        self.signed.len() as u64 >= self.threshold as u64
    }
}

/// A target file that an event adds or changes.
#[derive(Debug)]
pub struct TargetFile {
    pub length: u64,
    pub sha256: String,
    /// Where the file was uploaded, relative to the storage root.
    pub object: String,
}

/// A target file, as contracts speak of it.
pub struct TargetFileView {
    pub length: int,
    pub sha256: Seq<char>,
    pub object: Seq<char>,
}

impl View for TargetFile {
    type V = TargetFileView;

    open spec fn view(&self) -> TargetFileView {
        TargetFileView { length: self.length as int, sha256: self.sha256@, object: self.object@ }
    }
}

/// A change to a role's signed metadata.
#[derive(Debug)]
pub enum Change {
    /// A target added, changed or removed.
    Target {
        path: String,
        kind: &'static str,
        /// The new file, unless the target was removed.
        file: Option<TargetFile>,
    },
    /// Any other change, in words.
    Other(String),
}

/// A change, as contracts speak of it.
pub enum ChangeView {
    Target { path: Seq<char>, kind: Seq<char>, file: Option<TargetFileView> },
    Other(Seq<char>),
}

impl View for Change {
    type V = ChangeView;

    open spec fn view(&self) -> ChangeView {
        match self {
            Change::Target { path, kind, file } => ChangeView::Target {
                path: path@,
                kind: kind@,
                file: match file {
                    Some(f) => Some(f@),
                    None => None,
                },
            },
            Change::Other(t) => ChangeView::Other(t@),
        }
    }
}

/// The change in words.
pub open spec fn change_text(c: ChangeView) -> Seq<char> {
    match c {
        ChangeView::Target { path, kind, file: Some(file) } => "target "@ + path + " "@
            + kind + " ("@ + text::decimal(file.length as nat) + " bytes, sha256 "@
            + file.sha256 + ")"@,
        ChangeView::Target { path, kind, file: None } => "target "@ + path + " "@ + kind,
        ChangeView::Other(t) => t,
    }
}

impl Change {
    /// The change in words.
    pub fn to_text(&self) -> (r: String)
        ensures
            r@ == change_text(self@),
    {
        match self {
            Change::Target { path, kind, file } => {
                let start = text::cat(
                    text::cat(text::cat("target ", path.as_str()).as_str(), " ").as_str(),
                    kind,
                );
                match file {
                    Some(f) => {
                        let size = text::to_decimal(f.length);
                        let a = text::cat(text::cat(start.as_str(), " (").as_str(), size.as_str());
                        let b = text::cat(a.as_str(), " bytes, sha256 ");
                        text::cat(text::cat(b.as_str(), f.sha256.as_str()).as_str(), ")")
                    },
                    None => start,
                }
            },
            Change::Other(t) => t.clone(),
        }
    }
}

/// What an event does to one role.
#[derive(Debug)]
pub struct RoleStatus {
    pub role: String,
    /// The version and expiry on main, if the role exists there.
    pub base: Option<(u32, Time)>,
    pub version: u32,
    pub expires: Time,
    /// What the metadata changes compared with main.
    pub changes: Vec<Change>,
    pub requirements: Vec<Requirement>,
}

/// What an event does to one role, as contracts speak of it.
pub struct RoleStatusView {
    pub role: Seq<char>,
    pub base: Option<(int, int)>,
    pub version: int,
    pub expires: int,
    pub changes: Seq<ChangeView>,
    pub requirements: Seq<RequirementView>,
}

impl View for RoleStatus {
    type V = RoleStatusView;

    open spec fn view(&self) -> RoleStatusView {
        RoleStatusView {
            role: self.role@,
            base: match self.base {
                Some((v, t)) => Some((v as int, t@)),
                None => None,
            },
            version: self.version as int,
            expires: self.expires@,
            changes: text::views(self.changes@),
            requirements: text::views(self.requirements@),
        }
    }
}

/// Whether the role has all the signatures it needs.
pub open spec fn role_complete(s: RoleStatusView) -> bool {
    forall|i: int| 0 <= i < s.requirements.len() ==> is_met(#[trigger] s.requirements[i])
}

/// Whether the requirement is not met and lists the key as missing.
pub open spec fn lacks(r: RequirementView, key: Seq<char>) -> bool {
    !is_met(r) && exists|i: int| 0 <= i < r.unsigned.len() && (#[trigger] r.unsigned[i]).id == key
}

/// Whether the role still needs a signature from `key`.
pub open spec fn role_needs(s: RoleStatusView, key: Seq<char>) -> bool {
    exists|i: int| 0 <= i < s.requirements.len() && lacks(#[trigger] s.requirements[i], key)
}

impl RoleStatus {
    /// Whether the role has all the signatures it needs.
    pub fn complete(&self) -> (r: bool)
        ensures
            r == role_complete(self@),
    {
        let ghost all = self@.requirements;
        let mut i: usize = 0;
        while i < self.requirements.len()
            invariant
                i <= self.requirements.len(),
                all == self@.requirements,
                all == text::views(self.requirements@),
                forall|j: int| 0 <= j < i ==> is_met(#[trigger] all[j]),
            decreases self.requirements.len() - i,
        {
            assert(all[i as int] == self.requirements@[i as int]@);
            if !self.requirements[i].met() {
                return false;
            }
            i = i + 1;
        }
        true
    }

    /// Whether the role still needs a signature from the key with the id `key`.
    pub fn needs(&self, key: &str) -> (r: bool)
        ensures
            r == role_needs(self@, key@),
    {
        let ghost all = self@.requirements;
        let mut i: usize = 0;
        while i < self.requirements.len()
            invariant
                i <= self.requirements.len(),
                all == self@.requirements,
                all == text::views(self.requirements@),
                forall|j: int| 0 <= j < i ==> !lacks(#[trigger] all[j], key@),
            decreases self.requirements.len() - i,
        {
            let r = &self.requirements[i];
            assert(all[i as int] == r@);
            assert(r@.unsigned == text::views(r.unsigned@));
            if !r.met() && listed_key(&r.unsigned, key) {
                return true;
            }
            i = i + 1;
        }
        false
    }
}

/// Whether a key with the id is in the list.
fn listed_key(keys: &Vec<Key>, id: &str) -> (r: bool)
    ensures
        r == exists|i: int|
            0 <= i < text::views(keys@).len() && (#[trigger] text::views(keys@)[i]).id == id@,
{
    let ghost all = text::views(keys@);
    let mut i: usize = 0;
    while i < keys.len()
        invariant
            i <= keys.len(),
            all == text::views(keys@),
            forall|j: int| 0 <= j < i ==> (#[trigger] all[j]).id != id@,
        decreases keys.len() - i,
    {
        assert(all[i as int] == keys@[i as int]@);
        if text::same(keys[i].id.as_str(), id) {
            return true;
        }
        i = i + 1;
    }
    false
}

/// What a signing event changes, and what it lacks.
#[derive(Debug)]
pub struct EventStatus {
    /// Roles that changed or lack signatures.
    pub roles: Vec<RoleStatus>,
}

impl View for EventStatus {
    type V = Seq<RoleStatusView>;

    open spec fn view(&self) -> Seq<RoleStatusView> {
        text::views(self.roles@)
    }
}

/// The key as the config names it.
pub open spec fn signer(c: ConfigView, k: KeyView) -> SignerView {
    SignerView { id: k.id, name: config::key_label(c, k.id), online: config::online(c, k.id) }
}

/// The keys as the config names them.
pub open spec fn signers(c: ConfigView, keys: Seq<KeyView>) -> Seq<SignerView> {
    keys.map_values(|k: KeyView| signer(c, k))
}

/// Which keys of the need have signed `role`, and which have not.
pub open spec fn requirement_of(
    c: ConfigView,
    files: Files,
    role: Seq<char>,
    need: (int, Seq<KeyView>),
    previous_root: bool,
) -> Result<RequirementView, Fault> {
    match repo::signed_by_of(files, role, need.1) {
        Err(e) => Err(e),
        Ok(done) => Ok(
            RequirementView {
                previous_root,
                threshold: need.0,
                signed: signers(c, need.1.filter(|k: KeyView| done.contains(k))),
                unsigned: signers(c, need.1.filter(|k: KeyView| !done.contains(k))),
            },
        ),
    }
}

/// Which keys have signed `role`, for each need; all but the first are the previous root's.
pub open spec fn requirements_for(
    c: ConfigView,
    files: Files,
    role: Seq<char>,
    needs: Seq<(int, Seq<KeyView>)>,
) -> Result<Seq<RequirementView>, Fault>
    decreases needs.len(),
{
    if needs.len() == 0 {
        Ok(Seq::empty())
    } else {
        match requirements_for(c, files, role, needs.drop_last()) {
            Err(e) => Err(e),
            Ok(earlier) => match requirement_of(c, files, role, needs.last(), needs.len() > 1) {
                Err(e) => Err(e),
                Ok(r) => Ok(earlier.push(r)),
            },
        }
    }
}

proof fn requirements_fail(
    c: ConfigView,
    files: Files,
    role: Seq<char>,
    needs: Seq<(int, Seq<KeyView>)>,
    i: int,
)
    requires
        0 <= i <= needs.len(),
        requirements_for(c, files, role, needs.take(i)) is Err,
    ensures
        requirements_for(c, files, role, needs) == requirements_for(c, files, role, needs.take(i)),
    decreases needs.len(),
{
    if i < needs.len() {
        assert(needs.drop_last().take(i) =~= needs.take(i));
        requirements_fail(c, files, role, needs.drop_last(), i);
    } else {
        assert(needs.take(i) =~= needs);
    }
}

/// The keys of the list that are among `done`, or those that are not, as the config names them.
fn name_keys(config: &Config, keys: &Vec<PublicKey>, done: &Vec<PublicKey>, among: bool) -> (r: Vec<
    Key,
>)
    ensures
        text::views(r@) == signers(
            config@,
            text::views(keys@).filter(|k: KeyView| text::views(done@).contains(k) == among),
        ),
{
    let ghost all = text::views(keys@);
    let ghost d = text::views(done@);
    let ghost p = |k: KeyView| d.contains(k) == among;
    let ghost f = |k: KeyView| signer(config@, k);
    let mut out: Vec<Key> = Vec::new();
    let mut i: usize = 0;
    proof {
        reveal(Seq::filter);
        assert(all.take(0).filter(p) =~= Seq::empty());
        assert(text::views(out@) =~= all.take(0).filter(p).map_values(f));
    }
    while i < keys.len()
        invariant
            i <= keys.len(),
            all == text::views(keys@),
            d == text::views(done@),
            p == (|k: KeyView| d.contains(k) == among),
            f == (|k: KeyView| signer(config@, k)),
            text::views(out@) == all.take(i as int).filter(p).map_values(f),
        decreases keys.len() - i,
    {
        let key = &keys[i];
        proof {
            reveal(Seq::filter);
            assert(all.take(i + 1).drop_last() =~= all.take(i as int));
            assert(all.take(i + 1).last() == key@);
            let kept = all.take(i as int).filter(p);
            assert(kept.push(key@).map_values(f) =~= kept.map_values(f).push(f(key@)));
        }
        if repo::holds(done, key) == among {
            out.push(
                Key {
                    id: key.id.clone(),
                    name: config.describe_key(key.id.as_str()),
                    online: config.is_online(key.id.as_str()),
                },
            );
        }
        i = i + 1;
    }
    assert(all.take(i as int) =~= all);
    out
}

fn requirement(config: &Config, head: &Repo, role: &str, need: &Need, previous_root: bool) -> (r: Result<
    Requirement,
    Error,
>)
    ensures
        error::outcome(r) == requirement_of(config@, head@, role@, need@, previous_root),
{
    let done = match head.signed_by(role, &need.keys) {
        Ok(d) => d,
        Err(e) => {
            return Err(e);
        },
    };
    let signed = name_keys(config, &need.keys, &done, true);
    let unsigned = name_keys(config, &need.keys, &done, false);
    proof {
        let all = text::views(need.keys@);
        let d = text::views(done@);
        publish::filter_same(
            all,
            |k: KeyView| d.contains(k) == true,
            |k: KeyView| d.contains(k),
        );
        publish::filter_same(
            all,
            |k: KeyView| d.contains(k) == false,
            |k: KeyView| !d.contains(k),
        );
    }
    Ok(Requirement { previous_root, threshold: need.threshold, signed, unsigned })
}

fn requirements(config: &Config, head: &Repo, role: &str, needs: &Vec<Need>) -> (r: Result<
    Vec<Requirement>,
    Error,
>)
    ensures
        repo::listed(r) == requirements_for(config@, head@, role@, text::views(needs@)),
{
    let ghost all = text::views(needs@);
    let mut out: Vec<Requirement> = Vec::new();
    let mut i: usize = 0;
    assert(text::views(out@) =~= Seq::<RequirementView>::empty());
    while i < needs.len()
        invariant
            i <= needs.len(),
            all == text::views(needs@),
            requirements_for(config@, head@, role@, all.take(i as int)) == Ok::<
                Seq<RequirementView>,
                Fault,
            >(text::views(out@)),
        decreases needs.len() - i,
    {
        proof {
            assert(all.take(i + 1).drop_last() =~= all.take(i as int));
            assert(all.take(i + 1).last() == needs@[i as int]@);
        }
        match requirement(config, head, role, &needs[i], i > 0) {
            Ok(r) => {
                out.push(r);
            },
            Err(e) => {
                proof {
                    requirements_fail(config@, head@, role@, all, i + 1);
                }
                return Err(e);
            },
        }
        i = i + 1;
    }
    assert(all.take(i as int) =~= all);
    Ok(out)
}

/// How many bytes the character takes in UTF-8.
pub open spec fn width(c: char) -> int {
    if (c as int) < 128 {
        1
    } else if (c as int) < 2048 {
        2
    } else if (c as int) < 65536 {
        3
    } else {
        4
    }
}

/// The beginning of `s` that takes exactly so many bytes, if there is one.
pub open spec fn head_of(s: Seq<char>, bytes: int) -> Option<Seq<char>>
    decreases s.len(),
{
    if bytes == 0 {
        Some(Seq::empty())
    } else if s.len() == 0 || width(s[0]) > bytes {
        None
    } else {
        match head_of(s.skip(1), bytes - width(s[0])) {
            Some(t) => Some(seq![s[0]] + t),
            None => None,
        }
    }
}

/// The first eight bytes of a key id.
pub open spec fn short(id: Seq<char>) -> Seq<char> {
    match head_of(id, 8) {
        Some(t) => t,
        None => id,
    }
}

fn width_of(c: char) -> (r: usize)
    ensures
        r == width(c),
{
    let code: u32 = c as u32;
    if code < 128 {
        1
    } else if code < 2048 {
        2
    } else if code < 65536 {
        3
    } else {
        4
    }
}

/// The first eight bytes of a key id, if they are whole characters.
pub(crate) fn id_start(id: &str) -> (r: Option<String>)
    ensures
        r is Some <==> head_of(id@, 8) is Some,
        r matches Some(t) ==> head_of(id@, 8) == Some(t@),
{
    let chars = text::characters(id);
    let ghost s = id@;
    let mut left: usize = 8;
    let mut i: usize = 0;
    assert(s.skip(0) =~= s);
    assert(head_of(s, 8) is Some ==> head_of(s, 8)->0 =~= s.take(0) + head_of(s, 8)->0);
    while left > 0
        invariant
            i <= chars.len(),
            left <= 8,
            s == id@,
            chars@ == s,
            head_of(s, 8) is Some <==> head_of(s.skip(i as int), left as int) is Some,
            head_of(s, 8) matches Some(t) ==> t == s.take(i as int) + head_of(
                s.skip(i as int),
                left as int,
            )->0,
        decreases left,
    {
        let ghost rest = s.skip(i as int);
        if i >= chars.len() {
            return None;
        }
        assert(rest[0] == chars@[i as int]);
        let w = width_of(chars[i]);
        if w > left {
            return None;
        }
        proof {
            assert(rest.skip(1) =~= s.skip(i + 1));
            if head_of(s, 8) is Some {
                let t = head_of(s.skip(i + 1), left - w)->0;
                assert(s.take(i as int) + (seq![rest[0]] + t) =~= s.take(i + 1) + t);
            }
        }
        left = left - w;
        i = i + 1;
    }
    let start = text::text_of(&chars, 0, i);
    assert(s.take(i as int) + Seq::<char>::empty() =~= start@);
    Some(start)
}

/// The first eight bytes of a key id.
fn short_id(id: &str) -> (r: String)
    ensures
        r@ == short(id@),
{
    match id_start(id) {
        Some(t) => t,
        None => id.to_owned(),
    }
}

/// A key in words, with the beginning of its id.
pub open spec fn key_text(c: ConfigView, id: Seq<char>) -> Seq<char> {
    config::key_label(c, id) + " ["@ + short(id) + "]"@
}

/// The keys in words.
pub open spec fn key_texts(c: ConfigView, ids: Set<Seq<char>>) -> Set<Seq<char>> {
    ids.map(|id: Seq<char>| key_text(c, id))
}

/// A change for each of the words, with something before and after them.
pub open spec fn others(before: Seq<char>, words: Seq<Seq<char>>, after: Seq<char>) -> Seq<ChangeView> {
    words.map_values(|word: Seq<char>| ChangeView::Other(before + word + after))
}

/// How the threshold of a role changes.
pub open spec fn threshold_changes(what: Seq<char>, was: Option<RoleKeysView>, new: RoleKeysView) -> Seq<
    ChangeView,
> {
    match was {
        None => seq![
            ChangeView::Other(what + ": threshold "@ + text::decimal(new.threshold as nat)),
        ],
        Some(o) => if o.threshold != new.threshold {
            seq![
                ChangeView::Other(
                    what + ": threshold "@ + text::decimal(o.threshold as nat) + " → "@
                        + text::decimal(new.threshold as nat),
                ),
            ]
        } else {
            Seq::empty()
        },
    }
}

/// The key ids of a role that may be new.
pub open spec fn ids_before(was: Option<RoleKeysView>) -> Set<Seq<char>> {
    match was {
        Some(o) => o.key_ids,
        None => Set::empty(),
    }
}

/// How the keys and the threshold of a role change: keys that are added, keys that are removed, and
/// the threshold.
pub open spec fn key_changes_of(
    c: ConfigView,
    what: Seq<char>,
    was: Option<RoleKeysView>,
    new: RoleKeysView,
) -> Seq<ChangeView> {
    let added = strmap::listing(key_texts(c, new.key_ids.difference(ids_before(was))));
    let removed = strmap::listing(key_texts(c, ids_before(was).difference(new.key_ids)));
    others(what + ": key "@, added, " added"@) + others(what + ": key "@, removed, " removed"@)
        + threshold_changes(what, was, new)
}

/// Appends a change for each of the words.
fn push_others(out: &mut Vec<Change>, before: &str, words: &StrSet, after: &str)
    ensures
        text::views(final(out)@) == text::views(old(out)@) + others(
            before@,
            strmap::listing(words@),
            after@,
        ),
{
    let n = words.len();
    let ghost start = text::views(out@);
    let ghost all = strmap::listing(words@);
    let ghost f = |word: Seq<char>| ChangeView::Other(before@ + word + after@);
    let mut i: usize = 0;
    assert(start + all.take(0).map_values(f) =~= start);
    while i < n
        invariant
            i <= n,
            n == all.len(),
            all == strmap::listing(words@),
            f == (|word: Seq<char>| ChangeView::Other(before@ + word + after@)),
            text::views(out@) == start + all.take(i as int).map_values(f),
        decreases n - i,
    {
        let word = words.item(i);
        out.push(
            Change::Other(text::cat(text::cat(before, word.as_str()).as_str(), after)),
        );
        assert(start + all.take(i + 1).map_values(f) =~= (start + all.take(i as int).map_values(
            f,
        )).push(f(word@)));
        i = i + 1;
    }
    assert(all.take(i as int) =~= all);
}

/// The ids of `a` that are not in `b`, in words.
fn describe_difference(config: &Config, a: &StrSet, b: &StrSet) -> (r: StrSet)
    ensures
        r@ == key_texts(config@, a@.difference(b@)),
{
    let n = a.len();
    let ghost all = strmap::listing(a@);
    let ghost f = |id: Seq<char>| key_text(config@, id);
    let mut out = StrSet::new();
    let mut i: usize = 0;
    while i < n
        invariant
            i <= n,
            n == all.len(),
            all == strmap::listing(a@),
            all.to_set() == a@,
            f == (|id: Seq<char>| key_text(config@, id)),
            forall|w: Seq<char>| #[trigger]
                out@.contains(w) <==> exists|j: int|
                    0 <= j < i && !b@.contains(#[trigger] all[j]) && f(all[j]) == w,
        decreases n - i,
    {
        let id = a.item(i);
        if !b.contains(id.as_str()) {
            let label = text::cat(config.describe_key(id.as_str()).as_str(), " [");
            let short = short_id(id.as_str());
            let ghost before = out@;
            out.insert(text::cat(text::cat(label.as_str(), short.as_str()).as_str(), "]"));
            proof {
                assert(out@ == before.insert(f(all[i as int])));
                assert forall|w: Seq<char>| #[trigger] out@.contains(w) <==> exists|j: int|
                    0 <= j < i + 1 && !b@.contains(#[trigger] all[j]) && f(all[j]) == w by {
                    if before.contains(w) {
                        let j = choose|j: int|
                            0 <= j < i && !b@.contains(#[trigger] all[j]) && f(all[j]) == w;
                        assert(0 <= j < i + 1 && !b@.contains(all[j]));
                    }
                    assert(!b@.contains(all[i as int]));
                }
            }
        } else {
            assert(b@.contains(all[i as int]));
        }
        i = i + 1;
    }
    proof {
        let d = a@.difference(b@);
        assert forall|w: Seq<char>| out@.contains(w) <==> key_texts(config@, d).contains(w) by {
            if out@.contains(w) {
                let j = choose|j: int|
                    0 <= j < i && !b@.contains(#[trigger] all[j]) && f(all[j]) == w;
                assert(all.to_set().contains(all[j]));
                assert(d.contains(all[j]));
                assert(d.map(f).contains(w));
            }
            if d.map(f).contains(w) {
                let id = choose|id: Seq<char>| d.contains(id) && f(id) == w;
                assert(all.to_set().contains(id));
                let j = choose|j: int| 0 <= j < all.len() && all[j] == id;
                assert(!b@.contains(all[j]));
            }
        }
        assert(out@ =~= key_texts(config@, d));
    }
    out
}

/// Describes the keys and threshold of a role changing from `was` to `new`.
fn key_changes(
    out: &mut Vec<Change>,
    config: &Config,
    what: &str,
    was: Option<&RoleKeys>,
    new: &RoleKeys,
)
    ensures
        text::views(final(out)@) == text::views(old(out)@) + key_changes_of(
            config@,
            what@,
            match was {
                Some(o) => Some(o@),
                None => None,
            },
            new@,
        ),
{
    let ghost start = text::views(out@);
    let none = StrSet::new();
    let ids = match was {
        Some(o) => &o.key_ids,
        None => &none,
    };
    let added = describe_difference(config, &new.key_ids, ids);
    let removed = describe_difference(config, ids, &new.key_ids);
    let key = text::cat(what, ": key ");
    push_others(out, key.as_str(), &added, " added");
    push_others(out, key.as_str(), &removed, " removed");
    let ghost before = text::views(out@);
    let threshold = text::to_decimal(new.threshold as u64);
    let start_text = text::cat(what, ": threshold ");
    match was {
        None => {
            out.push(Change::Other(text::cat(start_text.as_str(), threshold.as_str())));
            assert(text::views(out@) =~= before + threshold_changes(what@, None, new@));
        },
        Some(o) => {
            if o.threshold != new.threshold {
                let earlier = text::to_decimal(o.threshold as u64);
                let line = text::cat(text::cat(start_text.as_str(), earlier.as_str()).as_str(), " → ");
                out.push(Change::Other(text::cat(line.as_str(), threshold.as_str())));
            }
            assert(text::views(out@) =~= before + threshold_changes(what@, Some(o@), new@));
        },
    }
    proof {
        let k = what@ + ": key "@;
        let a = others(k, strmap::listing(added@), " added"@);
        let b = others(k, strmap::listing(removed@), " removed"@);
        let o = match was {
            Some(o) => Some(o@),
            None => None,
        };
        let t = threshold_changes(what@, o, new@);
        assert(start + a + b + t =~= start + (a + b + t));
    }
}

/// The delegations by the names of their roles.
pub open spec fn by_name(roles: Seq<DelegationView>) -> Map<Seq<char>, DelegationView>
    decreases roles.len(),
{
    if roles.len() == 0 {
        Map::empty()
    } else {
        by_name(roles.drop_last()).insert(roles.last().name, roles.last())
    }
}

/// The value of a key, if it has one.
pub open spec fn found<V>(m: Map<Seq<char>, V>, key: Seq<char>) -> Option<V> {
    if m.dom().contains(key) {
        Some(m[key])
    } else {
        None
    }
}

/// The threshold and keys of a delegation that may be missing.
pub open spec fn keys_before(was: Option<DelegationView>) -> Option<RoleKeysView> {
    match was {
        Some(d) => Some(RoleKeysView { threshold: d.threshold, key_ids: d.key_ids }),
        None => None,
    }
}

/// The paths of a delegation that may be missing.
pub open spec fn paths_before(was: Option<DelegationView>) -> Set<Seq<char>> {
    match was {
        Some(d) => d.paths,
        None => Set::empty(),
    }
}

/// How the delegation to the role `name` changes.
pub open spec fn delegation_changes_of(
    c: ConfigView,
    name: Seq<char>,
    was: Option<DelegationView>,
    new: Option<DelegationView>,
) -> Seq<ChangeView> {
    let what = "delegation "@ + name;
    match new {
        None => seq![ChangeView::Other(what + " removed"@)],
        Some(d) => {
            let added = strmap::listing(d.paths.difference(paths_before(was)));
            let removed = strmap::listing(paths_before(was).difference(d.paths));
            (if was is None {
                seq![ChangeView::Other(what + " added"@)]
            } else {
                Seq::empty()
            }) + others(what + ": path "@, added, " added"@) + others(
                what + ": path "@,
                removed,
                " removed"@,
            ) + key_changes_of(
                c,
                what,
                keys_before(was),
                RoleKeysView { threshold: d.threshold, key_ids: d.key_ids },
            )
        },
    }
}

/// How the delegations to the roles `names` change.
pub open spec fn all_delegation_changes(
    c: ConfigView,
    was: Map<Seq<char>, DelegationView>,
    new: Map<Seq<char>, DelegationView>,
    names: Seq<Seq<char>>,
) -> Seq<ChangeView>
    decreases names.len(),
{
    if names.len() == 0 {
        Seq::empty()
    } else {
        let name = names.last();
        all_delegation_changes(c, was, new, names.drop_last()) + delegation_changes_of(
            c,
            name,
            found(was, name),
            found(new, name),
        )
    }
}

fn delegations_by_name(roles: &Vec<Delegation>) -> (r: StrMap<Delegation>)
    ensures
        r@ == by_name(text::views(roles@)),
{
    let ghost all = text::views(roles@);
    let mut out: StrMap<Delegation> = StrMap::new();
    let mut i: usize = 0;
    while i < roles.len()
        invariant
            i <= roles.len(),
            all == text::views(roles@),
            out@ == by_name(all.take(i as int)),
        decreases roles.len() - i,
    {
        assert(all.take(i + 1).drop_last() =~= all.take(i as int));
        assert(all.take(i + 1).last() == roles@[i as int]@);
        out.insert(roles[i].name.clone(), roles[i].dup());
        i = i + 1;
    }
    assert(all.take(i as int) =~= all);
    out
}

/// The view of a delegation that may be missing.
spec fn delegation_view(d: Option<&Delegation>) -> Option<DelegationView> {
    match d {
        Some(d) => Some(d@),
        None => None,
    }
}

/// Describes how the delegation to the role `name` changes.
fn delegation_changes(
    out: &mut Vec<Change>,
    config: &Config,
    name: &str,
    was: Option<&Delegation>,
    new: Option<&Delegation>,
)
    ensures
        text::views(final(out)@) == text::views(old(out)@) + delegation_changes_of(
            config@,
            name@,
            delegation_view(was),
            delegation_view(new),
        ),
{
    let ghost start = text::views(out@);
    let what = text::cat("delegation ", name);
    let d = match new {
        Some(d) => d,
        None => {
            out.push(Change::Other(text::cat(what.as_str(), " removed")));
            assert(text::views(out@) =~= start + delegation_changes_of(
                config@,
                name@,
                delegation_view(was),
                None,
            ));
            return;
        },
    };
    let none = StrSet::new();
    let paths = match was {
        Some(o) => &o.paths,
        None => &none,
    };
    let ghost first: Seq<ChangeView> = if was is None {
        seq![ChangeView::Other(what@ + " added"@)]
    } else {
        Seq::empty()
    };
    if was.is_none() {
        out.push(Change::Other(text::cat(what.as_str(), " added")));
    }
    assert(text::views(out@) =~= start + first);
    let path = text::cat(what.as_str(), ": path ");
    let added = d.paths.minus(paths);
    let removed = paths.minus(&d.paths);
    push_others(out, path.as_str(), &added, " added");
    push_others(out, path.as_str(), &removed, " removed");
    let earlier = match was {
        Some(o) => Some(RoleKeys { threshold: o.threshold, key_ids: o.key_ids.dup() }),
        None => None,
    };
    let now = RoleKeys { threshold: d.threshold, key_ids: d.key_ids.dup() };
    key_changes(out, config, what.as_str(), earlier.as_ref(), &now);
    proof {
        let p = what@ + ": path "@;
        let a = others(p, strmap::listing(added@), " added"@);
        let b = others(p, strmap::listing(removed@), " removed"@);
        let k = key_changes_of(config@, what@, keys_before(delegation_view(was)), now@);
        assert(start + first + a + b + k =~= start + (first + a + b + k));
    }
}

/// Describes how the delegations change.
fn delegations_changes(
    out: &mut Vec<Change>,
    config: &Config,
    was: &StrMap<Delegation>,
    new: &StrMap<Delegation>,
)
    ensures
        text::views(final(out)@) == text::views(old(out)@) + all_delegation_changes(
            config@,
            was@,
            new@,
            strmap::listing(was@.dom().union(new@.dom())),
        ),
{
    let mut names = StrSet::new();
    was.add_keys(&mut names);
    new.add_keys(&mut names);
    assert(names@ =~= was@.dom().union(new@.dom()));
    let n = names.len();
    let ghost all = strmap::listing(names@);
    let ghost start = text::views(out@);
    let mut i: usize = 0;
    assert(start + Seq::<ChangeView>::empty() =~= start);
    while i < n
        invariant
            i <= n,
            n == all.len(),
            all == strmap::listing(names@),
            text::views(out@) == start + all_delegation_changes(
                config@,
                was@,
                new@,
                all.take(i as int),
            ),
        decreases n - i,
    {
        let name = names.item(i);
        let a = was.get(name.as_str());
        let b = new.get(name.as_str());
        delegation_changes(out, config, name.as_str(), a, b);
        proof {
            assert(all.take(i + 1).drop_last() =~= all.take(i as int));
            assert(all.take(i + 1).last() == name@);
            let x = all_delegation_changes(config@, was@, new@, all.take(i as int));
            let y = delegation_changes_of(
                config@,
                name@,
                found(was@, name@),
                found(new@, name@),
            );
            assert(start + x + y =~= start + (x + y));
        }
        i = i + 1;
    }
    assert(all.take(i as int) =~= all);
}

/// The targets that each role lists.
pub open spec fn index_of(files: Files, roles: Seq<Seq<char>>) -> Result<
    Seq<(Seq<char>, Map<Seq<char>, DescriptionView>)>,
    Fault,
>
    decreases roles.len(),
{
    if roles.len() == 0 {
        Ok(Seq::empty())
    } else {
        match index_of(files, roles.drop_last()) {
            Err(e) => Err(e),
            Ok(earlier) => match repo::targets_of(files, roles.last()) {
                Err(e) => Err(e),
                Ok((_, t)) => Ok(earlier.push((roles.last(), t.targets))),
            },
        }
    }
}

proof fn index_fails(files: Files, roles: Seq<Seq<char>>, i: int)
    requires
        0 <= i <= roles.len(),
        index_of(files, roles.take(i)) is Err,
    ensures
        index_of(files, roles) == index_of(files, roles.take(i)),
    decreases roles.len(),
{
    if i < roles.len() {
        assert(roles.drop_last().take(i) =~= roles.take(i));
        index_fails(files, roles.drop_last(), i);
    } else {
        assert(roles.take(i) =~= roles);
    }
}

/// The first role other than `role` that lists the same file under the same path.
pub open spec fn other_holder(
    index: Seq<(Seq<char>, Map<Seq<char>, DescriptionView>)>,
    role: Seq<char>,
    path: Seq<char>,
    d: DescriptionView,
) -> Option<Seq<char>>
    decreases index.len(),
{
    if index.len() == 0 {
        None
    } else if index[0].0 != role && found(index[0].1, path) == Some(d) {
        Some(index[0].0)
    } else {
        other_holder(index.skip(1), role, path, d)
    }
}

/// A role with the targets it lists.
struct Listing {
    role: String,
    targets: StrMap<Description>,
}

impl View for Listing {
    type V = (Seq<char>, Map<Seq<char>, DescriptionView>);

    closed spec fn view(&self) -> (Seq<char>, Map<Seq<char>, DescriptionView>) {
        (self.role@, self.targets@)
    }
}

/// The targets that each role lists.
fn index_targets(repo: &Repo) -> (r: Result<Vec<Listing>, Error>)
    ensures
        repo::listed(r) == index_of(repo@, repo::targets_roles_of(repo@)),
{
    let roles = repo.targets_roles();
    let ghost names = text::views(roles@);
    let mut out: Vec<Listing> = Vec::new();
    let mut i: usize = 0;
    assert(text::views(out@) =~= Seq::<(Seq<char>, Map<Seq<char>, DescriptionView>)>::empty());
    while i < roles.len()
        invariant
            i <= roles.len(),
            names == text::views(roles@),
            names == repo::targets_roles_of(repo@),
            index_of(repo@, names.take(i as int)) == Ok::<
                Seq<(Seq<char>, Map<Seq<char>, DescriptionView>)>,
                Fault,
            >(text::views(out@)),
        decreases roles.len() - i,
    {
        let role = &roles[i];
        proof {
            assert(names.take(i + 1).drop_last() =~= names.take(i as int));
            assert(names.take(i + 1).last() == role@);
        }
        match repo.require_targets(role.as_str()) {
            Ok(t) => {
                out.push(Listing { role: role.clone(), targets: t.targets });
            },
            Err(e) => {
                proof {
                    index_fails(repo@, names, i + 1);
                }
                return Err(e);
            },
        }
        i = i + 1;
    }
    assert(names.take(i as int) =~= names);
    Ok(out)
}

/// The first role other than `role` that lists the same file under the same path.
fn find_holder(index: &Vec<Listing>, role: &str, path: &str, d: &Description) -> (r: Option<String>)
    ensures
        r is Some <==> other_holder(text::views(index@), role@, path@, d@) is Some,
        r matches Some(h) ==> other_holder(text::views(index@), role@, path@, d@) == Some(h@),
{
    let ghost all = text::views(index@);
    let mut i: usize = 0;
    assert(all.skip(0) =~= all);
    while i < index.len()
        invariant
            i <= index.len(),
            all == text::views(index@),
            other_holder(all, role@, path@, d@) == other_holder(
                all.skip(i as int),
                role@,
                path@,
                d@,
            ),
        decreases index.len() - i,
    {
        let l = &index[i];
        assert(all.skip(i as int)[0] == l@);
        assert(all.skip(i as int).skip(1) =~= all.skip(i + 1));
        let same = match l.targets.get(path) {
            Some(other) => other.same_as(d),
            None => false,
        };
        if same && !text::same(l.role.as_str(), role) {
            return Some(l.role.clone());
        }
        i = i + 1;
    }
    None
}

/// The target file that a description speaks of.
pub open spec fn file_of(path: Seq<char>, d: DescriptionView) -> Result<TargetFileView, Fault> {
    match publish::object_of(path, d) {
        Err(e) => Err(e),
        Ok(object) => Ok(TargetFileView { length: d.length, sha256: d.sha256->0, object }),
    }
}

/// The targets on both sides of a comparison, and who lists what.
pub struct Sides {
    pub role: Seq<char>,
    pub was: Map<Seq<char>, DescriptionView>,
    pub new: Map<Seq<char>, DescriptionView>,
    pub base_index: Seq<(Seq<char>, Map<Seq<char>, DescriptionView>)>,
    pub head_index: Seq<(Seq<char>, Map<Seq<char>, DescriptionView>)>,
}

/// What becomes of one target.
pub enum Fate {
    /// It stays as it was.
    Same,
    /// It is added, changed or removed.
    Differs(ChangeView),
    /// It came unchanged from another role.
    From(Seq<char>),
    /// It went unchanged to another role.
    To(Seq<char>),
}

/// What becomes of the target `path`.
pub open spec fn fate(s: Sides, path: Seq<char>) -> Result<Fate, Fault> {
    match (found(s.was, path), found(s.new, path)) {
        (None, Some(d)) => match other_holder(s.base_index, s.role, path, d) {
            Some(from) => Ok(Fate::From(from)),
            None => match file_of(path, d) {
                Err(e) => Err(e),
                Ok(file) => Ok(
                    Fate::Differs(
                        ChangeView::Target { path, kind: "added"@, file: Some(file) },
                    ),
                ),
            },
        },
        (Some(d), None) => match other_holder(s.head_index, s.role, path, d) {
            Some(to) => Ok(Fate::To(to)),
            None => Ok(
                Fate::Differs(ChangeView::Target { path, kind: "removed"@, file: None }),
            ),
        },
        (Some(a), Some(b)) => if a != b {
            match file_of(path, b) {
                Err(e) => Err(e),
                Ok(file) => Ok(
                    Fate::Differs(
                        ChangeView::Target { path, kind: "changed"@, file: Some(file) },
                    ),
                ),
            }
        } else {
            Ok(Fate::Same)
        },
        (None, None) => Ok(Fate::Same),
    }
}

/// What becomes of several targets: the changes, and the roles that targets came from and went to,
/// once for each target.
pub struct Fates {
    pub changes: Seq<ChangeView>,
    pub from: Seq<Seq<char>>,
    pub to: Seq<Seq<char>>,
}

/// What becomes of the targets `paths`.
pub open spec fn fates(s: Sides, paths: Seq<Seq<char>>) -> Result<Fates, Fault>
    decreases paths.len(),
{
    if paths.len() == 0 {
        Ok(Fates { changes: Seq::empty(), from: Seq::empty(), to: Seq::empty() })
    } else {
        match fates(s, paths.drop_last()) {
            Err(e) => Err(e),
            Ok(f) => match fate(s, paths.last()) {
                Err(e) => Err(e),
                Ok(Fate::Same) => Ok(f),
                Ok(Fate::Differs(c)) => Ok(
                    Fates { changes: f.changes.push(c), from: f.from, to: f.to },
                ),
                Ok(Fate::From(r)) => Ok(
                    Fates { changes: f.changes, from: f.from.push(r), to: f.to },
                ),
                Ok(Fate::To(r)) => Ok(
                    Fates { changes: f.changes, from: f.from, to: f.to.push(r) },
                ),
            },
        }
    }
}

/// How often `x` occurs.
pub open spec fn occurrences(s: Seq<Seq<char>>, x: Seq<char>) -> nat
    decreases s.len(),
{
    if s.len() == 0 {
        0
    } else {
        occurrences(s.drop_last(), x) + if s.last() == x {
            1nat
        } else {
            0nat
        }
    }
}

/// A number of targets in words.
pub open spec fn count_text(n: nat) -> Seq<char> {
    if n == 1 {
        "1 target"@
    } else {
        text::decimal(n) + " targets"@
    }
}

/// The moves of targets from or to other roles, in words.
pub open spec fn moves(roles: Seq<Seq<char>>, what: Seq<char>) -> Seq<ChangeView> {
    strmap::listing(roles.to_set()).map_values(
        |role: Seq<char>| ChangeView::Other(count_text(occurrences(roles, role)) + what + role),
    )
}

/// How the targets of a role change.
pub open spec fn target_changes_of(s: Sides) -> Result<Seq<ChangeView>, Fault> {
    match fates(s, strmap::listing(s.was.dom().union(s.new.dom()))) {
        Err(e) => Err(e),
        Ok(f) => Ok(
            f.changes + moves(f.from, " moved here unchanged from "@) + moves(
                f.to,
                " moved unchanged to "@,
            ),
        ),
    }
}

proof fn fates_fail(s: Sides, paths: Seq<Seq<char>>, i: int)
    requires
        0 <= i <= paths.len(),
        fates(s, paths.take(i)) is Err,
    ensures
        fates(s, paths) == fates(s, paths.take(i)),
    decreases paths.len(),
{
    if i < paths.len() {
        assert(paths.drop_last().take(i) =~= paths.take(i));
        fates_fail(s, paths.drop_last(), i);
    } else {
        assert(paths.take(i) =~= paths);
    }
}

fn target_file(path: &str, d: &Description) -> (r: Result<TargetFile, Error>)
    ensures
        error::outcome(r) == file_of(path@, d@),
{
    match publish::target_object(path, d) {
        Ok(object) => {
            let sha256 = match d.sha256() {
                Some(s) => s.clone(),
                None => String::new(),
            };
            Ok(TargetFile { length: d.length(), sha256, object })
        },
        Err(e) => Err(e),
    }
}

/// How often `x` occurs.
fn count(list: &Vec<String>, x: &str) -> (r: usize)
    ensures
        r == occurrences(text::views(list@), x@),
{
    let ghost all = text::views(list@);
    let mut n: usize = 0;
    let mut i: usize = 0;
    while i < list.len()
        invariant
            i <= list.len(),
            n <= i,
            all == text::views(list@),
            n == occurrences(all.take(i as int), x@),
        decreases list.len() - i,
    {
        assert(all.take(i + 1).drop_last() =~= all.take(i as int));
        assert(all.take(i + 1).last() == list@[i as int]@);
        if text::same(list[i].as_str(), x) {
            n = n + 1;
        }
        i = i + 1;
    }
    assert(all.take(i as int) =~= all);
    n
}

fn push_moves(out: &mut Vec<Change>, roles: &Vec<String>, what: &str)
    ensures
        text::views(final(out)@) == text::views(old(out)@) + moves(text::views(roles@), what@),
{
    let set = StrSet::from_vec(roles);
    let n = set.len();
    let ghost start = text::views(out@);
    let ghost all = strmap::listing(set@);
    let ghost list = text::views(roles@);
    let ghost f = |role: Seq<char>|
        ChangeView::Other(count_text(occurrences(list, role)) + what@ + role);
    let mut i: usize = 0;
    assert(start + all.take(0).map_values(f) =~= start);
    while i < n
        invariant
            i <= n,
            n == all.len(),
            all == strmap::listing(set@),
            list == text::views(roles@),
            f == (|role: Seq<char>|
                ChangeView::Other(count_text(occurrences(list, role)) + what@ + role)),
            text::views(out@) == start + all.take(i as int).map_values(f),
        decreases n - i,
    {
        let role = set.item(i);
        let number = count(roles, role.as_str());
        let counted = if number == 1 {
            "1 target".to_owned()
        } else {
            text::cat(text::to_decimal(number as u64).as_str(), " targets")
        };
        out.push(
            Change::Other(text::cat(text::cat(counted.as_str(), what).as_str(), role.as_str())),
        );
        assert(start + all.take(i + 1).map_values(f) =~= (start + all.take(i as int).map_values(
            f,
        )).push(f(role@)));
        i = i + 1;
    }
    assert(all.take(i as int) =~= all);
}

/// Describes how the targets of `role` change from `was` to `new`.
fn target_changes(
    role: &str,
    was: &StrMap<Description>,
    new: &StrMap<Description>,
    base_index: &Vec<Listing>,
    head_index: &Vec<Listing>,
) -> (r: Result<Vec<Change>, Error>)
    ensures
        repo::listed(r) == target_changes_of(
            Sides {
                role: role@,
                was: was@,
                new: new@,
                base_index: text::views(base_index@),
                head_index: text::views(head_index@),
            },
        ),
{
    let ghost s = Sides {
        role: role@,
        was: was@,
        new: new@,
        base_index: text::views(base_index@),
        head_index: text::views(head_index@),
    };
    let mut paths = StrSet::new();
    was.add_keys(&mut paths);
    new.add_keys(&mut paths);
    assert(paths@ =~= was@.dom().union(new@.dom()));
    let n = paths.len();
    let ghost all = strmap::listing(paths@);
    let mut changes: Vec<Change> = Vec::new();
    let mut from: Vec<String> = Vec::new();
    let mut to: Vec<String> = Vec::new();
    let mut i: usize = 0;
    proof {
        assert(text::views(changes@) =~= Seq::<ChangeView>::empty());
        assert(text::views(from@) =~= Seq::<Seq<char>>::empty());
        assert(text::views(to@) =~= Seq::<Seq<char>>::empty());
    }
    while i < n
        invariant
            i <= n,
            n == all.len(),
            all == strmap::listing(paths@),
            paths@ == was@.dom().union(new@.dom()),
            s == (Sides {
                role: role@,
                was: was@,
                new: new@,
                base_index: text::views(base_index@),
                head_index: text::views(head_index@),
            }),
            fates(s, all.take(i as int)) == Ok::<Fates, Fault>(
                Fates {
                    changes: text::views(changes@),
                    from: text::views(from@),
                    to: text::views(to@),
                },
            ),
        decreases n - i,
    {
        let path = paths.item(i);
        proof {
            assert(all.take(i + 1).drop_last() =~= all.take(i as int));
            assert(all.take(i + 1).last() == path@);
        }
        match (was.get(path.as_str()), new.get(path.as_str())) {
            (None, Some(d)) => match find_holder(base_index, role, path.as_str(), d) {
                Some(holder) => {
                    from.push(holder);
                },
                None => match target_file(path.as_str(), d) {
                    Ok(file) => {
                        changes.push(
                            Change::Target {
                                path: path.clone(),
                                kind: "added",
                                file: Some(file),
                            },
                        );
                    },
                    Err(e) => {
                        proof {
                            fates_fail(s, all, i + 1);
                        }
                        return Err(e);
                    },
                },
            },
            (Some(d), None) => match find_holder(head_index, role, path.as_str(), d) {
                Some(holder) => {
                    to.push(holder);
                },
                None => {
                    changes.push(
                        Change::Target { path: path.clone(), kind: "removed", file: None },
                    );
                },
            },
            (Some(a), Some(b)) => {
                if !a.same_as(b) {
                    match target_file(path.as_str(), b) {
                        Ok(file) => {
                            changes.push(
                                Change::Target {
                                    path: path.clone(),
                                    kind: "changed",
                                    file: Some(file),
                                },
                            );
                        },
                        Err(e) => {
                            proof {
                                fates_fail(s, all, i + 1);
                            }
                            return Err(e);
                        },
                    }
                }
            },
            (None, None) => {},
        }
        i = i + 1;
    }
    assert(all.take(i as int) =~= all);
    push_moves(&mut changes, &from, " moved here unchanged from ");
    push_moves(&mut changes, &to, " moved unchanged to ");
    Ok(changes)
}

/// Who lists which targets, in the order of the roles' files.
pub type Index = Seq<(Seq<char>, Map<Seq<char>, DescriptionView>)>;

/// The keys of a role in a root that may be missing.
pub open spec fn root_keys_before(was: Option<RootView>, role: Seq<char>) -> Option<RoleKeysView> {
    match was {
        Some(r) => Some(repo::top_level_keys(r, role)),
        None => None,
    }
}

/// How the keys that root gives a top-level role change.
pub open spec fn top_level_changes(
    c: ConfigView,
    was: Option<RootView>,
    new: RootView,
    role: Seq<char>,
) -> Seq<ChangeView> {
    key_changes_of(
        c,
        role + " role"@,
        root_keys_before(was, role),
        repo::top_level_keys(new, role),
    )
}

/// How root changes.
pub open spec fn root_changes_of(c: ConfigView, was: Option<RootView>, new: RootView) -> Seq<
    ChangeView,
> {
    top_level_changes(c, was, new, "root"@) + top_level_changes(c, was, new, "targets"@)
        + top_level_changes(c, was, new, "snapshot"@) + top_level_changes(c, was, new, "timestamp"@)
}

/// The root in `files`, if there is one.
pub open spec fn root_if_any(files: Files) -> Result<Option<RootView>, Fault> {
    match repo::metadata_of(files, Kind::Root, "root"@) {
        Ok(Some((_, ContentView::Root(r)))) => Ok(Some(r)),
        Ok(_) => Ok(None),
        Err(e) => Err(e),
    }
}

/// What `role` lists in `files`; nothing if it has no metadata there.
pub open spec fn targets_if_any(files: Files, role: Seq<char>) -> Result<Option<TargetsView>, Fault> {
    match repo::metadata_of(files, Kind::Targets, role) {
        Ok(Some((_, ContentView::Targets(t)))) => Ok(Some(t)),
        Ok(_) => Ok(None),
        Err(e) => Err(e),
    }
}

/// The delegations of targets metadata that may be missing, by name.
pub open spec fn delegations_before(was: Option<TargetsView>) -> Map<Seq<char>, DelegationView> {
    match was {
        Some(t) => by_name(t.delegations.roles),
        None => Map::empty(),
    }
}

/// The targets of metadata that may be missing.
pub open spec fn targets_before(was: Option<TargetsView>) -> Map<Seq<char>, DescriptionView> {
    match was {
        Some(t) => t.targets,
        None => Map::empty(),
    }
}

/// How the metadata of a role that lists targets changes.
pub open spec fn listing_changes_of(
    c: ConfigView,
    was: Option<TargetsView>,
    new: TargetsView,
    role: Seq<char>,
    base_index: Index,
    head_index: Index,
) -> Result<Seq<ChangeView>, Fault> {
    let a = delegations_before(was);
    let b = by_name(new.delegations.roles);
    match target_changes_of(
        Sides { role, was: targets_before(was), new: new.targets, base_index, head_index },
    ) {
        Err(e) => Err(e),
        Ok(targets) => Ok(
            all_delegation_changes(c, a, b, strmap::listing(a.dom().union(b.dom()))) + targets,
        ),
    }
}

/// How `role` in `head` differs from `base`, from the metadata that gets signed.
pub open spec fn changes_of(
    c: ConfigView,
    base: Files,
    head: Files,
    role: Seq<char>,
    base_index: Index,
    head_index: Index,
) -> Result<Seq<ChangeView>, Fault> {
    if role == "root"@ {
        match repo::root_of(head) {
            Err(e) => Err(e),
            Ok((_, new)) => match root_if_any(base) {
                Err(e) => Err(e),
                Ok(was) => Ok(root_changes_of(c, was, new)),
            },
        }
    } else {
        match repo::targets_of(head, role) {
            Err(e) => Err(e),
            Ok((_, new)) => match targets_if_any(base, role) {
                Err(e) => Err(e),
                Ok(was) => listing_changes_of(c, was, new, role, base_index, head_index),
            },
        }
    }
}

fn root_changes(config: &Config, was: Option<&Root>, new: &Root) -> (r: Vec<Change>)
    ensures
        text::views(r@) == root_changes_of(
            config@,
            match was {
                Some(r) => Some(r@),
                None => None,
            },
            new@,
        ),
{
    let mut out: Vec<Change> = Vec::new();
    let (root, targets, snapshot, timestamp) = match was {
        Some(r) => (Some(&r.root), Some(&r.targets), Some(&r.snapshot), Some(&r.timestamp)),
        None => (None, None, None, None),
    };
    proof {
        config::different_top_level();
        reveal_strlit("root");
        reveal_strlit("targets");
        reveal_strlit("snapshot");
        reveal_strlit("timestamp");
        reveal_strlit(" role");
        reveal_strlit("root role");
        reveal_strlit("targets role");
        reveal_strlit("snapshot role");
        reveal_strlit("timestamp role");
        assert("root role"@ =~= "root"@ + " role"@);
        assert("targets role"@ =~= "targets"@ + " role"@);
        assert("snapshot role"@ =~= "snapshot"@ + " role"@);
        assert("timestamp role"@ =~= "timestamp"@ + " role"@);
        assert(text::views(out@) =~= Seq::<ChangeView>::empty());
    }
    key_changes(&mut out, config, "root role", root, &new.root);
    proof {
        let w = match was {
            Some(r) => Some(r@),
            None => None,
        };
        assert(text::views(out@) =~= top_level_changes(config@, w, new@, "root"@));
    }
    key_changes(&mut out, config, "targets role", targets, &new.targets);
    key_changes(&mut out, config, "snapshot role", snapshot, &new.snapshot);
    key_changes(&mut out, config, "timestamp role", timestamp, &new.timestamp);
    out
}

fn listing_changes(
    config: &Config,
    was: Option<&Targets>,
    new: &Targets,
    role: &str,
    base_index: &Vec<Listing>,
    head_index: &Vec<Listing>,
) -> (r: Result<Vec<Change>, Error>)
    ensures
        repo::listed(r) == listing_changes_of(
            config@,
            match was {
                Some(t) => Some(t@),
                None => None,
            },
            new@,
            role@,
            text::views(base_index@),
            text::views(head_index@),
        ),
{
    let mut out: Vec<Change> = Vec::new();
    assert(text::views(out@) =~= Seq::<ChangeView>::empty());
    let none: StrMap<Description> = StrMap::new();
    let (a, earlier) = match was {
        Some(t) => (delegations_by_name(&t.delegations.roles), &t.targets),
        None => (StrMap::new(), &none),
    };
    let b = delegations_by_name(&new.delegations.roles);
    delegations_changes(&mut out, config, &a, &b);
    let ghost d = text::views(out@);
    match target_changes(role, earlier, &new.targets, base_index, head_index) {
        Ok(mut more) => {
            let ghost m = more@;
            let ghost o = out@;
            out.append(&mut more);
            assert(text::views(out@) =~= text::views(o) + text::views(m));
            assert(d =~= all_delegation_changes(
                config@,
                a@,
                b@,
                strmap::listing(a@.dom().union(b@.dom())),
            ));
            Ok(out)
        },
        Err(e) => Err(e),
    }
}

/// Describes how `role` in `head` differs from `base`, from the metadata that gets signed.
fn changes(
    config: &Config,
    base: &Repo,
    base_index: &Vec<Listing>,
    head: &Repo,
    head_index: &Vec<Listing>,
    role: &str,
) -> (r: Result<Vec<Change>, Error>)
    ensures
        repo::listed(r) == changes_of(
            config@,
            base@,
            head@,
            role@,
            text::views(base_index@),
            text::views(head_index@),
        ),
{
    if text::same(role, "root") {
        let new = match head.root() {
            Ok((_, root)) => root,
            Err(e) => {
                return Err(e);
            },
        };
        match base.metadata(Kind::Root, "root") {
            Ok(Some(m)) => match m.content {
                Content::Root(was) => Ok(root_changes(config, Some(&was), &new)),
                _ => Ok(root_changes(config, None, &new)),
            },
            Ok(None) => Ok(root_changes(config, None, &new)),
            Err(e) => Err(e),
        }
    } else {
        let new = match head.require_targets(role) {
            Ok(t) => t,
            Err(e) => {
                return Err(e);
            },
        };
        match base.metadata(Kind::Targets, role) {
            Ok(Some(m)) => match m.content {
                Content::Targets(was) => listing_changes(
                    config,
                    Some(&was),
                    &new,
                    role,
                    base_index,
                    head_index,
                ),
                _ => listing_changes(config, None, &new, role, base_index, head_index),
            },
            Ok(None) => listing_changes(config, None, &new, role, base_index, head_index),
            Err(e) => Err(e),
        }
    }
}

/// The version and expiry of `role`, as a status gives them.
pub open spec fn version_and_expiry(h: Option<HeaderView>) -> Option<(int, int)> {
    match h {
        Some(h) => Some((h.version, h.expires)),
        None => None,
    }
}

/// The changes of `role`, none if its metadata is the same on both sides.
pub open spec fn changes_if_any(
    c: ConfigView,
    base: Files,
    head: Files,
    role: Seq<char>,
    base_index: Index,
    head_index: Index,
) -> Result<Seq<ChangeView>, Fault> {
    if repo::raw_of(base, role) != repo::raw_of(head, role) {
        changes_of(c, base, head, role, base_index, head_index)
    } else {
        Ok(Seq::empty())
    }
}

/// What the event does to `role`.
pub open spec fn role_status_of(
    c: ConfigView,
    base: Files,
    head: Files,
    role: Seq<char>,
    base_index: Index,
    head_index: Index,
) -> Result<RoleStatusView, Fault> {
    match repo::requirements_of(head, base, role) {
        Err(e) => Err(e),
        Ok(needs) => match requirements_for(c, head, role, needs) {
            Err(e) => Err(e),
            Ok(requirements) => match repo::header_of(head, role) {
                Err(e) => Err(e),
                Ok(None) => Err(Problem::MissingMetadata { role }),
                Ok(Some(h)) => match changes_if_any(c, base, head, role, base_index, head_index) {
                    Err(e) => Err(e),
                    Ok(changes) => match repo::header_of(base, role) {
                        Err(e) => Err(e),
                        Ok(in_base) => Ok(
                            RoleStatusView {
                                role,
                                base: version_and_expiry(in_base),
                                version: h.version,
                                expires: h.expires,
                                changes,
                                requirements,
                            },
                        ),
                    },
                },
            },
        },
    }
}

/// Whether the status of a role belongs in the status of the event: it changed or lacks signatures.
pub open spec fn noteworthy(base: Files, head: Files, s: RoleStatusView) -> bool {
    repo::raw_of(base, s.role) != repo::raw_of(head, s.role) || !role_complete(s)
}

/// What the event does to the roles `names`.
pub open spec fn statuses(
    c: ConfigView,
    base: Files,
    head: Files,
    names: Seq<Seq<char>>,
    base_index: Index,
    head_index: Index,
) -> Result<Seq<RoleStatusView>, Fault>
    decreases names.len(),
{
    if names.len() == 0 {
        Ok(Seq::empty())
    } else {
        match statuses(c, base, head, names.drop_last(), base_index, head_index) {
            Err(e) => Err(e),
            Ok(earlier) => match role_status_of(
                c,
                base,
                head,
                names.last(),
                base_index,
                head_index,
            ) {
                Err(e) => Err(e),
                Ok(s) => if noteworthy(base, head, s) {
                    Ok(earlier.push(s))
                } else {
                    Ok(earlier)
                },
            },
        }
    }
}

/// A list with the role, if it is among the roles.
pub open spec fn if_present(roles: Set<Seq<char>>, role: Seq<char>) -> Seq<Seq<char>> {
    if roles.contains(role) {
        seq![role]
    } else {
        Seq::empty()
    }
}

/// The roles that people sign, and those delegated to: root first, then targets, then delegated
/// roles in the order of their names.
pub open spec fn event_roles(head: Files) -> Seq<Seq<char>> {
    let roles = repo::roles_of(head).to_set();
    if_present(roles, "root"@) + if_present(roles, "targets"@) + strmap::listing(
        roles.filter(|role: Seq<char>| !config::top_level(role)),
    )
}

/// What the event `head` does compared with `base`, and what it lacks.
pub open spec fn status_of(c: ConfigView, base: Files, head: Files) -> Result<
    Seq<RoleStatusView>,
    Fault,
> {
    match index_of(base, repo::targets_roles_of(base)) {
        Err(e) => Err(e),
        Ok(base_index) => match index_of(head, repo::targets_roles_of(head)) {
            Err(e) => Err(e),
            Ok(head_index) => statuses(c, base, head, event_roles(head), base_index, head_index),
        },
    }
}

proof fn statuses_fail(
    c: ConfigView,
    base: Files,
    head: Files,
    names: Seq<Seq<char>>,
    base_index: Index,
    head_index: Index,
    i: int,
)
    requires
        0 <= i <= names.len(),
        statuses(c, base, head, names.take(i), base_index, head_index) is Err,
    ensures
        statuses(c, base, head, names, base_index, head_index) == statuses(
            c,
            base,
            head,
            names.take(i),
            base_index,
            head_index,
        ),
    decreases names.len(),
{
    if i < names.len() {
        assert(names.drop_last().take(i) =~= names.take(i));
        statuses_fail(c, base, head, names.drop_last(), base_index, head_index, i);
    } else {
        assert(names.take(i) =~= names);
    }
}

/// Whether the metadata of `role` is not the same on both sides.
fn differs(base: &Repo, head: &Repo, role: &str) -> (r: bool)
    ensures
        r == (repo::raw_of(base@, role@) != repo::raw_of(head@, role@)),
{
    match (base.raw(role), head.raw(role)) {
        (Some(a), Some(b)) => !a.same_as(b),
        (None, None) => false,
        _ => true,
    }
}

/// The roles that people sign, and those delegated to, in the order in which a status lists them.
fn roles_to_check(head: &Repo) -> (r: Vec<String>)
    ensures
        text::views(r@) == event_roles(head@),
{
    let all = head.roles();
    let set = StrSet::from_vec(&all);
    let mut top = StrSet::new();
    top.insert("root".to_owned());
    top.insert("targets".to_owned());
    top.insert("snapshot".to_owned());
    top.insert("timestamp".to_owned());
    let delegated = set.minus(&top);
    assert(delegated@ =~= set@.filter(|role: Seq<char>| !config::top_level(role)));
    let mut out: Vec<String> = Vec::new();
    if set.contains("root") {
        out.push("root".to_owned());
    }
    assert(text::views(out@) =~= if_present(set@, "root"@));
    let ghost first = text::views(out@);
    if set.contains("targets") {
        out.push("targets".to_owned());
    }
    assert(text::views(out@) =~= first + if_present(set@, "targets"@));
    let ghost a = out@;
    let mut rest = delegated.to_vec();
    let ghost b = rest@;
    out.append(&mut rest);
    assert(text::views(out@) =~= text::views(a) + text::views(b));
    out
}

fn role_status(
    config: &Config,
    base: &Repo,
    base_index: &Vec<Listing>,
    head: &Repo,
    head_index: &Vec<Listing>,
    role: &String,
) -> (r: Result<RoleStatus, Error>)
    ensures
        error::outcome(r) == role_status_of(
            config@,
            base@,
            head@,
            role@,
            text::views(base_index@),
            text::views(head_index@),
        ),
{
    let needs = match head.requirements(base, role.as_str()) {
        Ok(n) => n,
        Err(e) => {
            return Err(e);
        },
    };
    let requirements = match requirements(config, head, role.as_str(), &needs) {
        Ok(r) => r,
        Err(e) => {
            return Err(e);
        },
    };
    let (version, expires) = match head.header(role.as_str()) {
        Ok(Some((v, t))) => (v, t),
        Ok(None) => {
            return Err(Problem::MissingMetadata { role: role.clone() });
        },
        Err(e) => {
            return Err(e);
        },
    };
    let changes = if differs(base, head, role.as_str()) {
        match changes(config, base, base_index, head, head_index, role.as_str()) {
            Ok(c) => c,
            Err(e) => {
                return Err(e);
            },
        }
    } else {
        Vec::new()
    };
    assert(repo::raw_of(base@, role@) == repo::raw_of(head@, role@) ==> text::views(changes@)
        =~= Seq::<ChangeView>::empty());
    let in_base = match base.header(role.as_str()) {
        Ok(h) => h,
        Err(e) => {
            return Err(e);
        },
    };
    Ok(RoleStatus { role: role.clone(), base: in_base, version, expires, changes, requirements })
}

/// Whether all roles have the signatures they need.
pub open spec fn event_complete(s: Seq<RoleStatusView>) -> bool {
    forall|i: int| 0 <= i < s.len() ==> role_complete(#[trigger] s[i])
}

/// Whether one of the keys is offline.
pub open spec fn any_offline(keys: Seq<SignerView>) -> bool {
    exists|i: int| 0 <= i < keys.len() && !(#[trigger] keys[i]).online
}

/// Whether a key of the requirement is offline.
pub open spec fn requirement_offline(r: RequirementView) -> bool {
    any_offline(r.signed) || any_offline(r.unsigned)
}

/// Whether a key of the role is offline.
pub open spec fn role_offline(s: RoleStatusView) -> bool {
    exists|i: int| 0 <= i < s.requirements.len() && requirement_offline(#[trigger] s.requirements[i])
}

/// Whether any role in the event is signed with offline keys.
pub open spec fn event_offline(s: Seq<RoleStatusView>) -> bool {
    exists|i: int| 0 <= i < s.len() && role_offline(#[trigger] s[i])
}

/// Whether nothing but metadata changed.
pub open spec fn metadata_only(changed_files: Seq<Seq<char>>) -> bool {
    forall|i: int|
        0 <= i < changed_files.len() ==> "metadata/"@.is_prefix_of(#[trigger] changed_files[i])
}

/// Whether CI merges the event by itself: it must be fully signed, signed only by online keys, and
/// change nothing but metadata.
pub open spec fn automatic(s: Seq<RoleStatusView>, changed_files: Seq<Seq<char>>) -> bool {
    event_complete(s) && !event_offline(s) && metadata_only(changed_files)
}

/// The names of the keys.
pub open spec fn names_of(keys: Seq<SignerView>) -> Set<Seq<char>> {
    keys.map_values(|k: SignerView| k.name).to_set()
}

/// The names of the keys whose signatures the requirements still need.
pub open spec fn role_waits(requirements: Seq<RequirementView>) -> Set<Seq<char>>
    decreases requirements.len(),
{
    if requirements.len() == 0 {
        Set::empty()
    } else {
        let r = requirements.last();
        let earlier = role_waits(requirements.drop_last());
        if is_met(r) {
            earlier
        } else {
            earlier.union(names_of(r.unsigned))
        }
    }
}

/// The names of the keys whose signatures are still needed.
pub open spec fn event_waits(s: Seq<RoleStatusView>) -> Set<Seq<char>>
    decreases s.len(),
{
    if s.len() == 0 {
        Set::empty()
    } else {
        event_waits(s.drop_last()).union(role_waits(s.last().requirements))
    }
}

/// Adds the names of the keys to `set`.
fn add_names(set: &mut StrSet, keys: &Vec<Key>)
    ensures
        final(set)@ == old(set)@.union(names_of(text::views(keys@))),
{
    let ghost start = set@;
    let ghost names = text::views(keys@).map_values(|k: SignerView| k.name);
    let mut i: usize = 0;
    assert(start.union(names.take(0).to_set()) =~= start);
    while i < keys.len()
        invariant
            i <= keys.len(),
            names == text::views(keys@).map_values(|k: SignerView| k.name),
            set@ == start.union(names.take(i as int).to_set()),
        decreases keys.len() - i,
    {
        let name = keys[i].name.clone();
        proof {
            assert(names[i as int] == name@);
            let a = start.union(names.take(i as int).to_set()).insert(name@);
            let b = start.union(names.take(i + 1).to_set());
            assert forall|e: Seq<char>| a.contains(e) <==> b.contains(e) by {
                strmap::take_one_more(names, i as int, e);
                assert(names.take(i + 1).to_set().contains(e) <==> names.take(i + 1).contains(e));
            }
            assert(a =~= b);
        }
        set.insert(name);
        i = i + 1;
    }
    assert(names.take(i as int) =~= names);
}

fn is_any_offline(keys: &Vec<Key>) -> (r: bool)
    ensures
        r == any_offline(text::views(keys@)),
{
    let ghost all = text::views(keys@);
    let mut i: usize = 0;
    while i < keys.len()
        invariant
            i <= keys.len(),
            all == text::views(keys@),
            forall|j: int| 0 <= j < i ==> (#[trigger] all[j]).online,
        decreases keys.len() - i,
    {
        assert(all[i as int] == keys@[i as int]@);
        if !keys[i].online {
            return true;
        }
        i = i + 1;
    }
    false
}

impl RoleStatus {
    /// Whether a key of the role is offline.
    fn offline(&self) -> (r: bool)
        ensures
            r == role_offline(self@),
    {
        let ghost all = self@.requirements;
        let mut i: usize = 0;
        while i < self.requirements.len()
            invariant
                i <= self.requirements.len(),
                all == self@.requirements,
                all == text::views(self.requirements@),
                forall|j: int| 0 <= j < i ==> !requirement_offline(#[trigger] all[j]),
            decreases self.requirements.len() - i,
        {
            let r = &self.requirements[i];
            assert(all[i as int] == r@);
            if is_any_offline(&r.signed) || is_any_offline(&r.unsigned) {
                assert(requirement_offline(all[i as int]));
                return true;
            }
            i = i + 1;
        }
        false
    }
}

impl EventStatus {
    /// Compares `head` with `base` (the main branch) and checks the signatures in `head`.
    pub fn new(config: &Config, base: &Repo, head: &Repo) -> (r: Result<EventStatus, Error>)
        ensures
            error::outcome(r) == status_of(config@, base@, head@),
    {
        let base_index = match index_targets(base) {
            Ok(i) => i,
            Err(e) => {
                return Err(e);
            },
        };
        let head_index = match index_targets(head) {
            Ok(i) => i,
            Err(e) => {
                return Err(e);
            },
        };
        let names = roles_to_check(head);
        let ghost all = text::views(names@);
        let ghost bi = text::views(base_index@);
        let ghost hi = text::views(head_index@);
        let mut roles: Vec<RoleStatus> = Vec::new();
        let mut i: usize = 0;
        assert(text::views(roles@) =~= Seq::<RoleStatusView>::empty());
        while i < names.len()
            invariant
                i <= names.len(),
                all == text::views(names@),
                bi == text::views(base_index@),
                hi == text::views(head_index@),
                status_of(config@, base@, head@) == statuses(config@, base@, head@, all, bi, hi),
                statuses(config@, base@, head@, all.take(i as int), bi, hi) == Ok::<
                    Seq<RoleStatusView>,
                    Fault,
                >(text::views(roles@)),
            decreases names.len() - i,
        {
            let role = &names[i];
            proof {
                assert(all.take(i + 1).drop_last() =~= all.take(i as int));
                assert(all.take(i + 1).last() == role@);
            }
            match role_status(config, base, &base_index, head, &head_index, role) {
                Ok(status) => {
                    if differs(base, head, role.as_str()) || !status.complete() {
                        roles.push(status);
                    }
                },
                Err(e) => {
                    proof {
                        statuses_fail(config@, base@, head@, all, bi, hi, i + 1);
                    }
                    return Err(e);
                },
            }
            i = i + 1;
        }
        assert(all.take(i as int) =~= all);
        Ok(EventStatus { roles })
    }

    /// Whether all roles have the signatures they need.
    pub fn complete(&self) -> (r: bool)
        ensures
            r == event_complete(self@),
    {
        let ghost all = self@;
        let mut i: usize = 0;
        while i < self.roles.len()
            invariant
                i <= self.roles.len(),
                all == text::views(self.roles@),
                forall|j: int| 0 <= j < i ==> role_complete(#[trigger] all[j]),
            decreases self.roles.len() - i,
        {
            assert(all[i as int] == self.roles@[i as int]@);
            if !self.roles[i].complete() {
                return false;
            }
            i = i + 1;
        }
        true
    }

    /// Roles that still need a signature from the key with the id `key`.
    pub fn needs(&self, key: &str) -> (r: Vec<&RoleStatus>)
        ensures
            text::views(r@) == self@.filter(|s: RoleStatusView| role_needs(s, key@)),
    {
        let ghost all = self@;
        let ghost p = |s: RoleStatusView| role_needs(s, key@);
        let mut out: Vec<&RoleStatus> = Vec::new();
        let mut i: usize = 0;
        proof {
            reveal(Seq::filter);
            assert(text::views(out@) =~= all.take(0).filter(p));
        }
        while i < self.roles.len()
            invariant
                i <= self.roles.len(),
                all == text::views(self.roles@),
                p == (|s: RoleStatusView| role_needs(s, key@)),
                text::views(out@) == all.take(i as int).filter(p),
            decreases self.roles.len() - i,
        {
            proof {
                reveal(Seq::filter);
                assert(all.take(i + 1).drop_last() =~= all.take(i as int));
                assert(all.take(i + 1).last() == self.roles@[i as int]@);
            }
            if self.roles[i].needs(key) {
                out.push(&self.roles[i]);
            }
            i = i + 1;
        }
        assert(all.take(i as int) =~= all);
        out
    }

    /// Whether CI merges the event by itself: it must be fully signed, signed only by online keys,
    /// and change nothing but metadata. Anything else goes through a pull request.
    pub fn merges_automatically(&self, changed_files: &Vec<String>) -> (r: bool)
        ensures
            r == automatic(self@, text::views(changed_files@)),
    {
        let ghost all = text::views(changed_files@);
        let mut i: usize = 0;
        while i < changed_files.len()
            invariant
                i <= changed_files.len(),
                all == text::views(changed_files@),
                forall|j: int| 0 <= j < i ==> "metadata/"@.is_prefix_of(#[trigger] all[j]),
            decreases changed_files.len() - i,
        {
            assert(all[i as int] == changed_files@[i as int]@);
            if !text::has_prefix(changed_files[i].as_str(), "metadata/") {
                return false;
            }
            i = i + 1;
        }
        self.complete() && !self.offline()
    }

    /// Whether any role in the event is signed with offline keys, so people must review it.
    pub fn offline(&self) -> (r: bool)
        ensures
            r == event_offline(self@),
    {
        let ghost all = self@;
        let mut i: usize = 0;
        while i < self.roles.len()
            invariant
                i <= self.roles.len(),
                all == text::views(self.roles@),
                forall|j: int| 0 <= j < i ==> !role_offline(#[trigger] all[j]),
            decreases self.roles.len() - i,
        {
            assert(all[i as int] == self.roles@[i as int]@);
            if self.roles[i].offline() {
                return true;
            }
            i = i + 1;
        }
        false
    }
}

impl EventStatus {
    /// Names of the keys whose signatures are still needed.
    pub fn waiting_for(&self) -> (r: StrSet)
        ensures
            r@ == event_waits(self@),
    {
        let ghost all = self@;
        let mut out = StrSet::new();
        let mut i: usize = 0;
        while i < self.roles.len()
            invariant
                i <= self.roles.len(),
                all == text::views(self.roles@),
                out@ == event_waits(all.take(i as int)),
            decreases self.roles.len() - i,
        {
            let role = &self.roles[i];
            let ghost start = out@;
            let ghost reqs = role@.requirements;
            proof {
                assert(all.take(i + 1).drop_last() =~= all.take(i as int));
                assert(all.take(i + 1).last() == role@);
            }
            let mut j: usize = 0;
            assert(start.union(role_waits(reqs.take(0))) =~= start);
            while j < role.requirements.len()
                invariant
                    j <= role.requirements.len(),
                    reqs == text::views(role.requirements@),
                    out@ == start.union(role_waits(reqs.take(j as int))),
                decreases role.requirements.len() - j,
            {
                let r = &role.requirements[j];
                proof {
                    assert(reqs.take(j + 1).drop_last() =~= reqs.take(j as int));
                    assert(reqs.take(j + 1).last() == r@);
                    let w = role_waits(reqs.take(j as int));
                    let n = names_of(r@.unsigned);
                    assert(start.union(w).union(n) =~= start.union(w.union(n)));
                }
                if !r.met() {
                    add_names(&mut out, &r.unsigned);
                }
                j = j + 1;
            }
            assert(reqs.take(j as int) =~= reqs);
            i = i + 1;
        }
        assert(all.take(i as int) =~= all);
        out
    }
}

/// An event that is complete waits for nobody.
pub proof fn complete_waits_for_nobody(s: Seq<RoleStatusView>)
    requires
        event_complete(s),
    ensures
        event_waits(s) == Set::<Seq<char>>::empty(),
    decreases s.len(),
{
    if s.len() > 0 {
        assert forall|i: int| 0 <= i < s.drop_last().len() implies role_complete(
            #[trigger] s.drop_last()[i],
        ) by {
            assert(role_complete(s[i]));
        }
        complete_waits_for_nobody(s.drop_last());
        assert(role_complete(s[s.len() - 1]));
        met_waits_for_nobody(s.last().requirements);
        assert(event_waits(s) =~= Set::empty());
    }
}

proof fn met_waits_for_nobody(r: Seq<RequirementView>)
    requires
        forall|i: int| 0 <= i < r.len() ==> is_met(#[trigger] r[i]),
    ensures
        role_waits(r) == Set::<Seq<char>>::empty(),
    decreases r.len(),
{
    if r.len() > 0 {
        assert forall|i: int| 0 <= i < r.drop_last().len() implies is_met(
            #[trigger] r.drop_last()[i],
        ) by {
            assert(is_met(r[i]));
        }
        met_waits_for_nobody(r.drop_last());
        assert(is_met(r[r.len() - 1]));
    }
}

/// An event that is complete needs nobody's signature.
pub proof fn complete_needs_no_key(s: Seq<RoleStatusView>, i: int, key: Seq<char>)
    requires
        event_complete(s),
        0 <= i < s.len(),
    ensures
        !role_needs(s[i], key),
{
    assert(role_complete(s[i]));
}

/// A new version of root must be signed by its own keys and by those of the root before it: its
/// status has both requirements, and the role is complete only once both thresholds are reached.
pub proof fn new_root_needs_both(
    c: ConfigView,
    base: Files,
    head: Files,
    base_index: Index,
    head_index: Index,
)
    requires
        repo::root_replaced(head, base),
        role_status_of(c, base, head, "root"@, base_index, head_index) is Ok,
    ensures
        ({
            let s = role_status_of(c, base, head, "root"@, base_index, head_index)->Ok_0;
            let own = repo::role_keys_of(head, "root"@);
            let previous = repo::role_keys_of(base, "root"@);
            &&& own is Ok && previous is Ok
            &&& s.requirements.len() == 2
            &&& !s.requirements[0].previous_root && s.requirements[0].threshold == own->Ok_0.0
            &&& s.requirements[1].previous_root && s.requirements[1].threshold == previous->Ok_0.0
            &&& role_complete(s) <==> is_met(s.requirements[0]) && is_met(s.requirements[1])
        }),
{
    let needs = repo::requirements_of(head, base, "root"@)->Ok_0;
    reveal_with_fuel(requirements_for, 3);
    assert(needs.drop_last() =~= seq![needs[0]]);
    assert(needs.drop_last().drop_last() =~= Seq::empty());
}

/// What the status counts as missing is what signing asks for: a role whose requirements are met
/// misses no key.
pub proof fn complete_misses_no_key(
    c: ConfigView,
    files: Files,
    role: Seq<char>,
    needs: Seq<(int, Seq<KeyView>)>,
)
    requires
        requirements_for(c, files, role, needs) is Ok,
        forall|i: int|
            0 <= i < requirements_for(c, files, role, needs)->Ok_0.len() ==> is_met(
                #[trigger] requirements_for(c, files, role, needs)->Ok_0[i],
            ),
    ensures
        repo::missing_for_all(files, role, needs) == Ok::<Seq<KeyView>, Fault>(Seq::empty()),
    decreases needs.len(),
{
    if needs.len() > 0 {
        let all = requirements_for(c, files, role, needs)->Ok_0;
        let earlier = requirements_for(c, files, role, needs.drop_last())->Ok_0;
        assert forall|i: int| 0 <= i < earlier.len() implies is_met(#[trigger] earlier[i]) by {
            assert(all[i] == earlier[i]);
            assert(is_met(all[i]));
        }
        complete_misses_no_key(c, files, role, needs.drop_last());
        let r = all[all.len() - 1];
        assert(is_met(r));
        let need = needs.last();
        let done = repo::signed_by_of(files, role, need.1)->Ok_0;
        let part = repo::signed_part(files, role)->Ok_0;
        let p = |k: KeyView| repo::signed(part.0, part.1, k);
        let q = |k: KeyView| done.contains(k);
        assert(done == need.1.filter(p));
        filter_of_filter(need.1, p, q);
        assert(r.signed.len() == need.1.filter(q).len());
        assert(Seq::<KeyView>::empty() + Seq::<KeyView>::empty() =~= Seq::empty());
    }
}

/// The elements that a filter keeps are those that are among what it keeps.
proof fn filter_of_filter<A>(s: Seq<A>, p: spec_fn(A) -> bool, q: spec_fn(A) -> bool)
    requires
        forall|e: A| s.contains(e) ==> #[trigger] q(e) == s.filter(p).contains(e),
    ensures
        s.filter(q) == s.filter(p),
{
    assert forall|e: A| s.contains(e) implies #[trigger] q(e) == p(e) by {
        repo::filter_holds(s, p, e);
    }
    repo::filter_alike(s, p, q);
}

/// What becomes of each target is among what becomes of all.
proof fn fates_hold(s: Sides, paths: Seq<Seq<char>>, path: Seq<char>)
    requires
        fates(s, paths) is Ok,
        paths.contains(path),
    ensures
        fate(s, path) is Ok,
        fate(s, path)->Ok_0 matches Fate::Differs(c) ==> fates(s, paths)->Ok_0.changes.contains(c),
        fate(s, path)->Ok_0 matches Fate::From(r) ==> fates(s, paths)->Ok_0.from.contains(r),
        fate(s, path)->Ok_0 matches Fate::To(r) ==> fates(s, paths)->Ok_0.to.contains(r),
    decreases paths.len(),
{
    let t = paths.drop_last();
    order::push_holds(t, paths.last(), path);
    assert(t.push(paths.last()) =~= paths);
    let f = fates(s, t)->Ok_0;
    if t.contains(path) {
        fates_hold(s, t, path);
        match fate(s, path)->Ok_0 {
            Fate::Same => {},
            Fate::Differs(c) => {
                if fate(s, paths.last())->Ok_0 is Differs {
                    order::push_holds(f.changes, fate(s, paths.last())->Ok_0->Differs_0, c);
                }
            },
            Fate::From(r) => {
                if fate(s, paths.last())->Ok_0 is From {
                    order::push_holds(f.from, fate(s, paths.last())->Ok_0->From_0, r);
                }
            },
            Fate::To(r) => {
                if fate(s, paths.last())->Ok_0 is To {
                    order::push_holds(f.to, fate(s, paths.last())->Ok_0->To_0, r);
                }
            },
        }
    } else {
        match fate(s, path)->Ok_0 {
            Fate::Same => {},
            Fate::Differs(c) => order::push_holds(f.changes, c, c),
            Fate::From(r) => order::push_holds(f.from, r, r),
            Fate::To(r) => order::push_holds(f.to, r, r),
        }
    }
}

/// The words for `n` targets that moved from or to `role`.
pub open spec fn move_text(n: nat, what: Seq<char>, role: Seq<char>) -> ChangeView {
    ChangeView::Other(count_text(n) + what + role)
}

/// A role that targets moved from or to is listed among the moves.
proof fn moves_hold(roles: Seq<Seq<char>>, what: Seq<char>, role: Seq<char>)
    requires
        roles.contains(role),
    ensures
        moves(roles, what).contains(move_text(occurrences(roles, role), what, role)),
{
    vstd::seq_lib::seq_to_set_is_finite(roles);
    strmap::listing_exists(roles.to_set());
    let names = strmap::listing(roles.to_set());
    assert(names.to_set().contains(role));
    let i = choose|i: int| 0 <= i < names.len() && names[i] == role;
    assert(moves(roles, what)[i] == move_text(occurrences(roles, role), what, role));
}

/// Whether the changes tell what becomes of one target.
pub open spec fn tells(changes: Seq<ChangeView>, f: Fate) -> bool {
    match f {
        Fate::Same => true,
        Fate::Differs(c) => changes.contains(c),
        Fate::From(role) => exists|n: nat| #[trigger]
            changes.contains(move_text(n, " moved here unchanged from "@, role)),
        Fate::To(role) => exists|n: nat| #[trigger]
            changes.contains(move_text(n, " moved unchanged to "@, role)),
    }
}

/// The status conceals no target: each one that metadata lists otherwise than before is among the
/// changes, as added, changed or removed, or as moved from or to another role.
pub proof fn every_target_change_is_listed(
    c: ConfigView,
    was: Option<TargetsView>,
    new: TargetsView,
    role: Seq<char>,
    base_index: Index,
    head_index: Index,
    path: Seq<char>,
)
    requires
        targets_before(was).dom().finite(),
        new.targets.dom().finite(),
        listing_changes_of(c, was, new, role, base_index, head_index) is Ok,
        found(targets_before(was), path) != found(new.targets, path),
    ensures
        ({
            let s = Sides {
                role,
                was: targets_before(was),
                new: new.targets,
                base_index,
                head_index,
            };
            &&& fate(s, path) matches Ok(f) && f !is Same
            &&& tells(
                listing_changes_of(c, was, new, role, base_index, head_index)->Ok_0,
                fate(s, path)->Ok_0,
            )
        }),
{
    let s = Sides { role, was: targets_before(was), new: new.targets, base_index, head_index };
    let all = s.was.dom().union(s.new.dom());
    let paths = strmap::listing(all);
    strmap::listing_exists(all);
    assert(paths.to_set().contains(path));
    fates_hold(s, paths, path);
    let f = fates(s, paths)->Ok_0;
    let from = moves(f.from, " moved here unchanged from "@);
    let to = moves(f.to, " moved unchanged to "@);
    let targets = target_changes_of(s)->Ok_0;
    let changes = listing_changes_of(c, was, new, role, base_index, head_index)->Ok_0;
    assert(targets == f.changes + from + to);
    let start = changes.len() - targets.len();
    assert forall|i: int| 0 <= i < targets.len() implies changes.contains(#[trigger] targets[i]) by {
        assert(changes[start + i] == targets[i]);
    }
    match fate(s, path)->Ok_0 {
        Fate::Same => {},
        Fate::Differs(ch) => {
            let i = choose|i: int| 0 <= i < f.changes.len() && f.changes[i] == ch;
            assert(targets[i] == ch);
        },
        Fate::From(r) => {
            moves_hold(f.from, " moved here unchanged from "@, r);
            let m = move_text(occurrences(f.from, r), " moved here unchanged from "@, r);
            let i = choose|i: int| 0 <= i < from.len() && from[i] == m;
            assert(targets[f.changes.len() + i] == m);
        },
        Fate::To(r) => {
            moves_hold(f.to, " moved unchanged to "@, r);
            let m = move_text(occurrences(f.to, r), " moved unchanged to "@, r);
            let i = choose|i: int| 0 <= i < to.len() && to[i] == m;
            assert(targets[f.changes.len() + from.len() + i] == m);
        },
    }
}

} // verus!
