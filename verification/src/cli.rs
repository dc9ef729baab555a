//! What the command line tool works out and says: the target paths of files to add, the signing
//! events that need a key, and their status as plain text.

use vstd::prelude::*;

use crate::ci;
use crate::config;
use crate::config::{Config, ConfigView};
use crate::documents;
use crate::error;
use crate::error::{Error, Fault, Problem};
use crate::repo;
use crate::repo::{Files, Repo};
use crate::status;
use crate::status::{
    ChangeView, EventStatus, Requirement, RequirementView, RoleStatus, RoleStatusView,
    SignerView,
};
use crate::text;
use crate::time;

verus! {

broadcast use crate::text::views_push;

/// What is to be added: a file of the given name, or a directory with files at the given relative
/// paths, each as the list of its parts.
#[derive(Debug)]
pub enum Found {
    File(String),
    Directory(Vec<Vec<String>>),
}

/// What is to be added, as contracts speak of it.
pub enum FoundView {
    File(Seq<char>),
    Directory(Seq<Seq<Seq<char>>>),
}

impl View for Found {
    type V = FoundView;

    open spec fn view(&self) -> FoundView {
        match self {
            Found::File(name) => FoundView::File(name@),
            Found::Directory(entries) => FoundView::Directory(
                entries@.map_values(|parts: Vec<String>| text::views(parts@)),
            ),
        }
    }
}

/// The target path, if it can name a target.
pub open spec fn checked_target(path: Seq<char>) -> Result<Seq<char>, Fault> {
    if documents::names_target(path) {
        Ok(path)
    } else {
        Err(Problem::TargetPath { path })
    }
}

/// Where a file called `name` goes: to `to`, or into it when it ends in a slash.
pub open spec fn file_path(to: Seq<char>, name: Seq<char>) -> Seq<char> {
    if "/"@.is_suffix_of(to) {
        to + name
    } else {
        to
    }
}

/// Where a file of a directory goes: under `to`, keeping its relative path.
pub open spec fn entry_path(to: Seq<char>, parts: Seq<Seq<char>>) -> Seq<char> {
    text::stripped_start(text::stripped(to, '/') + "/"@ + text::joined(parts, "/"@), '/')
}

/// Where the files of a directory go.
pub open spec fn entry_paths(to: Seq<char>, entries: Seq<Seq<Seq<char>>>) -> Result<
    Seq<Seq<char>>,
    Fault,
>
    decreases entries.len(),
{
    if entries.len() == 0 {
        Ok(Seq::empty())
    } else {
        match entry_paths(to, entries.drop_last()) {
            Err(e) => Err(e),
            Ok(earlier) => match checked_target(entry_path(to, entries.last())) {
                Err(e) => Err(e),
                Ok(path) => Ok(earlier.push(path)),
            },
        }
    }
}

/// The target paths of what is to be added from `from`.
pub open spec fn target_paths(from: Seq<char>, to: Seq<char>, found: FoundView) -> Result<
    Seq<Seq<char>>,
    Fault,
> {
    match found {
        FoundView::File(name) => match checked_target(file_path(to, name)) {
            Err(e) => Err(e),
            Ok(path) => Ok(seq![path]),
        },
        FoundView::Directory(entries) => match entry_paths(to, entries) {
            Err(e) => Err(e),
            Ok(paths) => if paths.len() == 0 {
                Err(Problem::NoFiles { from })
            } else {
                Ok(paths)
            },
        },
    }
}

proof fn entry_paths_fail(to: Seq<char>, entries: Seq<Seq<Seq<char>>>, i: int)
    requires
        0 <= i <= entries.len(),
        entry_paths(to, entries.take(i)) is Err,
    ensures
        entry_paths(to, entries) == entry_paths(to, entries.take(i)),
    decreases entries.len(),
{
    if i < entries.len() {
        assert(entries.drop_last().take(i) =~= entries.take(i));
        entry_paths_fail(to, entries.drop_last(), i);
    } else {
        assert(entries.take(i) =~= entries);
    }
}

fn check_target(path: String) -> (r: Result<String, Error>)
    ensures
        error::outcome(r) == checked_target(path@),
{
    if documents::check_target_path(path.as_str()) {
        Ok(path)
    } else {
        Err(Problem::TargetPath { path })
    }
}

/// Target paths of the files to add, in the order in which they were found: a file goes to `to` (or
/// into it when `to` ends in `/`); a directory's files go under `to`, keeping their relative paths.
pub fn collect_files(from: &str, to: &str, found: &Found) -> (r: Result<Vec<String>, Error>)
    ensures
        repo::listed(r) == target_paths(from@, to@, found@),
{
    match found {
        Found::File(name) => {
            let target = if text::has_suffix(to, "/") {
                text::cat(to, name.as_str())
            } else {
                to.to_owned()
            };
            match check_target(target) {
                Ok(path) => {
                    let mut out: Vec<String> = Vec::new();
                    let ghost p = path@;
                    out.push(path);
                    assert(text::views(out@) =~= seq![p]);
                    Ok(out)
                },
                Err(e) => Err(e),
            }
        },
        Found::Directory(entries) => {
            let ghost all = entries@.map_values(|parts: Vec<String>| text::views(parts@));
            let dir = text::strip(to, '/');
            let mut out: Vec<String> = Vec::new();
            let mut i: usize = 0;
            assert(text::views(out@) =~= Seq::<Seq<char>>::empty());
            while i < entries.len()
                invariant
                    i <= entries.len(),
                    all == entries@.map_values(|parts: Vec<String>| text::views(parts@)),
                    dir@ == text::stripped(to@, '/'),
                    entry_paths(to@, all.take(i as int)) == Ok::<Seq<Seq<char>>, Fault>(
                        text::views(out@),
                    ),
                    found@ == FoundView::Directory(all),
                decreases entries.len() - i,
            {
                assert(all.take(i + 1).drop_last() =~= all.take(i as int));
                assert(all.take(i + 1).last() == text::views(entries@[i as int]@));
                let mut target = dir.clone();
                text::extend(&mut target, "/");
                text::extend(&mut target, text::join(&entries[i], "/").as_str());
                match check_target(text::strip_start(target.as_str(), '/')) {
                    Ok(path) => {
                        out.push(path);
                    },
                    Err(e) => {
                        proof {
                            entry_paths_fail(to@, all, i + 1);
                        }
                        return Err(e);
                    },
                }
                i = i + 1;
            }
            assert(all.take(i as int) =~= all);
            assert(text::views(out@).len() == out@.len());
            if out.len() == 0 {
                return Err(Problem::NoFiles { from: from.to_owned() });
            }
            Ok(out)
        },
    }
}

/// Whether the character may stand in the name of a signing event.
pub open spec fn plain(c: char) -> bool {
    'a' <= c <= 'z' || 'A' <= c <= 'Z' || '0' <= c <= '9' || c == '.'
}

/// The text with a dash for every character that may not stand in the name of a signing event.
pub open spec fn slug(s: Seq<char>) -> Seq<char> {
    s.map_values(
        |c: char|
            if plain(c) {
                c
            } else {
                '-'
            },
    )
}

/// The signing event that files for `to` are added in, unless another is named.
pub fn add_event(to: &str) -> (r: String)
    ensures
        r@ == "add-"@ + slug(text::stripped(to@, '/')),
{
    let chars = text::characters(text::strip(to, '/').as_str());
    let ghost all = chars@;
    let mut out = "add-".to_owned();
    let mut i: usize = 0;
    assert("add-"@ + slug(all.take(0)) =~= "add-"@);
    while i < chars.len()
        invariant
            i <= chars.len(),
            all == chars@,
            out@ == "add-"@ + slug(all.take(i as int)),
        decreases chars.len() - i,
    {
        let c = chars[i];
        let keep = ('a' <= c && c <= 'z') || ('A' <= c && c <= 'Z') || ('0' <= c && c <= '9') || c
            == '.';
        out.push(
            if keep {
                c
            } else {
                '-'
            },
        );
        assert("add-"@ + slug(all.take(i + 1)) =~= ("add-"@ + slug(all.take(i as int))).push(
            slug(all)[i as int],
        ));
        i = i + 1;
    }
    assert(all.take(i as int) =~= all);
    out
}

/// A role's new version and expiry.
pub open spec fn heading_of(s: RoleStatusView) -> Seq<char> {
    let expires = ", expires "@ + time::minute_text(s.expires);
    match s.base {
        None => "new, version "@ + text::decimal(s.version as nat) + expires,
        Some((version, _)) => if version != s.version {
            "version "@ + text::decimal(version as nat) + " → "@ + text::decimal(s.version as nat)
                + expires
        } else {
            "version "@ + text::decimal(s.version as nat) + expires
        },
    }
}

/// What the metadata of a role changes, line by line.
pub open spec fn detail_of(s: RoleStatusView) -> Seq<Seq<char>> {
    if s.changes.len() == 0 {
        if s.base matches Some((version, _)) && version != s.version {
            seq!["no changes besides version and expiry"@]
        } else {
            Seq::empty()
        }
    } else {
        s.changes.map_values(|c: ChangeView| status::change_text(c))
    }
}

/// A role's new version and expiry.
pub fn role_heading(role: &RoleStatus) -> (r: String)
    ensures
        r@ == heading_of(role@),
{
    let expires = text::cat(", expires ", role.expires.minute().as_str());
    let version = text::to_decimal(role.version as u64);
    let mut out = match &role.base {
        None => "new, version ".to_owned(),
        Some((v, _)) => {
            let mut start = "version ".to_owned();
            if *v != role.version {
                text::extend(&mut start, text::to_decimal(*v as u64).as_str());
                text::extend(&mut start, " → ");
            }
            start
        },
    };
    text::extend(&mut out, version.as_str());
    text::extend(&mut out, expires.as_str());
    out
}

/// What the metadata of a role changes, line by line.
pub fn role_details(role: &RoleStatus) -> (r: Vec<String>)
    ensures
        text::views(r@) == detail_of(role@),
{
    let mut out: Vec<String> = Vec::new();
    assert(role@.changes.len() == role.changes@.len());
    assert(text::views(out@) =~= Seq::<Seq<char>>::empty());
    if role.changes.len() == 0 {
        match &role.base {
            Some((v, _)) => {
                if *v != role.version {
                    out.push("no changes besides version and expiry".to_owned());
                    assert(text::views(out@) =~= seq!["no changes besides version and expiry"@]);
                }
            },
            None => {},
        }
        return out;
    }
    let ghost all = role@.changes;
    let ghost f = |c: ChangeView| status::change_text(c);
    let mut i: usize = 0;
    while i < role.changes.len()
        invariant
            i <= role.changes.len(),
            all == text::views(role.changes@),
            f == (|c: ChangeView| status::change_text(c)),
            text::views(out@) =~= all.take(i as int).map_values(f),
        decreases role.changes.len() - i,
    {
        out.push(role.changes[i].to_text());
        assert(all.take(i + 1).map_values(f) =~= all.take(i as int).map_values(f).push(
            f(all[i as int]),
        ));
        i = i + 1;
    }
    assert(all.take(i as int) =~= all);
    out
}

/// The names of the keys.
pub open spec fn names_text(keys: Seq<SignerView>) -> Seq<char> {
    text::joined(keys.map_values(|k: SignerView| k.name), ", "@)
}

/// Who has signed for a requirement, and who has not.
pub open spec fn requirement_text(r: RequirementView) -> Seq<char> {
    (if r.previous_root {
        "signatures from the previous root keys"@
    } else {
        "signatures"@
    }) + ": "@ + text::decimal(r.signed.len()) + " of "@ + text::decimal(r.threshold as nat) + (
    if r.signed.len() == 0 {
        ""@
    } else {
        ", signed by "@ + names_text(r.signed)
    }) + (if status::is_met(r) {
        ""@
    } else {
        ", waiting for "@ + names_text(r.unsigned)
    })
}

/// Who has signed for a requirement, and who has not.
pub fn requirement_line(req: &Requirement) -> (r: String)
    ensures
        r@ == requirement_text(req@),
{
    let mut out = if req.previous_root {
        "signatures from the previous root keys".to_owned()
    } else {
        "signatures".to_owned()
    };
    assert(req@.signed.len() == req.signed@.len());
    text::extend(&mut out, ": ");
    text::extend(&mut out, text::to_decimal(req.signed.len() as u64).as_str());
    text::extend(&mut out, " of ");
    text::extend(&mut out, text::to_decimal(req.threshold as u64).as_str());
    let signed = if req.signed.len() == 0 {
        "".to_owned()
    } else {
        text::cat(", signed by ", text::join(&ci::key_names(&req.signed), ", ").as_str())
    };
    text::extend(&mut out, signed.as_str());
    let waiting = if req.met() {
        "".to_owned()
    } else {
        text::cat(", waiting for ", text::join(&ci::key_names(&req.unsigned), ", ").as_str())
    };
    text::extend(&mut out, waiting.as_str());
    out
}

/// What comes of a signing event once it was pushed.
pub open spec fn outlook_of(s: Seq<RoleStatusView>, changed_files: Seq<Seq<char>>) -> Seq<char> {
    if !status::event_complete(s) {
        "Waiting for signatures from "@ + ci::waiting_text(s)
            + ". CI opens a pull request; signers run `tufops sign`."@
    } else if status::automatic(s, changed_files) {
        "All signatures are in: CI merges and publishes it."@
    } else {
        "All signatures are in: CI opens a pull request for a maintainer to merge."@
    }
}

/// What comes of a signing event once it was pushed.
pub fn outlook(s: &EventStatus, changed_files: &Vec<String>) -> (r: String)
    ensures
        r@ == outlook_of(s@, text::views(changed_files@)),
{
    if !s.complete() {
        let mut out = "Waiting for signatures from ".to_owned();
        text::extend(&mut out, ci::waiting_names(s).as_str());
        text::extend(&mut out, ". CI opens a pull request; signers run `tufops sign`.");
        out
    } else if s.merges_automatically(changed_files) {
        "All signatures are in: CI merges and publishes it.".to_owned()
    } else {
        "All signatures are in: CI opens a pull request for a maintainer to merge.".to_owned()
    }
}

/// The roles of a signing event: CI signs snapshot and timestamp later.
pub open spec fn event_roles_of(files: Files) -> Seq<Seq<char>> {
    repo::roles_of(files).filter(|role: Seq<char>| role != "snapshot"@ && role != "timestamp"@)
}

/// The roles of a signing event: CI signs snapshot and timestamp later.
pub fn event_roles(head: &Repo) -> (r: Vec<String>)
    ensures
        text::views(r@) == event_roles_of(head@),
{
    let roles = head.roles();
    let ghost all = text::views(roles@);
    let ghost p = |role: Seq<char>| role != "snapshot"@ && role != "timestamp"@;
    let mut out: Vec<String> = Vec::new();
    let mut i: usize = 0;
    proof {
        reveal(Seq::filter);
        assert(text::views(out@) =~= all.take(0).filter(p));
    }
    while i < roles.len()
        invariant
            i <= roles.len(),
            all == text::views(roles@),
            p == (|role: Seq<char>| role != "snapshot"@ && role != "timestamp"@),
            text::views(out@) == all.take(i as int).filter(p),
        decreases roles.len() - i,
    {
        let role = &roles[i];
        proof {
            reveal(Seq::filter);
            assert(all.take(i + 1).drop_last() =~= all.take(i as int));
            assert(all.take(i + 1).last() == role@);
        }
        if !text::same(role.as_str(), "snapshot") && !text::same(role.as_str(), "timestamp") {
            out.push(role.clone());
        }
        i = i + 1;
    }
    assert(all.take(i as int) =~= all);
    out
}

/// A signing event with its status.
#[derive(Debug)]
pub struct OpenEvent {
    pub event: String,
    pub status: EventStatus,
}

impl View for OpenEvent {
    type V = (Seq<char>, Seq<RoleStatusView>);

    open spec fn view(&self) -> (Seq<char>, Seq<RoleStatusView>) {
        (self.event@, self.status@)
    }
}

/// The roles of an event that need a signature from `key`.
pub open spec fn roles_needing(s: Seq<RoleStatusView>, key: Seq<char>) -> Seq<RoleStatusView> {
    s.filter(|r: RoleStatusView| status::role_needs(r, key))
}

/// Whether the event needs a signature from `key`, and is among the events asked for, if any are.
pub open spec fn is_pending(
    e: (Seq<char>, Seq<RoleStatusView>),
    key: Seq<char>,
    asked: Seq<Seq<char>>,
) -> bool {
    roles_needing(e.1, key).len() > 0 && (asked.len() == 0 || asked.contains(e.0))
}

/// The positions of the events that need a signature from `key`.
pub open spec fn pending_positions(
    events: Seq<(Seq<char>, Seq<RoleStatusView>)>,
    key: Seq<char>,
    asked: Seq<Seq<char>>,
) -> Seq<usize>
    decreases events.len(),
{
    if events.len() == 0 {
        Seq::empty()
    } else {
        let earlier = pending_positions(events.drop_last(), key, asked);
        if is_pending(events.last(), key, asked) {
            earlier.push((events.len() - 1) as usize)
        } else {
            earlier
        }
    }
}

fn is_asked(asked: &Vec<String>, event: &str) -> (r: bool)
    ensures
        r == text::views(asked@).contains(event@),
{
    let ghost all = text::views(asked@);
    let mut i: usize = 0;
    while i < asked.len()
        invariant
            i <= asked.len(),
            all == text::views(asked@),
            forall|j: int| 0 <= j < i ==> #[trigger] all[j] != event@,
        decreases asked.len() - i,
    {
        assert(all[i as int] == asked@[i as int]@);
        if text::same(asked[i].as_str(), event) {
            return true;
        }
        i = i + 1;
    }
    false
}

/// The positions of the events that need a signature from the key with the id `key`, of those asked
/// for, or of all if none are.
pub fn pending(events: &Vec<OpenEvent>, key: &str, asked: &Vec<String>) -> (r: Vec<usize>)
    ensures
        r@ == pending_positions(text::views(events@), key@, text::views(asked@)),
{
    let ghost all = text::views(events@);
    let mut out: Vec<usize> = Vec::new();
    let mut i: usize = 0;
    while i < events.len()
        invariant
            i <= events.len(),
            all == text::views(events@),
            out@ == pending_positions(all.take(i as int), key@, text::views(asked@)),
        decreases events.len() - i,
    {
        let e = &events[i];
        assert(all.take(i + 1).drop_last() =~= all.take(i as int));
        assert(all.take(i + 1).last() == e@);
        assert(text::views(asked@).len() == asked@.len());
        let needed = e.status.needs(key);
        assert(text::views(needed@).len() == needed@.len());
        if needed.len() > 0 && (asked.len() == 0 || is_asked(asked, e.event.as_str())) {
            out.push(i);
        }
        i = i + 1;
    }
    assert(all.take(i as int) =~= all);
    out
}

/// The names of the roles.
pub open spec fn role_names(roles: Seq<RoleStatusView>) -> Seq<Seq<char>> {
    roles.map_values(|r: RoleStatusView| r.role)
}

/// An event in words, with the roles in it that `key` would sign.
pub fn choice(e: &OpenEvent, key: &str) -> (r: String)
    ensures
        r@ == "sign/"@ + e@.0 + " (signs "@ + text::joined(
            role_names(roles_needing(e@.1, key@)),
            ", "@,
        ) + ")"@,
{
    let needed = e.status.needs(key);
    let ghost all = text::views(needed@);
    let mut names: Vec<String> = Vec::new();
    let mut i: usize = 0;
    while i < needed.len()
        invariant
            i <= needed.len(),
            all == text::views(needed@),
            text::views(names@) =~= role_names(all.take(i as int)),
        decreases needed.len() - i,
    {
        names.push(needed[i].role.clone());
        assert(role_names(all.take(i + 1)) =~= role_names(all.take(i as int)).push(
            all[i as int].role,
        ));
        i = i + 1;
    }
    assert(all.take(i as int) =~= all);
    let mut out = "sign/".to_owned();
    text::extend(&mut out, e.event.as_str());
    text::extend(&mut out, " (signs ");
    text::extend(&mut out, text::join(&names, ", ").as_str());
    text::extend(&mut out, ")");
    out
}

/// What is said of the YubiKey before the branch is named.
pub open spec fn prompt_of(c: ConfigView, id: Seq<char>, roles: int) -> Seq<char> {
    "Your YubiKey ("@ + config::key_label(c, id) + ", key "@ + (match status::head_of(id, 8) {
        Some(t) => t,
        None => ""@,
    }) + ") is needed to sign "@ + (if roles == 1 {
        "this role"@
    } else {
        "these roles"@
    }) + " in "@
}

/// What is said of the YubiKey with the key `id` before the branch is named in which it is to sign
/// so many roles.
pub fn prompt(config: &Config, id: &str, roles: usize) -> (r: String)
    ensures
        r@ == prompt_of(config@, id@, roles as int),
{
    let mut out = "Your YubiKey (".to_owned();
    text::extend(&mut out, config.describe_key(id).as_str());
    text::extend(&mut out, ", key ");
    let start = match status::id_start(id) {
        Some(t) => t,
        None => "".to_owned(),
    };
    text::extend(&mut out, start.as_str());
    text::extend(&mut out, ") is needed to sign ");
    text::extend(
        &mut out,
        if roles == 1 {
            "this role"
        } else {
            "these roles"
        },
    );
    text::extend(&mut out, " in ");
    out
}

/// How the YubiKey to use is found.
#[derive(Clone, Copy, Debug, PartialEq, Eq, Structural)]
pub enum Device {
    /// There is none.
    Missing,
    /// It is the only one.
    Only,
    /// The user picks one of several.
    Ask,
    /// There are several, and nobody to ask.
    Ambiguous,
}

/// How the YubiKey to use is found, with so many plugged in: the only one, or the one the user picks
/// where there is a terminal to ask on.
pub fn choose_device(plugged_in: usize, terminal: bool) -> (r: Device)
    ensures
        r is Missing <==> plugged_in == 0,
        r is Only <==> plugged_in == 1,
        r is Ask <==> plugged_in > 1 && terminal,
        r is Ambiguous <==> plugged_in > 1 && !terminal,
{
    if plugged_in == 0 {
        Device::Missing
    } else if plugged_in == 1 {
        Device::Only
    } else if terminal {
        Device::Ask
    } else {
        Device::Ambiguous
    }
}

/// What came of an attempt to sign a role.
#[derive(Clone, Copy, Debug, PartialEq, Eq, Structural)]
pub enum Attempt {
    Signed,
    /// It failed, and is to be tried again.
    Again,
    /// It failed, and the role is left for later.
    GivenUp,
}

/// How far the signing of several roles has come.
pub struct SessionView {
    pub roles: Seq<(Seq<char>, u32)>,
    pub done: int,
    pub signed: bool,
}

/// The session after an attempt to sign its current role.
pub open spec fn after_attempt(s: SessionView, a: Attempt) -> SessionView {
    match a {
        Attempt::Signed => SessionView { done: s.done + 1, signed: true, ..s },
        Attempt::Again => s,
        Attempt::GivenUp => SessionView { done: s.done + 1, ..s },
    }
}

/// The signing of several roles, one after another: a failed signature can be retried, and a role
/// given up on is left for later.
#[derive(Debug)]
pub struct Session {
    roles: Vec<(String, u32)>,
    done: usize,
    signed: bool,
}

impl View for Session {
    type V = SessionView;

    closed spec fn view(&self) -> SessionView {
        SessionView {
            roles: text::views(self.roles@),
            done: self.done as int,
            signed: self.signed,
        }
    }
}

impl Session {
    #[verifier::type_invariant]
    spec fn within(self) -> bool {
        self.done <= self.roles@.len()
    }

    /// The signing of those roles of an event that need a signature from the key with the id `key`.
    pub fn new(s: &EventStatus, key: &str) -> (r: Session)
        ensures
            r@ == (SessionView {
                roles: roles_needing(s@, key@).map_values(
                    |r: RoleStatusView| (r.role, r.version as u32),
                ),
                done: 0,
                signed: false,
            }),
    {
        let needed = s.needs(key);
        let ghost all = text::views(needed@);
        let ghost f = |r: RoleStatusView| (r.role, r.version as u32);
        let mut roles: Vec<(String, u32)> = Vec::new();
        let mut i: usize = 0;
        while i < needed.len()
            invariant
                i <= needed.len(),
                all == text::views(needed@),
                f == (|r: RoleStatusView| (r.role, r.version as u32)),
                text::views(roles@) =~= all.take(i as int).map_values(f),
            decreases needed.len() - i,
        {
            roles.push((needed[i].role.clone(), needed[i].version));
            assert(all.take(i + 1).map_values(f) =~= all.take(i as int).map_values(f).push(
                f(all[i as int]),
            ));
            i = i + 1;
        }
        assert(all.take(i as int) =~= all);
        Session { roles, done: 0, signed: false }
    }

    /// The role to sign now, and its version.
    pub fn current(&self) -> (r: Option<(&String, u32)>)
        ensures
            r is Some <==> self@.done < self@.roles.len(),
            r matches Some((role, version)) ==> self@.roles[self@.done] == (role@, version),
    {
        if self.done < self.roles.len() {
            let (role, version) = &self.roles[self.done];
            assert(self@.roles[self@.done] == (role@, *version));
            Some((role, *version))
        } else {
            None
        }
    }

    /// Notes what came of an attempt to sign the current role.
    pub fn record(&mut self, a: Attempt)
        requires
            old(self)@.done < old(self)@.roles.len(),
        ensures
            final(self)@ == after_attempt(old(self)@, a),
    {
        let n = self.roles.len();
        assert(self.done < n);
        match a {
            Attempt::Signed => {
                self.done = self.done + 1;
                self.signed = true;
            },
            Attempt::Again => {},
            Attempt::GivenUp => {
                self.done = self.done + 1;
            },
        }
    }

    /// Whether anything was signed.
    pub fn signed(&self) -> (r: bool)
        ensures
            r == self@.signed,
    {
        self.signed
    }
}

} // verus!
