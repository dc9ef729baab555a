//! What can go wrong, and the words for it.

use vstd::prelude::*;

use crate::text;

verus! {

/// A problem that stops an operation. `S` is the type of the texts in it.
#[derive(Debug)]
pub enum Problem<S> {
    /// A key has both an owner and a location, or neither.
    KeyHolder { key: S },
    /// No key has this name.
    UnknownKey { key: S },
    /// A key's `public_key` is not an ECDSA P-256 key in PEM.
    PublicKey { key: S },
    /// A top-level role is not configured.
    TopLevelRole { role: S },
    /// A role's name cannot name metadata.
    RoleName { role: S },
    /// A role's threshold is zero or more than it has keys.
    Threshold { role: S },
    /// A role's days are not in order.
    Days { role: S },
    /// A role lists a key that is not configured.
    RoleKey { role: S, key: S },
    /// A role that CI signs lists a key that is not online.
    OfflineKey { role: S, key: S },
    /// A top-level role has paths, or a delegated one has none.
    Paths { role: S },
    /// A path of a role cannot name a target.
    RolePath { role: S, path: S },
    /// Two roles claim the same path.
    Overlap { role: S, path: S, other_role: S, other_path: S },
    /// A role is not configured.
    NotConfigured { role: S },
    /// There is no metadata of a role.
    MissingMetadata { role: S },
    /// The metadata of a role cannot be parsed.
    Unparsable { role: S },
    /// A file of the root history is missing.
    MissingFile { name: S },
    /// Metadata to store is not signed JSON.
    NotJson { role: S },
    /// `targets` does not delegate to a role.
    NotDelegated { role: S },
    /// The signatures of a role's metadata cannot be read.
    Signatures { role: S },
    /// What the signatures of a role's metadata cover has no canonical form.
    NotCanonical { role: S },
    /// A signature does not verify.
    BadSignature { role: S },
    /// New metadata of a role cannot be written down.
    Unwritable { role: S },
    /// A role has no version number left.
    VersionLimit { role: S },
    /// A target path is not acceptable.
    TargetPath { path: S },
    /// A target is described without its SHA-256 digest.
    NoDigest { path: S },
    /// A client does not accept the metadata of a role.
    Refused { role: S },
    /// A client does not accept a version of root.
    RefusedRoot { version: S },
    /// A target file was never uploaded.
    NotUploaded { path: S, role: S, object: S },
    /// git ended with an error.
    Git { command: S, message: S },
    /// git could not show a file.
    GitBlob { object: S },
    /// The working tree has changes that are not committed.
    Uncommitted { dir: S },
    /// A branch has commits that are only here.
    Unpushed { branch: S },
    /// There is no config at a revision.
    NoConfig { rev: S },
    /// The config at a revision is not text.
    NotText { rev: S },
    /// The storage URL is not supported.
    Storage { url: S },
    /// The URI of an online key is not supported.
    OnlineKey { uri: S },
    /// The automation does not run on a branch.
    Branch { branch: S },
    /// A signing event cannot be merged with main.
    Conflict { branch: S },
    /// There is nothing to add.
    NoFiles { from: S },
}

/// A problem as it is reported.
pub type Error = Problem<String>;

/// A problem as contracts speak of it.
pub type Fault = Problem<Seq<char>>;

impl View for Problem<String> {
    type V = Problem<Seq<char>>;

    open spec fn view(&self) -> Problem<Seq<char>> {
        match self {
            Problem::KeyHolder { key } => Problem::KeyHolder { key: key@ },
            Problem::UnknownKey { key } => Problem::UnknownKey { key: key@ },
            Problem::PublicKey { key } => Problem::PublicKey { key: key@ },
            Problem::TopLevelRole { role } => Problem::TopLevelRole { role: role@ },
            Problem::RoleName { role } => Problem::RoleName { role: role@ },
            Problem::Threshold { role } => Problem::Threshold { role: role@ },
            Problem::Days { role } => Problem::Days { role: role@ },
            Problem::RoleKey { role, key } => Problem::RoleKey { role: role@, key: key@ },
            Problem::OfflineKey { role, key } => Problem::OfflineKey { role: role@, key: key@ },
            Problem::Paths { role } => Problem::Paths { role: role@ },
            Problem::RolePath { role, path } => Problem::RolePath { role: role@, path: path@ },
            Problem::Overlap { role, path, other_role, other_path } => Problem::Overlap {
                role: role@,
                path: path@,
                other_role: other_role@,
                other_path: other_path@,
            },
            Problem::NotConfigured { role } => Problem::NotConfigured { role: role@ },
            Problem::MissingMetadata { role } => Problem::MissingMetadata { role: role@ },
            Problem::Unparsable { role } => Problem::Unparsable { role: role@ },
            Problem::MissingFile { name } => Problem::MissingFile { name: name@ },
            Problem::NotJson { role } => Problem::NotJson { role: role@ },
            Problem::NotDelegated { role } => Problem::NotDelegated { role: role@ },
            Problem::Signatures { role } => Problem::Signatures { role: role@ },
            Problem::NotCanonical { role } => Problem::NotCanonical { role: role@ },
            Problem::BadSignature { role } => Problem::BadSignature { role: role@ },
            Problem::Unwritable { role } => Problem::Unwritable { role: role@ },
            Problem::VersionLimit { role } => Problem::VersionLimit { role: role@ },
            Problem::TargetPath { path } => Problem::TargetPath { path: path@ },
            Problem::NoDigest { path } => Problem::NoDigest { path: path@ },
            Problem::Refused { role } => Problem::Refused { role: role@ },
            Problem::RefusedRoot { version } => Problem::RefusedRoot { version: version@ },
            Problem::NotUploaded { path, role, object } => Problem::NotUploaded {
                path: path@,
                role: role@,
                object: object@,
            },
            Problem::Git { command, message } => Problem::Git {
                command: command@,
                message: message@,
            },
            Problem::GitBlob { object } => Problem::GitBlob { object: object@ },
            Problem::Uncommitted { dir } => Problem::Uncommitted { dir: dir@ },
            Problem::Unpushed { branch } => Problem::Unpushed { branch: branch@ },
            Problem::NoConfig { rev } => Problem::NoConfig { rev: rev@ },
            Problem::NotText { rev } => Problem::NotText { rev: rev@ },
            Problem::Storage { url } => Problem::Storage { url: url@ },
            Problem::OnlineKey { uri } => Problem::OnlineKey { uri: uri@ },
            Problem::Branch { branch } => Problem::Branch { branch: branch@ },
            Problem::Conflict { branch } => Problem::Conflict { branch: branch@ },
            Problem::NoFiles { from } => Problem::NoFiles { from: from@ },
        }
    }
}

/// A result with both sides seen as contracts speak of them.
pub open spec fn outcome<T: View>(r: Result<T, Error>) -> Result<T::V, Fault> {
    match r {
        Ok(t) => Ok(t@),
        Err(e) => Err(e@),
    }
}

/// The first of the problems `f(0)`, `f(1)` and so on up to `f(n - 1)`.
pub open spec fn first(f: spec_fn(int) -> Option<Fault>, n: int) -> Option<Fault>
    decreases n,
{
    if n <= 0 {
        None
    } else {
        match first(f, n - 1) {
            Some(e) => Some(e),
            None => f(n - 1),
        }
    }
}

/// Later problems do not change which is the first.
pub proof fn first_stays(f: spec_fn(int) -> Option<Fault>, i: int, n: int)
    requires
        i <= n,
        first(f, i) is Some,
    ensures
        first(f, n) == first(f, i),
    decreases n - i,
{
    if i < n {
        first_stays(f, i, n - 1);
        if n <= 0 {
            assert(first(f, i) is None);
        }
    }
}

/// There is no first problem exactly where there is no problem.
pub proof fn first_none(f: spec_fn(int) -> Option<Fault>, n: int)
    ensures
        first(f, n) is None <==> forall|i: int| 0 <= i < n ==> #[trigger] f(i) is None,
    decreases n,
{
    if n > 0 {
        first_none(f, n - 1);
        if first(f, n) is None {
            assert(f(n - 1) is None);
        }
    }
}

/// The first problem is one of the problems.
pub proof fn first_is_one(f: spec_fn(int) -> Option<Fault>, n: int)
    requires
        first(f, n) is Some,
    ensures
        exists|i: int| 0 <= i < n && #[trigger] f(i) == first(f, n),
    decreases n,
{
    if n > 0 {
        if first(f, n - 1) is Some {
            first_is_one(f, n - 1);
        } else {
            assert(f(n - 1) == first(f, n));
        }
    }
}

/// The words for a problem.
pub open spec fn message_of(e: Fault) -> Seq<char> {
    match e {
        Problem::KeyHolder { key } => "key "@ + key + ": set exactly one of `owner` or `online`"@,
        Problem::UnknownKey { key } => "unknown key "@ + key,
        Problem::PublicKey { key } => "key "@ + key + ": public_key"@,
        Problem::TopLevelRole { role } => "missing role "@ + role,
        Problem::RoleName { role } => "role name "@ + role,
        Problem::Threshold { role } => "role "@ + role
            + ": threshold must be between 1 and the number of keys"@,
        Problem::Days { role } => "role "@ + role + ": need 0 < signing_days < expires_days"@,
        Problem::RoleKey { role, key } => "role "@ + role + ": unknown key "@ + key,
        Problem::OfflineKey { role, key } => "role "@ + role + ": key "@ + key
            + " must be online"@,
        Problem::Paths { role } => "role "@ + role
            + ": `paths` must be set on delegated roles only"@,
        Problem::RolePath { role, path } => "role "@ + role + ": path "@ + path,
        Problem::Overlap { role, path, other_role, other_path } => "roles "@ + role + " ("@ + path
            + ") and "@ + other_role + " ("@ + other_path
            + ") overlap: each path may belong to one role only"@,
        Problem::NotConfigured { role } => "role "@ + role + " is not in tufops.toml"@,
        Problem::MissingMetadata { role } => role + " metadata is missing"@,
        Problem::Unparsable { role } => "parsing "@ + role + " metadata"@,
        Problem::MissingFile { name } => "missing "@ + name,
        Problem::NotJson { role } => role + " metadata is not JSON"@,
        Problem::NotDelegated { role } => "targets does not delegate to "@ + role,
        Problem::Signatures { role } => "reading the signatures of "@ + role,
        Problem::NotCanonical { role } => role + " metadata has no canonical form"@,
        Problem::BadSignature { role } => "the new signature does not verify: "@ + role,
        Problem::Unwritable { role } => "writing "@ + role + " metadata"@,
        Problem::VersionLimit { role } => role + " has no version number left"@,
        Problem::TargetPath { path } => "target path "@ + path,
        Problem::NoDigest { path } => "target "@ + path + " has no sha256"@,
        Problem::Refused { role } => "clients refuse "@ + role,
        Problem::RefusedRoot { version } => "clients refuse root v"@ + version,
        Problem::NotUploaded { path, role, object } => "target "@ + path + " of "@ + role
            + " was never uploaded ("@ + object + ")"@,
        Problem::Git { command, message } => "git "@ + command + " failed: "@ + message,
        Problem::GitBlob { object } => "git cat-file blob "@ + object + " failed"@,
        Problem::Uncommitted { dir } => dir + "/ has uncommitted changes"@,
        Problem::Unpushed { branch } => branch
            + " has commits that are not on origin: push or delete it first"@,
        Problem::NoConfig { rev } => "no tufops.toml at "@ + rev,
        Problem::NotText { rev } => "tufops.toml is not text at "@ + rev,
        Problem::Storage { url } => "unsupported storage URL "@ + url
            + ": expected gs://bucket[/prefix]"@,
        Problem::OnlineKey { uri } => "unsupported online key "@ + uri
            + ": expected gcpkms:<key version name>"@,
        Problem::Branch { branch } => "tufops runs on main and sign/* branches, not "@ + branch,
        Problem::Conflict { branch } => branch + " conflicts with main; start it again from main"@,
        Problem::NoFiles { from } => "no files in "@ + from,
    }
}

/// Three texts after one another.
fn three(a: &str, b: &str, c: &str) -> (r: String)
    ensures
        r@ == a@ + b@ + c@,
{
    text::cat(text::cat(a, b).as_str(), c)
}

/// Five texts after one another.
fn five(a: &str, b: &str, c: &str, d: &str, e: &str) -> (r: String)
    ensures
        r@ == a@ + b@ + c@ + d@ + e@,
{
    text::cat(text::cat(three(a, b, c).as_str(), d).as_str(), e)
}

impl Problem<String> {
    /// The words for the problem.
    pub fn message(&self) -> (r: String)
        ensures
            r@ == message_of(self@),
    {
        match self {
            Problem::KeyHolder { key } => three(
                "key ",
                key.as_str(),
                ": set exactly one of `owner` or `online`",
            ),
            Problem::UnknownKey { key } => text::cat("unknown key ", key.as_str()),
            Problem::PublicKey { key } => three("key ", key.as_str(), ": public_key"),
            Problem::TopLevelRole { role } => text::cat("missing role ", role.as_str()),
            Problem::RoleName { role } => text::cat("role name ", role.as_str()),
            Problem::Threshold { role } => three(
                "role ",
                role.as_str(),
                ": threshold must be between 1 and the number of keys",
            ),
            Problem::Days { role } => three(
                "role ",
                role.as_str(),
                ": need 0 < signing_days < expires_days",
            ),
            Problem::RoleKey { role, key } => text::cat(
                three("role ", role.as_str(), ": unknown key ").as_str(),
                key.as_str(),
            ),
            Problem::OfflineKey { role, key } => five(
                "role ",
                role.as_str(),
                ": key ",
                key.as_str(),
                " must be online",
            ),
            Problem::Paths { role } => three(
                "role ",
                role.as_str(),
                ": `paths` must be set on delegated roles only",
            ),
            Problem::RolePath { role, path } => text::cat(
                three("role ", role.as_str(), ": path ").as_str(),
                path.as_str(),
            ),
            Problem::Overlap { role, path, other_role, other_path } => five(
                five("roles ", role.as_str(), " (", path.as_str(), ") and ").as_str(),
                other_role.as_str(),
                " (",
                other_path.as_str(),
                ") overlap: each path may belong to one role only",
            ),
            Problem::NotConfigured { role } => three(
                "role ",
                role.as_str(),
                " is not in tufops.toml",
            ),
            Problem::MissingMetadata { role } => text::cat(role.as_str(), " metadata is missing"),
            Problem::Unparsable { role } => three("parsing ", role.as_str(), " metadata"),
            Problem::MissingFile { name } => text::cat("missing ", name.as_str()),
            Problem::NotJson { role } => text::cat(role.as_str(), " metadata is not JSON"),
            Problem::NotDelegated { role } => text::cat(
                "targets does not delegate to ",
                role.as_str(),
            ),
            Problem::Signatures { role } => text::cat(
                "reading the signatures of ",
                role.as_str(),
            ),
            Problem::NotCanonical { role } => text::cat(
                role.as_str(),
                " metadata has no canonical form",
            ),
            Problem::BadSignature { role } => text::cat(
                "the new signature does not verify: ",
                role.as_str(),
            ),
            Problem::Unwritable { role } => three("writing ", role.as_str(), " metadata"),
            Problem::VersionLimit { role } => text::cat(
                role.as_str(),
                " has no version number left",
            ),
            Problem::TargetPath { path } => text::cat("target path ", path.as_str()),
            Problem::NoDigest { path } => three("target ", path.as_str(), " has no sha256"),
            Problem::Refused { role } => text::cat("clients refuse ", role.as_str()),
            Problem::RefusedRoot { version } => text::cat(
                "clients refuse root v",
                version.as_str(),
            ),
            Problem::NotUploaded { path, role, object } => three(
                five("target ", path.as_str(), " of ", role.as_str(), " was never uploaded (").as_str(),
                object.as_str(),
                ")",
            ),
            Problem::Git { command, message } => text::cat(
                three("git ", command.as_str(), " failed: ").as_str(),
                message.as_str(),
            ),
            Problem::GitBlob { object } => three("git cat-file blob ", object.as_str(), " failed"),
            Problem::Uncommitted { dir } => text::cat(dir.as_str(), "/ has uncommitted changes"),
            Problem::Unpushed { branch } => text::cat(
                branch.as_str(),
                " has commits that are not on origin: push or delete it first",
            ),
            Problem::NoConfig { rev } => text::cat("no tufops.toml at ", rev.as_str()),
            Problem::NotText { rev } => text::cat("tufops.toml is not text at ", rev.as_str()),
            Problem::Storage { url } => three(
                "unsupported storage URL ",
                url.as_str(),
                ": expected gs://bucket[/prefix]",
            ),
            Problem::OnlineKey { uri } => three(
                "unsupported online key ",
                uri.as_str(),
                ": expected gcpkms:<key version name>",
            ),
            Problem::Branch { branch } => text::cat(
                "tufops runs on main and sign/* branches, not ",
                branch.as_str(),
            ),
            Problem::Conflict { branch } => text::cat(
                branch.as_str(),
                " conflicts with main; start it again from main",
            ),
            Problem::NoFiles { from } => text::cat("no files in ", from.as_str()),
        }
    }
}

} // verus!
