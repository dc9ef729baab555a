//! Where keys and published files are: the storage and the keys that a config names, the objects in
//! the storage, and which online keys have to sign.

use vstd::prelude::*;

use crate::config;
use crate::config::{Config, ConfigView};
use crate::error;
use crate::error::{Error, Fault, Problem};
use crate::keys::KeyView;
use crate::repo;
use crate::repo::{Files, Repo};
use crate::text;

verus! {

broadcast use crate::text::views_push;

/// The bucket and the prefix below it that a storage URL names.
pub struct LocationView {
    pub bucket: Seq<char>,
    /// The prefix without slashes around it.
    pub prefix: Seq<char>,
}

/// The location `bucket` or `bucket/prefix`.
pub open spec fn location_at(path: Seq<char>) -> LocationView {
    let i = text::until(path, '/');
    LocationView {
        bucket: path.take(i),
        prefix: if i < path.len() {
            text::stripped(path.skip(i + 1), '/')
        } else {
            Seq::empty()
        },
    }
}

/// The location that a storage URL names, for example `gs://bucket/prefix`.
pub open spec fn location_of(url: Seq<char>) -> Result<LocationView, Fault> {
    if "gs://"@.is_prefix_of(url) {
        Ok(location_at(url.skip(5)))
    } else {
        Err(Problem::Storage { url })
    }
}

/// The resource name of the bucket.
pub open spec fn bucket_resource(l: LocationView) -> Seq<char> {
    "projects/_/buckets/"@ + l.bucket
}

/// What every object name in the bucket starts with.
pub open spec fn object_prefix(l: LocationView) -> Seq<char> {
    if l.prefix.len() == 0 {
        Seq::empty()
    } else {
        l.prefix + "/"@
    }
}

/// The name in the bucket of the object `name`.
pub open spec fn full_name(l: LocationView, name: Seq<char>) -> Seq<char> {
    object_prefix(l) + name
}

/// The object that has the name `full` in the bucket.
pub open spec fn relative_name(l: LocationView, full: Seq<char>) -> Seq<char> {
    if object_prefix(l).is_prefix_of(full) {
        full.skip(object_prefix(l).len() as int)
    } else {
        full
    }
}

/// An object is found again under the name that it was given.
pub proof fn names_are_found_again(l: LocationView, name: Seq<char>)
    ensures
        relative_name(l, full_name(l, name)) == name,
{
    let p = object_prefix(l);
    assert(full_name(l, name).take(p.len() as int) =~= p);
    assert(full_name(l, name).skip(p.len() as int) =~= name);
}

/// The media type of a small object.
pub open spec fn media_type(name: Seq<char>) -> Seq<char> {
    if ".json"@.is_suffix_of(name) {
        "application/json"@
    } else {
        "application/octet-stream"@
    }
}

/// A bucket in Cloud Storage, and a prefix below it.
#[derive(Debug)]
pub struct Location {
    bucket: String,
    prefix: String,
}

impl View for Location {
    type V = LocationView;

    closed spec fn view(&self) -> LocationView {
        LocationView { bucket: self.bucket@, prefix: self.prefix@ }
    }
}

impl Location {
    /// The location that a storage URL names, for example `gs://bucket/prefix`.
    pub fn new(url: &str) -> (r: Result<Location, Error>)
        ensures
            error::outcome(r) == location_of(url@),
    {
        let path = match text::strip_prefix(url, "gs://") {
            Some(p) => p,
            None => {
                return Err(Problem::Storage { url: url.to_owned() });
            },
        };
        proof {
            reveal_strlit("gs://");
            assert(url@.skip(5) =~= path@);
            text::until_within(path@, '/');
        }
        match text::split_once(path.as_str(), '/') {
            Some((bucket, rest)) => Ok(
                Location { bucket, prefix: text::strip(rest.as_str(), '/') },
            ),
            None => {
                assert(path@.take(path@.len() as int) =~= path@);
                let location = Location { bucket: path, prefix: String::new() };
                assert(location@.prefix =~= Seq::<char>::empty());
                Ok(location)
            },
        }
    }

    /// The resource name of the bucket.
    pub fn bucket(&self) -> (r: String)
        ensures
            r@ == bucket_resource(self@),
    {
        text::cat("projects/_/buckets/", self.bucket.as_str())
    }

    /// What every object name in the bucket starts with.
    fn start(&self) -> (r: String)
        ensures
            r@ == object_prefix(self@),
    {
        if text::characters(self.prefix.as_str()).len() == 0 {
            let r = String::new();
            assert(r@ =~= Seq::<char>::empty());
            r
        } else {
            text::cat(self.prefix.as_str(), "/")
        }
    }

    /// The name in the bucket of the object `name`, or of the objects whose names start with it.
    pub fn full(&self, name: &str) -> (r: String)
        ensures
            r@ == full_name(self@, name@),
    {
        text::cat(self.start().as_str(), name)
    }

    /// The object that has the name `full` in the bucket.
    pub fn relative(&self, full: &str) -> (r: String)
        ensures
            r@ == relative_name(self@, full@),
    {
        let start = self.start();
        match text::strip_prefix(full, start.as_str()) {
            Some(name) => {
                assert(full@.skip(start@.len() as int) =~= name@);
                name
            },
            None => full.to_owned(),
        }
    }
}

/// The media type of a small object.
pub fn content_type(name: &str) -> (r: &'static str)
    ensures
        r@ == media_type(name@),
{
    if text::has_suffix(name, ".json") {
        "application/json"
    } else {
        "application/octet-stream"
    }
}

/// `base` with the segments appended to its path, if it is a URL that has one.
pub uninterp spec fn extended_url(base: Seq<char>, segments: Seq<Seq<char>>) -> Option<Seq<char>>;

/// Calls `url::Url::parse` and appends with `path_segments_mut` and `extend`, which encode each
/// segment: the contract only names the URL, which depends on the base and the segments alone.
#[verifier::external_body]
fn extend_url(base: &str, segments: &Vec<String>) -> (r: Option<String>)
    ensures
        r is Some <==> extended_url(base@, text::views(segments@)) is Some,
        r matches Some(u) ==> extended_url(base@, text::views(segments@)) == Some(u@),
{
    let mut url = url::Url::parse(base).ok()?;
    url.path_segments_mut().ok()?.extend(segments);
    Some(url.into())
}

/// The segments that are not empty.
pub open spec fn filled(segments: Seq<Seq<char>>) -> Seq<Seq<char>> {
    segments.filter(|s: Seq<char>| s.len() > 0)
}

/// The path of an object below the storage host.
pub open spec fn url_path(l: LocationView, object: Seq<char>) -> Seq<Seq<char>> {
    filled(seq![l.bucket] + text::parts_of(l.prefix, '/') + text::parts_of(object, '/'))
}

/// The public HTTPS URL that clients download `object` from, with the storage at `storage`.
pub open spec fn public_url_of(storage: Seq<char>, object: Seq<char>) -> Result<Seq<char>, Fault> {
    match location_of(storage) {
        Err(e) => Err(e),
        Ok(l) => match extended_url("https://storage.googleapis.com/"@, url_path(l, object)) {
            Some(url) => Ok(url),
            None => Err(Problem::Storage { url: storage }),
        },
    }
}

fn keep_filled(segments: &Vec<String>) -> (r: Vec<String>)
    ensures
        text::views(r@) == filled(text::views(segments@)),
{
    let ghost all = text::views(segments@);
    let ghost p = |s: Seq<char>| s.len() > 0;
    let mut out: Vec<String> = Vec::new();
    let mut i: usize = 0;
    proof {
        reveal(Seq::filter);
        assert(text::views(out@) =~= all.take(0).filter(p));
    }
    while i < segments.len()
        invariant
            i <= segments.len(),
            all == text::views(segments@),
            p == (|s: Seq<char>| s.len() > 0),
            text::views(out@) == all.take(i as int).filter(p),
        decreases segments.len() - i,
    {
        proof {
            reveal(Seq::filter);
            assert(all.take(i + 1).drop_last() =~= all.take(i as int));
            assert(all.take(i + 1).last() == segments@[i as int]@);
        }
        if text::characters(segments[i].as_str()).len() > 0 {
            out.push(segments[i].clone());
        }
        i = i + 1;
    }
    assert(all.take(i as int) =~= all);
    out
}

/// The public HTTPS URL that clients download `object` from, with the storage at `storage`.
pub fn public_url(storage: &str, object: &str) -> (r: Result<String, Error>)
    ensures
        error::outcome(r) == public_url_of(storage@, object@),
{
    let l = match Location::new(storage) {
        Ok(l) => l,
        Err(e) => {
            return Err(e);
        },
    };
    let mut segments: Vec<String> = Vec::new();
    segments.push(l.bucket.clone());
    assert(text::views(segments@) =~= seq![l@.bucket]);
    let mut prefix = text::split(l.prefix.as_str(), '/');
    let ghost a = segments@;
    let ghost b = prefix@;
    segments.append(&mut prefix);
    assert(text::views(segments@) =~= text::views(a) + text::views(b));
    let mut name = text::split(object, '/');
    let ghost a = segments@;
    let ghost b = name@;
    segments.append(&mut name);
    assert(text::views(segments@) =~= text::views(a) + text::views(b));
    match extend_url("https://storage.googleapis.com/", &keep_filled(&segments)) {
        Some(url) => Ok(url),
        None => Err(Problem::Storage { url: storage.to_owned() }),
    }
}

/// The Cloud KMS key version that the URI of an online key names.
pub open spec fn kms_name_of(uri: Seq<char>) -> Result<Seq<char>, Fault> {
    if "gcpkms:"@.is_prefix_of(uri) {
        Ok(uri.skip(7))
    } else {
        Err(Problem::OnlineKey { uri })
    }
}

/// The Cloud KMS key version that the URI of an online key names, for example
/// `gcpkms:projects/p/locations/l/keyRings/r/cryptoKeys/k/cryptoKeyVersions/1`.
pub fn kms_name(uri: &str) -> (r: Result<String, Error>)
    ensures
        error::outcome(r) == kms_name_of(uri@),
{
    match text::strip_prefix(uri, "gcpkms:") {
        Some(name) => {
            proof {
                reveal_strlit("gcpkms:");
                assert(uri@.skip(7) =~= name@);
            }
            Ok(name)
        },
        None => Err(Problem::OnlineKey { uri: uri.to_owned() }),
    }
}

/// Where the key with the given id is, if it is configured as online.
pub open spec fn online_at(c: ConfigView, id: Seq<char>) -> Option<Seq<char>> {
    if config::holders(c).dom().contains(id) {
        c.keys[config::holders(c)[id]].online
    } else {
        None
    }
}

/// Where those of the keys are that are online.
pub open spec fn online_among(c: ConfigView, keys: Seq<KeyView>) -> Seq<Seq<char>>
    decreases keys.len(),
{
    if keys.len() == 0 {
        Seq::empty()
    } else {
        let earlier = online_among(c, keys.drop_last());
        match online_at(c, keys.last().id) {
            Some(uri) => earlier.push(uri),
            None => earlier,
        }
    }
}

/// Where the online keys are that still have to sign `role`.
pub open spec fn online_missing(c: ConfigView, base: Files, files: Files, role: Seq<char>) -> Result<
    Seq<Seq<char>>,
    Fault,
> {
    match repo::missing_keys_of(files, base, role) {
        Err(e) => Err(e),
        Ok(missing) => Ok(online_among(c, missing)),
    }
}

fn find_online(config: &Config, id: &str) -> (r: Option<String>)
    ensures
        r is Some <==> online_at(config@, id@) is Some,
        r matches Some(uri) ==> online_at(config@, id@) == Some(uri@),
{
    proof {
        use_type_invariant(config);
    }
    let by_id = config.keys_by_id();
    match by_id.get(id) {
        Some(name) => {
            proof {
                config::holders_configured(config@, id@);
            }
            match config.keys().get(name.as_str()) {
                Some(k) => match &k.online {
                    Some(uri) => Some(uri.clone()),
                    None => None,
                },
                None => None,
            }
        },
        None => None,
    }
}

/// Where the online keys are that still have to sign `role` in `repo`: the URI of each.
pub fn online_signers(config: &Config, base: &Repo, repo: &Repo, role: &str) -> (r: Result<
    Vec<String>,
    Error,
>)
    ensures
        repo::listed(r) == online_missing(config@, base@, repo@, role@),
{
    let missing = match repo.missing_keys(base, role) {
        Ok(m) => m,
        Err(e) => {
            return Err(e);
        },
    };
    let ghost all = text::views(missing@);
    let mut out: Vec<String> = Vec::new();
    let mut i: usize = 0;
    assert(text::views(out@) =~= Seq::<Seq<char>>::empty());
    while i < missing.len()
        invariant
            i <= missing.len(),
            all == text::views(missing@),
            text::views(out@) == online_among(config@, all.take(i as int)),
        decreases missing.len() - i,
    {
        assert(all.take(i + 1).drop_last() =~= all.take(i as int));
        assert(all.take(i + 1).last() == missing@[i as int]@);
        match find_online(config, missing[i].id.as_str()) {
            Some(uri) => {
                out.push(uri);
            },
            None => {},
        }
        i = i + 1;
    }
    assert(all.take(i as int) =~= all);
    Ok(out)
}

} // verus!
