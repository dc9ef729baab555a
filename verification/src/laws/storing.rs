//! Where things are kept: objects in the bucket, and online keys.

use vstd::prelude::*;

use crate::cloud;
use crate::cloud::LocationView;
use crate::config;
use crate::config::ConfigView;
use crate::error::Fault;
use crate::keys::KeyView;
use crate::laws::reporting;
use crate::laws::terms;
use crate::laws::updating;
use crate::order;
use crate::repo;
use crate::repo::Files;
use crate::text;

verus! {

/// Whether the config has the key with the given id online, at `uri`.
pub open spec fn kept_online(c: ConfigView, id: Seq<char>, uri: Seq<char>) -> bool {
    exists|name: Seq<char>| #[trigger]
        reporting::last_with_id(c, name, id) && c.keys[name].online == Some(uri)
}

/// A key is online where the config has it.
proof fn online_holds(c: ConfigView, id: Seq<char>, uri: Seq<char>)
    requires
        config::valid(c),
    ensures
        cloud::online_at(c, id) == Some(uri) <==> kept_online(c, id, uri),
{
    reporting::holders_are_last(c, id);
    if kept_online(c, id, uri) {
        let name = choose|name: Seq<char>| #[trigger]
            reporting::last_with_id(c, name, id) && c.keys[name].online == Some(uri);
        assert(reporting::has_id(c, name, id));
        let other = config::holders(c)[id];
        assert(reporting::has_id(c, other, id));
        if other != name {
            text::precedes_asymmetric(other, name);
        }
    }
}

/// Where those of the keys are that are online.
proof fn among_holds(c: ConfigView, keys: Seq<KeyView>, uri: Seq<char>)
    requires
        config::valid(c),
    ensures
        cloud::online_among(c, keys).contains(uri) <==> exists|key: KeyView| #[trigger]
            keys.contains(key) && kept_online(c, key.id, uri),
    decreases keys.len(),
{
    if keys.len() > 0 {
        let rest = keys.drop_last();
        let last = keys.last();
        among_holds(c, rest, uri);
        online_holds(c, last.id, uri);
        assert forall|key: KeyView| #[trigger] keys.contains(key) <==> rest.contains(key) || key == last by {
            order::push_holds(rest, last, key);
            assert(rest.push(last) =~= keys);
        }
        if cloud::online_at(c, last.id) is Some {
            order::push_holds(
                cloud::online_among(c, rest),
                cloud::online_at(c, last.id)->0,
                uri,
            );
        }
        if cloud::online_among(c, rest).contains(uri) {
            let key = choose|key: KeyView| #[trigger]
                rest.contains(key) && kept_online(c, key.id, uri);
            assert(keys.contains(key));
        }
        if exists|key: KeyView| #[trigger] keys.contains(key) && kept_online(c, key.id, uri) {
            let key = choose|key: KeyView| #[trigger]
                keys.contains(key) && kept_online(c, key.id, uri);
            if key != last {
                assert(rest.contains(key));
            }
        }
        assert(keys.contains(last));
    }
}

/// The online keys that are asked to sign a role are those that it lacks a signature of: each of them,
/// and no other.
pub proof fn online_keys_sign_what_lacks_them(
    c: ConfigView,
    base: Files,
    files: Files,
    role: Seq<char>,
    uri: Seq<char>,
)
    requires
        config::valid(c),
        terms::proper(base),
        terms::proper(files),
        cloud::online_missing(c, base, files, role) is Ok,
    ensures
        cloud::online_missing(c, base, files, role)->Ok_0.contains(uri) <==> exists|id: Seq<char>|
            #[trigger] reporting::wanted(base, files, role, id) && kept_online(c, id, uri),
{
    let missing = repo::missing_keys_of(files, base, role)->Ok_0;
    among_holds(c, missing, uri);
    if cloud::online_missing(c, base, files, role)->Ok_0.contains(uri) {
        let key = choose|key: KeyView| #[trigger]
            missing.contains(key) && kept_online(c, key.id, uri);
        updating::missing_keys_are_wanted(files, base, role, key.id);
        assert(reporting::wanted(base, files, role, key.id));
    }
    if exists|id: Seq<char>| #[trigger]
        reporting::wanted(base, files, role, id) && kept_online(c, id, uri) {
        let id = choose|id: Seq<char>| #[trigger]
            reporting::wanted(base, files, role, id) && kept_online(c, id, uri);
        updating::missing_keys_are_wanted(files, base, role, id);
        let key = choose|key: KeyView| #[trigger] missing.contains(key) && key.id == id;
        assert(missing.contains(key));
    }
}

/// The name of a key version in Cloud KMS is what follows the scheme, and a key with another scheme is
/// refused.
pub proof fn kms_names_follow_the_scheme(name: Seq<char>, uri: Seq<char>)
    ensures
        cloud::kms_name_of("gcpkms:"@ + name) == Ok::<Seq<char>, Fault>(name),
        cloud::kms_name_of(uri) matches Ok(n) ==> uri == "gcpkms:"@ + n,
{
    reveal_strlit("gcpkms:");
    let u = "gcpkms:"@ + name;
    assert(u.subrange(0, 7) =~= "gcpkms:"@);
    assert("gcpkms:"@.is_prefix_of(u));
    assert(u.skip(7) =~= name);
    if "gcpkms:"@.is_prefix_of(uri) {
        assert(uri.subrange(0, 7) == "gcpkms:"@);
        assert("gcpkms:"@ + uri.skip(7) =~= uri);
    }
}

/// Whether the text is made of slashes only.
pub open spec fn slashes(s: Seq<char>) -> bool {
    forall|i: int| 0 <= i < s.len() ==> #[trigger] s[i] == '/'
}

/// Whether the text neither starts nor ends with a slash.
pub open spec fn bare(s: Seq<char>) -> bool {
    s.len() == 0 || (s[0] != '/' && s.last() != '/')
}

/// What is left of a text without the slashes around it.
pub proof fn slashes_are_stripped(a: Seq<char>, s: Seq<char>, b: Seq<char>)
    requires
        slashes(a),
        bare(s),
        slashes(b),
    ensures
        text::stripped(a + s + b, '/') == s,
{
    if s.len() == 0 {
        assert(slashes(a + s + b)) by {
            assert forall|i: int| 0 <= i < (a + s + b).len() implies #[trigger] (a + s + b)[i] == '/' by {
                if i < a.len() {
                    assert((a + s + b)[i] == a[i]);
                } else {
                    assert((a + s + b)[i] == b[i - a.len()]);
                }
            }
        }
        nothing_left(a + s + b);
        assert(text::stripped_start(a + s + b, '/') =~= Seq::empty());
        assert(s =~= Seq::empty());
    } else {
        assert(a + s + b =~= a + (s + b));
        start_stripped(a, s + b);
        end_stripped(s, b);
    }
}

/// Nothing is left of slashes.
proof fn nothing_left(s: Seq<char>)
    requires
        slashes(s),
    ensures
        text::stripped_start(s, '/').len() == 0,
    decreases s.len(),
{
    if s.len() > 0 {
        assert(s[0] == '/');
        assert(slashes(s.skip(1))) by {
            assert forall|i: int| 0 <= i < s.skip(1).len() implies #[trigger] s.skip(1)[i] == '/' by {
                assert(s.skip(1)[i] == s[i + 1]);
            }
        }
        nothing_left(s.skip(1));
    }
}

/// The slashes at the start are stripped.
pub proof fn start_stripped(a: Seq<char>, s: Seq<char>)
    requires
        slashes(a),
        s.len() > 0,
        s[0] != '/',
    ensures
        text::stripped_start(a + s, '/') == s,
    decreases a.len(),
{
    if a.len() > 0 {
        assert((a + s)[0] == a[0]);
        assert((a + s).skip(1) =~= a.skip(1) + s);
        assert(slashes(a.skip(1))) by {
            assert forall|i: int| 0 <= i < a.skip(1).len() implies #[trigger] a.skip(1)[i] == '/' by {
                assert(a.skip(1)[i] == a[i + 1]);
            }
        }
        start_stripped(a.skip(1), s);
    } else {
        assert(a + s =~= s);
    }
}

/// The slashes at the end are stripped.
proof fn end_stripped(s: Seq<char>, b: Seq<char>)
    requires
        slashes(b),
        s.len() > 0,
        s.last() != '/',
    ensures
        text::stripped_end(s + b, '/') == s,
    decreases b.len(),
{
    if b.len() > 0 {
        assert((s + b).last() == b.last());
        assert(b.last() == b[b.len() - 1]);
        assert((s + b).drop_last() =~= s + b.drop_last());
        assert(slashes(b.drop_last())) by {
            assert forall|i: int| 0 <= i < b.drop_last().len() implies #[trigger] b.drop_last()[i]
                == '/' by {
                assert(b.drop_last()[i] == b[i]);
            }
        }
        end_stripped(s, b.drop_last());
    } else {
        assert(s + b =~= s);
    }
}

/// The first slash stands where there is none before it.
proof fn first_slash(s: Seq<char>, rest: Seq<char>)
    requires
        !s.contains('/'),
        rest.len() > 0 ==> rest[0] == '/',
    ensures
        text::until(s + rest, '/') == s.len(),
    decreases s.len(),
{
    if s.len() > 0 {
        assert((s + rest)[0] == s[0]);
        assert(s.contains(s[0]));
        assert((s + rest).skip(1) =~= s.skip(1) + rest);
        assert(!s.skip(1).contains('/')) by {
            if s.skip(1).contains('/') {
                let i = choose|i: int| 0 <= i < s.skip(1).len() && s.skip(1)[i] == '/';
                assert(s[i + 1] == '/');
            }
        }
        first_slash(s.skip(1), rest);
    } else {
        assert(s + rest =~= rest);
    }
}

/// A storage URL names a bucket, and below it the prefix that follows, without the slashes around it.
/// One with another scheme is refused.
pub proof fn storage_urls_name_bucket_and_prefix(
    bucket: Seq<char>,
    a: Seq<char>,
    prefix: Seq<char>,
    b: Seq<char>,
    url: Seq<char>,
)
    requires
        !bucket.contains('/'),
        slashes(a),
        bare(prefix),
        slashes(b),
    ensures
        cloud::location_of("gs://"@ + bucket) == Ok::<LocationView, Fault>(
            LocationView { bucket, prefix: Seq::empty() },
        ),
        cloud::location_of("gs://"@ + (bucket + ("/"@ + (a + prefix + b)))) == Ok::<
            LocationView,
            Fault,
        >(LocationView { bucket, prefix }),
        !(url.len() >= 5 && url.take(5) == "gs://"@) ==> cloud::location_of(url) is Err,
{
    reveal_strlit("gs://");
    reveal_strlit("/");
    let none = Seq::<char>::empty();
    let rest = "/"@ + (a + prefix + b);
    let u = "gs://"@ + bucket;
    let v = "gs://"@ + (bucket + rest);
    assert(u.subrange(0, 5) =~= "gs://"@);
    assert(v.subrange(0, 5) =~= "gs://"@);
    assert("gs://"@.is_prefix_of(u) && "gs://"@.is_prefix_of(v));
    assert(u.skip(5) =~= bucket + none);
    assert(v.skip(5) =~= bucket + rest);
    first_slash(bucket, none);
    first_slash(bucket, rest);
    assert((bucket + none).take(bucket.len() as int) =~= bucket);
    assert((bucket + rest).take(bucket.len() as int) =~= bucket);
    assert((bucket + rest).skip(bucket.len() as int + 1) =~= a + prefix + b);
    slashes_are_stripped(a, prefix, b);
    if "gs://"@.is_prefix_of(url) {
        assert(url.take(5) =~= url.subrange(0, 5));
    }
}

/// An object stands below the prefix, if there is one, with a slash between them.
pub proof fn objects_stand_below_the_prefix(l: LocationView, name: Seq<char>)
    ensures
        l.prefix.len() == 0 ==> cloud::full_name(l, name) == name,
        l.prefix.len() > 0 ==> cloud::full_name(l, name) == l.prefix + ("/"@ + name),
{
    if l.prefix.len() == 0 {
        assert(cloud::full_name(l, name) =~= name);
    } else {
        assert(cloud::full_name(l, name) =~= l.prefix + ("/"@ + name));
    }
}

/// The address of an object has the bucket, the parts of the prefix and those of the name, in order,
/// without those that are empty.
pub proof fn addresses_have_no_empty_parts(l: LocationView, object: Seq<char>)
    ensures
        ({
            let path = cloud::url_path(l, object);
            let all = seq![l.bucket] + text::parts_of(l.prefix, '/') + text::parts_of(object, '/');
            &&& forall|i: int| 0 <= i < path.len() ==> (#[trigger] path[i]).len() > 0
            &&& forall|part: Seq<char>| #[trigger]
                path.contains(part) <==> all.contains(part) && part.len() > 0
            &&& (forall|i: int| 0 <= i < all.len() ==> (#[trigger] all[i]).len() > 0) ==> path == all
        }),
{
    let path = cloud::url_path(l, object);
    let all = seq![l.bucket] + text::parts_of(l.prefix, '/') + text::parts_of(object, '/');
    let p = |s: Seq<char>| s.len() > 0;
    assert(path == all.filter(p));
    assert forall|part: Seq<char>| #[trigger] path.contains(part) <==> all.contains(part) && part.len()
        > 0 by {
        repo::filter_holds(all, p, part);
    }
    assert forall|i: int| 0 <= i < path.len() implies (#[trigger] path[i]).len() > 0 by {
        assert(path.contains(path[i]));
    }
    if forall|i: int| 0 <= i < all.len() ==> (#[trigger] all[i]).len() > 0 {
        all_filled(all);
    }
}

/// Nothing is left out where no part is empty.
proof fn all_filled(all: Seq<Seq<char>>)
    requires
        forall|i: int| 0 <= i < all.len() ==> (#[trigger] all[i]).len() > 0,
    ensures
        all.filter(|s: Seq<char>| s.len() > 0) == all,
    decreases all.len(),
{
    reveal(Seq::filter);
    if all.len() > 0 {
        let rest = all.drop_last();
        assert forall|i: int| 0 <= i < rest.len() implies (#[trigger] rest[i]).len() > 0 by {
            assert(rest[i] == all[i]);
        }
        all_filled(rest);
        assert(all[all.len() - 1].len() > 0);
        assert(rest.push(all.last()) =~= all);
    } else {
        assert(all.filter(|s: Seq<char>| s.len() > 0) =~= all);
    }
}

/// Clients download an object from Google's storage host, below the bucket and the prefix that the
/// storage URL names.
pub proof fn objects_are_downloaded_from_the_bucket(
    storage: Seq<char>,
    object: Seq<char>,
    l: LocationView,
)
    requires
        cloud::location_of(storage) == Ok::<LocationView, Fault>(l),
    ensures
        ({
            let url = cloud::extended_url(
                "https://storage.googleapis.com/"@,
                cloud::url_path(l, object),
            );
            &&& cloud::public_url_of(storage, object) is Ok <==> url is Some
            &&& cloud::public_url_of(storage, object) matches Ok(u) ==> url == Some(u)
            &&& cloud::bucket_resource(l) == "projects/_/buckets/"@ + l.bucket
        }),
{
}

} // verus!
