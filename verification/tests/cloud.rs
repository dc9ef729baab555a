//! Where objects and keys are in the cloud.

use tufops::cloud;
use tufops::cloud::Location;
use tufops::error::Problem;

#[test]
fn objects_are_named_below_the_prefix() {
    let location = Location::new("gs://bucket/a/b/").unwrap();
    assert_eq!(location.bucket(), "projects/_/buckets/bucket");
    assert_eq!(location.full("metadata/1.root.json"), "a/b/metadata/1.root.json");
    assert_eq!(location.relative("a/b/targets/x"), "targets/x");
    assert_eq!(location.relative("c/targets/x"), "c/targets/x");
    let name = "targets/a/b/c";
    assert_eq!(location.relative(&location.full(name)), name);
}

#[test]
fn objects_of_a_whole_bucket_have_no_prefix() {
    for url in ["gs://bucket", "gs://bucket/"] {
        let location = Location::new(url).unwrap();
        assert_eq!(location.bucket(), "projects/_/buckets/bucket");
        assert_eq!(location.full("index.html"), "index.html");
        assert_eq!(location.relative("index.html"), "index.html");
    }
}

#[test]
fn other_storage_is_refused() {
    for url in ["s3://bucket", "bucket", "https://storage.googleapis.com/bucket"] {
        let e = Location::new(url).unwrap_err();
        assert!(matches!(&e, Problem::Storage { url: u } if u == url));
        assert_eq!(
            e.message(),
            format!("unsupported storage URL {url}: expected gs://bucket[/prefix]")
        );
        assert!(matches!(cloud::public_url(url, "x"), Err(Problem::Storage { .. })));
    }
}

#[test]
fn public_urls_are_encoded() {
    assert_eq!(
        cloud::public_url("gs://bucket/a//b", "targets/x y/1.é%").unwrap(),
        "https://storage.googleapis.com/bucket/a/b/targets/x%20y/1.%C3%A9%25"
    );
    assert_eq!(
        cloud::public_url("gs://bucket", "targets//f#?").unwrap(),
        "https://storage.googleapis.com/bucket/targets/f%23%3F"
    );
}

#[test]
fn media_types_follow_the_name() {
    assert_eq!(cloud::content_type("metadata/timestamp.json"), "application/json");
    assert_eq!(cloud::content_type("index.html"), "application/octet-stream");
}

#[test]
fn online_keys_are_in_cloud_kms() {
    assert_eq!(cloud::kms_name("gcpkms:projects/p/1").unwrap(), "projects/p/1");
    let e = cloud::kms_name("awskms:1").unwrap_err();
    assert_eq!(e.message(), "unsupported online key awskms:1: expected gcpkms:<key version name>");
}
