use std::collections::BTreeSet;

use static_assets::compile::{assets_of, compile, AssetRecord, SourceFile};
use static_assets::map::AssetMap;
use static_assets::respond::Status;
use static_assets::serve::{assets_router, Static, StaticService};

fn source(path: &str, content: &[u8]) -> SourceFile {
    SourceFile { path: path.to_string(), content: content.to_vec() }
}

fn records() -> &'static Vec<AssetRecord> {
    let files = vec![
        source("/srv/tests/assets/canary.html", b"<p>Hi!</p>\n"),
        source("/srv/tests/assets/js/canary.js", b"console.log(\"Hi\")"),
    ];
    Box::leak(Box::new(compile("/srv/tests/assets", &files).expect("compile")))
}

fn assets() -> &'static AssetMap<'static> {
    let members = Box::leak(Box::new(assets_of(records())));
    let map = Box::leak(Box::new(AssetMap { members: members.as_slice() }));
    assert!(map.is_well_formed());
    map
}

#[test]
fn should_lookup_example() {
    let res = assets().get("js/canary.js").expect("asset js/canary.js");

    assert_eq!(res.content, b"console.log(\"Hi\")");
}

#[test]
fn should_lookup_example_from_pub_crate() {
    let pub_crate_assets = assets();
    let res = pub_crate_assets.get("js/canary.js").expect("asset js/canary.js");

    assert_eq!(res.content, b"console.log(\"Hi\")");
}

#[test]
fn should_have_content_type() {
    let res = assets().get("canary.html").expect("asset canary.html");

    assert_eq!(res.content_type, "text/html");
}

#[test]
fn supports_iterators_non_trivially() {
    let mut names = BTreeSet::new();
    let mut it = assets().iter();
    while let Some(a) = it.next() {
        names.insert(a.name.to_string());
    }

    assert!(names.contains("canary.html"), "All names: {:?}; contains canary.html", names);
}

#[test]
fn should_have_relatively_unique_digests() {
    let map = assets();
    let mut outer = map.iter();
    while let Some(a) = outer.next() {
        let mut inner = map.iter();
        while let Some(b) = inner.next() {
            if a.name != b.name {
                assert_ne!(a.digest, b.digest, "Digest for {:?} vs {:?}", a, b)
            }
        }
    }
    let res = map.get("canary.html").expect("asset canary.html");

    assert_eq!(res.content_type, "text/html");
}

#[test]
fn can_fetch_assets_from_build_script_generated_file() {
    let res = assets().get("canary.html");

    assert!(res.is_some(), "Asset canary.html is present");
}

#[test]
fn smoke_should_serve_asset_content() {
    let srv = StaticService::new(assets());
    let resp = srv.call("/canary.html", None);

    assert_eq!(resp.status, Status::Success);
    let body = std::str::from_utf8(resp.body.expect("body")).expect("utf8 body");
    assert_eq!(body, "<p>Hi!</p>\n");
}

#[test]
fn should_serve_404() {
    let srv = Static::new(assets());
    let resp = srv.handle("/garbage", None);

    assert_eq!(resp.status, Status::NotFound);
}

#[test]
fn smoke_should_serve_404_when_missing() {
    let srv = StaticService::new(assets());
    let resp = srv.call("/not-an-asset", None);

    assert_eq!(resp.status, Status::NotFound);
    assert!(resp.body.is_none());
}

#[test]
fn smoke_should_serve_content_type() {
    let srv = StaticService::new(assets());
    let resp = srv.call("/canary.html", None);

    assert_eq!(resp.content_type, Some("text/html"));
}

#[test]
fn should_serve_with_revalidation() {
    let srv = Static::new(assets());
    let resp = srv.handle("/canary.html", None);
    let etag = resp.etag.expect("ETag response header");

    let resp = srv.handle("/canary.html", Some(etag.as_str()));
    assert_eq!(resp.status, Status::NotModified);
}

#[test]
fn smoke_should_serve_not_modified_with_revalidation() {
    let srv = StaticService::new(assets());
    let resp = srv.call("/canary.html", None);
    let etag = resp.etag.expect("some ETag header");

    let resp = srv.call("/canary.html", Some(etag.as_str()));
    assert_eq!(resp.status, Status::NotModified);
    assert!(resp.body.is_none());
}

#[test]
fn smoke_should_serve_content_with_etag_from_different_resource() {
    let srv = StaticService::new(assets());
    let resp = srv.call("/js/canary.js", None);
    assert_eq!(resp.status, Status::Success);
    let etag = resp.etag.expect("some ETag header");

    let resp = srv.call("/canary.html", Some(etag.as_str()));
    assert_eq!(resp.status, Status::Success);
}

#[test]
fn should_serve_nested_in_axum() {
    let routes = assets_router(assets());
    let route = routes.iter().find(|r| r.path == "/canary.html").expect("route");
    let srv = Static::new(assets());
    let request = "/static/canary.html";
    let tail = request.strip_prefix("/static").expect("mounted below /static");
    let resp = srv.handle(tail, None);

    assert_eq!(resp.status, Status::Success);
    assert_eq!(route.asset.content, b"<p>Hi!</p>\n");
    let body = std::str::from_utf8(resp.body.expect("collecting body")).expect("utf8 body");
    assert_eq!(body, "<p>Hi!</p>\n");
}
