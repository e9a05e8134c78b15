use static_assets::artifact::needs_write;
use static_assets::compile::{
    assets_of, compile, make_record, relative_name, sort_records, AssetRecord, Error, SourceFile,
};
use static_assets::etag::encode_etag;
use static_assets::map::{Asset, AssetMap};
use static_assets::respond::{respond, respond_to_asset, strip_leading_slash, Status};
use static_assets::serve::{assets_router, StaticService};
use static_assets::text::{compare_bytes, same_text, Cmp};

fn source(path: &str, content: &[u8]) -> SourceFile {
    SourceFile { path: path.to_string(), content: content.to_vec() }
}

fn record(name: &str, content: &[u8]) -> AssetRecord {
    AssetRecord {
        name: name.to_string(),
        content: content.to_vec(),
        content_type: "text/plain".to_string(),
        digest: content.to_vec(),
    }
}

fn names(records: &[AssetRecord]) -> Vec<&str> {
    records.iter().map(|r| r.name.as_str()).collect()
}

fn hex(bytes: &[u8]) -> String {
    bytes.iter().map(|b| format!("{:02x}", b)).collect()
}

fn asset<'a>(name: &'a str, content: &'a [u8], digest: &'a [u8]) -> Asset<'a> {
    Asset { name, content, content_type: "text/plain", digest }
}

#[test]
fn compare_bytes_orders_bytewise() {
    assert!(matches!(compare_bytes(b"a", b"b"), Cmp::Less));
    assert!(matches!(compare_bytes(b"b", b"a"), Cmp::Greater));
    assert!(matches!(compare_bytes(b"abc", b"abc"), Cmp::Equal));
    assert!(matches!(compare_bytes(b"ab", b"abc"), Cmp::Less));
    assert!(matches!(compare_bytes(b"", b""), Cmp::Equal));
    assert!(matches!(compare_bytes(b"Z", b"a"), Cmp::Less));
    assert!(matches!(compare_bytes(b"a.b", b"a/b"), Cmp::Less));
}

#[test]
fn same_text_compares_exactly() {
    assert!(same_text("\"abc\"", "\"abc\""));
    assert!(!same_text("\"abc\"", "\"abd\""));
    assert!(!same_text("abc", "ab"));
    assert!(same_text("", ""));
}

#[test]
fn relative_name_strips_root_and_separator() {
    assert_eq!(relative_name("/srv/assets", "/srv/assets/js/app.js"), Ok("js/app.js".to_string()));
    assert_eq!(relative_name("/srv/assets/", "/srv/assets/index.html"), Ok("index.html".to_string()));
}

#[test]
fn relative_name_rejects_files_outside_root() {
    let outside = relative_name("/srv/assets", "/srv/assets2/x.css");
    assert_eq!(
        outside,
        Err(Error::FoundFileNotInSourceDirectory(
            "/srv/assets".to_string(),
            "/srv/assets2/x.css".to_string()
        ))
    );
    assert!(relative_name("/srv/assets", "/srv/assets").is_err());
    assert!(relative_name("/srv/assets", "/srv/assets/").is_err());
    assert!(relative_name("/srv/assets", "/etc/passwd").is_err());
}

#[test]
fn make_record_guesses_type_and_digests_content() {
    let rec = make_record("/r", &source("/r/style.css", b"abc")).expect("record");
    assert_eq!(rec.name, "style.css");
    assert_eq!(rec.content, b"abc");
    assert_eq!(rec.content_type, "text/css");
    assert_eq!(hex(&rec.digest), "508c5e8c327c14e2e1a72ba34eeb452f37458b209ed63a294d999b4c86675982");

    let empty = make_record("/r", &source("/r/blob", b"")).expect("record");
    assert_eq!(empty.content_type, "application/octet-stream");
    assert_eq!(hex(&empty.digest), "69217a3079908094e11121d042354a7c1f55b6482ca1a51e1b250dfd1ed0eef9");
}

#[test]
fn sort_records_sorts_by_name_bytes() {
    let sorted = sort_records(vec![
        record("b", b"2"),
        record("a/b", b"3"),
        record("a.b", b"4"),
        record("B", b"5"),
        record("a", b"1"),
    ])
    .expect("sorted");
    assert_eq!(names(&sorted), vec!["B", "a", "a.b", "a/b", "b"]);
    assert_eq!(sorted[1].content, b"1");
}

#[test]
fn sort_records_of_nothing_is_empty() {
    assert!(sort_records(Vec::new()).expect("sorted").is_empty());
}

#[test]
fn sort_records_rejects_first_repeated_name() {
    let err = sort_records(vec![
        record("x", b"1"),
        record("y", b"2"),
        record("y", b"3"),
        record("x", b"4"),
    ]);
    assert_eq!(err.unwrap_err(), Error::DuplicatePath("y".to_string()));
}

#[test]
fn compile_reports_first_file_outside_root() {
    let files = vec![
        source("/r/a", b"1"),
        source("/r/a", b"1"),
        source("/elsewhere/b", b"2"),
    ];
    assert_eq!(
        compile("/r", &files).unwrap_err(),
        Error::FoundFileNotInSourceDirectory("/r".to_string(), "/elsewhere/b".to_string())
    );
}

#[test]
fn compile_reports_duplicate_names() {
    let files = vec![source("/r/a", b"1"), source("/r/a", b"1")];
    assert_eq!(compile("/r", &files).unwrap_err(), Error::DuplicatePath("a".to_string()));
}

#[test]
fn compile_twice_gives_identical_tables() {
    let files = vec![
        source("/r/z.txt", b"zz"),
        source("/r/index.html", b"<p>Hi!</p>\n"),
        source("/r/js/canary.js", b"console.log(\"Hi\")"),
    ];
    let first = compile("/r", &files).expect("first");
    let second = compile("/r", &files).expect("second");
    assert_eq!(names(&first), vec!["index.html", "js/canary.js", "z.txt"]);
    assert_eq!(first.len(), second.len());
    for (a, b) in first.iter().zip(second.iter()) {
        assert_eq!(a.name, b.name);
        assert_eq!(a.content, b.content);
        assert_eq!(a.content_type, b.content_type);
        assert_eq!(a.digest, b.digest);
    }
    for i in 0..first.len() {
        for j in 0..first.len() {
            if i != j {
                assert_ne!(first[i].digest, first[j].digest);
            }
        }
    }
}

#[test]
fn encode_etag_quotes_url_safe_base64() {
    assert_eq!(encode_etag(&[]), "\"\"");
    assert_eq!(encode_etag(&[0, 0, 0]), "\"AAAA\"");
    assert_eq!(encode_etag(&[0xfb, 0xff]), "\"-_8\"");
    assert_eq!(encode_etag(b"M"), "\"TQ\"");
    assert_eq!(encode_etag(b"Man"), "\"TWFu\"");
}

#[test]
fn strip_leading_slash_removes_one() {
    assert_eq!(strip_leading_slash("/a/b"), "a/b");
    assert_eq!(strip_leading_slash("//a"), "/a");
    assert_eq!(strip_leading_slash("a"), "a");
    assert_eq!(strip_leading_slash(""), "");
    assert_eq!(strip_leading_slash("/"), "");
}

#[test]
fn get_finds_each_member_and_nothing_else() {
    let members = [asset("a", b"1", b"d1"), asset("b/c", b"2", b"d2"), asset("c", b"3", b"d3")];
    let map = AssetMap { members: &members };
    assert!(map.is_well_formed());
    for m in members.iter() {
        assert_eq!(map.get(m.name).expect("member").content, m.content);
    }
    assert!(map.get("").is_none());
    assert!(map.get("b").is_none());
    assert!(map.get("d").is_none());
    assert!(map.get("/a").is_none());
}

#[test]
fn get_on_empty_map_finds_nothing() {
    let map = AssetMap { members: &[] };
    assert!(map.is_well_formed());
    assert!(map.get("").is_none());
    assert!(map.get("a").is_none());
}

#[test]
fn is_well_formed_rejects_unsorted_and_repeated_names() {
    let unsorted = [asset("b", b"", b""), asset("a", b"", b"")];
    assert!(!AssetMap { members: &unsorted }.is_well_formed());
    let repeated = [asset("a", b"", b""), asset("a", b"", b"")];
    assert!(!AssetMap { members: &repeated }.is_well_formed());
}

#[test]
fn iter_walks_in_order_then_stops() {
    let members = [asset("a", b"1", b""), asset("b", b"2", b"")];
    let map = AssetMap { members: &members };
    let mut it = map.iter();
    assert_eq!(it.next().expect("first").name, "a");
    assert_eq!(it.next().expect("second").name, "b");
    assert!(it.next().is_none());
    assert!(it.next().is_none());
    assert_eq!(map.iter().next().expect("restart").name, "a");
}

#[test]
fn respond_precedence_and_revalidation() {
    let members = [asset("a.txt", b"hello", &[0, 0, 0])];
    let map = AssetMap { members: &members };

    let missing = respond(&map, "/b.txt", Some("\"AAAA\""));
    assert_eq!(missing.status, Status::NotFound);
    assert!(missing.etag.is_none() && missing.body.is_none() && missing.content_type.is_none());

    let first = respond(&map, "/a.txt", None);
    assert_eq!(first.status, Status::Success);
    assert_eq!(first.etag.as_deref(), Some("\"AAAA\""));
    assert_eq!(first.body, Some(&b"hello"[..]));
    assert_eq!(first.content_type, Some("text/plain"));

    let again = respond(&map, "/a.txt", Some("\"AAAA\""));
    assert_eq!(again.status, Status::NotModified);
    assert!(again.body.is_none());
    assert_eq!(again.etag.as_deref(), Some("\"AAAA\""));

    let stale = respond(&map, "a.txt", Some("AAAA"));
    assert_eq!(stale.status, Status::Success);
}

#[test]
fn respond_to_asset_compares_own_etag() {
    let a = asset("a", b"x", &[0xfb, 0xff]);
    assert_eq!(respond_to_asset(&a, Some("\"-_8\"")).status, Status::NotModified);
    assert_eq!(respond_to_asset(&a, Some("\"-_9\"")).status, Status::Success);
    assert_eq!(respond_to_asset(&a, None).status, Status::Success);
}

#[test]
fn assets_router_has_a_route_per_asset() {
    let records: &'static Vec<AssetRecord> = Box::leak(Box::new(
        compile("/r", &[source("/r/canary.html", b"<p>Hi!</p>\n"), source("/r/js/canary.js", b"x")])
            .expect("compile"),
    ));
    let members = Box::leak(Box::new(assets_of(records)));
    let map: &'static AssetMap<'static> = Box::leak(Box::new(AssetMap { members: members.as_slice() }));
    let routes = assets_router(map);
    let paths: Vec<&str> = routes.iter().map(|r| r.path.as_str()).collect();
    assert_eq!(paths, vec!["/canary.html", "/js/canary.js"]);
    assert_eq!(routes[1].asset.content, b"x");

    let srv = StaticService::new(map);
    assert_eq!(srv.call("//canary.html", None).status, Status::NotFound);
    assert_eq!(srv.call("canary.html", None).status, Status::Success);
}

#[test]
fn needs_write_only_on_change() {
    assert!(needs_write(None, "x"));
    assert!(needs_write(Some("y"), "x"));
    assert!(!needs_write(Some("x"), "x"));
    assert!(!needs_write(Some(""), ""));
}
