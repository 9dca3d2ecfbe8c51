//! WebDAV listings, URLs and answers.

use conflux::error::Error;
use conflux::webdav::{
    base_url_text, creation_status, deletion_status, dirs_to, empty_collections, group_base_url,
    listing_status, nested_urls, parents_of, parse_etag, parse_http_date, parse_multistatus,
    rel_from_href, root_url, snapshot_of, transfer_status, url_for, written_id, DavEntry,
    MAX_URL_LENGTH,
};
use conflux::RelPath;

const SAMPLE: &str = r#"<?xml version="1.0"?>
    <d:multistatus xmlns:d="DAV:">
      <d:response>
        <d:href>/remote.php/dav/files/me/cfg/</d:href>
        <d:propstat><d:prop><d:resourcetype><d:collection/></d:resourcetype></d:prop></d:propstat>
      </d:response>
      <d:response>
        <d:href>/remote.php/dav/files/me/cfg/nvim/init.lua</d:href>
        <d:propstat><d:prop>
          <d:getetag>"abc123"</d:getetag>
          <d:getlastmodified>Tue, 06 Aug 2024 10:00:00 GMT</d:getlastmodified>
          <d:getcontentlength>42</d:getcontentlength>
          <d:resourcetype/>
        </d:prop></d:propstat>
      </d:response>
    </d:multistatus>"#;

#[test]
fn parses_multistatus_files_and_collections() {
    let entries = parse_multistatus(SAMPLE).unwrap();
    assert_eq!(entries.len(), 2);
    assert!(entries[0].is_collection);
    assert!(!entries[1].is_collection);
    assert_eq!(entries[1].etag.as_deref(), Some("\"abc123\""));
    assert_eq!(entries[1].content_length, Some(42));
    assert!(entries[1].last_modified.is_some());
}

#[test]
fn relativizes_href_against_base() {
    let base = "https://h/remote.php/dav/files/me/cfg/";
    let rel = rel_from_href(base, "/remote.php/dav/files/me/cfg/nvim/init.lua").unwrap();
    assert_eq!(rel.as_str(), "nvim/init.lua");
    // The base collection itself yields nothing.
    assert!(rel_from_href(base, "/remote.php/dav/files/me/cfg/").is_none());
}

#[test]
fn percent_encoded_segments_decode() {
    let base = "https://h/dav/";
    let rel = rel_from_href(base, "/dav/with%20space/a.txt").unwrap();
    assert_eq!(rel.as_str(), "with space/a.txt");
}

#[test]
fn etag_parsing_strips_weak_and_quotes() {
    assert_eq!(parse_etag("W/\"xyz\""), "xyz");
    assert_eq!(parse_etag("\"abc\""), "abc");
}

#[test]
fn group_base_url_normalizes_slashes() {
    let u = group_base_url("https://h/dav/", "/cfg/").unwrap();
    assert_eq!(u.as_str(), "https://h/dav/cfg/");
}

#[test]
fn a_listing_that_is_not_xml_is_refused() {
    assert!(matches!(
        parse_multistatus("<a></b>"),
        Err(Error::Backend(e)) if e.starts_with("invalid PROPFIND xml: ")
    ));
    assert!(matches!(
        parse_multistatus("<d:response><d:href>&nope;</d:href></d:response>"),
        Err(Error::Backend(e)) if e.starts_with("invalid xml text: ")
    ));
    assert!(parse_multistatus("").unwrap().is_empty());
}

#[test]
fn text_outside_a_response_counts_for_nothing() {
    let entries = parse_multistatus(
        "<m><href>/no</href><response><href>/a</href><other>x</other></response>tail</m>",
    )
    .unwrap();
    assert_eq!(entries.len(), 1);
    assert_eq!(entries[0].href, "/a");
    assert_eq!(entries[0].etag, None);
    assert_eq!(entries[0].content_length, None);
}

#[test]
fn escapes_in_listings_are_resolved() {
    let entries =
        parse_multistatus("<response><href>/a&amp;b</href><getcontentlength> 7 </getcontentlength></response>")
            .unwrap();
    assert_eq!(entries[0].href, "/a&b");
    assert_eq!(entries[0].content_length, Some(7));
}

#[test]
fn snapshots_hold_files_only() {
    let entries = parse_multistatus(SAMPLE).unwrap();
    let snapshot = snapshot_of("https://h/remote.php/dav/files/me/cfg/", &entries);
    assert_eq!(snapshot.len(), 1);
    let meta = snapshot.get("nvim/init.lua").unwrap();
    assert_eq!(meta.id, "abc123");
    assert_eq!(meta.size, 42);
    assert_eq!(meta.mtime, Some(1_722_938_400_000_000_000));
}

fn entry(href: &str, is_collection: bool) -> DavEntry {
    DavEntry {
        href: href.to_string(),
        is_collection,
        etag: None,
        last_modified: None,
        content_length: None,
    }
}

#[test]
fn collections_without_members_are_empty() {
    let entries = vec![
        entry("/dav/", true),
        entry("/dav/full/", true),
        entry("/dav/full/f", false),
        entry("/dav/bare/", true),
        entry("/dav/outer/", true),
        entry("/dav/outer/inner/", true),
    ];
    let dirs = empty_collections("https://h/dav/", &entries);
    assert_eq!(dirs.len(), 2);
    assert!(dirs.contains("bare"));
    assert!(dirs.contains("outer/inner"));
}

#[test]
fn dates_are_read_as_nanoseconds() {
    assert_eq!(
        parse_http_date("Tue, 06 Aug 2024 10:00:00 GMT"),
        Some(1_722_938_400_000_000_000)
    );
    assert_eq!(parse_http_date("yesterday"), None);
}

#[test]
fn urls_are_built_by_segments() {
    let base = group_base_url("https://h/dav", "cfg").unwrap();
    assert_eq!(base, "https://h/dav/cfg/");
    assert_eq!(group_base_url("https://h/dav", "").unwrap(), "https://h/dav/");
    let path = RelPath::from_relative("a b/c?d").unwrap();
    assert_eq!(url_for(&base, &path).unwrap(), "https://h/dav/cfg/a%20b/c%3Fd");
    assert_eq!(base_url_text("https://h/dav/", "/x/y/"), "https://h/dav/x/y/");
    assert_eq!(root_url("https://h/dav").unwrap(), "https://h/dav/");
    assert!(matches!(
        group_base_url("not a url", "x"),
        Err(Error::Validation(_)) | Err(Error::Backend(_))
    ));
    // A name that the notation has no character for keeps its place.
    let odd = RelPath::from_relative("a/\n/b").unwrap();
    assert_eq!(url_for(&base, &odd).unwrap(), "https://h/dav/cfg/a//b");
    assert!(matches!(
        url_for("mailto:a@b", &path),
        Err(Error::Backend(e)) if e == "base url cannot be a base"
    ));
    // What a URL was built from comes out again.
    let url = url_for(&base, &path).unwrap();
    let href = url.strip_prefix("https://h").unwrap();
    assert_eq!(rel_from_href(&base, href).unwrap().as_str(), "a b/c?d");
}

#[test]
fn parents_are_created_from_the_root_down() {
    let path = RelPath::from_relative("a/b/f.txt").unwrap();
    assert_eq!(parents_of("base/sub", &path), vec!["base", "sub", "a", "b"]);
    assert_eq!(dirs_to("", &path), vec!["a", "b", "f.txt"]);
    let root = root_url("https://h/dav/").unwrap();
    assert_eq!(
        nested_urls(&root, &parents_of("base", &path))
            .unwrap()
            .unwrap(),
        vec![
            "https://h/dav/base",
            "https://h/dav/base/a",
            "https://h/dav/base/a/b"
        ]
    );
    assert!(nested_urls("mailto:a@b", &vec!["x".to_string()]).unwrap().is_err());
    assert!(nested_urls(&root, &vec!["x".repeat(MAX_URL_LENGTH + 1)]).is_none());
}

#[test]
fn answers_of_the_server_are_told_apart() {
    assert!(matches!(listing_status(207, "207 Multi-Status"), Ok(true)));
    assert!(matches!(listing_status(404, "404 Not Found"), Ok(false)));
    assert!(matches!(
        listing_status(401, "401 Unauthorized"),
        Err(Error::Backend(e)) if e == "PROPFIND failed: 401 Unauthorized"
    ));
    assert!(transfer_status("GET", "f", 200, "200 OK").is_ok());
    assert!(matches!(
        transfer_status("GET", "f", 404, "404 Not Found"),
        Err(Error::Backend(e)) if e == "GET f failed: 404 Not Found"
    ));
    assert!(deletion_status("DELETE", "f", 404, "404 Not Found").is_ok());
    assert!(deletion_status("DELETE", "f", 423, "423 Locked").is_err());
    assert!(creation_status("d", 405, "405 Method Not Allowed").is_ok());
    assert!(creation_status("d", 301, "301 Moved Permanently").is_ok());
    assert!(matches!(
        creation_status("d", 409, "409 Conflict"),
        Err(Error::Backend(e)) if e == "MKCOL d failed: 409 Conflict"
    ));
}

#[test]
fn the_id_of_a_written_file_is_its_etag() {
    assert_eq!(written_id(Some("\"a\""), Some("\"b\"")), "a");
    assert_eq!(written_id(None, Some("W/\"b\"")), "b");
    assert_eq!(written_id(None, None), "");
}

#[test]
fn the_weak_mark_does_not_count() {
    assert_eq!(parse_etag("W/\"same\""), parse_etag("\"same\""));
}
