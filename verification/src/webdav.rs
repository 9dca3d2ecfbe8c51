//! The WebDAV backend's decisions: the URLs of a group, what a listing of the
//! server says, and what the status of a response means.
//!
//! Change detection uses the server's ETag as the remote id; `getlastmodified`
//! provides the mtime used for newer-wins conflict resolution.

use crate::dirs::{empty_dirs, has_nothing};
use crate::engine::{keys_are_paths, place, remotes_of};
use crate::error::Error;
use crate::model::{RemoteMeta, RemoteView};
use crate::relpath::{normalized, pieces, RelPath};
use crate::report::paths;
use crate::table::Table;
use crate::text::{begins, cat, cat3, cat4, chars_of, first_index, join, join_with, lemma_first_index, parse_u64,
    piece_of, read_u64, same, split, split_at_char, starts, string_of, text_opt, texts, trim, trim_end, trimmed,
    trimmed_end, Class};
use quick_xml::events::Event;
use quick_xml::Reader;
use reqwest::Url;
use vstd::prelude::*;

verus! {

// ---------------------------------------------------------------------------
// The XML of a listing
// ---------------------------------------------------------------------------

/// One step through an XML document.
#[derive(Debug)]
pub enum XmlStep {
    /// A start tag with this local name.
    Start(String),
    /// An empty-element tag with this local name.
    Empty(String),
    /// A text, unescaped; or why it cannot be.
    Text(Result<String, String>),
    /// An end tag with this local name.
    End(String),
    /// Something else.
    Other,
    /// The end of the document.
    Eof,
    /// The document is broken here.
    Broken(String),
}

/// What [`XmlStep`] says.
pub enum StepView {
    /// A start tag with this local name.
    Start(Seq<char>),
    /// An empty-element tag with this local name.
    Empty(Seq<char>),
    /// A text, unescaped; or why it cannot be.
    Text(Result<Seq<char>, Seq<char>>),
    /// An end tag with this local name.
    End(Seq<char>),
    /// Something else.
    Other,
    /// The end of the document.
    Eof,
    /// The document is broken here.
    Broken(Seq<char>),
}

impl View for XmlStep {
    type V = StepView;

    open spec fn view(&self) -> StepView {
        match self {
            XmlStep::Start(n) => StepView::Start(n@),
            XmlStep::Empty(n) => StepView::Empty(n@),
            XmlStep::Text(t) => StepView::Text(
                match t {
                    Ok(s) => Ok(s@),
                    Err(e) => Err(e@),
                },
            ),
            XmlStep::End(n) => StepView::End(n@),
            XmlStep::Other => StepView::Other,
            XmlStep::Eof => StepView::Eof,
            XmlStep::Broken(e) => StepView::Broken(e@),
        }
    }
}

/// The views of a sequence of steps.
pub open spec fn step_views(v: Seq<XmlStep>) -> Seq<StepView> {
    v.map_values(|s: XmlStep| s@)
}

/// Whether a step is the last of a document.
pub open spec fn is_last(s: StepView) -> bool {
    s is Eof || s is Broken
}

/// Whether a sequence of steps ends with its only last step.
pub open spec fn ends_once(steps: Seq<StepView>) -> bool {
    &&& steps.len() > 0
    &&& is_last(steps.last())
    &&& forall|i: int| 0 <= i < steps.len() - 1 ==> !is_last(#[trigger] steps[i])
}

/// `quick_xml::Reader`, a reader of an XML document.
#[verifier::external_type_specification]
#[verifier::external_body]
#[verifier::reject_recursive_types(R)]
pub struct ExReader<R>(quick_xml::Reader<R>);

/// The steps of a document as `quick_xml::Reader` gives them, up to the first
/// that is the last.
pub uninterp spec fn xml_steps(text: Seq<char>) -> Seq<StepView>;

/// The steps that a reader has still to give, up to the first that is the last.
pub uninterp spec fn steps_left(r: Reader<&[u8]>) -> Seq<StepView>;

/// `quick_xml::Reader::from_str`: a reader of the whole document. Every document
/// ends, or is broken somewhere.
#[verifier::external_body]
fn open_xml<'a>(text: &'a str) -> (out: Reader<&'a [u8]>)
    ensures
        steps_left(out) == xml_steps(text@),
        ends_once(steps_left(out)),
{
    Reader::from_str(text)
}

/// `quick_xml::Reader::read_event_into`: the next step, with the text of a text
/// step unescaped by `BytesText::unescape`.
#[verifier::external_body]
fn next_step(r: &mut Reader<&[u8]>) -> (out: XmlStep)
    requires
        steps_left(*old(r)).len() > 0,
    ensures
        out@ == steps_left(*old(r))[0],
        steps_left(*final(r)) == steps_left(*old(r)).skip(1),
{
    match r.read_event_into(&mut Vec::new()) {
        Ok(Event::Start(e)) => XmlStep::Start(String::from_utf8_lossy(e.local_name().as_ref()).into_owned()),
        Ok(Event::Empty(e)) => XmlStep::Empty(String::from_utf8_lossy(e.local_name().as_ref()).into_owned()),
        Ok(Event::Text(t)) => XmlStep::Text(t.unescape().map(|s| s.into_owned()).map_err(|e| e.to_string())),
        Ok(Event::End(e)) => XmlStep::End(String::from_utf8_lossy(e.local_name().as_ref()).into_owned()),
        Ok(Event::Eof) => XmlStep::Eof,
        Ok(_) => XmlStep::Other,
        Err(e) => XmlStep::Broken(e.to_string()),
    }
}

/// A resource of a listing.
#[derive(Debug)]
pub struct DavEntry {
    /// Where it is.
    pub href: String,
    /// Whether it is a collection.
    pub is_collection: bool,
    /// Its ETag, as the server writes it.
    pub etag: Option<String>,
    /// When it was last modified, as the server writes it.
    pub last_modified: Option<String>,
    /// Its size in bytes.
    pub content_length: Option<u64>,
}

/// What [`DavEntry`] says.
pub struct DavView {
    /// Where it is.
    pub href: Seq<char>,
    /// Whether it is a collection.
    pub is_collection: bool,
    /// Its ETag, as the server writes it.
    pub etag: Option<Seq<char>>,
    /// When it was last modified, as the server writes it.
    pub last_modified: Option<Seq<char>>,
    /// Its size in bytes.
    pub content_length: Option<u64>,
}

impl View for DavEntry {
    type V = DavView;

    open spec fn view(&self) -> DavView {
        DavView {
            href: self.href@,
            is_collection: self.is_collection,
            etag: text_opt(self.etag),
            last_modified: text_opt(self.last_modified),
            content_length: self.content_length,
        }
    }
}

/// The views of a sequence of entries.
pub open spec fn dav_views(v: Seq<DavEntry>) -> Seq<DavView> {
    v.map_values(|e: DavEntry| e@)
}

/// A resource of which nothing is known yet.
pub open spec fn blank_entry() -> DavView {
    DavView {
        href: ""@,
        is_collection: false,
        etag: None,
        last_modified: None,
        content_length: None,
    }
}

/// How far the reading of a listing has come: the resource under way, the tag
/// whose text comes next, and the resources before.
pub struct Progress {
    /// The resource under way.
    pub current: Option<DavView>,
    /// The local name of the last tag, or empty after an end tag.
    pub tag: Seq<char>,
    /// The resources that are complete.
    pub done: Seq<DavView>,
}

/// Nothing read yet.
pub open spec fn no_progress() -> Progress {
    Progress { current: None, tag: ""@, done: seq![] }
}

/// A resource with the collection mark.
pub open spec fn as_collection(e: DavView) -> DavView {
    DavView { is_collection: true, ..e }
}

/// A resource with the text of a tag filled in.
pub open spec fn with_text(e: DavView, tag: Seq<char>, text: Seq<char>) -> DavView {
    if tag == "href"@ {
        DavView { href: text, ..e }
    } else if tag == "getetag"@ {
        DavView { etag: Some(text), ..e }
    } else if tag == "getlastmodified"@ {
        DavView { last_modified: Some(text), ..e }
    } else if tag == "getcontentlength"@ {
        DavView { content_length: parse_u64(trim(text, Class::Space)), ..e }
    } else {
        e
    }
}

/// The progress after a step that is not the last, or what is wrong.
pub open spec fn progressed(p: Progress, step: StepView) -> Result<Progress, Seq<char>> {
    match step {
        StepView::Start(name) => Ok(
            Progress {
                current: if name == "response"@ {
                    Some(blank_entry())
                } else if name == "collection"@ && p.current is Some {
                    Some(as_collection(p.current.unwrap()))
                } else {
                    p.current
                },
                tag: name,
                done: p.done,
            },
        ),
        StepView::Empty(name) => Ok(
            Progress {
                current: if name == "collection"@ && p.current is Some {
                    Some(as_collection(p.current.unwrap()))
                } else {
                    p.current
                },
                ..p
            },
        ),
        StepView::Text(text) => match p.current {
            Some(e) => match text {
                Ok(t) => Ok(Progress { current: Some(with_text(e, p.tag, t)), ..p }),
                Err(e) => Err("invalid xml text: "@ + e),
            },
            None => Ok(p),
        },
        StepView::End(name) => Ok(
            if name == "response"@ && p.current is Some {
                Progress { current: None, tag: ""@, done: p.done.push(p.current.unwrap()) }
            } else {
                Progress { tag: ""@, ..p }
            },
        ),
        StepView::Other => Ok(p),
        StepView::Eof => Ok(p),
        StepView::Broken(e) => Err("invalid PROPFIND xml: "@ + e),
    }
}

/// The progress after the first `n` steps, or the first thing that is wrong.
pub open spec fn progress(steps: Seq<StepView>, n: int) -> Result<Progress, Seq<char>>
    decreases n,
{
    if n <= 0 {
        Ok(no_progress())
    } else {
        match progress(steps, n - 1) {
            Ok(p) => progressed(p, steps[n - 1]),
            Err(e) => Err(e),
        }
    }
}

/// The resources of a listing, or what is wrong with it.
pub open spec fn listing(steps: Seq<StepView>) -> Result<Seq<DavView>, Seq<char>> {
    match progress(steps, steps.len() as int) {
        Ok(p) => Ok(p.done),
        Err(e) => Err(e),
    }
}

/// Once something is wrong, it stays wrong.
proof fn lemma_stays_wrong(steps: Seq<StepView>, i: int, n: int)
    requires
        0 <= i <= n,
        progress(steps, i) is Err,
    ensures
        progress(steps, n) == progress(steps, i),
    decreases n - i,
{
    if i < n {
        lemma_stays_wrong(steps, i, n - 1);
    }
}

fn new_entry() -> (out: DavEntry)
    ensures
        out@ == blank_entry(),
{
    DavEntry {
        href: "".to_string(),
        is_collection: false,
        etag: None,
        last_modified: None,
        content_length: None,
    }
}

/// Fills in the text of a tag.
fn fill(entry: &mut DavEntry, tag: &str, text: &String)
    ensures
        final(entry)@ == with_text(old(entry)@, tag@, text@),
{
    proof {
        lemma_tags_differ();
    }
    if same(tag, "href") {
        entry.href = text.clone();
    } else if same(tag, "getetag") {
        entry.etag = Some(text.clone());
    } else if same(tag, "getlastmodified") {
        entry.last_modified = Some(text.clone());
    } else if same(tag, "getcontentlength") {
        let v = chars_of(text.as_str());
        let bare = trimmed(v.as_slice(), Class::Space);
        entry.content_length = read_u64(bare.as_slice());
    }
}

proof fn lemma_tags_differ()
    ensures
        "response"@ != "collection"@,
{
    reveal_strlit("response");
    reveal_strlit("collection");
    assert("response"@.len() == 8);
    assert("collection"@.len() == 10);
}

/// The view of an optional entry.
pub open spec fn entry_view(e: Option<DavEntry>) -> Option<DavView> {
    match e {
        Some(x) => Some(x@),
        None => None,
    }
}

/// Turns the steps of a listing into its resources.
pub fn read_listing(steps: &Vec<XmlStep>) -> (out: Result<Vec<DavEntry>, Error>)
    ensures
        match out {
            Ok(entries) => listing(step_views(steps@)) is Ok && dav_views(entries@) == listing(
                step_views(steps@),
            )->Ok_0,
            Err(Error::Backend(e)) => listing(step_views(steps@)) is Err && e@ == listing(
                step_views(steps@),
            )->Err_0,
            Err(_) => false,
        },
{
    let ghost views = step_views(steps@);
    let mut entries: Vec<DavEntry> = Vec::new();
    let mut current: Option<DavEntry> = None;
    let mut tag: String = "".to_string();
    let mut i: usize = 0;
    assert(dav_views(entries@) =~= Seq::<DavView>::empty());
    while i < steps.len()
        invariant
            i <= steps@.len(),
            views == step_views(steps@),
            progress(views, i as int) == Ok::<Progress, Seq<char>>(
                Progress {
                    current: entry_view(current),
                    tag: tag@,
                    done: dav_views(entries@),
                },
            ),
        decreases steps.len() - i,
    {
        assert(views[i as int] == steps@[i as int]@);
        proof {
            lemma_tags_differ();
        }
        match &steps[i] {
            XmlStep::Start(name) => {
                if same(name.as_str(), "response") {
                    current = Some(new_entry());
                } else if same(name.as_str(), "collection") {
                    current = marked(current);
                }
                tag = name.clone();
            },
            XmlStep::Empty(name) => {
                if same(name.as_str(), "collection") {
                    current = marked(current);
                }
            },
            XmlStep::Text(text) => {
                if let Some(mut entry) = current {
                    match text {
                        Ok(t) => {
                            fill(&mut entry, tag.as_str(), t);
                        },
                        Err(e) => {
                            proof {
                                lemma_stays_wrong(views, i + 1, views.len() as int);
                            }
                            return Err(Error::Backend(cat("invalid xml text: ", e.as_str())));
                        },
                    }
                    current = Some(entry);
                }
            },
            XmlStep::End(name) => {
                if same(name.as_str(), "response") {
                    if let Some(entry) = current {
                        let ghost before = entries@;
                        let ghost e = entry@;
                        entries.push(entry);
                        assert(dav_views(entries@) =~= dav_views(before).push(e));
                    }
                    current = None;
                }
                tag = "".to_string();
            },
            XmlStep::Other => {},
            XmlStep::Eof => {},
            XmlStep::Broken(e) => {
                proof {
                    lemma_stays_wrong(views, i + 1, views.len() as int);
                }
                return Err(Error::Backend(cat("invalid PROPFIND xml: ", e.as_str())));
            },
        }
        i = i + 1;
    }
    Ok(entries)
}

/// The entry with the collection mark.
fn marked(entry: Option<DavEntry>) -> (out: Option<DavEntry>)
    ensures
        entry_view(out) == (match entry {
            Some(e) => Some(as_collection(e@)),
            None => None,
        }),
{
    match entry {
        Some(mut e) => {
            e.is_collection = true;
            Some(e)
        },
        None => None,
    }
}

/// Parse a WebDAV 207 Multistatus body into per-resource entries.
pub fn parse_multistatus(xml: &str) -> (out: Result<Vec<DavEntry>, Error>)
    ensures
        match out {
            Ok(entries) => listing(xml_steps(xml@)) is Ok && dav_views(entries@) == listing(
                xml_steps(xml@),
            )->Ok_0,
            Err(Error::Backend(e)) => listing(xml_steps(xml@)) is Err && e@ == listing(
                xml_steps(xml@),
            )->Err_0,
            Err(_) => false,
        },
{
    let mut reader = open_xml(xml);
    let mut steps: Vec<XmlStep> = Vec::new();
    let ghost all = xml_steps(xml@);
    let mut over = false;
    assert(all.skip(0) =~= all);
    while !over
        invariant
            all == xml_steps(xml@),
            ends_once(all),
            steps@.len() <= all.len(),
            step_views(steps@) == all.take(steps@.len() as int),
            steps_left(reader) == all.skip(steps@.len() as int),
            over == (steps@.len() == all.len()),
        decreases all.len() - steps@.len(),
    {
        let ghost n = steps@.len() as int;
        let ghost before = steps@;
        let step = next_step(&mut reader);
        let ghost s = step@;
        assert(s == all[n]);
        over = match &step {
            XmlStep::Eof => true,
            XmlStep::Broken(_) => true,
            _ => false,
        };
        steps.push(step);
        proof {
            assert(all.take(n + 1) =~= all.take(n).push(s));
            assert(step_views(steps@) =~= step_views(before).push(s));
            assert(all.skip(n).skip(1) =~= all.skip(n + 1));
            if over && n + 1 < all.len() {
                assert(!is_last(all[n]));
            }
            if !over && n + 1 == all.len() {
                assert(all.last() == all[n]);
            }
        }
    }
    assert(all.take(all.len() as int) =~= all);
    read_listing(&steps)
}

/// Strip a weak prefix and surrounding quotes from an ETag.
pub open spec fn bare_etag(raw: Seq<char>) -> Seq<char> {
    trim(without_weak(trim(raw, Class::Space)), Class::Quote)
}

/// A text without the `W/` marks at its start.
pub open spec fn without_weak(s: Seq<char>) -> Seq<char>
    decreases s.len(),
{
    if s.len() >= 2 && s[0] == 'W' && s[1] == '/' {
        without_weak(s.skip(2))
    } else {
        s
    }
}

/// Strip a weak prefix and surrounding quotes from an ETag.
pub fn parse_etag(raw: &str) -> (out: String)
    ensures
        out@ == bare_etag(raw@),
{
    let v = chars_of(raw);
    let t = trimmed(v.as_slice(), Class::Space);
    let mut i: usize = 0;
    assert(t@.skip(0) =~= t@);
    let total: usize = t.len();
    while total - i >= 2 && t[i] == 'W' && t[i + 1] == '/'
        invariant
            i <= t@.len(),
            total == t@.len(),
            without_weak(t@.skip(i as int)) == without_weak(t@),
        decreases total - i,
    {
        assert(t@.skip(i as int)[0] == t@[i as int]);
        assert(t@.skip(i as int)[1] == t@[i + 1]);
        assert(t@.skip(i as int).skip(2) =~= t@.skip(i + 2));
        i = i + 2;
    }
    let rest = piece_of(t.as_slice(), i, t.len());
    proof {
        assert(rest@ =~= t@.skip(i as int));
        if rest@.len() >= 2 {
            assert(rest@[0] == t@[i as int] && rest@[1] == t@[i + 1]);
        }
    }
    string_of(trimmed(rest.as_slice(), Class::Quote).as_slice())
}

// ---------------------------------------------------------------------------
// URLs
// ---------------------------------------------------------------------------

/// The URL that `Url::parse` makes of a text, written out; or its complaint.
pub uninterp spec fn url_parsed(text: Seq<char>) -> Result<Seq<char>, Seq<char>>;

/// The URL that `Url::join` makes of a base and a reference, written out, if both
/// are valid.
pub uninterp spec fn url_joined(base: Seq<char>, reference: Seq<char>) -> Option<Seq<char>>;

/// The path of a URL, as `Url::path` gives it; `None` if the text is no URL.
pub uninterp spec fn url_path(url: Seq<char>) -> Option<Seq<char>>;

/// The URL with segments appended by `PathSegmentsMut::extend`, after dropping an
/// empty last segment once; `None` if the text is no URL that can be a base.
pub uninterp spec fn url_with_segments(url: Seq<char>, segments: Seq<Seq<char>>) -> Option<
    Seq<char>,
>;

/// What `percent_decode_str` and `decode_utf8_lossy` make of a text.
pub uninterp spec fn percent_decoded(text: Seq<char>) -> Seq<char>;

/// The time that `httpdate::parse_http_date` reads in a text, in nanoseconds since
/// the epoch.
pub uninterp spec fn http_date(text: Seq<char>) -> Option<i128>;

/// `reqwest::Url::parse`: the URL that a text stands for, written out.
#[verifier::external_body]
fn parse_url(text: &str) -> (out: Result<String, String>)
    ensures
        match out {
            Ok(url) => url_parsed(text@) is Ok && url_parsed(text@)->Ok_0 == url@,
            Err(e) => url_parsed(text@) is Err && url_parsed(text@)->Err_0 == e@,
        },
{
    match Url::parse(text) {
        Ok(url) => Ok(url.to_string()),
        Err(e) => Err(e.to_string()),
    }
}

/// `reqwest::Url::join`: a reference resolved against a base, written out.
#[verifier::external_body]
fn join_url(base: &str, reference: &str) -> (out: Option<String>)
    ensures
        text_opt(out) == url_joined(base@, reference@),
{
    Some(Url::parse(base).ok()?.join(reference).ok()?.to_string())
}

/// `reqwest::Url::path`: the path of a URL.
#[verifier::external_body]
fn path_of_url(url: &str) -> (out: Option<String>)
    ensures
        text_opt(out) == url_path(url@),
{
    Some(Url::parse(url).ok()?.path().to_string())
}

/// The most characters of a URL that segments are appended to, and of the segments.
/// Written out, a URL has to stay far below the four thousand million bytes that its
/// type can hold.
pub const MAX_URL_LENGTH: usize = 0x40_0000;

/// How many characters a list of segments has in all, and one for each segment.
pub open spec fn segments_size(segments: Seq<Seq<char>>) -> nat
    decreases segments.len(),
{
    if segments.len() == 0 {
        0
    } else {
        segments_size(segments.drop_last()) + segments.last().len() + 1
    }
}

/// `reqwest::Url::path_segments_mut`, `pop_if_empty` and `extend`: the URL with
/// segments appended, each of them percent-encoded.
#[verifier::external_body]
fn extend_url(url: &str, segments: &Vec<String>) -> (out: Option<String>)
    requires
        url@.len() <= MAX_URL_LENGTH,
        segments_size(texts(segments@)) <= MAX_URL_LENGTH + 1,
    ensures
        text_opt(out) == url_with_segments(url@, texts(segments@)),
{
    let mut parsed = Url::parse(url).ok()?;
    parsed.path_segments_mut().ok()?.pop_if_empty().extend(segments);
    Some(parsed.to_string())
}

/// `percent_encoding::percent_decode_str` and `decode_utf8_lossy`: the text with
/// its percent escapes decoded. A text without `%` has none.
#[verifier::external_body]
fn percent_decode(text: &str) -> (out: String)
    ensures
        out@ == percent_decoded(text@),
        !text@.contains('%') ==> out@ == text@,
{
    percent_encoding::percent_decode_str(text).decode_utf8_lossy().into_owned()
}

/// `httpdate::parse_http_date`: the time that an HTTP date stands for.
#[verifier::external_body]
fn read_http_date(text: &str) -> (out: Option<i128>)
    ensures
        out == http_date(text@),
{
    let time = httpdate::parse_http_date(text).ok()?;
    let since = time.duration_since(std::time::UNIX_EPOCH).ok()?;
    Some(since.as_nanos() as i128)
}

/// Parse an HTTP date, in nanoseconds since the epoch.
pub fn parse_http_date(raw: &str) -> (out: Option<i128>)
    ensures
        out == http_date(raw@),
{
    read_http_date(raw)
}

/// The text of the server root URL, with a trailing slash.
pub open spec fn root_text(remote_url: Seq<char>) -> Seq<char> {
    trim_end(remote_url, Class::Slash) + "/"@
}

/// The text of the group base URL, with a trailing slash.
pub open spec fn base_text(remote_url: Seq<char>, remote_path: Seq<char>) -> Seq<char> {
    let base = trim_end(remote_url, Class::Slash);
    let path = trim(remote_path, Class::Slash);
    if path.len() == 0 {
        base + "/"@
    } else {
        base + "/"@ + path + "/"@
    }
}

/// The URL that a text stands for, or a complaint about it.
fn checked_url(text: &str) -> (out: Result<String, Error>)
    ensures
        match out {
            Ok(url) => url_parsed(text@) is Ok && url_parsed(text@)->Ok_0 == url@,
            Err(Error::Backend(e)) => url_parsed(text@) is Err && e@ == "invalid webdav url `"@
                + text@ + "`: "@ + url_parsed(text@)->Err_0,
            Err(_) => false,
        },
{
    match parse_url(text) {
        Ok(url) => Ok(url),
        Err(e) => Err(Error::Backend(cat4("invalid webdav url `", text, "`: ", e.as_str()))),
    }
}

/// The server root URL with a guaranteed trailing slash.
pub fn root_url(remote_url: &str) -> (out: Result<String, Error>)
    ensures
        match out {
            Ok(url) => url_parsed(root_text(remote_url@)) is Ok && url_parsed(
                root_text(remote_url@),
            )->Ok_0 == url@,
            Err(Error::Backend(e)) => url_parsed(root_text(remote_url@)) is Err && e@
                == "invalid webdav url `"@ + root_text(remote_url@) + "`: "@ + url_parsed(
                root_text(remote_url@),
            )->Err_0,
            Err(_) => false,
        },
{
    let v = chars_of(remote_url);
    let base = string_of(trimmed_end(v.as_slice(), Class::Slash).as_slice());
    let text = cat(base.as_str(), "/");
    checked_url(text.as_str())
}

/// The text of the group base URL: `<remote.url>/<remote_path>/`.
pub fn base_url_text(remote_url: &str, remote_path: &str) -> (out: String)
    ensures
        out@ == base_text(remote_url@, remote_path@),
{
    let v = chars_of(remote_url);
    let base = string_of(trimmed_end(v.as_slice(), Class::Slash).as_slice());
    let w = chars_of(remote_path);
    let path = trimmed(w.as_slice(), Class::Slash);
    if path.len() == 0 {
        cat(base.as_str(), "/")
    } else {
        cat4(base.as_str(), "/", string_of(path.as_slice()).as_str(), "/")
    }
}

/// Build the group base URL: `<remote.url>/<remote_path>/` (always trailing slash).
pub fn group_base_url(remote_url: &str, remote_path: &str) -> (out: Result<String, Error>)
    ensures
        match out {
            Ok(url) => url_parsed(base_text(remote_url@, remote_path@)) is Ok && url_parsed(
                base_text(remote_url@, remote_path@),
            )->Ok_0 == url@,
            Err(Error::Backend(e)) => url_parsed(base_text(remote_url@, remote_path@)) is Err && e@
                == "invalid webdav url `"@ + base_text(remote_url@, remote_path@) + "`: "@
                + url_parsed(base_text(remote_url@, remote_path@))->Err_0,
            Err(_) => false,
        },
{
    let text = base_url_text(remote_url, remote_path);
    checked_url(text.as_str())
}

/// The URL with a list of segments appended one by one, if it can be a base. An empty
/// last segment is dropped before each of them.
pub open spec fn nested_url(url: Seq<char>, segments: Seq<Seq<char>>) -> Option<Seq<char>>
    decreases segments.len(),
{
    if segments.len() == 0 {
        Some(url)
    } else {
        match nested_url(url, segments.drop_last()) {
            Some(u) => url_with_segments(u, seq![segments.last()]),
            None => None,
        }
    }
}

/// Whether the segment at index `i`, or the URL that it is to be appended to, is too
/// long.
pub open spec fn is_too_long(url: Seq<char>, segments: Seq<Seq<char>>, i: int) -> bool {
    nested_url(url, segments.take(i)) matches Some(u) && (u.len() > MAX_URL_LENGTH
        || segments[i].len() > MAX_URL_LENGTH)
}

/// The complaint about a URL that segments cannot be appended to.
fn not_a_base() -> (out: Error)
    ensures
        out matches Error::Backend(e) && e@ == "base url cannot be a base"@,
{
    Error::Backend("base url cannot be a base".to_string())
}

/// The URLs that come about when a list of segments is appended to a URL one by
/// one; `None` if one of them is too long for that.
pub fn nested_urls(url: &str, segments: &Vec<String>) -> (out: Option<Result<Vec<String>, Error>>)
    ensures
        match out {
            Some(Ok(urls)) => urls@.len() == segments@.len() && forall|i: int|
                0 <= i < urls@.len() ==> nested_url(url@, texts(segments@).take(i + 1)) == Some(
                    (#[trigger] urls@[i])@,
                ),
            Some(Err(Error::Backend(e))) => e@ == "base url cannot be a base"@ && nested_url(
                url@,
                texts(segments@),
            ) is None,
            Some(Err(_)) => false,
            None => true,
        },
        out is None <==> exists|i: int|
            0 <= i < segments@.len() && #[trigger] is_too_long(url@, texts(segments@), i),
{
    let ghost names = texts(segments@);
    let mut out: Vec<String> = Vec::new();
    let mut at = url.to_string();
    let mut i: usize = 0;
    assert(names.take(0) =~= Seq::<Seq<char>>::empty());
    while i < segments.len()
        invariant
            i <= segments@.len(),
            names == texts(segments@),
            out@.len() == i,
            nested_url(url@, names.take(i as int)) == Some(at@),
            forall|j: int|
                0 <= j < i ==> nested_url(url@, names.take(j + 1)) == Some((#[trigger] out@[j])@),
            forall|j: int| 0 <= j < i ==> !#[trigger] is_too_long(url@, names, j),
        decreases segments.len() - i,
    {
        proof {
            assert(names[i as int] == segments@[i as int]@);
            assert(names.take(i + 1).drop_last() =~= names.take(i as int));
            assert(names.take(i + 1).last() == names[i as int]);
        }
        if chars_of(at.as_str()).len() > MAX_URL_LENGTH || chars_of(segments[i].as_str()).len()
            > MAX_URL_LENGTH {
            assert(is_too_long(url@, names, i as int));
            return None;
        }
        let one = vec![segments[i].clone()];
        proof {
            assert(texts(one@) =~= seq![names[i as int]]);
            assert(texts(one@).drop_last() =~= Seq::<Seq<char>>::empty());
            assert(segments_size(texts(one@).drop_last()) == 0);
            assert(!is_too_long(url@, names, i as int));
        }
        match extend_url(at.as_str(), &one) {
            Some(next) => {
                at = next.clone();
                out.push(next);
            },
            None => {
                proof {
                    assert forall|j: int| i < j < names.len() implies !#[trigger] is_too_long(
                        url@,
                        names,
                        j,
                    ) by {
                        assert(names.take(j).take(i + 1) =~= names.take(i + 1));
                        lemma_url_stays_none(url@, names.take(j), i + 1);
                    }
                    lemma_url_stays_none(url@, names, i + 1);
                }
                return Some(Err(not_a_base()));
            },
        }
        i = i + 1;
    }
    Some(Ok(out))
}

proof fn lemma_url_stays_none(url: Seq<char>, names: Seq<Seq<char>>, n: int)
    requires
        0 <= n <= names.len(),
        nested_url(url, names.take(n)) is None,
    ensures
        nested_url(url, names) is None,
    decreases names.len() - n,
{
    if n == names.len() {
        assert(names.take(n) =~= names);
    } else {
        assert(names.take(n + 1).drop_last() =~= names.take(n));
        lemma_url_stays_none(url, names, n + 1);
    }
}

/// The segments of a text between slashes, without the empty ones.
pub open spec fn filled(parts: Seq<Seq<char>>) -> Seq<Seq<char>>
    decreases parts.len(),
{
    if parts.len() == 0 {
        seq![]
    } else if parts.last().len() == 0 {
        filled(parts.drop_last())
    } else {
        filled(parts.drop_last()).push(parts.last())
    }
}

/// The segments of a text between slashes, without the empty ones.
fn segments_of(text: &str) -> (out: Vec<String>)
    ensures
        texts(out@) == filled(split(text@, '/')),
{
    let v = chars_of(text);
    let parts = split_at_char(v.as_slice(), '/');
    let ghost ps = pieces(parts@);
    let mut out: Vec<String> = Vec::new();
    let mut i: usize = 0;
    assert(ps.take(0) =~= Seq::<Seq<char>>::empty());
    assert(texts(out@) =~= Seq::<Seq<char>>::empty());
    while i < parts.len()
        invariant
            i <= parts@.len(),
            ps == pieces(parts@),
            texts(out@) == filled(ps.take(i as int)),
        decreases parts.len() - i,
    {
        let ghost before = out@;
        proof {
            assert(ps[i as int] == parts@[i as int]@);
            assert(ps.take(i + 1).drop_last() =~= ps.take(i as int));
            assert(ps.take(i + 1).last() == ps[i as int]);
        }
        if parts[i].len() > 0 {
            let part = string_of(parts[i].as_slice());
            let ghost p = part@;
            out.push(part);
            assert(texts(out@) =~= texts(before).push(p));
        }
        i = i + 1;
    }
    assert(ps.take(ps.len() as int) =~= ps);
    out
}

/// The segments of a text have no more characters than the text.
proof fn lemma_split_size(s: Seq<char>)
    ensures
        segments_size(split(s, '/')) == s.len() + 1,
    decreases s.len(),
{
    let i = first_index(s, '/');
    lemma_first_index(s, '/');
    if i < s.len() {
        let rest = split(s.skip(i + 1), '/');
        lemma_split_size(s.skip(i + 1));
        lemma_size_front(s.take(i), rest);
    } else {
        assert(split(s, '/').drop_last() =~= Seq::<Seq<char>>::empty());
        assert(segments_size(split(s, '/').drop_last()) == 0);
    }
}

proof fn lemma_size_front(first: Seq<char>, rest: Seq<Seq<char>>)
    ensures
        segments_size(seq![first] + rest) == first.len() + 1 + segments_size(rest),
    decreases rest.len(),
{
    let all = seq![first] + rest;
    if rest.len() == 0 {
        assert(all.drop_last() =~= Seq::<Seq<char>>::empty());
        assert(segments_size(all.drop_last()) == 0);
    } else {
        assert(all.drop_last() =~= seq![first] + rest.drop_last());
        lemma_size_front(first, rest.drop_last());
    }
}

proof fn lemma_filled_size(parts: Seq<Seq<char>>)
    ensures
        segments_size(filled(parts)) <= segments_size(parts),
    decreases parts.len(),
{
    if parts.len() > 0 {
        lemma_filled_size(parts.drop_last());
        if parts.last().len() > 0 {
            assert(filled(parts).drop_last() =~= filled(parts.drop_last()));
        }
    }
}

/// URL for a file relative to the group base, percent-encoding each segment.
pub fn url_for(base: &str, path: &RelPath) -> (out: Result<String, Error>)
    requires
        base@.len() <= MAX_URL_LENGTH,
        path@.len() <= MAX_URL_LENGTH,
    ensures
        match out {
            Ok(url) => url_with_segments(base@, filled(split(path@, '/'))) == Some(url@),
            Err(Error::Backend(e)) => e@ == "base url cannot be a base"@ && url_with_segments(
                base@,
                filled(split(path@, '/')),
            ) is None,
            Err(_) => false,
        },
{
    let segments = segments_of(path.as_str());
    proof {
        lemma_split_size(path@);
        lemma_filled_size(split(path@, '/'));
    }
    match extend_url(base, &segments) {
        Some(url) => Ok(url),
        None => Err(not_a_base()),
    }
}

/// The collections that hold a file, from the server root down: the segments of
/// the remote path, then the directories of the file.
pub open spec fn parent_segments(remote_path: Seq<char>, path: Seq<char>) -> Seq<Seq<char>> {
    filled(split(remote_path, '/')) + filled(split(path, '/')).drop_last()
}

/// The collections on the way to a directory, from the server root down.
pub open spec fn dir_segments(remote_path: Seq<char>, path: Seq<char>) -> Seq<Seq<char>> {
    filled(split(remote_path, '/')) + filled(split(path, '/'))
}

/// A list of texts followed by another.
fn append(out: &mut Vec<String>, more: Vec<String>)
    ensures
        texts(final(out)@) == texts(old(out)@) + texts(more@),
{
    let ghost start = texts(out@);
    let mut i: usize = 0;
    assert(texts(out@) =~= start + texts(more@).take(0));
    while i < more.len()
        invariant
            i <= more@.len(),
            texts(out@) == start + texts(more@).take(i as int),
        decreases more.len() - i,
    {
        let ghost before = out@;
        out.push(more[i].clone());
        assert(texts(out@) =~= texts(before).push(more@[i as int]@));
        assert(texts(more@).take(i + 1) =~= texts(more@).take(i as int).push(more@[i as int]@));
        assert(texts(out@) =~= start + texts(more@).take(i + 1));
        i = i + 1;
    }
    assert(texts(more@).take(more@.len() as int) =~= texts(more@));
}

/// The collections on the way to a directory, from the server root down. Creating
/// them in this order guarantees that each one's parent already exists.
pub fn dirs_to(remote_path: &str, dir: &RelPath) -> (out: Vec<String>)
    ensures
        texts(out@) == dir_segments(remote_path@, dir@),
{
    let mut out = segments_of(remote_path);
    let more = segments_of(dir.as_str());
    append(&mut out, more);
    out
}

/// The collections that hold a file, from the server root down.
pub fn parents_of(remote_path: &str, path: &RelPath) -> (out: Vec<String>)
    ensures
        texts(out@) == parent_segments(remote_path@, path@),
{
    let mut out = segments_of(remote_path);
    let mut more = segments_of(path.as_str());
    proof {
        lemma_filled_path(path@);
    }
    let ghost all = more@;
    let last = more.pop();
    assert(texts(more@) =~= texts(all).drop_last());
    append(&mut out, more);
    out
}

/// A text always has a segment, if only an empty one.
proof fn lemma_filled_path(path: Seq<char>)
    ensures
        split(path, '/').len() >= 1,
{
    crate::text::lemma_split(path, '/');
}

// ---------------------------------------------------------------------------
// Paths of resources
// ---------------------------------------------------------------------------

/// Each text of a list with its percent escapes decoded.
pub open spec fn decoded(segments: Seq<Seq<char>>) -> Seq<Seq<char>> {
    segments.map_values(|s: Seq<char>| percent_decoded(s))
}

/// The path that decoded segments make up: none if there are none, or if they
/// lead out of the group.
pub open spec fn path_from(segments: Seq<Seq<char>>) -> Option<Seq<char>> {
    if segments.len() == 0 {
        None
    } else {
        normalized(join(segments, '/'))
    }
}

/// The path of a resource relative to the group base, from the paths of both URLs.
pub open spec fn path_between(base_path: Seq<char>, path: Seq<char>) -> Option<Seq<char>> {
    if begins(path, base_path) {
        path_from(decoded(filled(split(path.skip(base_path.len() as int), '/'))))
    } else {
        None
    }
}

/// The path of a resource relative to the group base, from the base URL and the
/// reference that the server gives.
pub open spec fn path_of_href(base: Seq<char>, href: Seq<char>) -> Option<Seq<char>> {
    match (url_path(base), url_joined(base, href)) {
        (Some(base_path), Some(abs)) => match url_path(abs) {
            Some(path) => path_between(base_path, path),
            None => None,
        },
        _ => None,
    }
}

/// The view of an optional path.
pub open spec fn path_opt(p: Option<RelPath>) -> Option<Seq<char>> {
    match p {
        Some(x) => Some(x@),
        None => None,
    }
}

/// The path that decoded segments make up.
pub fn rel_from_segments(segments: &Vec<String>) -> (out: Option<RelPath>)
    ensures
        path_opt(out) == path_from(texts(segments@)),
{
    if segments.len() == 0 {
        assert(texts(segments@).len() == 0);
        return None;
    }
    let mut parts: Vec<Vec<char>> = Vec::new();
    let mut i: usize = 0;
    while i < segments.len()
        invariant
            i <= segments@.len(),
            pieces(parts@) == texts(segments@).take(i as int),
        decreases segments.len() - i,
    {
        let ghost before = parts@;
        let part = chars_of(segments[i].as_str());
        let ghost p = part@;
        parts.push(part);
        assert(pieces(parts@) =~= pieces(before).push(p));
        assert(texts(segments@).take(i + 1) =~= texts(segments@).take(i as int).push(p));
        i = i + 1;
    }
    assert(texts(segments@).take(segments@.len() as int) =~= texts(segments@));
    let text = join_with(&parts, '/');
    RelPath::from_relative(string_of(text.as_slice()).as_str())
}

/// The path of a resource relative to the group base, from the paths of both URLs.
pub fn rel_between(base_path: &str, path: &str) -> (out: Option<RelPath>)
    ensures
        path_opt(out) == path_between(base_path@, path@),
{
    let b = chars_of(base_path);
    let p = chars_of(path);
    if !starts(p.as_slice(), b.as_slice()) {
        return None;
    }
    let rest = piece_of(p.as_slice(), b.len(), p.len());
    assert(rest@ =~= path@.skip(base_path@.len() as int));
    let raw = segments_of(string_of(rest.as_slice()).as_str());
    let ghost encoded = texts(raw@);
    let mut segments: Vec<String> = Vec::new();
    let mut i: usize = 0;
    while i < raw.len()
        invariant
            i <= raw@.len(),
            encoded == texts(raw@),
            texts(segments@) == decoded(encoded.take(i as int)),
        decreases raw.len() - i,
    {
        let ghost before = segments@;
        let segment = percent_decode(raw[i].as_str());
        let ghost t = segment@;
        assert(encoded[i as int] == raw@[i as int]@);
        segments.push(segment);
        assert(texts(segments@) =~= texts(before).push(t));
        assert(decoded(encoded.take(i + 1)) =~= decoded(encoded.take(i as int)).push(t));
        i = i + 1;
    }
    assert(encoded.take(encoded.len() as int) =~= encoded);
    rel_from_segments(&segments)
}

/// Derive a `RelPath` from a multistatus `href` relative to the base URL.
pub fn rel_from_href(base: &str, href: &str) -> (out: Option<RelPath>)
    ensures
        path_opt(out) == path_of_href(base@, href@),
{
    match (path_of_url(base), join_url(base, href)) {
        (Some(base_path), Some(abs)) => match path_of_url(abs.as_str()) {
            Some(path) => rel_between(base_path.as_str(), path.as_str()),
            None => None,
        },
        _ => None,
    }
}

// ---------------------------------------------------------------------------
// Snapshots
// ---------------------------------------------------------------------------

/// What a listing says of a file: its ETag is the change id.
pub open spec fn meta_of(e: DavView) -> RemoteView {
    RemoteView {
        id: match e.etag {
            Some(t) => bare_etag(t),
            None => ""@,
        },
        mtime: match e.last_modified {
            Some(t) => http_date(t),
            None => None,
        },
        size: match e.content_length {
            Some(n) => n as int,
            None => 0,
        },
    }
}

/// The files of a listing, keyed by their path relative to the base URL.
pub open spec fn files_in(base: Seq<char>, entries: Seq<DavView>) -> Map<Seq<char>, RemoteView>
    decreases entries.len(),
{
    if entries.len() == 0 {
        Map::empty()
    } else {
        let front = files_in(base, entries.drop_last());
        let e = entries.last();
        match path_of_href(base, e.href) {
            Some(path) => if e.is_collection {
                front
            } else {
                front.insert(path, meta_of(e))
            },
            None => front,
        }
    }
}

/// What a listing says of a file.
fn meta(e: &DavEntry) -> (out: RemoteMeta)
    ensures
        out@ == meta_of(e@),
{
    let id = match &e.etag {
        Some(t) => parse_etag(t.as_str()),
        None => "".to_string(),
    };
    let mtime = match &e.last_modified {
        Some(t) => parse_http_date(t.as_str()),
        None => None,
    };
    let size: u64 = match e.content_length {
        Some(n) => n,
        None => 0,
    };
    RemoteMeta { id, mtime, size }
}

/// The files of a listing, keyed by their path relative to the base URL.
pub fn snapshot_of(base: &str, entries: &Vec<DavEntry>) -> (out: Table<RemoteMeta>)
    ensures
        out.wf(),
        keys_are_paths(out),
        remotes_of(out) == files_in(base@, dav_views(entries@)),
{
    let ghost views = dav_views(entries@);
    let mut out: Table<RemoteMeta> = Table::new();
    let mut i: usize = 0;
    assert(views.take(0) =~= Seq::<DavView>::empty());
    assert(remotes_of(out) =~= Map::<Seq<char>, RemoteView>::empty());
    while i < entries.len()
        invariant
            i <= entries@.len(),
            views == dav_views(entries@),
            out.wf(),
            keys_are_paths(out),
            remotes_of(out) == files_in(base@, views.take(i as int)),
        decreases entries.len() - i,
    {
        let e = &entries[i];
        let ghost before = out@;
        proof {
            assert(views[i as int] == e@);
            assert(views.take(i + 1).drop_last() =~= views.take(i as int));
            assert(views.take(i + 1).last() == e@);
        }
        if !e.is_collection {
            match rel_from_href(base, e.href.as_str()) {
                Some(path) => {
                    let m = meta(e);
                    let ghost mv = m;
                    place(&mut out, &path, m);
                    assert(remotes_of(out) =~= before.map_values(|m: RemoteMeta| m@).insert(
                        path@,
                        mv@,
                    ));
                },
                None => {},
            }
        }
        i = i + 1;
    }
    assert(views.take(views.len() as int) =~= views);
    out
}

/// The paths of the resources of a listing, or of its collections alone.
pub open spec fn paths_in(base: Seq<char>, entries: Seq<DavView>, collections: bool) -> Seq<
    Seq<char>,
>
    decreases entries.len(),
{
    if entries.len() == 0 {
        seq![]
    } else {
        let front = paths_in(base, entries.drop_last(), collections);
        let e = entries.last();
        match path_of_href(base, e.href) {
            Some(path) => if e.is_collection || !collections {
                front.push(path)
            } else {
                front
            },
            None => front,
        }
    }
}

/// The paths of the resources of a listing, or of its collections alone.
fn list_paths(base: &str, entries: &Vec<DavEntry>, collections: bool) -> (out: Vec<RelPath>)
    ensures
        paths(out@) == paths_in(base@, dav_views(entries@), collections),
{
    let ghost views = dav_views(entries@);
    let mut out: Vec<RelPath> = Vec::new();
    let mut i: usize = 0;
    assert(views.take(0) =~= Seq::<DavView>::empty());
    assert(paths(out@) =~= Seq::<Seq<char>>::empty());
    while i < entries.len()
        invariant
            i <= entries@.len(),
            views == dav_views(entries@),
            paths(out@) == paths_in(base@, views.take(i as int), collections),
        decreases entries.len() - i,
    {
        let e = &entries[i];
        let ghost before = out@;
        proof {
            assert(views[i as int] == e@);
            assert(views.take(i + 1).drop_last() =~= views.take(i as int));
            assert(views.take(i + 1).last() == e@);
        }
        match rel_from_href(base, e.href.as_str()) {
            Some(path) => {
                if e.is_collection || !collections {
                    let ghost p = path@;
                    out.push(path);
                    assert(paths(out@) =~= paths(before).push(p));
                }
            },
            None => {},
        }
        i = i + 1;
    }
    assert(views.take(views.len() as int) =~= views);
    out
}

/// The empty collections of a listing: those under which no other resource lies.
pub fn empty_collections(base: &str, entries: &Vec<DavEntry>) -> (out: Table<()>)
    ensures
        out.wf(),
        keys_are_paths(out),
        forall|d: Seq<char>| #[trigger]
            out@.dom().contains(d) <==> paths_in(base@, dav_views(entries@), true).contains(d)
                && has_nothing(d, paths_in(base@, dav_views(entries@), false)),
{
    let dirs = list_paths(base, entries, true);
    let all = list_paths(base, entries, false);
    empty_dirs(&dirs, &all)
}

// ---------------------------------------------------------------------------
// Responses
// ---------------------------------------------------------------------------

/// Whether a status means success.
pub open spec fn is_success(status: u16) -> bool {
    200 <= status <= 299
}

/// What to do with the response to a listing request: read it (`true`), or treat
/// the directory as empty because it does not exist yet (`false`).
pub fn listing_status(status: u16, text: &str) -> (out: Result<bool, Error>)
    ensures
        match out {
            Ok(read) => (status == 404 && !read) || (status != 404 && is_success(status) && read),
            Err(Error::Backend(e)) => status != 404 && !is_success(status) && e@
                == "PROPFIND failed: "@ + text@,
            Err(_) => false,
        },
{
    if status == 404 {
        Ok(false)
    } else if 200 <= status && status <= 299 {
        Ok(true)
    } else {
        Err(Error::Backend(cat("PROPFIND failed: ", text)))
    }
}

/// Whether a request for a path succeeded; `method` is named in the error.
pub fn transfer_status(method: &str, path: &str, status: u16, text: &str) -> (out: Result<
    (),
    Error,
>)
    ensures
        match out {
            Ok(_) => is_success(status),
            Err(Error::Backend(e)) => !is_success(status) && e@ == method@ + " "@ + path@
                + " failed: "@ + text@,
            Err(_) => false,
        },
{
    if 200 <= status && status <= 299 {
        Ok(())
    } else {
        let start = cat3(method, " ", path);
        Err(Error::Backend(cat3(start.as_str(), " failed: ", text)))
    }
}

/// Whether the resource is gone after a deletion: it succeeded, or there was
/// nothing to delete. `method` is named in the error.
pub fn deletion_status(method: &str, path: &str, status: u16, text: &str) -> (out: Result<
    (),
    Error,
>)
    ensures
        match out {
            Ok(_) => is_success(status) || status == 404,
            Err(Error::Backend(e)) => !is_success(status) && status != 404 && e@ == method@ + " "@
                + path@ + " failed: "@ + text@,
            Err(_) => false,
        },
{
    if status == 404 {
        Ok(())
    } else {
        transfer_status(method, path, status, text)
    }
}

/// Whether the collection exists after a creation: it was created, or it existed
/// already (405 and 301).
pub fn creation_status(path: &str, status: u16, text: &str) -> (out: Result<(), Error>)
    ensures
        match out {
            Ok(_) => is_success(status) || status == 405 || status == 301,
            Err(Error::Backend(e)) => !is_success(status) && status != 405 && status != 301 && e@
                == "MKCOL "@ + path@ + " failed: "@ + text@,
            Err(_) => false,
        },
{
    if status == 405 || status == 301 {
        Ok(())
    } else if 200 <= status && status <= 299 {
        Ok(())
    } else {
        Err(Error::Backend(cat4("MKCOL ", path, " failed: ", text)))
    }
}

/// The change id of a file that was written: the ETag of the response, else that
/// of a request for the file's headers, else none.
pub fn written_id(put_etag: Option<&str>, head_etag: Option<&str>) -> (out: String)
    ensures
        out@ == (match (put_etag, head_etag) {
            (Some(t), _) => bare_etag(t@),
            (None, Some(t)) => bare_etag(t@),
            (None, None) => ""@,
        }),
{
    match (put_etag, head_etag) {
        (Some(t), _) => parse_etag(t),
        (None, Some(t)) => parse_etag(t),
        (None, None) => "".to_string(),
    }
}

// ---------------------------------------------------------------------------
// Laws
// ---------------------------------------------------------------------------

/// A weak ETag and a strong one with the same text have the same change id.
pub proof fn law_weak_mark_does_not_count(tag: Seq<char>)
    requires
        tag.len() >= 2,
        tag[0] == '"',
        tag.last() == '"',
    ensures
        bare_etag(seq!['W', '/'] + tag) == bare_etag(tag),
{
    let weak = seq!['W', '/'] + tag;
    assert(weak.last() == tag.last());
    crate::text::lemma_trim_none(weak, Class::Space);
    crate::text::lemma_trim_none(tag, Class::Space);
    assert(weak.skip(2) =~= tag);
    assert(weak[0] == 'W' && weak[1] == '/');
}

/// Every file that a listing names under the group is in the snapshot, with what the
/// last entry for it says.
pub proof fn law_listed_files_are_in_the_snapshot(
    base: Seq<char>,
    entries: Seq<DavView>,
    i: int,
    path: Seq<char>,
)
    requires
        0 <= i < entries.len(),
        !entries[i].is_collection,
        path_of_href(base, entries[i].href) == Some(path),
        forall|j: int|
            i < j < entries.len() ==> (#[trigger] entries[j]).is_collection || path_of_href(
                base,
                entries[j].href,
            ) != Some(path),
    ensures
        ({
            let files = files_in(base, entries);
            &&& files.dom().contains(path)
            &&& files[path].size == (match entries[i].content_length {
                Some(n) => n as int,
                None => 0,
            })
            &&& entries[i].etag matches Some(tag) ==> files[path].id == bare_etag(tag)
            &&& entries[i].etag is None ==> files[path].id.len() == 0
            &&& entries[i].last_modified matches Some(date) ==> files[path].mtime == http_date(date)
            &&& entries[i].last_modified is None ==> files[path].mtime is None
        }),
    decreases entries.len(),
{
    reveal_strlit("");
    let less = entries.drop_last();
    if i < less.len() {
        assert forall|j: int| i < j < less.len() implies (#[trigger] less[j]).is_collection
            || path_of_href(base, less[j].href) != Some(path) by {
            assert(less[j] == entries[j]);
        }
        law_listed_files_are_in_the_snapshot(base, less, i, path);
        assert(entries[entries.len() - 1].is_collection || path_of_href(
            base,
            entries[entries.len() - 1].href,
        ) != Some(path));
    }
}

/// A snapshot holds nothing but the files that the listing names under the group.
pub proof fn law_snapshot_holds_nothing_else(
    base: Seq<char>,
    entries: Seq<DavView>,
    path: Seq<char>,
)
    requires
        files_in(base, entries).dom().contains(path),
    ensures
        exists|i: int|
            0 <= i < entries.len() && !(#[trigger] entries[i]).is_collection && path_of_href(
                base,
                entries[i].href,
            ) == Some(path),
    decreases entries.len(),
{
    let less = entries.drop_last();
    if entries.len() > 0 {
        if files_in(base, less).dom().contains(path) {
            law_snapshot_holds_nothing_else(base, less, path);
            let i = choose|i: int|
                0 <= i < less.len() && !(#[trigger] less[i]).is_collection && path_of_href(
                    base,
                    less[i].href,
                ) == Some(path);
            assert(entries[i] == less[i]);
        } else {
            assert(entries[entries.len() - 1] == entries.last());
        }
    }
}

/// The paths of a listing are those of its entries, and those of its collections are
/// those of the entries that are collections.
pub proof fn law_listed_paths(
    base: Seq<char>,
    entries: Seq<DavView>,
    collections: bool,
    path: Seq<char>,
)
    ensures
        paths_in(base, entries, collections).contains(path) <==> exists|i: int|
            0 <= i < entries.len() && ((#[trigger] entries[i]).is_collection || !collections)
                && path_of_href(base, entries[i].href) == Some(path),
    decreases entries.len(),
{
    if entries.len() > 0 {
        let less = entries.drop_last();
        let all = paths_in(base, entries, collections);
        let front = paths_in(base, less, collections);
        law_listed_paths(base, less, collections, path);
        if all.contains(path) {
            let k = all.index_of(path);
            assert(0 <= k < all.len() && all[k] == path);
            if k < front.len() {
                assert(front[k] == path);
                let i = choose|i: int|
                    0 <= i < less.len() && ((#[trigger] less[i]).is_collection || !collections)
                        && path_of_href(base, less[i].href) == Some(path);
                assert(entries[i] == less[i]);
            } else {
                assert(entries[entries.len() - 1] == entries.last());
            }
        }
        if exists|i: int|
            0 <= i < entries.len() && ((#[trigger] entries[i]).is_collection || !collections)
                && path_of_href(base, entries[i].href) == Some(path) {
            let i = choose|i: int|
                0 <= i < entries.len() && ((#[trigger] entries[i]).is_collection || !collections)
                    && path_of_href(base, entries[i].href) == Some(path);
            if i < less.len() {
                assert(less[i] == entries[i]);
                let k = front.index_of(path);
                assert(0 <= k < front.len() && front[k] == path);
                assert(all[k] == path);
            } else {
                assert(all[front.len() as int] == path);
            }
        }
    }
}

proof fn lemma_filled_names(parts: Seq<Seq<char>>)
    requires
        forall|i: int| 0 <= i < parts.len() ==> (#[trigger] parts[i]).len() > 0,
    ensures
        filled(parts) == parts,
    decreases parts.len(),
{
    if parts.len() > 0 {
        let less = parts.drop_last();
        assert forall|i: int| 0 <= i < less.len() implies (#[trigger] less[i]).len() > 0 by {
            assert(less[i] == parts[i]);
        }
        lemma_filled_names(less);
        assert(parts[parts.len() - 1].len() > 0);
    }
    assert(filled(parts) =~= parts);
}

/// A reference to a file under the group leads to its path, whatever names lie on the
/// way: each segment below the base stands for the name that it decodes to. A slash
/// at the end makes no difference.
pub proof fn law_reference_leads_to_its_path(
    base_path: Seq<char>,
    segments: Seq<Seq<char>>,
    names: Seq<Seq<char>>,
)
    requires
        segments.len() > 0,
        names.len() == segments.len(),
        forall|i: int|
            0 <= i < segments.len() ==> (#[trigger] segments[i]).len() > 0
                && !segments[i].contains('/') && percent_decoded(segments[i]) == names[i],
        forall|i: int| 0 <= i < names.len() ==> crate::relpath::is_name(#[trigger] names[i]),
    ensures
        path_between(base_path, base_path + join(segments, '/')) == Some(join(names, '/')),
        path_between(base_path, base_path + join(segments, '/') + seq!['/']) == Some(
            join(names, '/'),
        ),
{
    let text = join(segments, '/');
    let full = base_path + text;
    let n = base_path.len() as int;
    assert(full.take(n) =~= base_path);
    assert(full.skip(n) =~= text);
    assert forall|i: int| 0 <= i < segments.len() implies !(#[trigger] segments[i]).contains('/') by {
        assert(segments[i].len() > 0);
    }
    crate::text::lemma_split_join(segments, '/');
    lemma_filled_names(segments);
    assert(decoded(segments) =~= names) by {
        assert forall|i: int| 0 <= i < names.len() implies decoded(segments)[i] == names[i] by {
            assert(segments[i].len() > 0);
        }
    }
    assert forall|i: int| 0 <= i < names.len() implies !(#[trigger] names[i]).contains('/') by {
        assert(crate::relpath::is_name(names[i]));
    }
    crate::text::lemma_split_join(names, '/');
    assert(crate::relpath::is_rel(join(names, '/')));
    crate::relpath::law_normalized_is_stable(join(names, '/'));
    let more = base_path + text + seq!['/'];
    assert(more.take(n) =~= base_path);
    assert(more.skip(n) =~= text + seq!['/']);
    let none = Seq::<char>::empty();
    let longer = segments.push(none);
    crate::text::lemma_join_push(segments, none, '/');
    assert(join(longer, '/') =~= text + seq!['/']);
    assert forall|i: int| 0 <= i < longer.len() implies !(#[trigger] longer[i]).contains('/') by {
        if i < segments.len() {
            assert(longer[i] == segments[i]);
        }
    }
    crate::text::lemma_split_join(longer, '/');
    assert(longer.drop_last() =~= segments);
    assert(filled(longer) == filled(segments));
}

/// A reference that does not lie under the base leads nowhere, and one that leads out of
/// it does not either: every path of a listing is a relative path under the group.
pub proof fn law_references_stay_under_the_base(base_path: Seq<char>, path: Seq<char>)
    ensures
        path_between(base_path, path) matches Some(p) ==> crate::relpath::is_rel(p)
            && path.len() >= base_path.len() && path.take(base_path.len() as int) == base_path,
{
    let segments = decoded(filled(split(path.skip(base_path.len() as int), '/')));
    crate::relpath::law_normalized_is_relative(join(segments, '/'));
}

/// The URL of a file has a segment for each name of its path, and the collections that
/// hold it are those of the remote path and then its directories, all in order.
pub proof fn law_urls_keep_every_name(remote_path: Seq<char>, path: Seq<char>)
    requires
        crate::relpath::is_rel(path),
    ensures
        filled(split(path, '/')) == split(path, '/'),
        dir_segments(remote_path, path) == filled(split(remote_path, '/')) + split(path, '/'),
        parent_segments(remote_path, path).push(split(path, '/').last()) == dir_segments(
            remote_path,
            path,
        ),
        crate::relpath::is_rel(remote_path) ==> dir_segments(remote_path, path) == split(
            remote_path,
            '/',
        ) + split(path, '/'),
        remote_path.len() == 0 ==> dir_segments(remote_path, path) == split(path, '/'),
{
    let parts = split(path, '/');
    crate::text::lemma_split(path, '/');
    assert forall|i: int| 0 <= i < parts.len() implies (#[trigger] parts[i]).len() > 0 by {
        assert(crate::relpath::is_name(parts[i]));
    }
    lemma_filled_names(parts);
    assert(parts.drop_last().push(parts.last()) =~= parts);
    assert(parent_segments(remote_path, path).push(parts.last()) =~= dir_segments(
        remote_path,
        path,
    ));
    let before = split(remote_path, '/');
    if crate::relpath::is_rel(remote_path) {
        assert forall|i: int| 0 <= i < before.len() implies (#[trigger] before[i]).len() > 0 by {
            assert(crate::relpath::is_name(before[i]));
        }
        lemma_filled_names(before);
    }
    if remote_path.len() == 0 {
        crate::text::lemma_first_index(remote_path, '/');
        assert(before =~= seq![remote_path]);
        assert(before.drop_last() =~= Seq::<Seq<char>>::empty());
        assert(before.last().len() == 0);
        assert(filled(before) == filled(before.drop_last()));
        assert(filled(before) =~= Seq::<Seq<char>>::empty());
        assert(dir_segments(remote_path, path) =~= parts);
    }
}

/// The base of a group is the URL of its remote, a slash, the remote path and a slash,
/// however many slashes the two were written with.
pub proof fn law_base_ignores_outer_slashes(
    url: Seq<char>,
    after_url: Seq<char>,
    before: Seq<char>,
    path: Seq<char>,
    after: Seq<char>,
)
    requires
        url.len() > 0,
        url[0] != '/',
        url.last() != '/',
        path.len() > 0,
        path[0] != '/',
        path.last() != '/',
        forall|i: int| 0 <= i < after_url.len() ==> #[trigger] after_url[i] == '/',
        forall|i: int| 0 <= i < before.len() ==> #[trigger] before[i] == '/',
        forall|i: int| 0 <= i < after.len() ==> #[trigger] after[i] == '/',
    ensures
        base_text(url + after_url, before + path + after) == url + seq!['/'] + path + seq!['/'],
        base_text(url + after_url, before) == url + seq!['/'],
        root_text(url + after_url) == url + seq!['/'],
{
    reveal_strlit("/");
    crate::text::law_trim_takes_off_the_ends(Seq::empty(), url, after_url, Class::Slash);
    crate::text::law_trim_takes_off_the_ends(before, path, after, Class::Slash);
    crate::text::law_trim_takes_off_the_ends(before, Seq::empty(), Seq::empty(), Class::Slash);
    assert(before + Seq::<char>::empty() + Seq::<char>::empty() =~= before);
    assert("/"@ =~= seq!['/']);
}

/// The change id of a file is the text of its ETag between the quotes.
pub proof fn law_change_id_is_the_tag(tag: Seq<char>)
    requires
        tag.len() > 0 ==> tag[0] != '"' && tag.last() != '"',
    ensures
        bare_etag(seq!['"'] + tag + seq!['"']) == tag,
        bare_etag(seq!['W', '/', '"'] + tag + seq!['"']) == tag,
        tag.len() > 0 && !crate::text::is_space(tag[0]) && !crate::text::is_space(tag.last())
            && !(tag.len() > 1 && tag[0] == 'W' && tag[1] == '/') ==> bare_etag(tag) == tag,
{
    let quoted = seq!['"'] + tag + seq!['"'];
    crate::text::lemma_trim_none(quoted, Class::Space);
    crate::text::law_trim_takes_off_the_ends(seq!['"'], tag, seq!['"'], Class::Quote);
    law_weak_mark_does_not_count(quoted);
    assert(seq!['W', '/'] + quoted =~= seq!['W', '/', '"'] + tag + seq!['"']);
    if tag.len() > 0 && !crate::text::is_space(tag[0]) && !crate::text::is_space(tag.last()) {
        crate::text::lemma_trim_none(tag, Class::Space);
        crate::text::lemma_trim_none(tag, Class::Quote);
    }
}

/// Whether the steps from `i` to `j` are one `response` element: its start tag, its end
/// tag, and between them neither another one nor anything that cannot be read.
pub open spec fn is_response(steps: Seq<StepView>, i: int, j: int) -> bool {
    &&& 0 <= i < j < steps.len()
    &&& steps[i] == StepView::Start("response"@)
    &&& steps[j] == StepView::End("response"@)
    &&& forall|k: int|
        i < k < j ==> !is_last(#[trigger] steps[k]) && steps[k] != StepView::Start("response"@)
            && steps[k] != StepView::End("response"@) && (steps[k] matches StepView::Text(t) ==> t
            is Ok)
}

/// What is known inside of a `response` element.
proof fn lemma_response(steps: Seq<StepView>, i: int, j: int, m: int)
    requires
        is_response(steps, i, j),
        progress(steps, i) is Ok,
        i < m <= j,
    ensures
        ({
            let p = progress(steps, m);
            &&& p is Ok
            &&& p->Ok_0.current is Some
            &&& p->Ok_0.done == progress(steps, i)->Ok_0.done
            &&& p->Ok_0.current.unwrap().is_collection <==> exists|k: int|
                i < k < m && (#[trigger] steps[k] == StepView::Start("collection"@) || steps[k]
                    == StepView::Empty("collection"@))
        }),
    decreases m - i,
{
    lemma_tags_differ();
    reveal_strlit("response");
    reveal_strlit("collection");
    assert("response"@.len() != "collection"@.len());
    if m > i + 1 {
        lemma_response(steps, i, j, m - 1);
        let s = steps[m - 1];
        assert(!is_last(s));
        if progress(steps, m)->Ok_0.current.unwrap().is_collection {
            if progress(steps, m - 1)->Ok_0.current.unwrap().is_collection {
                let k = choose|k: int|
                    i < k < m - 1 && (#[trigger] steps[k] == StepView::Start("collection"@)
                        || steps[k] == StepView::Empty("collection"@));
                assert(i < k < m);
            } else {
                assert(s == StepView::Start("collection"@) || s == StepView::Empty("collection"@));
            }
        }
    }
}

/// A `response` element of a listing is one resource, and nothing but its end tag
/// completes one. The resource is a collection exactly where the element holds a
/// `collection` tag.
pub proof fn law_response_is_one_resource(steps: Seq<StepView>, i: int, j: int)
    requires
        is_response(steps, i, j),
        progress(steps, i) is Ok,
    ensures
        ({
            let before = progress(steps, i)->Ok_0.done;
            let after = progress(steps, j + 1);
            &&& after is Ok
            &&& after->Ok_0.current is None
            &&& after->Ok_0.done.len() == before.len() + 1
            &&& after->Ok_0.done.drop_last() == before
            &&& after->Ok_0.done.last().is_collection <==> exists|k: int|
                i < k < j && (#[trigger] steps[k] == StepView::Start("collection"@) || steps[k]
                    == StepView::Empty("collection"@))
        }),
{
    lemma_response(steps, i, j, j);
    let before = progress(steps, i)->Ok_0.done;
    let after = progress(steps, j + 1)->Ok_0;
    assert(after.done.drop_last() =~= before);
}

/// What the properties of a resource are after the text of a property was read, as long
/// as the property does not come again.
proof fn lemma_property(steps: Seq<StepView>, i: int, j: int, k: int, tag: Seq<char>, m: int)
    requires
        is_response(steps, i, j),
        progress(steps, i) is Ok,
        i < k,
        k + 3 <= m <= j,
        steps[k] == StepView::Start(tag),
        steps[k + 1] matches StepView::Text(t),
        steps[k + 2] is End,
        tag == "href"@ || tag == "getetag"@ || tag == "getlastmodified"@ || tag
            == "getcontentlength"@,
        forall|n: int| k < n < j ==> #[trigger] steps[n] != StepView::Start(tag),
    ensures
        ({
            let p = progress(steps, m)->Ok_0;
            let e = p.current.unwrap();
            let t = steps[k + 1]->Text_0->Ok_0;
            &&& p.tag != tag
            &&& tag == "href"@ ==> e.href == t
            &&& tag == "getetag"@ ==> e.etag == Some(t)
            &&& tag == "getlastmodified"@ ==> e.last_modified == Some(t)
            &&& tag == "getcontentlength"@ ==> e.content_length == parse_u64(trim(t, Class::Space))
        }),
    decreases m,
{
    lemma_tags_differ();
    reveal_strlit("");
    reveal_strlit("href");
    reveal_strlit("getetag");
    reveal_strlit("getlastmodified");
    reveal_strlit("getcontentlength");
    reveal_strlit("response");
    reveal_strlit("collection");
    assert("href"@.len() == 4 && "getetag"@.len() == 7 && "getlastmodified"@.len() == 15
        && "getcontentlength"@.len() == 16 && "response"@.len() == 8 && "collection"@.len() == 10);
    lemma_response(steps, i, j, m);
    lemma_response(steps, i, j, m - 1);
    assert(!is_last(steps[m - 1]));
    if m == k + 3 {
        lemma_response(steps, i, j, k);
        lemma_response(steps, i, j, k + 1);
        lemma_response(steps, i, j, k + 2);
        assert(progress(steps, k + 1)->Ok_0.tag == tag);
        assert(steps[k + 1]->Text_0 is Ok);
    } else {
        lemma_property(steps, i, j, k, tag, m - 1);
        assert(steps[m - 1] != StepView::Start(tag));
    }
}

/// A property of a resource is the text of its element, whatever stands before and after
/// it in the `response`.
pub proof fn law_resource_has_its_properties(
    steps: Seq<StepView>,
    i: int,
    j: int,
    k: int,
    tag: Seq<char>,
    text: Seq<char>,
)
    requires
        is_response(steps, i, j),
        progress(steps, i) is Ok,
        i < k,
        k + 2 < j,
        steps[k] == StepView::Start(tag),
        steps[k + 1] == StepView::Text(Ok(text)),
        steps[k + 2] == StepView::End(tag),
        forall|n: int| k < n < j ==> #[trigger] steps[n] != StepView::Start(tag),
    ensures
        ({
            let e = progress(steps, j + 1)->Ok_0.done.last();
            &&& tag == "href"@ ==> e.href == text
            &&& tag == "getetag"@ ==> e.etag == Some(text)
            &&& tag == "getlastmodified"@ ==> e.last_modified == Some(text)
            &&& tag == "getcontentlength"@ ==> e.content_length == parse_u64(
                trim(text, Class::Space),
            )
        }),
{
    if tag == "href"@ || tag == "getetag"@ || tag == "getlastmodified"@ || tag
        == "getcontentlength"@ {
        lemma_property(steps, i, j, k, tag, j);
        lemma_response(steps, i, j, j);
    }
}

/// What was read of a listing stays read, and nothing but the end tag of a `response`
/// adds to it. A broken document is not read.
pub proof fn law_listing_grows(steps: Seq<StepView>, n: int)
    requires
        0 <= n < steps.len(),
        progress(steps, n + 1) is Ok,
    ensures
        progress(steps, n) is Ok,
        !(steps[n] is Broken),
        ({
            let before = progress(steps, n)->Ok_0;
            let after = progress(steps, n + 1)->Ok_0;
            if steps[n] == StepView::End("response"@) && before.current is Some {
                after.done == before.done.push(before.current.unwrap())
            } else {
                after.done == before.done
            }
        }),
{
}

/// The snapshot of a listing holds each file that the listing names under the group, and
/// no other.
pub proof fn law_snapshots_are_complete(
    base: &str,
    entries: &Vec<DavEntry>,
    out: Table<RemoteMeta>,
    path: Seq<char>,
)
    requires
        call_ensures(snapshot_of, (base, entries), out),
    ensures
        out@.dom().contains(path) <==> exists|i: int|
            0 <= i < entries@.len() && !(#[trigger] entries@[i]).is_collection && path_of_href(
                base@,
                entries@[i].href@,
            ) == Some(path),
{
    let views = dav_views(entries@);
    let files = files_in(base@, views);
    assert(remotes_of(out).dom().contains(path) <==> out@.dom().contains(path));
    if files.dom().contains(path) {
        law_snapshot_holds_nothing_else(base@, views, path);
        let i = choose|i: int|
            0 <= i < views.len() && !(#[trigger] views[i]).is_collection && path_of_href(
                base@,
                views[i].href,
            ) == Some(path);
        assert(views[i] == entries@[i]@);
        assert(!entries@[i].is_collection);
    }
    if exists|i: int|
        0 <= i < entries@.len() && !(#[trigger] entries@[i]).is_collection && path_of_href(
            base@,
            entries@[i].href@,
        ) == Some(path) {
        let i = choose|i: int|
            0 <= i < entries@.len() && !(#[trigger] entries@[i]).is_collection && path_of_href(
                base@,
                entries@[i].href@,
            ) == Some(path);
        assert(views[i] == entries@[i]@);
        lemma_in_snapshot(base@, views, i, path);
    }
}

proof fn lemma_in_snapshot(base: Seq<char>, entries: Seq<DavView>, i: int, path: Seq<char>)
    requires
        0 <= i < entries.len(),
        !entries[i].is_collection,
        path_of_href(base, entries[i].href) == Some(path),
    ensures
        files_in(base, entries).dom().contains(path),
    decreases entries.len(),
{
    if i < entries.len() - 1 {
        assert(entries.drop_last()[i] == entries[i]);
        lemma_in_snapshot(base, entries.drop_last(), i, path);
    }
}

/// A listing of a directory that is not there is empty, and any other that fails is an
/// error. A file or directory that is not there counts as deleted, and a directory that is
/// there as created; all else must succeed.
pub proof fn law_answers_of_the_server(
    status: u16,
    text: &str,
    path: &str,
    listed: Result<bool, Error>,
    sent: Result<(), Error>,
    deleted: Result<(), Error>,
    created: Result<(), Error>,
)
    requires
        call_ensures(listing_status, (status, text), listed),
        call_ensures(transfer_status, ("PUT", path, status, text), sent),
        call_ensures(deletion_status, ("DELETE", path, status, text), deleted),
        call_ensures(creation_status, (path, status, text), created),
    ensures
        status == 404 ==> (listed matches Ok(read) && !read) && deleted is Ok && sent is Err,
        200 <= status <= 299 ==> (listed matches Ok(read) && read) && sent is Ok && deleted is Ok
            && created is Ok,
        status == 405 || status == 301 ==> created is Ok && listed is Err && sent is Err
            && deleted is Err,
        status < 200 || (status > 299 && status != 404 && status != 405 && status != 301)
            ==> listed is Err && sent is Err && deleted is Err && created is Err,
{
}

/// The change id of a file that was written is its ETag as the server gives it with the
/// answer, or when asked for it afterwards.
pub proof fn law_written_files_get_their_tag(put: Option<&str>, head: Option<&str>, out: String)
    requires
        call_ensures(written_id, (put, head), out),
    ensures
        put matches Some(t) ==> out@ == bare_etag(t@),
        put is None ==> (head matches Some(t) ==> out@ == bare_etag(t@)),
        put is None && head is None ==> out@.len() == 0,
{
    reveal_strlit("");
}

/// An empty collection is one under which the listing has nothing, neither a file nor
/// another collection; and every such one is found.
pub proof fn law_empty_collections_are_found(
    base: &str,
    entries: &Vec<DavEntry>,
    out: Table<()>,
    dir: Seq<char>,
)
    requires
        call_ensures(empty_collections, (base, entries), out),
    ensures
        out@.dom().contains(dir) <==> (exists|i: int|
            0 <= i < entries@.len() && (#[trigger] entries@[i]).is_collection && path_of_href(
                base@,
                entries@[i].href@,
            ) == Some(dir)) && (forall|i: int|
            0 <= i < entries@.len() ==> (path_of_href(
                base@,
                (#[trigger] entries@[i]).href@,
            ) matches Some(p) ==> !crate::dirs::is_under(dir, p))),
{
    let views = dav_views(entries@);
    let all = paths_in(base@, views, false);
    law_listed_paths(base@, views, true, dir);
    assert forall|i: int| 0 <= i < entries@.len() implies #[trigger] views[i] == entries@[i]@ by {}
    if out@.dom().contains(dir) {
        let i = choose|i: int|
            0 <= i < views.len() && ((#[trigger] views[i]).is_collection || !true) && path_of_href(
                base@,
                views[i].href,
            ) == Some(dir);
        assert(entries@[i].is_collection);
        assert forall|i: int| 0 <= i < entries@.len() implies (path_of_href(
            base@,
            (#[trigger] entries@[i]).href@,
        ) matches Some(p) ==> !crate::dirs::is_under(dir, p)) by {
            if let Some(p) = path_of_href(base@, entries@[i].href@) {
                law_listed_paths(base@, views, false, p);
                assert(views[i] == entries@[i]@);
                let k = all.index_of(p);
                assert(0 <= k < all.len() && all[k] == p);
            }
        }
    }
    if (exists|i: int|
        0 <= i < entries@.len() && (#[trigger] entries@[i]).is_collection && path_of_href(
            base@,
            entries@[i].href@,
        ) == Some(dir)) && (forall|i: int|
        0 <= i < entries@.len() ==> (path_of_href(
            base@,
            (#[trigger] entries@[i]).href@,
        ) matches Some(p) ==> !crate::dirs::is_under(dir, p))) {
        let i = choose|i: int|
            0 <= i < entries@.len() && (#[trigger] entries@[i]).is_collection && path_of_href(
                base@,
                entries@[i].href@,
            ) == Some(dir);
        assert(views[i] == entries@[i]@);
        assert forall|k: int| 0 <= k < all.len() implies !crate::dirs::is_under(
            dir,
            #[trigger] all[k],
        ) by {
            let p = all[k];
            assert(all.contains(p));
            law_listed_paths(base@, views, false, p);
            let j = choose|j: int|
                0 <= j < views.len() && ((#[trigger] views[j]).is_collection || !false)
                    && path_of_href(base@, views[j].href) == Some(p);
            assert(views[j] == entries@[j]@);
            assert(path_of_href(base@, entries@[j].href@) == Some(p));
        }
    }
}

/// A listing is what was read of it, and one that is broken anywhere is refused.
pub proof fn law_broken_listings_are_refused(steps: Seq<StepView>, i: int)
    requires
        0 <= i < steps.len(),
    ensures
        steps[i] is Broken ==> listing(steps) is Err,
        progress(steps, steps.len() as int) matches Ok(p) ==> (listing(steps) matches Ok(done)
            && done == p.done),
{
    if steps[i] is Broken {
        assert(progress(steps, i + 1) is Err);
        lemma_stays_wrong(steps, i + 1, steps.len() as int);
    }
}

/// The URLs of nested collections come about one by one, each from the one before.
pub proof fn law_nested_urls_build_on_each_other(
    url: Seq<char>,
    segments: Seq<Seq<char>>,
    last: Seq<char>,
)
    ensures
        nested_url(url, Seq::<Seq<char>>::empty()) == Some(url),
        nested_url(url, segments) matches Some(u) ==> nested_url(url, segments.push(last))
            == url_with_segments(u, seq![last]),
        nested_url(url, segments) is None ==> nested_url(url, segments.push(last)) is None,
{
    assert(segments.push(last).drop_last() =~= segments);
}

} // verus!
