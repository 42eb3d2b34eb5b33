//! Finding the chapters of a book: the package document that the container
//! names, and the reading order that the package document gives.

use crate::text::{ends_with, same_text, split, to_ascii_lowercase};
use quick_xml::events::BytesStart;
use quick_xml::events::Event;
use quick_xml::reader::Reader;
use vstd::hash_map::StringHashMap;
use vstd::prelude::*;
use vstd::string::*;
use vstd::utf8::*;

verus! {

broadcast use vstd::string::group_string_axioms;

// ---------------------------------------------------------------------------
// XML events
// ---------------------------------------------------------------------------
/// A reader of the `quick_xml` crate. What it will still read is named by
/// `pending_events`.
#[verifier::external_type_specification]
#[verifier::external_body]
#[verifier::reject_recursive_types(R)]
pub struct ExReader<R>(quick_xml::reader::Reader<R>);

/// What an event is: a tag that opens or stands alone, a tag that closes, or
/// anything else.
#[derive(Debug, Clone, Copy, PartialEq, Eq, Structural)]
pub enum XmlKind {
    Opening,
    Closing,
    Other,
}

/// An event, with the name of its tag and its attributes as they are written;
/// nothing stands for an attribute that is malformed.
#[derive(Debug)]
pub struct XmlEvent {
    pub kind: XmlKind,
    pub name: Vec<u8>,
    pub attributes: Vec<Option<(Vec<u8>, Vec<u8>)>>,
}

/// An event, as bytes.
pub struct XmlSpec {
    pub kind: XmlKind,
    pub name: Seq<u8>,
    pub attributes: Seq<Option<(Seq<u8>, Seq<u8>)>>,
}

/// An attribute, as bytes.
pub open spec fn attribute_view(a: Option<(Vec<u8>, Vec<u8>)>) -> Option<(Seq<u8>, Seq<u8>)> {
    match a {
        Some((key, value)) => Some((key@, value@)),
        None => None,
    }
}

impl View for XmlEvent {
    type V = XmlSpec;

    open spec fn view(&self) -> XmlSpec {
        XmlSpec {
            kind: self.kind,
            name: self.name@,
            attributes: attribute_views(self.attributes@),
        }
    }
}

/// Several events, as bytes.
pub open spec fn event_views(events: Seq<XmlEvent>) -> Seq<XmlSpec> {
    events.map_values(|e: XmlEvent| e@)
}

/// The events of a document, up to its end or to the first place where it is
/// malformed.
pub uninterp spec fn xml_events(xml: Seq<char>) -> Seq<XmlSpec>;

/// The events that a reader will still read, up to the end of the document or
/// to the first place where it is malformed.
pub uninterp spec fn pending_events(reader: Reader<&[u8]>) -> Seq<XmlSpec>;

/// `Reader::from_str` begins to read a document: the events to come depend on
/// its text alone.
#[verifier::external_body]
fn open_document<'a>(xml: &'a str) -> (r: Reader<&'a [u8]>)
    ensures
        pending_events(r) == xml_events(xml@),
{
    Reader::from_str(xml)
}

/// What reading a document gives next.
enum RawEvent {
    /// A tag that opens.
    Start(Vec<u8>, Vec<Option<(Vec<u8>, Vec<u8>)>>),
    /// A tag that stands alone.
    Empty(Vec<u8>, Vec<Option<(Vec<u8>, Vec<u8>)>>),
    /// A tag that closes.
    End(Vec<u8>),
    /// Text, or markup that is no tag.
    Other,
    /// The end of the document.
    Eof,
    /// A place where the document is malformed.
    Malformed,
}

/// Attributes, as bytes.
pub open spec fn attribute_views(attributes: Seq<Option<(Vec<u8>, Vec<u8>)>>) -> Seq<
    Option<(Seq<u8>, Seq<u8>)>,
> {
    attributes.map_values(|a: Option<(Vec<u8>, Vec<u8>)>| attribute_view(a))
}

/// The event that was read, as bytes; none at the end of the events.
spec fn raw_view(event: RawEvent) -> Option<XmlSpec> {
    match event {
        RawEvent::Start(name, attributes) => Some(
            XmlSpec {
                kind: XmlKind::Opening,
                name: name@,
                attributes: attribute_views(attributes@),
            },
        ),
        RawEvent::Empty(name, attributes) => Some(
            XmlSpec {
                kind: XmlKind::Opening,
                name: name@,
                attributes: attribute_views(attributes@),
            },
        ),
        RawEvent::End(name) => Some(
            XmlSpec { kind: XmlKind::Closing, name: name@, attributes: Seq::empty() },
        ),
        RawEvent::Other => Some(
            XmlSpec { kind: XmlKind::Other, name: Seq::empty(), attributes: Seq::empty() },
        ),
        RawEvent::Eof => None,
        RawEvent::Malformed => None,
    }
}

/// `Reader::read_event_into` reads the next event. Tags are handed on with their
/// name and their attributes, in order and as they are written; the end of the
/// document and an error both end the events.
#[verifier::external_body]
fn read_raw(reader: &mut Reader<&[u8]>) -> (r: RawEvent)
    ensures
        match raw_view(r) {
            Some(event) => {
                &&& pending_events(*old(reader)).len() > 0
                &&& event == pending_events(*old(reader))[0]
                &&& pending_events(*final(reader)) == pending_events(*old(reader)).drop_first()
            },
            None => pending_events(*old(reader)).len() == 0,
        },
{
    let pairs = |e: &BytesStart| {
        e.attributes().map(|a| a.ok().map(|a| (a.key.0.to_vec(), a.value.to_vec()))).collect()
    };
    match reader.read_event_into(&mut Vec::new()) {
        Ok(Event::Start(e)) => RawEvent::Start(e.name().0.to_vec(), pairs(&e)),
        Ok(Event::Empty(e)) => RawEvent::Empty(e.name().0.to_vec(), pairs(&e)),
        Ok(Event::End(e)) => RawEvent::End(e.name().0.to_vec()),
        Ok(Event::Eof) => RawEvent::Eof,
        Ok(_) => RawEvent::Other,
        Err(_) => RawEvent::Malformed,
    }
}

/// Reads the next event; none at the end of the document and where it is
/// malformed.
fn next_event(reader: &mut Reader<&[u8]>) -> (r: Option<XmlEvent>)
    ensures
        match r {
            Some(event) => {
                &&& pending_events(*old(reader)).len() > 0
                &&& event@ == pending_events(*old(reader))[0]
                &&& pending_events(*final(reader)) == pending_events(*old(reader)).drop_first()
            },
            None => pending_events(*old(reader)).len() == 0,
        },
{
    let raw = read_raw(reader);
    let ghost seen = raw_view(raw);
    let (kind, name, attributes) = match raw {
        RawEvent::Start(name, attributes) => (XmlKind::Opening, name, attributes),
        RawEvent::Empty(name, attributes) => (XmlKind::Opening, name, attributes),
        RawEvent::End(name) => (XmlKind::Closing, name, Vec::new()),
        RawEvent::Other => (XmlKind::Other, Vec::new(), Vec::new()),
        RawEvent::Eof => {
            return None;
        },
        RawEvent::Malformed => {
            return None;
        },
    };
    let event = XmlEvent { kind, name, attributes };
    proof {
        assert(event@.name =~= (seen->0).name);
        assert(event@.attributes =~= (seen->0).attributes);
    }
    Some(event)
}

/// Reads the events of a document, up to its end or to the first place where it
/// is malformed.
pub fn read_events(xml: &str) -> (r: Vec<XmlEvent>)
    ensures
        event_views(r@) == xml_events(xml@),
{
    let mut reader = open_document(xml);
    let mut events: Vec<XmlEvent> = Vec::new();
    assert(event_views(events@) + pending_events(reader) =~= xml_events(xml@));
    loop
        invariant_except_break
            event_views(events@) + pending_events(reader) == xml_events(xml@),
        ensures
            event_views(events@) == xml_events(xml@),
        decreases pending_events(reader).len(),
    {
        let ghost before = event_views(events@);
        let ghost pending = pending_events(reader);
        match next_event(&mut reader) {
            Some(event) => {
                let ghost e = event@;
                events.push(event);
                assert(event_views(events@) =~= before.push(e));
                assert(before + pending =~= before.push(e) + pending.drop_first());
            },
            None => {
                assert(before + pending =~= before);
                break;
            },
        }
    }
    events
}

// ---------------------------------------------------------------------------
// Bytes
// ---------------------------------------------------------------------------
/// `String::from_utf8` gives the text that bytes are the UTF-8 of, and gives the
/// bytes back where they are the UTF-8 of none.
#[verifier::external_body]
pub(crate) fn text_of_bytes(bytes: Vec<u8>) -> (r: Result<String, Vec<u8>>)
    ensures
        match r {
            Ok(text) => valid_utf8(bytes@) && text@ == decode_utf8(bytes@),
            Err(same) => !valid_utf8(bytes@) && same@ == bytes@,
        },
{
    String::from_utf8(bytes).map_err(|e| e.into_bytes())
}

/// The text that bytes are the UTF-8 of.
pub open spec fn utf8_text(bytes: Seq<u8>) -> Option<Seq<char>> {
    if valid_utf8(bytes) {
        Some(decode_utf8(bytes))
    } else {
        None
    }
}

fn copy_text(bytes: &Vec<u8>) -> (r: Option<String>)
    ensures
        crate::response::opt_text(r) == utf8_text(bytes@),
{
    let mut copy: Vec<u8> = Vec::new();
    let mut i: usize = 0;
    while i < bytes.len()
        invariant
            i <= bytes.len(),
            copy@ == bytes@.take(i as int),
        decreases bytes.len() - i,
    {
        copy.push(bytes[i]);
        assert(bytes@.take(i + 1) =~= bytes@.take(i as int).push(bytes@[i as int]));
        i += 1;
    }
    assert(bytes@.take(bytes@.len() as int) =~= bytes@);
    match text_of_bytes(copy) {
        Ok(text) => Some(text),
        Err(_) => None,
    }
}

fn same_bytes(a: &[u8], b: &[u8], from: usize) -> (r: bool)
    requires
        from <= a.len(),
    ensures
        r == (a@.skip(from as int) == b@),
{
    if a.len() - from != b.len() {
        assert(a@.skip(from as int).len() != b@.len());
        return false;
    }
    let mut i: usize = 0;
    while i < b.len()
        invariant
            i <= b.len(),
            from <= a.len(),
            a.len() - from == b.len(),
            forall|k: int| 0 <= k < i ==> a@[from + k] == #[trigger] b@[k],
        decreases b.len() - i,
    {
        if a[from + i] != b[i] {
            assert(a@.skip(from as int)[i as int] != b@[i as int]);
            return false;
        }
        i += 1;
    }
    assert(a@.skip(from as int) =~= b@);
    true
}

/// The bytes of a name.
pub open spec fn bytes_of(name: Seq<char>) -> Seq<u8> {
    encode_utf8(name)
}

fn is_name(bytes: &Vec<u8>, name: &str) -> (r: bool)
    ensures
        r == (bytes@ == bytes_of(name@)),
{
    assert(bytes@.skip(0) =~= bytes@);
    same_bytes(bytes.as_slice(), name.as_bytes(), 0)
}

/// A tag has a name, with or without a prefix.
pub open spec fn is_tag(tag: Seq<u8>, name: Seq<char>) -> bool {
    let n = bytes_of(name).len();
    ||| tag == bytes_of(name)
    ||| tag.len() > n && tag[tag.len() - n - 1] == 0x3a && tag.skip(tag.len() - n) == bytes_of(name)
}

fn has_tag_name(tag: &Vec<u8>, name: &str) -> (r: bool)
    ensures
        r == is_tag(tag@, name@),
{
    if is_name(tag, name) {
        return true;
    }
    let bytes = name.as_bytes();
    if tag.len() <= bytes.len() {
        return false;
    }
    let at = tag.len() - bytes.len();
    tag[at - 1] == 0x3a && same_bytes(tag.as_slice(), bytes, at)
}

// ---------------------------------------------------------------------------
// The container
// ---------------------------------------------------------------------------
/// The text of the last attribute with a key: none where it is not UTF-8, and
/// what was known before where there is no such attribute.
pub open spec fn last_value(
    attributes: Seq<Option<(Seq<u8>, Seq<u8>)>>,
    key: Seq<char>,
    before: Option<Seq<char>>,
) -> Option<Seq<char>>
    decreases attributes.len(),
{
    if attributes.len() == 0 {
        before
    } else {
        match attributes.last() {
            Some((k, value)) if k == bytes_of(key) => utf8_text(value),
            _ => last_value(attributes.drop_last(), key, before),
        }
    }
}

fn value_of(event: &XmlEvent, key: &str, before: Option<String>) -> (r: Option<String>)
    ensures
        crate::response::opt_text(r) == last_value(
            event@.attributes,
            key@,
            crate::response::opt_text(before),
        ),
{
    let ghost all = event@.attributes;
    let ghost first = crate::response::opt_text(before);
    let mut value = before;
    let mut i: usize = 0;
    assert(all.take(0) =~= Seq::<Option<(Seq<u8>, Seq<u8>)>>::empty());
    while i < event.attributes.len()
        invariant
            i <= event.attributes.len(),
            all == event@.attributes,
            crate::response::opt_text(value) == last_value(all.take(i as int), key@, first),
        decreases event.attributes.len() - i,
    {
        assert(all.take(i + 1).drop_last() =~= all.take(i as int));
        assert(all.take(i + 1).last() == attribute_view(event.attributes@[i as int]));
        if let Some((k, v)) = &event.attributes[i] {
            if is_name(k, key) {
                value = copy_text(v);
            }
        }
        i += 1;
    }
    assert(all.take(all.len() as int) =~= all);
    value
}

/// The path of the package document: that of the last `rootfile`.
pub open spec fn package_path(events: Seq<XmlSpec>) -> Option<Seq<char>>
    decreases events.len(),
{
    if events.len() == 0 {
        None
    } else {
        let before = package_path(events.drop_last());
        let e = events.last();
        if e.kind == XmlKind::Opening && e.name == bytes_of("rootfile"@) {
            last_value(e.attributes, "full-path"@, before)
        } else {
            before
        }
    }
}

/// The path of the package document.
pub fn rootfile_path(events: &Vec<XmlEvent>) -> (r: Option<String>)
    ensures
        crate::response::opt_text(r) == package_path(event_views(events@)),
{
    let ghost all = event_views(events@);
    let mut path: Option<String> = None;
    let mut i: usize = 0;
    assert(all.take(0) =~= Seq::<XmlSpec>::empty());
    while i < events.len()
        invariant
            i <= events.len(),
            all == event_views(events@),
            crate::response::opt_text(path) == package_path(all.take(i as int)),
        decreases events.len() - i,
    {
        assert(all.take(i + 1).drop_last() =~= all.take(i as int));
        assert(all.take(i + 1).last() == events@[i as int]@);
        let event = &events[i];
        if event.kind == XmlKind::Opening && is_name(&event.name, "rootfile") {
            path = value_of(event, "full-path", path);
        }
        i += 1;
    }
    assert(all.take(all.len() as int) =~= all);
    path
}

/// Finds the path of the package document in a container document.
pub fn find_package(container_xml: &str) -> (r: Result<String, String>)
    ensures
        match r {
            Ok(path) => package_path(xml_events(container_xml@)) == Some(path@),
            Err(error) => package_path(xml_events(container_xml@)) is None && error@
                == "No se encontro <rootfile>"@,
        },
{
    let events = read_events(container_xml);
    match rootfile_path(&events) {
        Some(path) => Ok(path),
        None => Err("No se encontro <rootfile>".to_string()),
    }
}

// ---------------------------------------------------------------------------
// Paths
// ---------------------------------------------------------------------------
/// What a path begins with that its parts share: everything through its last
/// slash.
pub open spec fn folder_of(path: Seq<char>) -> Seq<char>
    decreases path.len(),
{
    if path.len() == 0 || path.last() == '/' {
        path
    } else {
        folder_of(path.drop_last())
    }
}

fn folder(path: &str) -> (r: String)
    ensures
        r@ == folder_of(path@),
{
    let chars = crate::text::to_chars(path);
    let mut n = chars.len();
    assert(path@.take(n as int) =~= path@);
    while n > 0 && chars[n - 1] != '/'
        invariant
            n <= chars.len(),
            chars@ == path@,
            folder_of(path@.take(n as int)) == folder_of(path@),
        decreases n,
    {
        assert(path@.take(n as int).drop_last() =~= path@.take(n - 1));
        n -= 1;
    }
    assert(path@.subrange(0, n as int) =~= path@.take(n as int));
    crate::text::from_chars(&chars, 0, n)
}

/// A path without the slashes in front.
pub open spec fn without_slashes(path: Seq<char>) -> Seq<char>
    decreases path.len(),
{
    if path.len() > 0 && path[0] == '/' {
        without_slashes(path.drop_first())
    } else {
        path
    }
}

/// The segments of a path: an empty one and one dot are left out, two dots take
/// back the segment in front.
pub open spec fn resolved(parts: Seq<Seq<char>>) -> Seq<Seq<char>>
    decreases parts.len(),
{
    if parts.len() == 0 {
        Seq::empty()
    } else {
        let before = resolved(parts.drop_last());
        let part = parts.last();
        if part.len() == 0 || part == "."@ {
            before
        } else if part == ".."@ {
            if before.len() > 0 {
                before.drop_last()
            } else {
                before
            }
        } else {
            before.push(part)
        }
    }
}

/// Segments with slashes between them.
pub open spec fn slashed(parts: Seq<Seq<char>>) -> Seq<char>
    decreases parts.len(),
{
    if parts.len() == 0 {
        Seq::empty()
    } else if parts.len() == 1 {
        parts[0]
    } else {
        slashed(parts.drop_last()) + "/"@ + parts.last()
    }
}

/// The path that a reference leads to, from a folder.
pub open spec fn internal_segments(base: Seq<char>, href: Seq<char>) -> Seq<Seq<char>> {
    resolved(
        crate::text::split_on(
            if href.len() > 0 && href[0] == '/' {
                without_slashes(href)
            } else {
                base + href
            },
            '/',
        ),
    )
}

/// No segment of a path is empty, leads nowhere or leads up, or holds a slash.
pub open spec fn clean_segment(part: Seq<char>) -> bool {
    &&& part.len() > 0
    &&& part != "."@
    &&& part != ".."@
    &&& forall|i: int| 0 <= i < part.len() ==> #[trigger] part[i] != '/'
}

/// The parts of a split text do not hold the character that it was split at.
proof fn lemma_split_parts(s: Seq<char>, c: char, k: int, i: int)
    requires
        0 <= k < crate::text::split_on(s, c).len(),
        0 <= i < crate::text::split_on(s, c)[k].len(),
    ensures
        crate::text::split_on(s, c)[k][i] != c,
    decreases s.len(),
{
    crate::text::lemma_first_at(s, c, 0);
    let at = crate::text::first_at(s, c, 0);
    if at < s.len() {
        if k > 0 {
            let rest = crate::text::split_on(s.skip(at + 1), c);
            assert(crate::text::split_on(s, c)[k] == rest[k - 1]);
            lemma_split_parts(s.skip(at + 1), c, k - 1, i);
        }
    }
}

proof fn lemma_resolved_is_clean(parts: Seq<Seq<char>>)
    requires
        forall|k: int, i: int|
            0 <= k < parts.len() && 0 <= i < parts[k].len() ==> #[trigger] parts[k][i] != '/',
    ensures
        forall|k: int| 0 <= k < resolved(parts).len() ==> clean_segment(#[trigger] resolved(parts)[k]),
    decreases parts.len(),
{
    if parts.len() > 0 {
        let init = parts.drop_last();
        assert forall|k: int, i: int| 0 <= k < init.len() && 0 <= i < init[k].len() implies
            #[trigger] init[k][i] != '/' by {
            assert(parts[k][i] != '/');
        }
        lemma_resolved_is_clean(init);
        let last = parts.last();
        assert forall|i: int| 0 <= i < last.len() implies #[trigger] last[i] != '/' by {
            assert(parts[parts.len() - 1][i] != '/');
        }
        let before = resolved(init);
        assert forall|k: int| 0 <= k < resolved(parts).len() implies clean_segment(
            #[trigger] resolved(parts)[k],
        ) by {
            if k < before.len() {
                assert(resolved(parts)[k] == before[k]);
                assert(clean_segment(before[k]));
            }
        }
    }
}

/// A reference never leads out of the book: the path that it leads to has only
/// clean segments.
pub proof fn law_internal_paths_are_clean(base: Seq<char>, href: Seq<char>)
    ensures
        forall|k: int|
            0 <= k < internal_segments(base, href).len() ==> clean_segment(
                #[trigger] internal_segments(base, href)[k],
            ),
{
    let whole = if href.len() > 0 && href[0] == '/' {
        without_slashes(href)
    } else {
        base + href
    };
    let parts = crate::text::split_on(whole, '/');
    assert forall|k: int, i: int| 0 <= k < parts.len() && 0 <= i < parts[k].len() implies
        #[trigger] parts[k][i] != '/' by {
        lemma_split_parts(whole, '/', k, i);
    }
    lemma_resolved_is_clean(parts);
}

/// A text behind one more slash is one more part.
proof fn lemma_split_behind_slash(path: Seq<char>, last: Seq<char>)
    requires
        forall|i: int| 0 <= i < last.len() ==> #[trigger] last[i] != '/',
    ensures
        crate::text::split_on(path + "/"@ + last, '/') == crate::text::split_on(path, '/').push(
            last,
        ),
    decreases path.len(),
{
    reveal_strlit("/");
    let whole = path + "/"@ + last;
    crate::text::lemma_first_at(path, '/', 0);
    crate::text::lemma_first_at(whole, '/', 0);
    let at = crate::text::first_at(path, '/', 0);
    let there = crate::text::first_at(whole, '/', 0);
    assert(whole[path.len() as int] == '/');
    assert(forall|j: int| 0 <= j < path.len() ==> #[trigger] whole[j] == path[j]);
    assert(whole[at] == '/');
    assert(there <= at);
    assert(there < at ==> whole[there] == path[there]);
    assert(whole.take(at) =~= path.take(at));
    if at < path.len() {
        let rest = path.skip(at + 1);
        assert(whole.skip(at + 1) =~= rest + "/"@ + last);
        lemma_split_behind_slash(rest, last);
        let parts = crate::text::split_on(rest, '/');
        assert(seq![path.take(at)] + parts.push(last) =~= (seq![path.take(at)] + parts).push(last));
    } else {
        assert(path.take(at) =~= path);
        assert(whole.skip(at + 1) =~= last);
        lemma_split_whole(last);
        assert(seq![path] + seq![last] =~= seq![path].push(last));
    }
}

/// A text without a slash is one part.
proof fn lemma_split_whole(part: Seq<char>)
    requires
        forall|i: int| 0 <= i < part.len() ==> #[trigger] part[i] != '/',
    ensures
        crate::text::split_on(part, '/') == seq![part],
{
    crate::text::lemma_first_at(part, '/', 0);
}

/// A path of clean segments is split into them again, none of them is left out,
/// and the path does not begin with a slash.
proof fn lemma_clean_path(segments: Seq<Seq<char>>)
    requires
        segments.len() > 0,
        forall|k: int| 0 <= k < segments.len() ==> clean_segment(#[trigger] segments[k]),
    ensures
        crate::text::split_on(slashed(segments), '/') == segments,
        resolved(segments) == segments,
        slashed(segments).len() > 0,
        slashed(segments)[0] != '/',
    decreases segments.len(),
{
    let init = segments.drop_last();
    let last = segments.last();
    assert(clean_segment(segments[segments.len() - 1]));
    assert(init.push(last) =~= segments);
    if segments.len() == 1 {
        lemma_split_whole(last);
        assert(resolved(init) =~= Seq::<Seq<char>>::empty());
        assert(last[0] != '/');
        assert(segments =~= seq![last]);
    } else {
        assert forall|k: int| 0 <= k < init.len() implies clean_segment(#[trigger] init[k]) by {
            assert(init[k] == segments[k]);
        }
        lemma_clean_path(init);
        lemma_split_behind_slash(slashed(init), last);
    }
}

/// A path that was joined is joined to no folder as it is.
pub proof fn law_joined_paths_stay_as_they_are(base: Seq<char>, href: Seq<char>)
    ensures
        slashed(internal_segments(Seq::empty(), slashed(internal_segments(base, href)))) == slashed(
            internal_segments(base, href),
        ),
{
    let segments = internal_segments(base, href);
    let path = slashed(segments);
    assert(Seq::<char>::empty() + path =~= path);
    law_internal_paths_are_clean(base, href);
    if segments.len() > 0 {
        lemma_clean_path(segments);
    } else {
        lemma_split_whole(path);
        assert(resolved(seq![path].drop_last()) =~= Seq::<Seq<char>>::empty());
        assert(resolved(seq![path]) =~= Seq::<Seq<char>>::empty());
    }
}

fn strip_slashes(href: &str) -> (r: String)
    ensures
        r@ == without_slashes(href@),
{
    let chars = crate::text::to_chars(href);
    let mut n: usize = 0;
    assert(href@.skip(0) =~= href@);
    while n < chars.len() && chars[n] == '/'
        invariant
            n <= chars.len(),
            chars@ == href@,
            without_slashes(href@.skip(n as int)) == without_slashes(href@),
        decreases chars.len() - n,
    {
        assert(href@.skip(n as int).drop_first() =~= href@.skip(n + 1));
        assert(href@.skip(n as int)[0] == '/');
        n += 1;
    }
    if n < chars.len() {
        assert(href@.skip(n as int)[0] == href@[n as int]);
    }
    assert(href@.subrange(n as int, href@.len() as int) =~= href@.skip(n as int));
    crate::text::from_chars(&chars, n, chars.len())
}

fn resolve(parts: &Vec<String>) -> (r: Vec<String>)
    ensures
        crate::text::views(r@) == resolved(crate::text::views(parts@)),
{
    let ghost all = crate::text::views(parts@);
    let mut segments: Vec<String> = Vec::new();
    let mut i: usize = 0;
    assert(crate::text::views(segments@) =~= Seq::<Seq<char>>::empty());
    assert(all.take(0) =~= Seq::<Seq<char>>::empty());
    while i < parts.len()
        invariant
            i <= parts.len(),
            all == crate::text::views(parts@),
            crate::text::views(segments@) == resolved(all.take(i as int)),
        decreases parts.len() - i,
    {
        let part = &parts[i];
        let ghost before = segments@;
        assert(all.take(i + 1).drop_last() =~= all.take(i as int));
        assert(all.take(i + 1).last() == part@);
        if part.as_str().is_empty() || same_text(part.as_str(), ".") {
        } else if same_text(part.as_str(), "..") {
            if segments.len() > 0 {
                segments.pop();
                assert(crate::text::views(segments@) =~= crate::text::views(before).drop_last());
            }
        } else {
            let copy = part.clone();
            segments.push(copy);
            assert(crate::text::views(segments@) =~= crate::text::views(before).push(part@));
        }
        i += 1;
    }
    assert(all.take(all.len() as int) =~= all);
    segments
}

fn join_slashed(parts: &Vec<String>) -> (r: String)
    ensures
        r@ == slashed(crate::text::views(parts@)),
{
    let ghost all = crate::text::views(parts@);
    let mut out = String::new();
    let mut i: usize = 0;
    assert(slashed(all.take(0)) =~= Seq::<char>::empty());
    while i < parts.len()
        invariant
            i <= parts.len(),
            all == crate::text::views(parts@),
            out@ == slashed(all.take(i as int)),
        decreases parts.len() - i,
    {
        assert(all.take(i + 1).drop_last() =~= all.take(i as int));
        assert(all.take(i + 1).last() == parts@[i as int]@);
        if i > 0 {
            out.append("/");
        } else {
            assert(all.take(0) =~= Seq::<Seq<char>>::empty());
            assert(Seq::<char>::empty() + parts@[0]@ =~= parts@[0]@);
        }
        out.append(parts[i].as_str());
        i += 1;
    }
    assert(all.take(all.len() as int) =~= all);
    out
}

/// The path that a reference leads to, from a folder of the book.
pub fn join_epub_internal_path(base_path: &str, href: &str) -> (r: String)
    ensures
        r@ == slashed(internal_segments(base_path@, href@)),
{
    let chars = crate::text::to_chars(href);
    let combined = if chars.len() > 0 && chars[0] == '/' {
        strip_slashes(href)
    } else {
        let mut whole = base_path.to_string();
        whole.append(href);
        whole
    };
    let parts = split(combined.as_str(), '/');
    join_slashed(&resolve(&parts))
}

/// A path is that of a page.
pub open spec fn names_page(path: Seq<char>) -> bool {
    let lower = crate::text::ascii_lower(path);
    ||| crate::text::has_suffix(lower, ".xhtml"@)
    ||| crate::text::has_suffix(lower, ".html"@)
    ||| crate::text::has_suffix(lower, ".htm"@)
}

/// Whether a path is that of a page.
pub fn is_html_path(path: &str) -> (r: bool)
    ensures
        r == names_page(path@),
{
    let lower = to_ascii_lowercase(path);
    ends_with(lower.as_str(), ".xhtml") || ends_with(lower.as_str(), ".html") || ends_with(
        lower.as_str(),
        ".htm",
    )
}

// ---------------------------------------------------------------------------
// The reading order
// ---------------------------------------------------------------------------
/// What a package document says: where each item is, which items are read in
/// which order, and whether the order is still being given.
pub struct Package {
    pub manifest: Map<Seq<char>, Seq<char>>,
    pub spine: Seq<Seq<char>>,
    pub in_spine: bool,
}

/// The references of an entry of the reading order.
pub open spec fn references(attributes: Seq<Option<(Seq<u8>, Seq<u8>)>>) -> Seq<Seq<char>>
    decreases attributes.len(),
{
    if attributes.len() == 0 {
        Seq::empty()
    } else {
        let before = references(attributes.drop_last());
        match attributes.last() {
            Some((k, value)) if k == bytes_of("idref"@) && valid_utf8(value) => before.push(
                decode_utf8(value),
            ),
            _ => before,
        }
    }
}

/// What a package document says after one more event.
pub open spec fn package_step(p: Package, e: XmlSpec) -> Package {
    match e.kind {
        XmlKind::Opening => {
            if is_tag(e.name, "item"@) {
                match (last_value(e.attributes, "id"@, None), last_value(e.attributes, "href"@, None)) {
                    (Some(id), Some(href)) => Package { manifest: p.manifest.insert(id, href), ..p },
                    _ => p,
                }
            } else if is_tag(e.name, "spine"@) {
                Package { in_spine: true, ..p }
            } else if is_tag(e.name, "itemref"@) && p.in_spine {
                Package { spine: p.spine + references(e.attributes), ..p }
            } else {
                p
            }
        },
        XmlKind::Closing => if is_tag(e.name, "spine"@) {
            Package { in_spine: false, ..p }
        } else {
            p
        },
        XmlKind::Other => p,
    }
}

/// What a package document says.
pub open spec fn package_of(events: Seq<XmlSpec>) -> Package
    decreases events.len(),
{
    if events.len() == 0 {
        Package { manifest: Map::empty(), spine: Seq::empty(), in_spine: false }
    } else {
        package_step(package_of(events.drop_last()), events.last())
    }
}

/// The paths of the items that are read, in order; an item that is nowhere is
/// left out.
pub open spec fn ordered_paths(
    spine: Seq<Seq<char>>,
    manifest: Map<Seq<char>, Seq<char>>,
    base: Seq<char>,
) -> Seq<Seq<char>>
    decreases spine.len(),
{
    if spine.len() == 0 {
        Seq::empty()
    } else {
        let before = ordered_paths(spine.drop_last(), manifest, base);
        if manifest.contains_key(spine.last()) {
            before.push(slashed(internal_segments(base, manifest[spine.last()])))
        } else {
            before
        }
    }
}

/// A manifest, as characters.
pub open spec fn manifest_view(m: Map<Seq<char>, String>) -> Map<Seq<char>, Seq<char>> {
    m.map_values(|href: String| href@)
}

/// A package document while it is read.
struct PackageReader {
    manifest: StringHashMap<String>,
    spine: Vec<String>,
    in_spine: bool,
}

impl View for PackageReader {
    type V = Package;

    closed spec fn view(&self) -> Package {
        Package {
            manifest: manifest_view(self.manifest@),
            spine: crate::text::views(self.spine@),
            in_spine: self.in_spine,
        }
    }
}

impl PackageReader {
    fn new() -> (r: PackageReader)
        ensures
            r@ == package_of(Seq::empty()),
    {
        let reader = PackageReader {
            manifest: StringHashMap::new(),
            spine: Vec::new(),
            in_spine: false,
        };
        assert(reader@.manifest =~= Map::<Seq<char>, Seq<char>>::empty());
        assert(reader@.spine =~= Seq::<Seq<char>>::empty());
        reader
    }

    fn take(&mut self, event: &XmlEvent)
        ensures
            final(self)@ == package_step(old(self)@, event@),
    {
        match event.kind {
            XmlKind::Opening => {
                if has_tag_name(&event.name, "item") {
                    let id = value_of(event, "id", None);
                    let href = value_of(event, "href", None);
                    if let Some(id) = id {
                        if let Some(href) = href {
                            let ghost (i, h) = (id@, href@);
                            self.manifest.insert(id, href);
                            assert(self@.manifest =~= old(self)@.manifest.insert(i, h));
                        }
                    }
                } else if has_tag_name(&event.name, "spine") {
                    self.in_spine = true;
                } else if has_tag_name(&event.name, "itemref") && self.in_spine {
                    self.take_references(event);
                }
            },
            XmlKind::Closing => {
                if has_tag_name(&event.name, "spine") {
                    self.in_spine = false;
                }
            },
            XmlKind::Other => {},
        }
    }

    fn take_references(&mut self, event: &XmlEvent)
        ensures
            final(self)@ == (Package {
                spine: old(self)@.spine + references(event@.attributes),
                ..old(self)@
            }),
    {
        let ghost all = event@.attributes;
        let ghost first = self@;
        let mut i: usize = 0;
        assert(all.take(0) =~= Seq::<Option<(Seq<u8>, Seq<u8>)>>::empty());
        assert(first.spine + references(all.take(0)) =~= first.spine);
        while i < event.attributes.len()
            invariant
                i <= event.attributes.len(),
                all == event@.attributes,
                self@ == (Package { spine: first.spine + references(all.take(i as int)), ..first }),
            decreases event.attributes.len() - i,
        {
            assert(all.take(i + 1).drop_last() =~= all.take(i as int));
            assert(all.take(i + 1).last() == attribute_view(event.attributes@[i as int]));
            if let Some((k, v)) = &event.attributes[i] {
                if is_name(k, "idref") {
                    if let Some(text) = copy_text(v) {
                        let ghost before = self@.spine;
                        let ghost found = references(all.take(i as int));
                        let ghost t = text@;
                        self.spine.push(text);
                        assert(self@.spine =~= before.push(t));
                        assert((first.spine + found).push(t) =~= first.spine + found.push(t));
                    }
                }
            }
            i += 1;
        }
        assert(all.take(all.len() as int) =~= all);
    }
}

/// The reading order that a package gives; an error where it gives none.
pub open spec fn package_order(package: Package, package_path: Seq<char>) -> Result<
    Seq<Seq<char>>,
    Seq<char>,
> {
    if package.spine.len() == 0 {
        Err("El OPF no declara un orden de lectura"@)
    } else {
        Ok(ordered_paths(package.spine, package.manifest, folder_of(package_path)))
    }
}

/// A reading order, as characters.
pub open spec fn order_view(r: Result<Vec<String>, String>) -> Result<Seq<Seq<char>>, Seq<char>> {
    match r {
        Ok(paths) => Ok(crate::text::views(paths@)),
        Err(error) => Err(error@),
    }
}

/// The reading order that the events of a package document give; an error where
/// they give none.
pub fn order_of_events(events: &Vec<XmlEvent>, package_path: &str) -> (r: Result<
    Vec<String>,
    String,
>)
    ensures
        order_view(r) == package_order(package_of(event_views(events@)), package_path@),
        r is Err <==> package_of(event_views(events@)).spine.len() == 0,
{
    let ghost all = event_views(events@);
    let mut reader = PackageReader::new();
    let mut i: usize = 0;
    assert(all.take(0) =~= Seq::<XmlSpec>::empty());
    while i < events.len()
        invariant
            i <= events.len(),
            all == event_views(events@),
            reader@ == package_of(all.take(i as int)),
        decreases events.len() - i,
    {
        assert(all.take(i + 1).drop_last() =~= all.take(i as int));
        assert(all.take(i + 1).last() == events@[i as int]@);
        reader.take(&events[i]);
        i += 1;
    }
    assert(all.take(all.len() as int) =~= all);
    if reader.spine.len() == 0 {
        assert(reader@.spine.len() == 0);
        return Err("El OPF no declara un orden de lectura".to_string());
    }
    let base = folder(package_path);
    let ghost package = reader@;
    let mut order: Vec<String> = Vec::new();
    let mut k: usize = 0;
    assert(package.spine.take(0) =~= Seq::<Seq<char>>::empty());
    assert(crate::text::views(order@) =~= Seq::<Seq<char>>::empty());
    while k < reader.spine.len()
        invariant
            k <= reader.spine.len(),
            package == reader@,
            base@ == folder_of(package_path@),
            crate::text::views(order@) == ordered_paths(
                package.spine.take(k as int),
                package.manifest,
                base@,
            ),
        decreases reader.spine.len() - k,
    {
        assert(package.spine.take(k + 1).drop_last() =~= package.spine.take(k as int));
        assert(package.spine.take(k + 1).last() == reader.spine@[k as int]@);
        if let Some(href) = reader.manifest.get(reader.spine[k].as_str()) {
            let ghost before = order@;
            let path = join_epub_internal_path(base.as_str(), href.as_str());
            let ghost p = path@;
            order.push(path);
            assert(crate::text::views(order@) =~= crate::text::views(before).push(p));
        }
        k += 1;
    }
    assert(package.spine.take(package.spine.len() as int) =~= package.spine);
    Ok(order)
}

/// The reading order that a package document gives; an error where it gives
/// none.
pub fn reading_order(package_xml: &str, package_path: &str) -> (r: Result<Vec<String>, String>)
    ensures
        order_view(r) == package_order(package_of(xml_events(package_xml@)), package_path@),
        r is Err <==> package_of(xml_events(package_xml@)).spine.len() == 0,
{
    let events = read_events(package_xml);
    order_of_events(&events, package_path)
}

/// The reading order follows the package document: paths come in the order of
/// the entries, and there is one for every entry whose item is known.
pub proof fn law_the_order_is_that_of_the_spine(
    spine: Seq<Seq<char>>,
    manifest: Map<Seq<char>, Seq<char>>,
    base: Seq<char>,
)
    requires
        forall|i: int| 0 <= i < spine.len() ==> manifest.contains_key(#[trigger] spine[i]),
    ensures
        ordered_paths(spine, manifest, base) == Seq::new(
            spine.len(),
            |i: int| slashed(internal_segments(base, manifest[spine[i]])),
        ),
    decreases spine.len(),
{
    if spine.len() > 0 {
        let init = spine.drop_last();
        assert forall|i: int| 0 <= i < init.len() implies manifest.contains_key(
            #[trigger] init[i],
        ) by {
            assert(init[i] == spine[i]);
        }
        law_the_order_is_that_of_the_spine(init, manifest, base);
        assert(spine.last() == spine[spine.len() - 1]);
    }
    assert(ordered_paths(spine, manifest, base) =~= Seq::new(
        spine.len(),
        |i: int| slashed(internal_segments(base, manifest[spine[i]])),
    ));
}

// ---------------------------------------------------------------------------
// What is promised of books
// ---------------------------------------------------------------------------
/// The bytes of a text stand for that text.
pub proof fn law_bytes_stand_for_their_text(text: Seq<char>)
    ensures
        utf8_text(encode_utf8(text)) == Some(text),
        bytes_of(text) == encode_utf8(text),
{
    encode_utf8_valid_utf8(text);
    encode_utf8_decode_utf8(text);
}

/// A tag is told by its name, alone or behind a prefix and a colon, and by
/// nothing else.
pub proof fn law_tags_are_told_by_their_names(tag: Seq<u8>, prefix: Seq<u8>, name: Seq<char>)
    ensures
        is_tag(encode_utf8(name), name),
        is_tag(prefix + seq![0x3au8] + encode_utf8(name), name),
        is_tag(tag, name) ==> tag == encode_utf8(name) || exists|p: Seq<u8>|
            tag == #[trigger] (p + seq![0x3au8] + encode_utf8(name)),
{
    let n = encode_utf8(name).len();
    let whole = prefix + seq![0x3au8] + encode_utf8(name);
    assert(whole.skip(whole.len() - n) =~= encode_utf8(name));
    assert(whole[whole.len() - n - 1] == 0x3a);
    if is_tag(tag, name) && tag != encode_utf8(name) {
        let p = tag.take(tag.len() - n - 1);
        assert(tag =~= p + seq![0x3au8] + tag.skip(tag.len() - n));
        assert(tag == p + seq![0x3au8] + encode_utf8(name));
    }
}

/// The value of an attribute is the text that is written in the last attribute
/// with its key; other attributes, and those that are malformed, change nothing.
pub proof fn law_attributes_have_their_values(
    attributes: Seq<Option<(Seq<u8>, Seq<u8>)>>,
    key: Seq<char>,
    other: Seq<u8>,
    value: Seq<char>,
    before: Option<Seq<char>>,
)
    ensures
        last_value(
            attributes.push(Some((encode_utf8(key), encode_utf8(value)))),
            key,
            before,
        ) == Some(value),
        other != encode_utf8(key) ==> last_value(
            attributes.push(Some((other, encode_utf8(value)))),
            key,
            before,
        ) == last_value(attributes, key, before),
        !valid_utf8(other) ==> last_value(
            attributes.push(Some((encode_utf8(key), other))),
            key,
            before,
        ) is None,
        last_value(attributes.push(None), key, before) == last_value(attributes, key, before),
        last_value(Seq::empty(), key, before) == before,
{
    assert(attributes.push(Some((encode_utf8(key), other))).drop_last() =~= attributes);
    law_bytes_stand_for_their_text(value);
    assert(attributes.push(Some((encode_utf8(key), encode_utf8(value)))).drop_last()
        =~= attributes);
    assert(attributes.push(Some((other, encode_utf8(value)))).drop_last() =~= attributes);
    assert(attributes.push(None).drop_last() =~= attributes);
}

/// The package document is the one that the last `rootfile` of the container
/// names; no other tag names one.
pub proof fn law_the_container_names_the_package(
    events: Seq<XmlSpec>,
    attributes: Seq<Option<(Seq<u8>, Seq<u8>)>>,
    path: Seq<char>,
    other: XmlSpec,
)
    requires
        other.kind != XmlKind::Opening || other.name != encode_utf8("rootfile"@),
    ensures
        package_path(
            events.push(
                XmlSpec {
                    kind: XmlKind::Opening,
                    name: encode_utf8("rootfile"@),
                    attributes: attributes.push(
                        Some((encode_utf8("full-path"@), encode_utf8(path))),
                    ),
                },
            ),
        ) == Some(path),
        package_path(events.push(other)) == package_path(events),
        package_path(Seq::empty()) is None,
{
    let e = XmlSpec {
        kind: XmlKind::Opening,
        name: encode_utf8("rootfile"@),
        attributes: attributes.push(Some((encode_utf8("full-path"@), encode_utf8(path)))),
    };
    assert(events.push(e).drop_last() =~= events);
    assert(events.push(other).drop_last() =~= events);
    law_attributes_have_their_values(
        attributes,
        "full-path"@,
        e.name,
        path,
        package_path(events),
    );
}

/// The folder of a path is everything through its last slash.
pub proof fn law_folders_end_with_a_slash(dir: Seq<char>, name: Seq<char>)
    requires
        forall|i: int| 0 <= i < name.len() ==> #[trigger] name[i] != '/',
    ensures
        folder_of(dir + seq!['/'] + name) == dir + seq!['/'],
        folder_of(name) == Seq::<char>::empty(),
    decreases name.len(),
{
    let path = dir + seq!['/'] + name;
    if name.len() == 0 {
        assert(path =~= dir + seq!['/']);
        assert(path.last() == '/');
        assert(name =~= Seq::empty());
    } else {
        let init = name.drop_last();
        assert forall|i: int| 0 <= i < init.len() implies #[trigger] init[i] != '/' by {
            assert(init[i] == name[i]);
        }
        law_folders_end_with_a_slash(dir, init);
        assert(path.drop_last() =~= dir + seq!['/'] + init);
        assert(path.last() == name[name.len() - 1]);
        assert(name.last() == name[name.len() - 1]);
    }
}

/// Clean segments behind others stay behind them.
proof fn lemma_resolved_add(parts: Seq<Seq<char>>, clean: Seq<Seq<char>>)
    requires
        forall|k: int| 0 <= k < clean.len() ==> clean_segment(#[trigger] clean[k]),
    ensures
        resolved(parts + clean) == resolved(parts) + clean,
    decreases clean.len(),
{
    if clean.len() == 0 {
        assert(parts + clean =~= parts);
        assert(resolved(parts) + clean =~= resolved(parts));
    } else {
        let init = clean.drop_last();
        assert forall|k: int| 0 <= k < init.len() implies clean_segment(#[trigger] init[k]) by {
            assert(init[k] == clean[k]);
        }
        lemma_resolved_add(parts, init);
        assert((parts + clean).drop_last() =~= parts + init);
        assert(clean_segment(clean[clean.len() - 1]));
        assert((resolved(parts) + init).push(clean.last()) =~= resolved(parts) + clean);
    }
}

/// A reference leads on from its folder; two dots in front of it lead up from
/// there, one dot leads nowhere, and a slash in front leads from the top,
/// whatever the folder.
pub proof fn law_references_lead_from_their_folder(
    dir: Seq<Seq<char>>,
    rel: Seq<Seq<char>>,
    base: Seq<char>,
)
    requires
        dir.len() > 0,
        rel.len() > 0,
        forall|k: int| 0 <= k < dir.len() ==> clean_segment(#[trigger] dir[k]),
        forall|k: int| 0 <= k < rel.len() ==> clean_segment(#[trigger] rel[k]),
    ensures
        internal_segments(slashed(dir) + seq!['/'], slashed(rel)) == dir + rel,
        internal_segments(slashed(dir) + seq!['/'], seq!['.', '.', '/'] + slashed(rel))
            == dir.drop_last() + rel,
        internal_segments(slashed(dir) + seq!['/'], seq!['.', '/'] + slashed(rel)) == dir + rel,
        internal_segments(Seq::empty(), slashed(rel)) == rel,
        internal_segments(Seq::empty(), seq!['.', '.', '/'] + slashed(rel)) == rel,
        internal_segments(base, seq!['/'] + slashed(rel)) == rel,
{
    reveal_strlit(".");
    reveal_strlit("..");
    let (d, r) = (slashed(dir), slashed(rel));
    let (up, here) = (seq!['.', '.'], seq!['.']);
    lemma_clean_path(dir);
    lemma_clean_path(rel);
    assert(up =~= ".."@);
    assert(here =~= "."@);
    assert(up != here) by {
        assert(up.len() == 2);
    }
    lemma_split_whole(up);
    lemma_split_whole(here);
    // The folder and the reference.
    crate::text::law_texts_are_split_at_a_character(d, r, '/');
    lemma_resolved_add(dir, rel);
    // One level up.
    crate::text::law_texts_are_split_at_a_character(up, r, '/');
    crate::text::law_texts_are_split_at_a_character(d, up + seq!['/'] + r, '/');
    assert(seq!['.', '.', '/'] + r =~= up + seq!['/'] + r);
    assert(d + seq!['/'] + (seq!['.', '.', '/'] + r) =~= d + seq!['/'] + (up + seq!['/'] + r));
    assert(dir + (seq![up] + rel) =~= dir.push(up) + rel);
    assert(dir.push(up).drop_last() =~= dir);
    lemma_resolved_add(dir.push(up), rel);
    // Nowhere.
    crate::text::law_texts_are_split_at_a_character(here, r, '/');
    crate::text::law_texts_are_split_at_a_character(d, here + seq!['/'] + r, '/');
    assert(seq!['.', '/'] + r =~= here + seq!['/'] + r);
    assert(d + seq!['/'] + (seq!['.', '/'] + r) =~= d + seq!['/'] + (here + seq!['/'] + r));
    assert(dir + (seq![here] + rel) =~= dir.push(here) + rel);
    assert(dir.push(here).drop_last() =~= dir);
    lemma_resolved_add(dir.push(here), rel);
    // From the top.
    let none = Seq::<Seq<char>>::empty();
    assert(resolved(none) =~= none);
    assert(Seq::<char>::empty() + r =~= r);
    assert(Seq::<char>::empty() + (seq!['.', '.', '/'] + r) =~= up + seq!['/'] + r);
    assert(seq![up].drop_last() =~= none);
    assert(resolved(seq![up]) =~= none);
    lemma_resolved_add(seq![up], rel);
    assert(none + rel =~= rel);
    assert((seq!['/'] + r).drop_first() =~= r);
    assert(without_slashes(r) == r);
}

/// Segments have one slash between them.
pub proof fn law_segments_have_slashes_between_them(parts: Seq<Seq<char>>, part: Seq<char>)
    ensures
        parts.len() > 0 ==> slashed(parts.push(part)) == slashed(parts) + seq!['/'] + part,
        slashed(seq![part]) == part,
        slashed(Seq::empty()) == Seq::<char>::empty(),
{
    reveal_strlit("/");
    assert("/"@ =~= seq!['/']);
    assert(parts.push(part).drop_last() =~= parts);
}

/// A page is told by how its name ends, in capitals or not.
pub proof fn law_pages_are_told_by_their_endings(stem: Seq<char>, path: Seq<char>)
    ensures
        names_page(stem + ".xhtml"@),
        names_page(stem + ".html"@),
        names_page(stem + ".htm"@),
        names_page(crate::text::ascii_lower(path)) == names_page(path),
        names_page(path) ==> crate::text::has_suffix(crate::text::ascii_lower(path), ".htm"@)
            || crate::text::has_suffix(crate::text::ascii_lower(path), ".html"@)
            || crate::text::has_suffix(crate::text::ascii_lower(path), ".xhtml"@),
        path.len() > 0 && path.last() != 'l' && path.last() != 'L' && path.last() != 'm'
            && path.last() != 'M' ==> !names_page(path),
        path.len() < 4 ==> !names_page(path),
{
    reveal_strlit(".xhtml");
    reveal_strlit(".html");
    reveal_strlit(".htm");
    let low = crate::text::ascii_lower(stem);
    assert(crate::text::ascii_lower(stem + ".xhtml"@) =~= low + ".xhtml"@);
    assert(crate::text::ascii_lower(stem + ".html"@) =~= low + ".html"@);
    assert(crate::text::ascii_lower(stem + ".htm"@) =~= low + ".htm"@);
    crate::text::law_what_stands_in_a_text_is_found(low, ".xhtml"@, Seq::empty());
    crate::text::law_what_stands_in_a_text_is_found(low, ".html"@, Seq::empty());
    crate::text::law_what_stands_in_a_text_is_found(low, ".htm"@, Seq::empty());
    let lower = crate::text::ascii_lower(path);
    assert(crate::text::ascii_lower(lower) =~= lower);
    if names_page(path) {
        lemma_suffix_last(lower, ".xhtml"@);
        lemma_suffix_last(lower, ".html"@);
        lemma_suffix_last(lower, ".htm"@);
        assert(lower.last() == 'l' || lower.last() == 'm');
    }
}

proof fn lemma_suffix_last(s: Seq<char>, p: Seq<char>)
    requires
        p.len() > 0,
    ensures
        crate::text::has_suffix(s, p) ==> s.len() >= p.len() && s.last() == p.last(),
{
    if crate::text::has_suffix(s, p) {
        let n = s.len() - p.len();
        assert(s.subrange(n, n + p.len())[p.len() - 1] == s.last());
    }
}

/// An item of a package is known by its identifier, with the reference that is
/// written beside it; a later item with the same one takes its place.
pub proof fn law_items_are_known_by_their_identifiers(
    p: Package,
    attributes: Seq<Option<(Seq<u8>, Seq<u8>)>>,
    name: Seq<u8>,
    id: Seq<char>,
    href: Seq<char>,
)
    requires
        is_tag(name, "item"@),
        last_value(attributes, "id"@, None) == Some(id),
        last_value(attributes, "href"@, None) == Some(href),
    ensures
        ({
            let q = package_step(p, XmlSpec { kind: XmlKind::Opening, name, attributes });
            &&& q.manifest.contains_key(id)
            &&& q.manifest[id] == href
            &&& forall|other: Seq<char>|
                other != id ==> (#[trigger] q.manifest.contains_key(other)
                    <==> p.manifest.contains_key(other))
            &&& forall|other: Seq<char>|
                other != id && #[trigger] p.manifest.contains_key(other) ==> q.manifest[other]
                    == p.manifest[other]
            &&& q.spine == p.spine
            &&& q.in_spine == p.in_spine
        }),
{
}

/// The entries of a reading order are read one after another between the tag
/// that opens it and the one that closes it, and nowhere else.
pub proof fn law_entries_are_read_inside_the_spine(
    p: Package,
    name: Seq<u8>,
    attributes: Seq<Option<(Seq<u8>, Seq<u8>)>>,
)
    ensures
        is_tag(name, "spine"@) && !is_tag(name, "item"@) ==> package_step(
            p,
            XmlSpec { kind: XmlKind::Opening, name, attributes },
        ) == (Package { in_spine: true, ..p }),
        is_tag(name, "spine"@) ==> package_step(
            p,
            XmlSpec { kind: XmlKind::Closing, name, attributes },
        ) == (Package { in_spine: false, ..p }),
        is_tag(name, "itemref"@) && !is_tag(name, "item"@) && !is_tag(name, "spine"@)
            && p.in_spine ==> package_step(
            p,
            XmlSpec { kind: XmlKind::Opening, name, attributes },
        ) == (Package { spine: p.spine + references(attributes), ..p }),
        is_tag(name, "itemref"@) && !is_tag(name, "item"@) && !is_tag(name, "spine"@)
            && !p.in_spine ==> package_step(
            p,
            XmlSpec { kind: XmlKind::Opening, name, attributes },
        ) == p,
        !is_tag(name, "item"@) && !is_tag(name, "spine"@) && !is_tag(name, "itemref"@)
            ==> package_step(p, XmlSpec { kind: XmlKind::Opening, name, attributes }) == p,
        !is_tag(name, "spine"@) ==> package_step(
            p,
            XmlSpec { kind: XmlKind::Closing, name, attributes },
        ) == p,
        package_step(p, XmlSpec { kind: XmlKind::Other, name, attributes }) == p,
{
}

/// The tags of items, of the reading order and of its entries are not taken for
/// one another, with a prefix or without.
pub proof fn law_package_tags_differ(prefix: Seq<u8>)
    ensures
        ({
            let (item, entry, spine) = (
                encode_utf8("item"@),
                encode_utf8("itemref"@),
                encode_utf8("spine"@),
            );
            let front = prefix + seq![0x3au8];
            &&& !is_tag(entry, "item"@) && !is_tag(front + entry, "item"@)
            &&& !is_tag(entry, "spine"@) && !is_tag(front + entry, "spine"@)
            &&& !is_tag(spine, "item"@) && !is_tag(front + spine, "item"@)
            &&& !is_tag(spine, "itemref"@) && !is_tag(front + spine, "itemref"@)
            &&& !is_tag(item, "spine"@) && !is_tag(front + item, "spine"@)
            &&& !is_tag(item, "itemref"@) && !is_tag(front + item, "itemref"@)
        }),
{
    reveal_strlit("item");
    reveal_strlit("itemref");
    reveal_strlit("spine");
    lemma_ascii_bytes("item"@);
    lemma_ascii_bytes("itemref"@);
    lemma_ascii_bytes("spine"@);
    assert(encode_utf8("item"@)[3] as u32 == 0x6d);
    assert(encode_utf8("itemref"@)[6] as u32 == 0x66);
    assert(encode_utf8("spine"@)[4] as u32 == 0x65);
    let front = prefix + seq![0x3au8];
    lemma_tag_last(front, "item"@);
    lemma_tag_last(front, "itemref"@);
    lemma_tag_last(front, "spine"@);
}

/// A tag ends as its name does.
proof fn lemma_tag_last(front: Seq<u8>, name: Seq<char>)
    requires
        encode_utf8(name).len() > 0,
    ensures
        forall|tag: Seq<u8>|
            tag.len() > 0 && #[trigger] is_tag(tag, name) ==> tag.last() == encode_utf8(
                name,
            ).last(),
        (front + encode_utf8(name)).last() == encode_utf8(name).last(),
{
    let n = encode_utf8(name).len();
    assert forall|tag: Seq<u8>| tag.len() > 0 && #[trigger] is_tag(tag, name) implies tag.last()
        == encode_utf8(name).last() by {
        if tag != encode_utf8(name) {
            assert(tag.skip(tag.len() - n)[n - 1] == tag.last());
        }
    }
}

/// ASCII characters are their own bytes.
proof fn lemma_ascii_bytes(s: Seq<char>)
    requires
        forall|i: int| 0 <= i < s.len() ==> #[trigger] s[i] as u32 <= 0x7f,
    ensures
        encode_utf8(s).len() == s.len(),
        forall|i: int| 0 <= i < s.len() ==> #[trigger] encode_utf8(s)[i] as u32 == s[i] as u32,
    decreases s.len(),
{
    if s.len() > 0 {
        let rest = s.drop_first();
        assert forall|i: int| 0 <= i < rest.len() implies #[trigger] rest[i] as u32 <= 0x7f by {
            assert(rest[i] == s[i + 1]);
        }
        lemma_ascii_bytes(rest);
        assert(s[0] as u32 <= 0x7f);
        let c = s[0] as u32;
        let one = encode_scalar(c);
        assert(one.len() == 1 && one[0] as u32 == c) by {
            assert((c & 0x7f) as u8 as u32 == c) by (bit_vector)
                requires
                    c <= 0x7f,
            ;
        }
        assert forall|i: int| 0 <= i < s.len() implies #[trigger] encode_utf8(s)[i] as u32
            == s[i] as u32 by {
            if i > 0 {
                assert(encode_utf8(s)[i] == encode_utf8(rest)[i - 1]);
                assert(rest[i - 1] == s[i]);
            }
        }
    }
}

/// What an entry refers to is what is written in it.
pub proof fn law_entries_refer_to_items(
    attributes: Seq<Option<(Seq<u8>, Seq<u8>)>>,
    id: Seq<char>,
    other: Seq<u8>,
    value: Seq<u8>,
)
    ensures
        references(attributes.push(Some((encode_utf8("idref"@), encode_utf8(id))))) == references(
            attributes,
        ) + seq![id],
        other != encode_utf8("idref"@) ==> references(attributes.push(Some((other, value))))
            == references(attributes),
        !valid_utf8(value) ==> references(attributes.push(Some((encode_utf8("idref"@), value))))
            == references(attributes),
        references(attributes.push(None)) == references(attributes),
        references(Seq::empty()) == Seq::<Seq<char>>::empty(),
{
    law_bytes_stand_for_their_text(id);
    assert(attributes.push(Some((encode_utf8("idref"@), encode_utf8(id)))).drop_last()
        =~= attributes);
    assert(attributes.push(Some((other, value))).drop_last() =~= attributes);
    assert(attributes.push(Some((encode_utf8("idref"@), value))).drop_last() =~= attributes);
    assert(attributes.push(None).drop_last() =~= attributes);
    assert(references(attributes).push(id) =~= references(attributes) + seq![id]);
}

/// A document is read event by event, from its beginning.
pub proof fn law_packages_are_read_event_by_event(events: Seq<XmlSpec>, e: XmlSpec)
    ensures
        package_of(events.push(e)) == package_step(package_of(events), e),
        package_of(Seq::empty()).spine.len() == 0,
        package_of(Seq::empty()).manifest == Map::<Seq<char>, Seq<char>>::empty(),
        !package_of(Seq::empty()).in_spine,
{
    assert(events.push(e).drop_last() =~= events);
}

/// An entry whose item is known is read at the path that the item's reference
/// leads to from the folder of the package; one whose item is not known is left
/// out. A package without entries gives no order.
pub proof fn law_entries_are_read_where_their_items_are(
    package: Package,
    path: Seq<char>,
    spine: Seq<Seq<char>>,
    id: Seq<char>,
    manifest: Map<Seq<char>, Seq<char>>,
    base: Seq<char>,
)
    ensures
        manifest.contains_key(id) ==> ordered_paths(spine.push(id), manifest, base)
            == ordered_paths(spine, manifest, base) + seq![
            slashed(internal_segments(base, manifest[id])),
        ],
        !manifest.contains_key(id) ==> ordered_paths(spine.push(id), manifest, base)
            == ordered_paths(spine, manifest, base),
        ordered_paths(Seq::empty(), manifest, base) == Seq::<Seq<char>>::empty(),
        package.spine.len() == 0 ==> package_order(package, path) == Err::<
            Seq<Seq<char>>,
            Seq<char>,
        >("El OPF no declara un orden de lectura"@),
        package.spine.len() > 0 ==> package_order(package, path) == Ok::<
            Seq<Seq<char>>,
            Seq<char>,
        >(ordered_paths(package.spine, package.manifest, folder_of(path))),
{
    assert(spine.push(id).drop_last() =~= spine);
    let there = slashed(internal_segments(base, manifest[id]));
    let before = ordered_paths(spine, manifest, base);
    assert(before.push(there) =~= before + seq![there]);
}

/// An item without an identifier or without a reference is not known.
pub proof fn law_items_without_a_reference_are_not_known(p: Package, e: XmlSpec)
    requires
        e.kind == XmlKind::Opening,
        is_tag(e.name, "item"@),
        last_value(e.attributes, "id"@, None) is None || last_value(e.attributes, "href"@, None)
            is None,
    ensures
        package_step(p, e) == p,
{
}

/// Paths are followed segment by segment: a name leads on, two dots lead back
/// where that is possible, one dot and an empty segment lead nowhere.
pub proof fn law_paths_are_followed_segment_by_segment(
    parts: Seq<Seq<char>>,
    name: Seq<char>,
    base: Seq<char>,
    href: Seq<char>,
)
    ensures
        name.len() > 0 && name != seq!['.'] && name != seq!['.', '.'] ==> resolved(
            parts.push(name),
        ) == resolved(parts) + seq![name],
        resolved(parts.push(Seq::empty())) == resolved(parts),
        resolved(parts.push(seq!['.'])) == resolved(parts),
        resolved(parts).len() > 0 ==> resolved(parts.push(seq!['.', '.'])) == resolved(
            parts,
        ).drop_last(),
        resolved(parts).len() == 0 ==> resolved(parts.push(seq!['.', '.'])).len() == 0,
        resolved(Seq::empty()).len() == 0,
        href.len() > 0 && href[0] != '/' ==> internal_segments(base, href) == resolved(
            crate::text::split_on(base + href, '/'),
        ),
        internal_segments(base, seq!['/'] + href) == internal_segments(Seq::empty(), href),
{
    reveal_strlit(".");
    reveal_strlit("..");
    assert(seq!['.'] =~= "."@);
    assert(seq!['.', '.'] =~= ".."@);
    assert(seq!['.'].len() != seq!['.', '.'].len());
    assert(parts.push(name).drop_last() =~= parts);
    assert(parts.push(Seq::empty()).drop_last() =~= parts);
    assert(parts.push(seq!['.']).drop_last() =~= parts);
    assert(parts.push(seq!['.', '.']).drop_last() =~= parts);
    assert(resolved(parts).push(name) =~= resolved(parts) + seq![name]);
    assert((seq!['/'] + href)[0] == '/');
    assert((seq!['/'] + href).drop_first() =~= href);
    assert(without_slashes(seq!['/'] + href) == without_slashes(href));
    assert(Seq::<char>::empty() + href =~= href);
    if href.len() == 0 || href[0] != '/' {
        assert(without_slashes(href) == href);
    }
}

/// Events, attributes and orders stand for what they hold.
pub proof fn law_events_stand_for_what_they_hold(
    events: Seq<XmlEvent>,
    key: Vec<u8>,
    value: Vec<u8>,
    i: int,
    paths: Vec<String>,
    error: String,
)
    requires
        0 <= i < events.len(),
    ensures
        event_views(events).len() == events.len(),
        event_views(events)[i].kind == events[i].kind,
        event_views(events)[i].name == events[i].name@,
        event_views(events)[i].attributes == attribute_views(events[i].attributes@),
        attribute_view(Some((key, value))) == Some((key@, value@)),
        attribute_view(None) is None,
        forall|k: int|
            0 <= k < events[i].attributes@.len() ==> #[trigger] attribute_views(
                events[i].attributes@,
            )[k] == attribute_view(events[i].attributes@[k]),
        attribute_views(events[i].attributes@).len() == events[i].attributes@.len(),
        order_view(Ok(paths)) == Ok::<Seq<Seq<char>>, Seq<char>>(crate::text::views(paths@)),
        order_view(Err(error)) == Err::<Seq<Seq<char>>, Seq<char>>(error@),
{
}

} // verus!
