//! Reading an Ableton Live set (`.als`): the sample references it holds,
//! with the track, group and container each one sits in.
//!
//! A set is gzip-compressed XML. It is decompressed (flate2) and read as a
//! stream of markup events (quick-xml), each tag's attributes read by
//! quick-xml's attribute iterator; these results are named, as functions of
//! their input. The events drive a state machine, specified step by step
//! below, that keeps a table of tracks with their parents, the stack of
//! open tracks and containers, and the fields of the sample reference being
//! read. At the end each sample's group path is resolved against the final
//! track table.

use vstd::prelude::*;
use std::io::Read;
use quick_xml::events::Event;
use crate::dedup::opt_view;
use crate::error::ScanError;
use crate::paths::{file_name, file_name_of, file_stem, file_stem_of, join_of, join_path, sub_chars};
use crate::readonly::ReadOnlyProject;
use crate::text::{
    chars_eq, chars_of, concat_str, copy_opt_string, copy_strings, string_eq, string_of, trim_chars, trim_ws, views,
};

verus! {

// ---------------------------------------------------------------------------
// Result types
// ---------------------------------------------------------------------------

/// Where a sample reference sits in the set.
#[derive(Debug, Clone, Copy, PartialEq, Eq, Structural)]
pub enum SampleContext {
    AudioClip,
    TakeLane,
    Sampler,
    Unknown,
}

/// One occurrence of a sample reference inside a project. Several may point
/// at the same file (different clips, take lanes, sampler slots).
#[derive(Debug, Clone)]
pub struct SampleOccurrence {
    /// The on-disk path Ableton currently uses.
    pub path: String,
    /// File name only.
    pub filename: String,
    /// File size declared by the set (`OriginalFileSize`).
    pub declared_size: Option<u64>,
    /// CRC declared by the set (`OriginalCrc`).
    pub declared_crc: Option<u64>,
    /// Path before Ableton re-homed the sample, if recorded.
    pub original_path: Option<String>,
    /// Name of the track holding the reference.
    pub track_name: Option<String>,
    /// Names of the enclosing group tracks, outermost first, ending with the
    /// containing track.
    pub group_path: Vec<String>,
    /// Project name (the set's file stem).
    pub project_name: String,
    /// Project folder.
    pub project_root: String,
    /// Container the reference appeared in.
    pub context: SampleContext,
}

/// Mathematical form of a sample occurrence.
pub struct SampleView {
    pub path: Seq<char>,
    pub filename: Seq<char>,
    pub declared_size: Option<u64>,
    pub declared_crc: Option<u64>,
    pub original_path: Option<Seq<char>>,
    pub track_name: Option<Seq<char>>,
    pub group_path: Seq<Seq<char>>,
    pub project_name: Seq<char>,
    pub project_root: Seq<char>,
    pub context: SampleContext,
}

impl View for SampleOccurrence {
    type V = SampleView;

    open spec fn view(&self) -> SampleView {
        SampleView {
            path: self.path@,
            filename: self.filename@,
            declared_size: self.declared_size,
            declared_crc: self.declared_crc,
            original_path: opt_view(self.original_path),
            track_name: opt_view(self.track_name),
            group_path: views(self.group_path@),
            project_name: self.project_name@,
            project_root: self.project_root@,
            context: self.context,
        }
    }
}

/// The views of a sequence of sample occurrences.
pub open spec fn sample_views(v: Seq<SampleOccurrence>) -> Seq<SampleView> {
    v.map_values(|s: SampleOccurrence| s@)
}

/// Everything read from one project.
#[derive(Debug, Clone)]
pub struct ProjectAnalysis {
    pub project_name: String,
    pub project_root: String,
    pub als_path: String,
    pub samples: Vec<SampleOccurrence>,
}

// ---------------------------------------------------------------------------
// Outside readers: gzip, XML events, byte decoding, entity unescaping
// ---------------------------------------------------------------------------

/// What reading a gzip stream to its end gives for the given bytes: the
/// decompressed bytes, or the text of the I/O error that stopped it.
pub uninterp spec fn gunzip_of(data: Seq<u8>) -> Result<Seq<u8>, Seq<char>>;

/// flate2's `read::GzDecoder` over `data`, read to the end. The result is
/// named `gunzip_of`; nothing more is claimed of it.
#[verifier::external_body]
fn gunzip(data: &[u8]) -> (r: Result<Vec<u8>, String>)
    ensures
        match r {
            Ok(v) => gunzip_of(data@) == Ok::<Seq<u8>, Seq<char>>(v@),
            Err(m) => gunzip_of(data@) == Err::<Seq<u8>, Seq<char>>(m@),
        },
{
    let mut out = Vec::new();
    match flate2::read::GzDecoder::new(data).read_to_end(&mut out) {
        Ok(_) => Ok(out),
        Err(e) => Err(e.to_string()),
    }
}

/// The kind of a markup event.
#[derive(Debug, Clone, Copy, PartialEq, Eq, Structural)]
pub enum XmlKind {
    /// An opening tag `<a ...>`.
    Start,
    /// A self-closing tag `<a .../>`.
    Empty,
    /// A closing tag `</a>`.
    End,
    /// Anything else: text, comments, declarations, ...
    Other,
}

/// One markup event, as the XML reader yields it.
#[derive(Debug, Clone)]
pub struct XmlEvent {
    pub kind: XmlKind,
    /// The element's local name (without a namespace prefix); empty for
    /// `Other`.
    pub name: Vec<u8>,
    /// For `Start` and `Empty`, the well-formed attributes in document
    /// order, each as its key and its raw (still escaped) value.
    pub attrs: Vec<(Vec<u8>, Vec<u8>)>,
}

/// Mathematical form of a markup event.
pub struct XmlEventView {
    pub kind: XmlKind,
    pub name: Seq<u8>,
    pub attrs: Seq<(Seq<u8>, Seq<u8>)>,
}

impl View for XmlEvent {
    type V = XmlEventView;

    open spec fn view(&self) -> XmlEventView {
        XmlEventView {
            kind: self.kind,
            name: self.name@,
            attrs: self.attrs@.map_values(|a: (Vec<u8>, Vec<u8>)| (a.0@, a.1@)),
        }
    }
}

/// The views of a sequence of events.
pub open spec fn event_views(v: Seq<XmlEvent>) -> Seq<XmlEventView> {
    v.map_values(|e: XmlEvent| e@)
}

/// What quick-xml's reader yields for a document with the given bytes, up
/// to the end of input: each event's kind and raw bytes, or the text of
/// the first error. The bytes of an opening or self-closing tag are those
/// between `<` and `>` (without the closing `/`), name and attributes; of a
/// closing tag, its name; of any other event, none.
pub uninterp spec fn xml_events_of(text: Seq<u8>) -> Result<Seq<(XmlKind, Seq<u8>)>, Seq<char>>;

/// quick-xml's `Reader::read_event` over `text`, with text trimming on,
/// until `Eof`: every event's kind and raw bytes, or the first error's
/// text. The result is named `xml_events_of`; nothing more is claimed of
/// it.
#[verifier::external_body]
fn xml_events(text: &[u8]) -> (r: Result<Vec<(XmlKind, Vec<u8>)>, String>)
    ensures
        match r {
            Ok(v) => xml_events_of(text@) == Ok::<Seq<(XmlKind, Seq<u8>)>, Seq<char>>(
                v@.map_values(|e: (XmlKind, Vec<u8>)| (e.0, e.1@)),
            ),
            Err(m) => xml_events_of(text@) == Err::<Seq<(XmlKind, Seq<u8>)>, Seq<char>>(m@),
        },
{
    let mut rd = quick_xml::Reader::from_reader(text);
    rd.config_mut().trim_text(true);
    let mut out = Vec::new();
    loop {
        out.push(match rd.read_event() {
            Ok(Event::Start(e)) => (XmlKind::Start, e.to_vec()),
            Ok(Event::Empty(e)) => (XmlKind::Empty, e.to_vec()),
            Ok(Event::End(e)) => (XmlKind::End, e.to_vec()),
            Ok(Event::Eof) => return Ok(out),
            Ok(_) => (XmlKind::Other, Vec::new()),
            Err(err) => return Err(err.to_string()),
        });
    }
}

/// What quick-xml's attribute iterator yields over the given attribute
/// text: the well-formed attributes in order, each as its key and raw
/// value.
pub uninterp spec fn attributes_of(s: Seq<char>) -> Seq<(Seq<u8>, Seq<u8>)>;

/// quick-xml's `Attributes` over `s` (duplicates not checked), malformed
/// attributes skipped. The result is named `attributes_of`; nothing more
/// is claimed of it.
#[verifier::external_body]
fn tag_attributes(s: &str) -> (r: Vec<(Vec<u8>, Vec<u8>)>)
    ensures
        r@.map_values(|p: (Vec<u8>, Vec<u8>)| (p.0@, p.1@)) == attributes_of(s@),
{
    let mut a = quick_xml::events::attributes::Attributes::new(s, 0);
    a.with_checks(false);
    a.flatten().map(|x| (x.key.as_ref().to_vec(), x.value.to_vec())).collect()
}

/// XML whitespace.
pub open spec fn is_xml_space(b: u8) -> bool {
    b == 0x20 || b == 0x0d || b == 0x0a || b == 0x09
}

/// Length of a tag's name: up to the first XML whitespace at or after `i`.
pub open spec fn name_len_from(c: Seq<u8>, i: int) -> int
    decreases c.len() - i,
{
    if i < 0 || i >= c.len() {
        c.len() as int
    } else if is_xml_space(c[i]) {
        i
    } else {
        name_len_from(c, i + 1)
    }
}

/// A qualified name without its namespace prefix: what follows the first
/// `:`, or the whole name.
pub open spec fn local_from(n: Seq<u8>, i: int) -> Seq<u8>
    decreases n.len() - i,
{
    if i < 0 || i >= n.len() {
        n
    } else if n[i] == 0x3a {
        n.skip(i + 1)
    } else {
        local_from(n, i + 1)
    }
}

/// The event the reader's raw event stands for: a tag's local name and
/// attributes, a closing tag's local name.
pub open spec fn event_of(kind: XmlKind, raw: Seq<u8>) -> XmlEventView {
    match kind {
        XmlKind::Start | XmlKind::Empty => {
            let n = name_len_from(raw, 0);
            XmlEventView {
                kind,
                name: local_from(raw.take(n), 0),
                attrs: attributes_of(utf8_lossy_of(raw.skip(n))),
            }
        },
        XmlKind::End => XmlEventView { kind, name: local_from(raw, 0), attrs: Seq::empty() },
        XmlKind::Other => XmlEventView { kind, name: Seq::empty(), attrs: Seq::empty() },
    }
}

/// The events the reader's raw events stand for.
pub open spec fn events_of(raw: Seq<(XmlKind, Seq<u8>)>) -> Seq<XmlEventView> {
    raw.map_values(|e: (XmlKind, Seq<u8>)| event_of(e.0, e.1))
}

proof fn lemma_name_len(c: Seq<u8>, i: int)
    requires
        0 <= i <= c.len(),
    ensures
        i <= name_len_from(c, i) <= c.len(),
    decreases c.len() - i,
{
    if i < c.len() && !is_xml_space(c[i]) {
        lemma_name_len(c, i + 1);
    }
}

/// The bytes `v[a..b]`.
fn sub_bytes(v: &Vec<u8>, a: usize, b: usize) -> (r: Vec<u8>)
    requires
        a <= b <= v@.len(),
    ensures
        r@ == v@.subrange(a as int, b as int),
{
    let mut out: Vec<u8> = Vec::new();
    let mut i: usize = a;
    while i < b
        invariant
            a <= i <= b,
            b <= v@.len(),
            out@ == v@.subrange(a as int, i as int),
        decreases b - i,
    {
        out.push(v[i]);
        assert(v@.subrange(a as int, i + 1) =~= v@.subrange(a as int, i as int).push(v@[i as int]));
        i = i + 1;
    }
    out
}

/// A qualified name without its namespace prefix.
fn local_name(n: &Vec<u8>) -> (r: Vec<u8>)
    ensures
        r@ == local_from(n@, 0),
{
    let mut i: usize = 0;
    while i < n.len()
        invariant
            i <= n@.len(),
            local_from(n@, 0) == local_from(n@, i as int),
        decreases n.len() - i,
    {
        if n[i] == 0x3a {
            assert(n@.skip(i + 1) =~= n@.subrange(i + 1, n@.len() as int));
            return sub_bytes(n, i + 1, n.len());
        }
        i = i + 1;
    }
    sub_bytes(n, 0, n.len())
}

/// The event a raw event of the reader stands for.
fn make_event(kind: XmlKind, raw: &Vec<u8>) -> (r: XmlEvent)
    ensures
        r@ == event_of(kind, raw@),
{
    match kind {
        XmlKind::Start | XmlKind::Empty => {
            let mut n: usize = 0;
            while n < raw.len() && !(raw[n] == 0x20 || raw[n] == 0x0d || raw[n] == 0x0a || raw[n] == 0x09)
                invariant
                    n <= raw@.len(),
                    name_len_from(raw@, 0) == name_len_from(raw@, n as int),
                decreases raw.len() - n,
            {
                n = n + 1;
            }
            let name = local_name(&sub_bytes(raw, 0, n));
            assert(raw@.take(n as int) =~= raw@.subrange(0, n as int));
            let rest = sub_bytes(raw, n, raw.len());
            assert(raw@.skip(n as int) =~= raw@.subrange(n as int, raw@.len() as int));
            let text = utf8_lossy(rest.as_slice());
            let attrs = tag_attributes(text.as_str());
            let e = XmlEvent { kind, name, attrs };
            assert(e@.attrs =~= event_of(kind, raw@).attrs);
            e
        },
        XmlKind::End => {
            let e = XmlEvent { kind, name: local_name(raw), attrs: Vec::new() };
            assert(e@.attrs =~= Seq::<(Seq<u8>, Seq<u8>)>::empty());
            e
        },
        XmlKind::Other => {
            let e = XmlEvent { kind, name: Vec::new(), attrs: Vec::new() };
            assert(e@.attrs =~= Seq::<(Seq<u8>, Seq<u8>)>::empty());
            assert(e@.name =~= Seq::<u8>::empty());
            e
        },
    }
}

/// The events the reader's raw events stand for, in order.
fn make_events(raw: &Vec<(XmlKind, Vec<u8>)>) -> (r: Vec<XmlEvent>)
    ensures
        event_views(r@) == events_of(raw@.map_values(|e: (XmlKind, Vec<u8>)| (e.0, e.1@))),
{
    let ghost rv = raw@.map_values(|e: (XmlKind, Vec<u8>)| (e.0, e.1@));
    let mut out: Vec<XmlEvent> = Vec::new();
    let mut i: usize = 0;
    while i < raw.len()
        invariant
            i <= raw@.len(),
            rv == raw@.map_values(|e: (XmlKind, Vec<u8>)| (e.0, e.1@)),
            event_views(out@) =~= events_of(rv).take(i as int),
        decreases raw.len() - i,
    {
        let e = make_event(raw[i].0, &raw[i].1);
        let ghost before = event_views(out@);
        out.push(e);
        assert(event_views(out@) =~= before.push(events_of(rv)[i as int]));
        assert(events_of(rv).take(i + 1) =~= events_of(rv).take(i as int).push(events_of(rv)[i as int]));
        i = i + 1;
    }
    assert(events_of(rv).take(raw@.len() as int) =~= events_of(rv));
    out
}

/// What `String::from_utf8_lossy` gives for the given bytes.
pub uninterp spec fn utf8_lossy_of(b: Seq<u8>) -> Seq<char>;

/// `String::from_utf8_lossy`: the bytes decoded as UTF-8, each invalid
/// sequence replaced by U+FFFD. Claimed: the result is named
/// `utf8_lossy_of`, and valid UTF-8 decodes to its characters.
#[verifier::external_body]
fn utf8_lossy(b: &[u8]) -> (r: String)
    ensures
        r@ == utf8_lossy_of(b@),
        vstd::utf8::valid_utf8(b@) ==> r@ == vstd::utf8::decode_utf8(b@),
{
    String::from_utf8_lossy(b).into_owned()
}

/// What quick-xml's `escape::unescape` gives for the given text: the text
/// with its entity and character references replaced, or `None` on a
/// malformed or unknown reference.
pub uninterp spec fn xml_unescape_of(s: Seq<char>) -> Option<Seq<char>>;

/// quick-xml's `escape::unescape`. Claimed: the result is named
/// `xml_unescape_of`, and text without `&` comes back unchanged.
#[verifier::external_body]
fn xml_unescape(s: &str) -> (r: Option<String>)
    ensures
        opt_view(r) == xml_unescape_of(s@),
        !s@.contains('&') ==> opt_view(r) == Some(s@),
{
    match quick_xml::escape::unescape(s) {
        Ok(u) => Some(u.into_owned()),
        Err(_) => None,
    }
}

// ---------------------------------------------------------------------------
// Attributes
// ---------------------------------------------------------------------------

/// The raw value of the first attribute at or after `i` whose key reads
/// `key`.
pub open spec fn attr_from(attrs: Seq<(Seq<u8>, Seq<u8>)>, key: Seq<char>, i: int) -> Option<Seq<u8>>
    decreases attrs.len() - i,
{
    if i < 0 || i >= attrs.len() {
        None
    } else if utf8_lossy_of(attrs[i].0) == key {
        Some(attrs[i].1)
    } else {
        attr_from(attrs, key, i + 1)
    }
}

/// An attribute value as text: decoded lossily, then unescaped where that
/// succeeds.
pub open spec fn decode_value(raw: Seq<u8>) -> Seq<char> {
    let s = utf8_lossy_of(raw);
    match xml_unescape_of(s) {
        Some(u) => u,
        None => s,
    }
}

/// The value of the first attribute of `tag` named `key`.
pub open spec fn attr_of(tag: XmlEventView, key: Seq<char>) -> Option<Seq<char>> {
    match attr_from(tag.attrs, key, 0) {
        Some(raw) => Some(decode_value(raw)),
        None => None,
    }
}

/// The value of the first attribute of `tag` named `key`.
pub fn attr(tag: &XmlEvent, key: &str) -> (r: Option<String>)
    ensures
        opt_view(r) == attr_of(tag@, key@),
{
    let k = chars_of(key);
    let mut i: usize = 0;
    while i < tag.attrs.len()
        invariant
            i <= tag.attrs@.len(),
            k@ == key@,
            attr_from(tag@.attrs, key@, 0) == attr_from(tag@.attrs, key@, i as int),
        decreases tag.attrs.len() - i,
    {
        let name = utf8_lossy(tag.attrs[i].0.as_slice());
        let nc = chars_of(name.as_str());
        if chars_eq(&nc, &k) {
            let raw = utf8_lossy(tag.attrs[i].1.as_slice());
            let v = match xml_unescape(raw.as_str()) {
                Some(u) => u,
                None => raw,
            };
            return Some(v);
        }
        i = i + 1;
    }
    None
}

// ---------------------------------------------------------------------------
// Numbers
// ---------------------------------------------------------------------------

/// Every character is an ASCII digit.
pub open spec fn all_digits(s: Seq<char>) -> bool {
    forall|i: int| 0 <= i < s.len() ==> '0' <= #[trigger] s[i] && s[i] <= '9'
}

/// The decimal value of a string of digits.
pub open spec fn digits_value(s: Seq<char>) -> nat
    decreases s.len(),
{
    if s.len() == 0 {
        0
    } else {
        digits_value(s.drop_last()) * 10 + ((s.last() as u32) - ('0' as u32)) as nat
    }
}

/// `str::parse::<u64>`: an optional `+`, then one or more ASCII digits
/// whose value fits in a `u64`.
pub open spec fn parse_u64_spec(s: Seq<char>) -> Option<u64> {
    let d = if s.len() > 0 && s[0] == '+' { s.drop_first() } else { s };
    if d.len() > 0 && all_digits(d) && digits_value(d) <= u64::MAX {
        Some(digits_value(d) as u64)
    } else {
        None
    }
}

proof fn lemma_digits_prefix_le(s: Seq<char>, k: int)
    requires
        0 <= k <= s.len(),
        all_digits(s),
    ensures
        digits_value(s.take(k)) <= digits_value(s),
    decreases s.len(),
{
    if k < s.len() {
        assert(all_digits(s.drop_last()));
        assert(s.drop_last().take(k) =~= s.take(k));
        lemma_digits_prefix_le(s.drop_last(), k);
        assert(digits_value(s.drop_last()) <= digits_value(s)) by (nonlinear_arith)
            requires
                digits_value(s) == digits_value(s.drop_last()) * 10 + ((s.last() as u32) - ('0' as u32)) as nat,
        ;
    } else {
        assert(s.take(k) =~= s);
    }
}

/// `str::parse::<u64>`, as std implements it.
pub fn parse_u64(s: &str) -> (r: Option<u64>)
    ensures
        r == parse_u64_spec(s@),
{
    let c = chars_of(s);
    let start: usize = if c.len() > 0 && c[0] == '+' { 1 } else { 0 };
    let ghost d = if s@.len() > 0 && s@[0] == '+' { s@.drop_first() } else { s@ };
    assert(d =~= c@.skip(start as int));
    if start >= c.len() {
        return None;
    }
    let mut acc: u64 = 0;
    let mut i: usize = start;
    while i < c.len()
        invariant
            start <= i <= c.len(),
            c@ == s@,
            d == (if s@.len() > 0 && s@[0] == '+' { s@.drop_first() } else { s@ }),
            d =~= c@.skip(start as int),
            acc == digits_value(d.take(i - start)),
            all_digits(d.take(i - start)),
        decreases c.len() - i,
    {
        let ch = c[i];
        let ghost j: int = i - start;
        assert(d.take(j + 1).drop_last() =~= d.take(j));
        assert(d.take(j + 1).last() == ch);
        if ch < '0' || ch > '9' {
            assert(!all_digits(d)) by {
                assert(d[j] == ch);
            }
            return None;
        }
        let dv: u64 = ((ch as u32) - ('0' as u32)) as u64;
        let next = match acc.checked_mul(10) {
            Some(m) => m.checked_add(dv),
            None => None,
        };
        match next {
            Some(n) => {
                acc = n;
                assert(all_digits(d.take(j + 1)));
            },
            None => {
                proof {
                    assert(all_digits(d.take(j + 1)));
                    if all_digits(d) {
                        lemma_digits_prefix_le(d, j + 1);
                    }
                }
                return None;
            },
        }
        i = i + 1;
    }
    assert(d.take(i - start) =~= d);
    Some(acc)
}


// ---------------------------------------------------------------------------
// The reading state
// ---------------------------------------------------------------------------

/// Kind of a track.
#[derive(Debug, Clone, Copy, PartialEq, Eq, Structural)]
pub enum TrackKind {
    Audio,
    Midi,
    Group,
    Return,
}

/// A track seen in the set: its id, kind, name and parent group's id
/// (`None` at the top level).
#[derive(Debug)]
pub struct TrackFrame {
    pub id: String,
    pub kind: TrackKind,
    pub name: Option<String>,
    pub parent_id: Option<String>,
}

/// Mathematical form of a track.
pub struct TrackView {
    pub id: Seq<char>,
    pub kind: TrackKind,
    pub name: Option<Seq<char>>,
    pub parent_id: Option<Seq<char>>,
}

impl View for TrackFrame {
    type V = TrackView;

    open spec fn view(&self) -> TrackView {
        TrackView {
            id: self.id@,
            kind: self.kind,
            name: opt_view(self.name),
            parent_id: opt_view(self.parent_id),
        }
    }
}

/// The views of a sequence of tracks.
pub open spec fn track_views(v: Seq<TrackFrame>) -> Seq<TrackView> {
    v.map_values(|t: TrackFrame| t@)
}

/// Mathematical form of the reading state.
pub struct PState {
    pub project_name: Seq<char>,
    pub project_root: Seq<char>,
    /// The track table: one entry per id, as in a map.
    pub tracks: Seq<TrackView>,
    /// Ids of the open tracks, innermost last.
    pub track_stack: Seq<Seq<char>>,
    /// Open containers, innermost last.
    pub context_stack: Seq<SampleContext>,
    /// The track whose name and group are being read.
    pub awaiting: Option<Seq<char>>,
    /// Inside that track's `Name` element.
    pub in_name_block: bool,
    /// Inside a `SampleRef` element.
    pub in_sample_ref: bool,
    /// Depth of elements opened inside the `SampleRef`.
    pub sample_depth: nat,
    /// Depth of open `SourceContext` elements inside the `SampleRef`.
    pub in_source_context: nat,
    pub ref_path: Option<Seq<char>>,
    pub ref_relative: Option<Seq<char>>,
    pub ref_size: Option<u64>,
    pub ref_crc: Option<u64>,
    pub source_path: Option<Seq<char>>,
    /// Samples read so far, group paths not yet resolved.
    pub samples: Seq<SampleView>,
}

/// The state before the first event.
pub open spec fn init_state(project_name: Seq<char>, project_root: Seq<char>) -> PState {
    PState {
        project_name,
        project_root,
        tracks: Seq::empty(),
        track_stack: Seq::empty(),
        context_stack: Seq::empty(),
        awaiting: None,
        in_name_block: false,
        in_sample_ref: false,
        sample_depth: 0,
        in_source_context: 0,
        ref_path: None,
        ref_relative: None,
        ref_size: None,
        ref_crc: None,
        source_path: None,
        samples: Seq::empty(),
    }
}

/// Index of the first track at or after `i` with the given id.
pub open spec fn track_from(tracks: Seq<TrackView>, id: Seq<char>, i: int) -> Option<int>
    decreases tracks.len() - i,
{
    if i < 0 || i >= tracks.len() {
        None
    } else if tracks[i].id == id {
        Some(i)
    } else {
        track_from(tracks, id, i + 1)
    }
}

/// Index of the track with the given id.
pub open spec fn track_find(tracks: Seq<TrackView>, id: Seq<char>) -> Option<int> {
    track_from(tracks, id, 0)
}

/// The table with `t` stored under its id, replacing any earlier entry.
pub open spec fn track_insert(tracks: Seq<TrackView>, t: TrackView) -> Seq<TrackView> {
    match track_find(tracks, t.id) {
        Some(k) => tracks.update(k, t),
        None => tracks.push(t),
    }
}

/// The table with the name of track `id` set, if there is such a track.
pub open spec fn track_set_name(tracks: Seq<TrackView>, id: Seq<char>, name: Seq<char>) -> Seq<TrackView> {
    match track_find(tracks, id) {
        Some(k) => tracks.update(k, TrackView { name: Some(name), ..tracks[k] }),
        None => tracks,
    }
}

/// The table with the parent of track `id` set, if there is such a track.
pub open spec fn track_set_parent(tracks: Seq<TrackView>, id: Seq<char>, parent: Option<Seq<char>>) -> Seq<TrackView> {
    match track_find(tracks, id) {
        Some(k) => tracks.update(k, TrackView { parent_id: parent, ..tracks[k] }),
        None => tracks,
    }
}

/// The element name of an event, as text.
pub open spec fn tag_name(e: XmlEventView) -> Seq<char> {
    utf8_lossy_of(e.name)
}

/// Names of the track elements.
pub open spec fn is_track_tag(n: Seq<char>) -> bool {
    n == "AudioTrack"@ || n == "MidiTrack"@ || n == "GroupTrack"@ || n == "ReturnTrack"@
}

/// The kind of track a track element names.
pub open spec fn track_kind_of(n: Seq<char>) -> TrackKind {
    if n == "AudioTrack"@ {
        TrackKind::Audio
    } else if n == "MidiTrack"@ {
        TrackKind::Midi
    } else if n == "GroupTrack"@ {
        TrackKind::Group
    } else {
        TrackKind::Return
    }
}

/// The innermost open track, if any.
pub open spec fn innermost(stack: Seq<Seq<char>>) -> Option<Seq<char>> {
    if stack.len() > 0 {
        Some(stack.last())
    } else {
        None
    }
}

/// An opening tag.
pub open spec fn start_step(s: PState, e: XmlEventView) -> PState {
    let n = tag_name(e);
    if is_track_tag(n) {
        let id = match attr_of(e, "Id"@) {
            Some(v) => v,
            None => Seq::empty(),
        };
        if id.len() > 0 {
            let t = TrackView { id, kind: track_kind_of(n), name: None, parent_id: innermost(s.track_stack) };
            PState { tracks: track_insert(s.tracks, t), track_stack: s.track_stack.push(id), awaiting: Some(id), ..s }
        } else {
            s
        }
    } else if n == "Name"@ {
        if s.awaiting is Some {
            PState { in_name_block: true, ..s }
        } else {
            s
        }
    } else if n == "AudioClip"@ {
        PState { context_stack: s.context_stack.push(SampleContext::AudioClip), ..s }
    } else if n == "TakeLane"@ {
        PState { context_stack: s.context_stack.push(SampleContext::TakeLane), ..s }
    } else if n == "OriginalSimpler"@ {
        PState { context_stack: s.context_stack.push(SampleContext::Sampler), ..s }
    } else if n == "SampleRef"@ {
        PState {
            in_sample_ref: true,
            sample_depth: 1,
            ref_path: None,
            ref_relative: None,
            ref_size: None,
            ref_crc: None,
            source_path: None,
            in_source_context: 0,
            ..s
        }
    } else if n == "SourceContext"@ && s.in_sample_ref {
        PState { in_source_context: s.in_source_context + 1, ..s }
    } else if s.in_sample_ref {
        PState { sample_depth: s.sample_depth + 1, ..s }
    } else {
        s
    }
}

/// `TrackGroupId` values: `-1` (surrounding blanks ignored) and the empty
/// value mean the top level; anything else is the parent track's id.
pub open spec fn parent_of_value(val: Seq<char>) -> Option<Seq<char>> {
    if trim_ws(val) != "-1"@ && val.len() > 0 {
        Some(val)
    } else {
        None
    }
}

/// A self-closing tag.
pub open spec fn empty_step(s: PState, e: XmlEventView) -> PState {
    let n = tag_name(e);
    let value = attr_of(e, "Value"@);
    if n == "EffectiveName"@ {
        match (s.awaiting, value) {
            (Some(id), Some(name)) => if s.in_name_block {
                PState { tracks: track_set_name(s.tracks, id, name), ..s }
            } else {
                s
            },
            _ => s,
        }
    } else if n == "TrackGroupId"@ {
        match (s.awaiting, value) {
            (Some(id), Some(val)) => PState { tracks: track_set_parent(s.tracks, id, parent_of_value(val)), ..s },
            _ => s,
        }
    } else if n == "Path"@ && s.in_sample_ref {
        match value {
            Some(v) => if v.len() == 0 {
                s
            } else if s.in_source_context > 0 {
                if s.source_path is None {
                    PState { source_path: Some(v), ..s }
                } else {
                    s
                }
            } else if s.ref_path is None {
                PState { ref_path: Some(v), ..s }
            } else {
                s
            },
            None => s,
        }
    } else if n == "RelativePath"@ && s.in_sample_ref && s.in_source_context == 0 {
        match value {
            Some(v) => if v.len() > 0 {
                PState { ref_relative: Some(v), ..s }
            } else {
                s
            },
            None => s,
        }
    } else if n == "OriginalFileSize"@ && s.in_sample_ref && s.in_source_context == 0 {
        match value {
            Some(v) => match parse_u64_spec(v) {
                Some(x) => PState { ref_size: Some(x), ..s },
                None => s,
            },
            None => s,
        }
    } else if n == "OriginalCrc"@ && s.in_sample_ref && s.in_source_context == 0 {
        match value {
            Some(v) => match parse_u64_spec(v) {
                Some(x) => PState { ref_crc: Some(x), ..s },
                None => s,
            },
            None => s,
        }
    } else {
        s
    }
}

/// The stack without its last element, if it has one.
pub open spec fn pop_if<A>(st: Seq<A>, top: A) -> Seq<A> {
    if st.len() > 0 && st.last() == top {
        st.drop_last()
    } else {
        st
    }
}

/// A closing tag.
pub open spec fn end_step(s: PState, e: XmlEventView) -> PState {
    let n = tag_name(e);
    if is_track_tag(n) {
        let st = if s.track_stack.len() > 0 { s.track_stack.drop_last() } else { s.track_stack };
        PState { track_stack: st, awaiting: innermost(st), in_name_block: false, ..s }
    } else if n == "Name"@ {
        PState { in_name_block: false, ..s }
    } else if n == "AudioClip"@ {
        PState { context_stack: pop_if(s.context_stack, SampleContext::AudioClip), ..s }
    } else if n == "TakeLane"@ {
        PState { context_stack: pop_if(s.context_stack, SampleContext::TakeLane), ..s }
    } else if n == "OriginalSimpler"@ {
        PState { context_stack: pop_if(s.context_stack, SampleContext::Sampler), ..s }
    } else if n == "SourceContext"@ && s.in_sample_ref {
        if s.in_source_context > 0 {
            PState { in_source_context: (s.in_source_context - 1) as nat, ..s }
        } else {
            s
        }
    } else if n == "SampleRef"@ && s.in_sample_ref {
        flush_step(s)
    } else if s.in_sample_ref && s.sample_depth > 0 {
        PState { sample_depth: (s.sample_depth - 1) as nat, ..s }
    } else {
        s
    }
}

/// The innermost `TakeLane` or `Sampler` container, if any.
pub open spec fn specific_context(st: Seq<SampleContext>) -> Option<SampleContext>
    decreases st.len(),
{
    if st.len() == 0 {
        None
    } else if st.last() == SampleContext::TakeLane || st.last() == SampleContext::Sampler {
        Some(st.last())
    } else {
        specific_context(st.drop_last())
    }
}

/// The container a sample is attributed to: the innermost take lane or
/// sampler, else the innermost container, else `Unknown`.
pub open spec fn context_of(st: Seq<SampleContext>) -> SampleContext {
    match specific_context(st) {
        Some(c) => c,
        None => if st.len() > 0 {
            st.last()
        } else {
            SampleContext::Unknown
        },
    }
}

/// The marker put in front of a track id in a sample's group path until
/// the path is resolved.
pub open spec fn marker_prefix() -> Seq<char> {
    seq!['_', '_', 'i', 'd', ':']
}

/// The path a finished `SampleRef` points at: its `Path`, else its
/// `RelativePath` under the project folder.
pub open spec fn resolved_path(s: PState) -> Option<Seq<char>> {
    match s.ref_path {
        Some(p) => Some(p),
        None => match s.ref_relative {
            Some(r) => Some(join_of(s.project_root, r)),
            None => None,
        },
    }
}

/// The sample recorded for a finished `SampleRef` that resolved to `path`.
pub open spec fn new_sample(s: PState, path: Seq<char>) -> SampleView {
    SampleView {
        path,
        filename: match file_name_of(path) {
            Some(f) => f,
            None => Seq::empty(),
        },
        declared_size: s.ref_size,
        declared_crc: s.ref_crc,
        original_path: s.source_path,
        track_name: None,
        group_path: match innermost(s.track_stack) {
            Some(t) => seq![marker_prefix() + t],
            None => Seq::empty(),
        },
        project_name: s.project_name,
        project_root: s.project_root,
        context: context_of(s.context_stack),
    }
}

/// The end of a `SampleRef`: record it if it resolved to a path.
pub open spec fn flush_step(s: PState) -> PState {
    let samples = match resolved_path(s) {
        Some(p) => s.samples.push(new_sample(s, p)),
        None => s.samples,
    };
    PState { samples, in_sample_ref: false, sample_depth: 0, in_source_context: 0, ..s }
}

/// One event.
pub open spec fn event_step(s: PState, e: XmlEventView) -> PState {
    match e.kind {
        XmlKind::Start => start_step(s, e),
        XmlKind::Empty => empty_step(s, e),
        XmlKind::End => end_step(s, e),
        XmlKind::Other => s,
    }
}

/// The state after the given events.
pub open spec fn run_events(s: PState, evs: Seq<XmlEventView>) -> PState
    decreases evs.len(),
{
    if evs.len() == 0 {
        s
    } else {
        event_step(run_events(s, evs.drop_last()), evs.last())
    }
}

// ---------------------------------------------------------------------------
// Group paths
// ---------------------------------------------------------------------------

/// The track id held in a sample's unresolved group path.
pub open spec fn sample_track_id(g: Seq<Seq<char>>) -> Option<Seq<char>> {
    if g.len() > 0 && g[0].len() >= 5 && g[0].take(5) == marker_prefix() {
        Some(g[0].skip(5))
    } else {
        None
    }
}

/// How a track is shown in a group path: its name, else `Track <id>`.
pub open spec fn track_label(t: TrackView) -> Seq<char> {
    match t.name {
        Some(n) => n,
        None => "Track "@ + t.id,
    }
}

/// Labels from track `id` up through its parents, innermost first, at most
/// `fuel` of them; the walk stops at a track missing from the table.
pub open spec fn chain_from(tracks: Seq<TrackView>, id: Seq<char>, fuel: nat) -> Seq<Seq<char>>
    decreases fuel,
{
    if fuel == 0 {
        Seq::empty()
    } else {
        match track_find(tracks, id) {
            None => Seq::empty(),
            Some(k) => seq![track_label(tracks[k])] + match tracks[k].parent_id {
                Some(p) => chain_from(tracks, p, (fuel - 1) as nat),
                None => Seq::empty(),
            },
        }
    }
}

/// Longest group chain followed (a guard against parent cycles).
pub open spec fn max_chain() -> nat {
    64
}

/// The group path of track `leaf`: outermost group first, the track last.
pub open spec fn group_path_spec(tracks: Seq<TrackView>, leaf: Seq<char>) -> Seq<Seq<char>> {
    chain_from(tracks, leaf, max_chain()).reverse()
}

/// A sample with its group path and track name resolved against the final
/// track table.
pub open spec fn finalize_sample(tracks: Seq<TrackView>, s: SampleView) -> SampleView {
    match sample_track_id(s.group_path) {
        Some(t) => SampleView {
            group_path: group_path_spec(tracks, t),
            track_name: if s.track_name is Some {
                s.track_name
            } else {
                match track_find(tracks, t) {
                    Some(k) => tracks[k].name,
                    None => None,
                }
            },
            ..s
        },
        None => s,
    }
}

/// The samples of a set whose events are `evs`, in document order.
pub open spec fn analyze_spec(project_name: Seq<char>, project_root: Seq<char>, evs: Seq<XmlEventView>) -> Seq<SampleView> {
    let st = run_events(init_state(project_name, project_root), evs);
    st.samples.map_values(|x: SampleView| finalize_sample(st.tracks, x))
}

// ---------------------------------------------------------------------------
// The reader
// ---------------------------------------------------------------------------

/// Whether the characters `n` spell `lit`.
fn is_name(n: &Vec<char>, lit: &str) -> (r: bool)
    ensures
        r == (n@ == lit@),
{
    let l = chars_of(lit);
    chars_eq(n, &l)
}

/// The element name of an event, as characters.
fn tag_name_chars(e: &XmlEvent) -> (r: Vec<char>)
    ensures
        r@ == tag_name(e@),
{
    let n = utf8_lossy(e.name.as_slice());
    chars_of(n.as_str())
}

proof fn lemma_track_from(tracks: Seq<TrackView>, id: Seq<char>, i: int)
    ensures
        match track_from(tracks, id, i) {
            Some(k) => 0 <= k < tracks.len() && tracks[k].id == id,
            None => true,
        },
    decreases tracks.len() - i,
{
    if 0 <= i < tracks.len() && tracks[i].id != id {
        lemma_track_from(tracks, id, i + 1);
    }
}

/// Position of the track with id `id` in the table.
fn find_track(tracks: &Vec<TrackFrame>, id: &String) -> (r: Option<usize>)
    ensures
        match r {
            Some(k) => track_find(track_views(tracks@), id@) == Some(k as int) && k < tracks@.len(),
            None => track_find(track_views(tracks@), id@) is None,
        },
{
    let ghost tv = track_views(tracks@);
    let mut i: usize = 0;
    while i < tracks.len()
        invariant
            i <= tracks@.len(),
            tv == track_views(tracks@),
            track_from(tv, id@, 0) == track_from(tv, id@, i as int),
        decreases tracks.len() - i,
    {
        assert(tv[i as int].id == tracks@[i as int].id@);
        if string_eq(&tracks[i].id, id) {
            return Some(i);
        }
        i = i + 1;
    }
    None
}

/// Stores `t` under its id, replacing any earlier entry.
fn insert_track(tracks: &mut Vec<TrackFrame>, t: TrackFrame)
    ensures
        track_views(final(tracks)@) == track_insert(track_views(old(tracks)@), t@),
{
    let ghost tv = t@;
    match find_track(tracks, &t.id) {
        Some(k) => {
            tracks.set(k, t);
            assert(track_views(tracks@) =~= track_views(old(tracks)@).update(k as int, tv));
        },
        None => {
            tracks.push(t);
            assert(track_views(tracks@) =~= track_views(old(tracks)@).push(tv));
        },
    }
}

/// Sets the name of track `id`, if there is one.
fn set_track_name(tracks: &mut Vec<TrackFrame>, id: &String, name: String)
    ensures
        track_views(final(tracks)@) == track_set_name(track_views(old(tracks)@), id@, name@),
{
    match find_track(tracks, id) {
        Some(k) => {
            let nt = TrackFrame {
                id: tracks[k].id.clone(),
                kind: tracks[k].kind,
                name: Some(name),
                parent_id: copy_opt_string(&tracks[k].parent_id),
            };
            let ghost nv = nt@;
            tracks.set(k, nt);
            assert(track_views(tracks@) =~= track_views(old(tracks)@).update(k as int, nv));
        },
        None => {},
    }
}

/// Sets the parent of track `id`, if there is one.
fn set_track_parent(tracks: &mut Vec<TrackFrame>, id: &String, parent: Option<String>)
    ensures
        track_views(final(tracks)@) == track_set_parent(track_views(old(tracks)@), id@, opt_view(parent)),
{
    match find_track(tracks, id) {
        Some(k) => {
            let nt = TrackFrame {
                id: tracks[k].id.clone(),
                kind: tracks[k].kind,
                name: copy_opt_string(&tracks[k].name),
                parent_id: parent,
            };
            let ghost nv = nt@;
            tracks.set(k, nt);
            assert(track_views(tracks@) =~= track_views(old(tracks)@).update(k as int, nv));
        },
        None => {},
    }
}

/// The parent a `TrackGroupId` value names.
fn parent_value(val: String) -> (r: Option<String>)
    ensures
        opt_view(r) == parent_of_value(val@),
{
    let c = chars_of(val.as_str());
    let t = trim_chars(&c);
    let m = chars_of("-1");
    if !chars_eq(&t, &m) && !val.as_str().is_empty() {
        Some(val)
    } else {
        None
    }
}

/// The container a sample is attributed to.
fn current_context(st: &Vec<SampleContext>) -> (r: SampleContext)
    ensures
        r == context_of(st@),
{
    let mut i: usize = st.len();
    assert(st@.take(i as int) =~= st@);
    while i > 0
        invariant
            i <= st@.len(),
            specific_context(st@) == specific_context(st@.take(i as int)),
        decreases i,
    {
        let c = st[i - 1];
        assert(st@.take(i as int).drop_last() =~= st@.take(i - 1));
        if c == SampleContext::TakeLane || c == SampleContext::Sampler {
            return c;
        }
        i = i - 1;
    }
    if st.len() > 0 {
        st[st.len() - 1]
    } else {
        SampleContext::Unknown
    }
}

/// The state of the reader.
struct ParseState {
    project_name: String,
    project_root: String,
    tracks: Vec<TrackFrame>,
    track_stack: Vec<String>,
    context_stack: Vec<SampleContext>,
    awaiting: Option<String>,
    in_name_block: bool,
    in_sample_ref: bool,
    sample_depth: usize,
    in_source_context: usize,
    ref_path: Option<String>,
    ref_relative: Option<String>,
    ref_size: Option<u64>,
    ref_crc: Option<u64>,
    source_path: Option<String>,
    samples: Vec<SampleOccurrence>,
}

impl View for ParseState {
    type V = PState;

    closed spec fn view(&self) -> PState {
        PState {
            project_name: self.project_name@,
            project_root: self.project_root@,
            tracks: track_views(self.tracks@),
            track_stack: views(self.track_stack@),
            context_stack: self.context_stack@,
            awaiting: opt_view(self.awaiting),
            in_name_block: self.in_name_block,
            in_sample_ref: self.in_sample_ref,
            sample_depth: self.sample_depth as nat,
            in_source_context: self.in_source_context as nat,
            ref_path: opt_view(self.ref_path),
            ref_relative: opt_view(self.ref_relative),
            ref_size: self.ref_size,
            ref_crc: self.ref_crc,
            source_path: opt_view(self.source_path),
            samples: sample_views(self.samples@),
        }
    }
}

impl ParseState {
    fn new(project_name: String, project_root: String) -> (r: Self)
        ensures
            r@ == init_state(project_name@, project_root@),
    {
        let r = ParseState {
            project_name,
            project_root,
            tracks: Vec::new(),
            track_stack: Vec::new(),
            context_stack: Vec::new(),
            awaiting: None,
            in_name_block: false,
            in_sample_ref: false,
            sample_depth: 0,
            in_source_context: 0,
            ref_path: None,
            ref_relative: None,
            ref_size: None,
            ref_crc: None,
            source_path: None,
            samples: Vec::new(),
        };
        assert(r@.tracks =~= Seq::empty());
        assert(r@.track_stack =~= Seq::empty());
        assert(r@.samples =~= Seq::empty());
        r
    }

    /// The innermost open track.
    fn current_track_id(&self) -> (r: Option<String>)
        ensures
            opt_view(r) == innermost(self@.track_stack),
    {
        if self.track_stack.len() > 0 {
            Some(self.track_stack[self.track_stack.len() - 1].clone())
        } else {
            None
        }
    }

    fn on_start(&mut self, e: &XmlEvent)
        requires
            old(self).sample_depth < usize::MAX,
            old(self).in_source_context < usize::MAX,
        ensures
            final(self)@ == start_step(old(self)@, e@),
    {
        let n = tag_name_chars(e);
        let audio = is_name(&n, "AudioTrack");
        let midi = is_name(&n, "MidiTrack");
        let group = is_name(&n, "GroupTrack");
        let ret = is_name(&n, "ReturnTrack");
        if audio || midi || group || ret {
            let kind = if audio {
                TrackKind::Audio
            } else if midi {
                TrackKind::Midi
            } else if group {
                TrackKind::Group
            } else {
                TrackKind::Return
            };
            let id = match attr(e, "Id") {
                Some(v) => v,
                None => String::new(),
            };
            if !id.as_str().is_empty() {
                let parent = self.current_track_id();
                insert_track(&mut self.tracks, TrackFrame { id: id.clone(), kind, name: None, parent_id: parent });
                self.track_stack.push(id.clone());
                assert(views(self.track_stack@) =~= views(old(self).track_stack@).push(id@));
                self.awaiting = Some(id);
            }
        } else if is_name(&n, "Name") {
            if self.awaiting.is_some() {
                self.in_name_block = true;
            }
        } else if is_name(&n, "AudioClip") {
            self.context_stack.push(SampleContext::AudioClip);
        } else if is_name(&n, "TakeLane") {
            self.context_stack.push(SampleContext::TakeLane);
        } else if is_name(&n, "OriginalSimpler") {
            self.context_stack.push(SampleContext::Sampler);
        } else if is_name(&n, "SampleRef") {
            self.in_sample_ref = true;
            self.sample_depth = 1;
            self.ref_path = None;
            self.ref_relative = None;
            self.ref_size = None;
            self.ref_crc = None;
            self.source_path = None;
            self.in_source_context = 0;
        } else if is_name(&n, "SourceContext") && self.in_sample_ref {
            self.in_source_context = self.in_source_context + 1;
        } else if self.in_sample_ref {
            self.sample_depth = self.sample_depth + 1;
        }
    }

    fn on_empty(&mut self, e: &XmlEvent)
        ensures
            final(self)@ == empty_step(old(self)@, e@),
    {
        let n = tag_name_chars(e);
        let value = attr(e, "Value");
        let aw = copy_opt_string(&self.awaiting);
        if is_name(&n, "EffectiveName") {
            match (aw, value) {
                (Some(id), Some(name)) => {
                    if self.in_name_block {
                        set_track_name(&mut self.tracks, &id, name);
                    }
                },
                _ => {},
            }
        } else if is_name(&n, "TrackGroupId") {
            match (aw, value) {
                (Some(id), Some(val)) => {
                    let p = parent_value(val);
                    set_track_parent(&mut self.tracks, &id, p);
                },
                _ => {},
            }
        } else if is_name(&n, "Path") && self.in_sample_ref {
            match value {
                Some(v) => {
                    if v.as_str().is_empty() {
                    } else if self.in_source_context > 0 {
                        if self.source_path.is_none() {
                            self.source_path = Some(v);
                        }
                    } else if self.ref_path.is_none() {
                        self.ref_path = Some(v);
                    }
                },
                None => {},
            }
        } else if is_name(&n, "RelativePath") && self.in_sample_ref && self.in_source_context == 0 {
            match value {
                Some(v) => {
                    if !v.as_str().is_empty() {
                        self.ref_relative = Some(v);
                    }
                },
                None => {},
            }
        } else if is_name(&n, "OriginalFileSize") && self.in_sample_ref && self.in_source_context == 0 {
            match value {
                Some(v) => match parse_u64(v.as_str()) {
                    Some(x) => {
                        self.ref_size = Some(x);
                    },
                    None => {},
                },
                None => {},
            }
        } else if is_name(&n, "OriginalCrc") && self.in_sample_ref && self.in_source_context == 0 {
            match value {
                Some(v) => match parse_u64(v.as_str()) {
                    Some(x) => {
                        self.ref_crc = Some(x);
                    },
                    None => {},
                },
                None => {},
            }
        }
    }

    fn on_end(&mut self, e: &XmlEvent)
        ensures
            final(self)@ == end_step(old(self)@, e@),
    {
        let n = tag_name_chars(e);
        if is_name(&n, "AudioTrack") || is_name(&n, "MidiTrack") || is_name(&n, "GroupTrack") || is_name(&n, "ReturnTrack") {
            if self.track_stack.len() > 0 {
                self.track_stack.pop();
                assert(views(self.track_stack@) =~= views(old(self).track_stack@).drop_last());
            }
            self.awaiting = self.current_track_id();
            self.in_name_block = false;
        } else if is_name(&n, "Name") {
            self.in_name_block = false;
        } else if is_name(&n, "AudioClip") {
            if self.context_stack.len() > 0 && self.context_stack[self.context_stack.len() - 1] == SampleContext::AudioClip {
                self.context_stack.pop();
            }
        } else if is_name(&n, "TakeLane") {
            if self.context_stack.len() > 0 && self.context_stack[self.context_stack.len() - 1] == SampleContext::TakeLane {
                self.context_stack.pop();
            }
        } else if is_name(&n, "OriginalSimpler") {
            if self.context_stack.len() > 0 && self.context_stack[self.context_stack.len() - 1] == SampleContext::Sampler {
                self.context_stack.pop();
            }
        } else if is_name(&n, "SourceContext") && self.in_sample_ref {
            if self.in_source_context > 0 {
                self.in_source_context = self.in_source_context - 1;
            }
        } else if is_name(&n, "SampleRef") && self.in_sample_ref {
            self.flush_sample_ref();
        } else if self.in_sample_ref && self.sample_depth > 0 {
            self.sample_depth = self.sample_depth - 1;
        }
    }

    /// The path the current `SampleRef` points at.
    fn resolved_sample_path(&self) -> (r: Option<String>)
        ensures
            opt_view(r) == resolved_path(self@),
    {
        match &self.ref_path {
            Some(p) => Some(p.clone()),
            None => match &self.ref_relative {
                Some(rel) => Some(join_path(self.project_root.as_str(), rel.as_str())),
                None => None,
            },
        }
    }

    fn flush_sample_ref(&mut self)
        ensures
            final(self)@ == flush_step(old(self)@),
    {
        match self.resolved_sample_path() {
            Some(path) => {
                let filename = match file_name(path.as_str()) {
                    Some(f) => f,
                    None => String::new(),
                };
                let context = current_context(&self.context_stack);
                let mut group_path: Vec<String> = Vec::new();
                match self.current_track_id() {
                    Some(t) => {
                        let m = concat_str("__id:", t.as_str());
                        proof {
                            reveal_strlit("__id:");
                        }
                        assert("__id:"@ =~= marker_prefix());
                        group_path.push(m);
                    },
                    None => {},
                }
                let sample = SampleOccurrence {
                    path,
                    filename,
                    declared_size: self.ref_size,
                    declared_crc: self.ref_crc,
                    original_path: copy_opt_string(&self.source_path),
                    track_name: None,
                    group_path,
                    project_name: self.project_name.clone(),
                    project_root: self.project_root.clone(),
                    context,
                };
                assert(sample@.group_path =~= new_sample(old(self)@, sample@.path).group_path);
                assert(sample@ == new_sample(old(self)@, sample@.path));
                let ghost sv = sample@;
                self.samples.push(sample);
                assert(sample_views(self.samples@) =~= sample_views(old(self).samples@).push(sv));
            },
            None => {},
        }
        self.in_sample_ref = false;
        self.sample_depth = 0;
        self.in_source_context = 0;
    }

    fn step(&mut self, e: &XmlEvent)
        requires
            old(self).sample_depth < usize::MAX,
            old(self).in_source_context < usize::MAX,
        ensures
            final(self)@ == event_step(old(self)@, e@),
    {
        match e.kind {
            XmlKind::Start => self.on_start(e),
            XmlKind::Empty => self.on_empty(e),
            XmlKind::End => self.on_end(e),
            XmlKind::Other => {},
        }
    }
}

// ---------------------------------------------------------------------------
// Resolving group paths
// ---------------------------------------------------------------------------

/// The marker prefix, as characters.
fn marker_chars() -> (r: Vec<char>)
    ensures
        r@ == marker_prefix(),
{
    let r = chars_of("__id:");
    proof {
        reveal_strlit("__id:");
    }
    assert(r@ =~= marker_prefix());
    r
}

/// The track id held in a sample's unresolved group path.
fn track_for_sample_id(s: &SampleOccurrence) -> (r: Option<String>)
    ensures
        opt_view(r) == sample_track_id(s@.group_path),
{
    if s.group_path.len() > 0 {
        let g = chars_of(s.group_path[0].as_str());
        if g.len() >= 5 {
            let head = sub_chars(&g, 0, 5);
            let m = marker_chars();
            assert(g@.take(5) =~= g@.subrange(0, 5));
            if chars_eq(&head, &m) {
                let rest = sub_chars(&g, 5, g.len());
                assert(g@.skip(5) =~= g@.subrange(5, g@.len() as int));
                return Some(string_of(&rest));
            }
        }
    }
    None
}

/// How a track is shown in a group path.
fn track_label_of(t: &TrackFrame) -> (r: String)
    ensures
        r@ == track_label(t@),
{
    match &t.name {
        Some(n) => n.clone(),
        None => concat_str("Track ", t.id.as_str()),
    }
}

/// The labels still to come from `cur` with `fuel` steps left.
pub open spec fn chain_rest(tracks: Seq<TrackView>, cur: Option<Seq<char>>, fuel: nat) -> Seq<Seq<char>> {
    match cur {
        Some(c) => chain_from(tracks, c, fuel),
        None => Seq::empty(),
    }
}

/// The group path of track `leaf`: outermost group first, the track last.
fn compute_group_path(tracks: &Vec<TrackFrame>, leaf: &String) -> (r: Vec<String>)
    ensures
        views(r@) == group_path_spec(track_views(tracks@), leaf@),
{
    let ghost tv = track_views(tracks@);
    let ghost full = chain_from(tv, leaf@, max_chain());
    let mut chain: Vec<String> = Vec::new();
    let mut cur: Option<String> = Some(leaf.clone());
    let mut guard: usize = 0;
    let mut done = false;
    assert(views(chain@) + chain_rest(tv, opt_view(cur), 64) =~= full);
    while !done && guard < 64
        invariant
            guard <= 64,
            tv == track_views(tracks@),
            full == chain_from(tv, leaf@, max_chain()),
            done ==> views(chain@) == full,
            !done ==> views(chain@) + chain_rest(tv, opt_view(cur), (64 - guard) as nat) == full,
        decreases (64 - guard) * 2 + (if done { 0int } else { 1int }),
    {
        let now = copy_opt_string(&cur);
        match now {
            None => {
                assert(views(chain@) =~= full);
                done = true;
            },
            Some(id) => {
                guard = guard + 1;
                match find_track(tracks, &id) {
                    Some(k) => {
                        proof {
                            lemma_track_from(tv, id@, 0);
                        }
                        let label = track_label_of(&tracks[k]);
                        let ghost before = views(chain@);
                        chain.push(label);
                        assert(views(chain@) =~= before.push(label@));
                        cur = copy_opt_string(&tracks[k].parent_id);
                        assert(tv[k as int] == tracks@[k as int]@);
                        assert(views(chain@) + chain_rest(tv, opt_view(cur), (64 - guard) as nat)
                            =~= before + chain_from(tv, id@, (64 - (guard - 1)) as nat));
                    },
                    None => {
                        assert(views(chain@) =~= full);
                        done = true;
                    },
                }
            },
        }
    }
    if !done {
        assert(views(chain@) =~= full);
    }
    let mut out: Vec<String> = Vec::new();
    let mut i: usize = chain.len();
    while i > 0
        invariant
            i <= chain@.len(),
            views(chain@) == full,
            views(out@) =~= full.reverse().take((chain@.len() - i) as int),
        decreases i,
    {
        i = i - 1;
        let ghost before = views(out@);
        out.push(chain[i].clone());
        assert(views(out@) =~= before.push(chain@[i as int]@));
        assert(full.reverse().take((chain@.len() - i) as int)
            =~= full.reverse().take((chain@.len() - i - 1) as int).push(full[i as int]));
    }
    assert(full.reverse().take(chain@.len() as int) =~= full.reverse());
    out
}

/// A copy with the same fields.
pub fn copy_sample(s: &SampleOccurrence) -> (r: SampleOccurrence)
    ensures
        r@ == s@,
{
    SampleOccurrence {
        path: s.path.clone(),
        filename: s.filename.clone(),
        declared_size: s.declared_size,
        declared_crc: s.declared_crc,
        original_path: copy_opt_string(&s.original_path),
        track_name: copy_opt_string(&s.track_name),
        group_path: copy_strings(&s.group_path),
        project_name: s.project_name.clone(),
        project_root: s.project_root.clone(),
        context: s.context,
    }
}

impl ParseState {
    /// The samples read, with group paths and track names resolved against
    /// the final track table.
    fn finalize(&self) -> (r: Vec<SampleOccurrence>)
        ensures
            sample_views(r@) == self@.samples.map_values(|x: SampleView| finalize_sample(self@.tracks, x)),
    {
        let ghost tv = self@.tracks;
        let ghost want = self@.samples.map_values(|x: SampleView| finalize_sample(tv, x));
        let mut out: Vec<SampleOccurrence> = Vec::new();
        let mut i: usize = 0;
        while i < self.samples.len()
            invariant
                i <= self.samples@.len(),
                tv == self@.tracks,
                tv == track_views(self.tracks@),
                self@.samples == sample_views(self.samples@),
                want == self@.samples.map_values(|x: SampleView| finalize_sample(tv, x)),
                sample_views(out@) =~= want.take(i as int),
            decreases self.samples.len() - i,
        {
            let s = &self.samples[i];
            let ghost sv = s@;
            assert(self@.samples[i as int] == sv);
            let r = match track_for_sample_id(s) {
                Some(t) => {
                    let gp = compute_group_path(&self.tracks, &t);
                    let tn = if s.track_name.is_some() {
                        copy_opt_string(&s.track_name)
                    } else {
                        match find_track(&self.tracks, &t) {
                            Some(k) => {
                                assert(tv[k as int] == self.tracks@[k as int]@);
                                copy_opt_string(&self.tracks[k].name)
                            },
                            None => None,
                        }
                    };
                    SampleOccurrence {
                        path: s.path.clone(),
                        filename: s.filename.clone(),
                        declared_size: s.declared_size,
                        declared_crc: s.declared_crc,
                        original_path: copy_opt_string(&s.original_path),
                        track_name: tn,
                        group_path: gp,
                        project_name: s.project_name.clone(),
                        project_root: s.project_root.clone(),
                        context: s.context,
                    }
                },
                None => copy_sample(s),
            };
            assert(r@ == finalize_sample(tv, sv));
            let ghost before = sample_views(out@);
            out.push(r);
            assert(sample_views(out@) =~= before.push(finalize_sample(tv, sv)));
            assert(want.take(i + 1) =~= want.take(i as int).push(finalize_sample(tv, sv)));
            i = i + 1;
        }
        assert(want.take(self.samples@.len() as int) =~= want);
        out
    }
}

proof fn lemma_step_bounds(s: PState, e: XmlEventView)
    ensures
        event_step(s, e).sample_depth <= s.sample_depth + 1,
        event_step(s, e).in_source_context <= s.in_source_context + 1,
{
}

/// The samples of a set whose markup events are `events`, in document
/// order, each with its group path (outermost group first, the holding
/// track last), track name, declared size and CRC, original path and
/// container; `project_name` and `project_root` are copied into each.
pub fn analyze_events(project_name: String, project_root: String, events: &Vec<XmlEvent>) -> (r: Vec<SampleOccurrence>)
    ensures
        sample_views(r@) == analyze_spec(project_name@, project_root@, event_views(events@)),
{
    let ghost evs = event_views(events@);
    let ghost s0 = init_state(project_name@, project_root@);
    let mut st = ParseState::new(project_name, project_root);
    let mut i: usize = 0;
    assert(evs.take(0) =~= Seq::<XmlEventView>::empty());
    while i < events.len()
        invariant
            i <= events@.len(),
            evs == event_views(events@),
            st@ == run_events(s0, evs.take(i as int)),
            st@.sample_depth <= i,
            st@.in_source_context <= i,
        decreases events.len() - i,
    {
        proof {
            lemma_step_bounds(st@, evs[i as int]);
        }
        st.step(&events[i]);
        assert(evs.take(i + 1).drop_last() =~= evs.take(i as int));
        assert(evs.take(i + 1).last() == events@[i as int]@);
        i = i + 1;
    }
    assert(evs.take(events@.len() as int) =~= evs);
    st.finalize()
}

/// What reading a set gives: its samples, or the message of the error that
/// stopped the reading.
pub open spec fn parse_outcome(project_name: Seq<char>, project_root: Seq<char>, gz: Seq<u8>) -> Result<Seq<SampleView>, Seq<char>> {
    match gunzip_of(gz) {
        Err(m) => Err("I/O error: "@ + m),
        Ok(text) => match xml_events_of(text) {
            Err(m) => Err(m),
            Ok(evs) => Ok(analyze_spec(project_name, project_root, events_of(evs))),
        },
    }
}

/// The project name: the set's file stem, else `Untitled`.
pub open spec fn project_name_of(als: Seq<char>) -> Seq<char> {
    match file_stem_of(als) {
        Some(s) => s,
        None => "Untitled"@,
    }
}

/// Reads a project's set, given the bytes of its `.als` file: every sample
/// reference with its context. A file that does not decompress or is not
/// well-formed XML gives `ScanError::Xml` with the set's path.
pub fn parse_project(project: &ReadOnlyProject, als_bytes: &[u8]) -> (r: Result<ProjectAnalysis, ScanError>)
    ensures
        match parse_outcome(project_name_of(project.als_view()), project.root_view(), als_bytes@) {
            Ok(samples) => r matches Ok(a) && a.project_name@ == project_name_of(project.als_view())
                && a.project_root@ == project.root_view() && a.als_path@ == project.als_view()
                && sample_views(a.samples@) == samples,
            Err(m) => r matches Err(e) && e matches ScanError::Xml { path, message }
                && path@ == project.als_view() && message@ == m,
        },
{
    let name = match file_stem(project.als_path().as_str()) {
        Some(s) => s,
        None => String::from_str("Untitled"),
    };
    let text = match gunzip(als_bytes) {
        Ok(t) => t,
        Err(m) => {
            let message = concat_str("I/O error: ", m.as_str());
            return Err(ScanError::Xml { path: project.als_path().clone(), message });
        },
    };
    let kinds = match xml_events(text.as_slice()) {
        Ok(v) => v,
        Err(m) => {
            return Err(ScanError::Xml { path: project.als_path().clone(), message: m });
        },
    };
    let events = make_events(&kinds);
    let samples = analyze_events(name.clone(), project.root().clone(), &events);
    Ok(ProjectAnalysis {
        project_name: name,
        project_root: project.root().clone(),
        als_path: project.als_path().clone(),
        samples,
    })
}

// ---------------------------------------------------------------------------
// Laws
// ---------------------------------------------------------------------------

proof fn lemma_chain_shape(tracks: Seq<TrackView>, id: Seq<char>, fuel: nat)
    ensures
        chain_from(tracks, id, fuel).len() <= fuel,
        fuel > 0 ==> match track_find(tracks, id) {
            Some(k) => chain_from(tracks, id, fuel).len() >= 1 && chain_from(tracks, id, fuel)[0] == track_label(tracks[k]),
            None => chain_from(tracks, id, fuel).len() == 0,
        },
    decreases fuel,
{
    if fuel > 0 {
        match track_find(tracks, id) {
            Some(k) => match tracks[k].parent_id {
                Some(p) => lemma_chain_shape(tracks, p, (fuel - 1) as nat),
                None => {},
            },
            None => {},
        }
    }
}

/// A resolved group path holds at most 64 names and ends with the label of
/// the track holding the sample (its name, else `Track <id>`); it is empty
/// when that track is not in the table.
pub proof fn lemma_group_path_ends_with_track(tracks: Seq<TrackView>, leaf: Seq<char>)
    ensures
        group_path_spec(tracks, leaf).len() <= max_chain(),
        match track_find(tracks, leaf) {
            Some(k) => group_path_spec(tracks, leaf).len() >= 1 && group_path_spec(tracks, leaf).last()
                == track_label(tracks[k]),
            None => group_path_spec(tracks, leaf).len() == 0,
        },
{
    lemma_chain_shape(tracks, leaf, max_chain());
    let c = chain_from(tracks, leaf, max_chain());
    if c.len() > 0 {
        assert(c.reverse()[c.len() - 1] == c[0]);
    }
}


// ---------------------------------------------------------------------------
// Laws of a sample reference
// ---------------------------------------------------------------------------

proof fn lemma_tag_names_differ()
    ensures
        "SampleRef"@ != "AudioTrack"@,
        "SampleRef"@ != "MidiTrack"@,
        "SampleRef"@ != "GroupTrack"@,
        "SampleRef"@ != "ReturnTrack"@,
        "SampleRef"@ != "Name"@,
        "SampleRef"@ != "AudioClip"@,
        "SampleRef"@ != "TakeLane"@,
        "SampleRef"@ != "OriginalSimpler"@,
        "SampleRef"@ != "SourceContext"@,
        "Path"@ != "EffectiveName"@,
        "Path"@ != "TrackGroupId"@,
        "RelativePath"@ != "EffectiveName"@,
        "RelativePath"@ != "TrackGroupId"@,
        "RelativePath"@ != "Path"@,
{
    reveal_strlit("SampleRef");
    reveal_strlit("AudioTrack");
    reveal_strlit("MidiTrack");
    reveal_strlit("GroupTrack");
    reveal_strlit("ReturnTrack");
    reveal_strlit("Name");
    reveal_strlit("AudioClip");
    reveal_strlit("TakeLane");
    reveal_strlit("OriginalSimpler");
    reveal_strlit("SourceContext");
    reveal_strlit("Path");
    reveal_strlit("EffectiveName");
    reveal_strlit("TrackGroupId");
    reveal_strlit("RelativePath");
    assert("SampleRef"@[0] != "AudioTrack"@[0]);
    assert("SampleRef"@[0] != "MidiTrack"@[0]);
    assert("SampleRef"@[0] != "GroupTrack"@[0]);
    assert("SampleRef"@[0] != "ReturnTrack"@[0]);
    assert("SampleRef"@[0] != "Name"@[0]);
    assert("SampleRef"@[0] != "AudioClip"@[0]);
    assert("SampleRef"@[0] != "TakeLane"@[0]);
    assert("SampleRef"@[0] != "OriginalSimpler"@[0]);
    assert("SampleRef"@.len() != "SourceContext"@.len());
    assert("Path"@[0] != "EffectiveName"@[0]);
    assert("Path"@[0] != "TrackGroupId"@[0]);
    assert("RelativePath"@[0] != "EffectiveName"@[0]);
    assert("RelativePath"@[0] != "TrackGroupId"@[0]);
    assert("RelativePath"@[0] != "Path"@[0]);
}

/// The events `a` then `b`, read from any state, leave the state that
/// reading `b` after `a` leaves.
pub proof fn lemma_run_events_append(s: PState, a: Seq<XmlEventView>, b: Seq<XmlEventView>)
    ensures
        run_events(s, a + b) == run_events(run_events(s, a), b),
    decreases b.len(),
{
    if b.len() == 0 {
        assert(a + b =~= a);
    } else {
        assert((a + b).drop_last() =~= a + b.drop_last());
        lemma_run_events_append(s, a, b.drop_last());
    }
}

/// What a `SampleRef` element holding one `Path` records, read from any
/// state (whatever earlier sample references held): one more sample, at
/// that path, named by the path's file name, with no declared size, CRC or
/// original path; the samples before it are kept.
pub proof fn lemma_sample_ref_path(s: PState, e1: XmlEventView, e2: XmlEventView, e3: XmlEventView, a: Seq<char>)
    requires
        e1.kind == XmlKind::Start,
        tag_name(e1) == "SampleRef"@,
        e2.kind == XmlKind::Empty,
        tag_name(e2) == "Path"@,
        attr_of(e2, "Value"@) == Some(a),
        a.len() > 0,
        e3.kind == XmlKind::End,
        tag_name(e3) == "SampleRef"@,
    ensures
        ({
            let t = run_events(s, seq![e1, e2, e3]);
            &&& t.samples.len() == s.samples.len() + 1
            &&& t.samples.drop_last() == s.samples
            &&& t.samples.last().path == a
            &&& t.samples.last().filename == match file_name_of(a) {
                Some(f) => f,
                None => Seq::empty(),
            }
            &&& t.samples.last().declared_size is None
            &&& t.samples.last().declared_crc is None
            &&& t.samples.last().original_path is None
            &&& !t.in_sample_ref
        }),
{
    lemma_tag_names_differ();
    let evs = seq![e1, e2, e3];
    assert(evs.drop_last() =~= seq![e1, e2]);
    assert(seq![e1, e2].drop_last() =~= seq![e1]);
    assert(seq![e1].drop_last() =~= Seq::<XmlEventView>::empty());
    let s1 = event_step(s, e1);
    assert(run_events(s, Seq::<XmlEventView>::empty()) == s);
    assert(run_events(s, seq![e1]) == s1);
    assert(s1.in_sample_ref && s1.ref_path is None && s1.in_source_context == 0);
    let s2 = event_step(s1, e2);
    assert(run_events(s, seq![e1, e2]) == s2);
    assert(s2.ref_path == Some(a));
    assert(s2.ref_size is None && s2.ref_crc is None && s2.source_path is None && s2.in_sample_ref);
    let s3 = event_step(s2, e3);
    assert(run_events(s, evs) == s3);
    assert(s3.samples == s.samples.push(new_sample(s2, a)));
}

/// What a `SampleRef` element holding one `RelativePath` (and no `Path`)
/// records, read from any state: one more sample, at that path under the
/// project folder, with no declared size, CRC or original path.
pub proof fn lemma_sample_ref_relative(s: PState, e1: XmlEventView, e2: XmlEventView, e3: XmlEventView, r: Seq<char>)
    requires
        e1.kind == XmlKind::Start,
        tag_name(e1) == "SampleRef"@,
        e2.kind == XmlKind::Empty,
        tag_name(e2) == "RelativePath"@,
        attr_of(e2, "Value"@) == Some(r),
        r.len() > 0,
        e3.kind == XmlKind::End,
        tag_name(e3) == "SampleRef"@,
    ensures
        ({
            let t = run_events(s, seq![e1, e2, e3]);
            &&& t.samples.len() == s.samples.len() + 1
            &&& t.samples.drop_last() == s.samples
            &&& t.samples.last().path == join_of(s.project_root, r)
            &&& t.samples.last().declared_size is None
            &&& t.samples.last().declared_crc is None
            &&& t.samples.last().original_path is None
        }),
{
    lemma_tag_names_differ();
    let evs = seq![e1, e2, e3];
    assert(evs.drop_last() =~= seq![e1, e2]);
    assert(seq![e1, e2].drop_last() =~= seq![e1]);
    assert(seq![e1].drop_last() =~= Seq::<XmlEventView>::empty());
    let s1 = event_step(s, e1);
    assert(run_events(s, Seq::<XmlEventView>::empty()) == s);
    assert(run_events(s, seq![e1]) == s1);
    let s2 = event_step(s1, e2);
    assert(run_events(s, seq![e1, e2]) == s2);
    assert(s2.ref_path is None && s2.ref_relative == Some(r));
    let s3 = event_step(s2, e3);
    assert(run_events(s, evs) == s3);
    assert(s3.samples == s.samples.push(new_sample(s2, join_of(s.project_root, r))));
}

/// Two sample references in a row, each holding one `Path`, read after any
/// events: the set's samples end with one at each path, in order. The
/// second takes nothing from the first.
pub proof fn lemma_two_sample_refs(
    project_name: Seq<char>,
    project_root: Seq<char>,
    pre: Seq<XmlEventView>,
    first: Seq<XmlEventView>,
    second: Seq<XmlEventView>,
    a: Seq<char>,
    b: Seq<char>,
)
    requires
        first.len() == 3,
        second.len() == 3,
        first[0].kind == XmlKind::Start && tag_name(first[0]) == "SampleRef"@,
        first[1].kind == XmlKind::Empty && tag_name(first[1]) == "Path"@ && attr_of(first[1], "Value"@) == Some(a),
        first[2].kind == XmlKind::End && tag_name(first[2]) == "SampleRef"@,
        second[0].kind == XmlKind::Start && tag_name(second[0]) == "SampleRef"@,
        second[1].kind == XmlKind::Empty && tag_name(second[1]) == "Path"@ && attr_of(second[1], "Value"@) == Some(b),
        second[2].kind == XmlKind::End && tag_name(second[2]) == "SampleRef"@,
        a.len() > 0,
        b.len() > 0,
    ensures
        ({
            let r = analyze_spec(project_name, project_root, pre + first + second);
            &&& r.len() >= 2
            &&& r[r.len() - 2].path == a
            &&& r[r.len() - 1].path == b
        }),
{
    let s0 = run_events(init_state(project_name, project_root), pre);
    lemma_run_events_append(init_state(project_name, project_root), pre + first, second);
    lemma_run_events_append(init_state(project_name, project_root), pre, first);
    assert(first =~= seq![first[0], first[1], first[2]]);
    assert(second =~= seq![second[0], second[1], second[2]]);
    lemma_sample_ref_path(s0, first[0], first[1], first[2], a);
    let s1 = run_events(s0, first);
    lemma_sample_ref_path(s1, second[0], second[1], second[2], b);
    let s2 = run_events(s1, second);
    assert(s2.samples[s2.samples.len() - 2] == s1.samples.last());
    let r = analyze_spec(project_name, project_root, pre + first + second);
    assert(r[r.len() - 2] == finalize_sample(s2.tracks, s2.samples[s2.samples.len() - 2]));
    assert(r[r.len() - 1] == finalize_sample(s2.tracks, s2.samples[s2.samples.len() - 1]));
}


/// The non-empty `Value` of a self-closing tag named `name`.
pub open spec fn value_of(e: XmlEventView, name: Seq<char>) -> Option<Seq<char>> {
    if e.kind == XmlKind::Empty && tag_name(e) == name {
        match attr_of(e, "Value"@) {
            Some(v) => if v.len() > 0 {
                Some(v)
            } else {
                None
            },
            None => None,
        }
    } else {
        None
    }
}

/// The first non-empty `Value` of a tag named `name` among the events.
pub open spec fn first_value(evs: Seq<XmlEventView>, name: Seq<char>) -> Option<Seq<char>>
    decreases evs.len(),
{
    if evs.len() == 0 {
        None
    } else {
        match first_value(evs.drop_last(), name) {
            Some(v) => Some(v),
            None => value_of(evs.last(), name),
        }
    }
}

/// The last non-empty `Value` of a tag named `name` among the events.
pub open spec fn last_value(evs: Seq<XmlEventView>, name: Seq<char>) -> Option<Seq<char>>
    decreases evs.len(),
{
    if evs.len() == 0 {
        None
    } else {
        match value_of(evs.last(), name) {
            Some(v) => Some(v),
            None => last_value(evs.drop_last(), name),
        }
    }
}

/// The last `Value` of a tag named `name` among the events that reads as a
/// number.
pub open spec fn last_number(evs: Seq<XmlEventView>, name: Seq<char>) -> Option<u64>
    decreases evs.len(),
{
    if evs.len() == 0 {
        None
    } else {
        let e = evs.last();
        let here = if e.kind == XmlKind::Empty && tag_name(e) == name {
            match attr_of(e, "Value"@) {
                Some(v) => parse_u64_spec(v),
                None => None,
            }
        } else {
            None
        };
        match here {
            Some(x) => Some(x),
            None => last_number(evs.drop_last(), name),
        }
    }
}

proof fn lemma_value_names_differ()
    ensures
        "Path"@ != "RelativePath"@,
        "Path"@ != "OriginalFileSize"@,
        "Path"@ != "OriginalCrc"@,
        "Path"@ != "EffectiveName"@,
        "Path"@ != "TrackGroupId"@,
        "RelativePath"@ != "OriginalFileSize"@,
        "RelativePath"@ != "OriginalCrc"@,
        "RelativePath"@ != "EffectiveName"@,
        "RelativePath"@ != "TrackGroupId"@,
        "OriginalFileSize"@ != "OriginalCrc"@,
        "OriginalFileSize"@ != "EffectiveName"@,
        "OriginalFileSize"@ != "TrackGroupId"@,
        "OriginalCrc"@ != "EffectiveName"@,
        "OriginalCrc"@ != "TrackGroupId"@,
{
    reveal_strlit("Path");
    reveal_strlit("RelativePath");
    reveal_strlit("OriginalFileSize");
    reveal_strlit("OriginalCrc");
    reveal_strlit("EffectiveName");
    reveal_strlit("TrackGroupId");
    assert("Path"@[0] != "RelativePath"@[0]);
    assert("Path"@[0] != "OriginalFileSize"@[0]);
    assert("Path"@[0] != "OriginalCrc"@[0]);
    assert("Path"@[0] != "EffectiveName"@[0]);
    assert("Path"@[0] != "TrackGroupId"@[0]);
    assert("RelativePath"@[0] != "OriginalFileSize"@[0]);
    assert("RelativePath"@[0] != "OriginalCrc"@[0]);
    assert("RelativePath"@[0] != "EffectiveName"@[0]);
    assert("RelativePath"@[0] != "TrackGroupId"@[0]);
    assert("OriginalFileSize"@.len() != "OriginalCrc"@.len());
    assert("OriginalFileSize"@[0] != "EffectiveName"@[0]);
    assert("OriginalFileSize"@[0] != "TrackGroupId"@[0]);
    assert("OriginalCrc"@[0] != "EffectiveName"@[0]);
    assert("OriginalCrc"@[0] != "TrackGroupId"@[0]);
}

proof fn lemma_inside_ref(st: PState, mid: Seq<XmlEventView>)
    requires
        st.in_sample_ref,
        st.in_source_context == 0,
        forall|i: int| 0 <= i < mid.len() ==> (#[trigger] mid[i]).kind == XmlKind::Empty,
    ensures
        ({
            let t = run_events(st, mid);
            &&& t.in_sample_ref
            &&& t.in_source_context == 0
            &&& t.samples == st.samples
            &&& t.project_root == st.project_root
            &&& t.source_path == st.source_path
            &&& t.ref_path == match st.ref_path {
                Some(p) => Some(p),
                None => first_value(mid, "Path"@),
            }
            &&& t.ref_relative == match last_value(mid, "RelativePath"@) {
                Some(r) => Some(r),
                None => st.ref_relative,
            }
            &&& t.ref_size == match last_number(mid, "OriginalFileSize"@) {
                Some(x) => Some(x),
                None => st.ref_size,
            }
            &&& t.ref_crc == match last_number(mid, "OriginalCrc"@) {
                Some(x) => Some(x),
                None => st.ref_crc,
            }
        }),
    decreases mid.len(),
{
    if mid.len() > 0 {
        let pre = mid.drop_last();
        assert forall|i: int| 0 <= i < pre.len() implies (#[trigger] pre[i]).kind == XmlKind::Empty by {
            assert(pre[i] == mid[i]);
        }
        lemma_inside_ref(st, pre);
        lemma_value_names_differ();
        let e = mid.last();
        assert(e == mid[mid.len() - 1]);
        assert(e.kind == XmlKind::Empty);
    }
}

/// What a `SampleRef` element holding self-closing tags records, read from
/// any state (whatever earlier sample references held). Its path is the
/// first non-empty `Path` inside it, else the last non-empty `RelativePath`
/// under the project folder; its declared size and CRC are the last values
/// inside it that read as numbers, and it has no original path. With a
/// path, one sample is added after those read before; without one, none.
pub proof fn lemma_sample_ref_reads(s: PState, e1: XmlEventView, mid: Seq<XmlEventView>, e3: XmlEventView)
    requires
        e1.kind == XmlKind::Start,
        tag_name(e1) == "SampleRef"@,
        forall|i: int| 0 <= i < mid.len() ==> (#[trigger] mid[i]).kind == XmlKind::Empty,
        e3.kind == XmlKind::End,
        tag_name(e3) == "SampleRef"@,
    ensures
        ({
            let t = run_events(s, seq![e1] + mid + seq![e3]);
            let path = match first_value(mid, "Path"@) {
                Some(a) => Some(a),
                None => match last_value(mid, "RelativePath"@) {
                    Some(r) => Some(join_of(s.project_root, r)),
                    None => None,
                },
            };
            &&& path is None ==> t.samples == s.samples
            &&& path matches Some(a) ==> {
                &&& t.samples.len() == s.samples.len() + 1
                &&& t.samples.drop_last() == s.samples
                &&& t.samples.last().path == a
                &&& t.samples.last().declared_size == last_number(mid, "OriginalFileSize"@)
                &&& t.samples.last().declared_crc == last_number(mid, "OriginalCrc"@)
                &&& t.samples.last().original_path is None
            }
            &&& !t.in_sample_ref
        }),
{
    lemma_tag_names_differ();
    let s1 = event_step(s, e1);
    assert(run_events(s, Seq::<XmlEventView>::empty()) == s);
    assert(seq![e1].drop_last() =~= Seq::<XmlEventView>::empty());
    assert(run_events(s, seq![e1]) == s1);
    assert(s1.in_sample_ref && s1.in_source_context == 0 && s1.ref_path is None && s1.ref_relative is None);
    lemma_inside_ref(s1, mid);
    lemma_run_events_append(s, seq![e1], mid);
    let s2 = run_events(s1, mid);
    lemma_run_events_append(s, seq![e1] + mid, seq![e3]);
    assert(seq![e3].drop_last() =~= Seq::<XmlEventView>::empty());
    assert(run_events(s2, Seq::<XmlEventView>::empty()) == s2);
    assert(run_events(s2, seq![e3]) == event_step(s2, e3));
    let s3 = event_step(s2, e3);
    assert(s3 == flush_step(s2));
}

} // verus!
