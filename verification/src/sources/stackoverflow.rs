//! Stack Overflow's recent-questions Atom feed, read into
//! `(entry id, "title [tag]")` pairs.  The XML is tokenised by quick-xml;
//! what the entries are made of is decided here, event by event.
use vstd::prelude::*;
use quick_xml::Reader;
use quick_xml::events::Event::{Start as XmlStart, Empty as XmlEmpty, Text as XmlText, End as XmlEnd, Eof as XmlEof};
use crate::sources::stackoverflow::FeedEvent::{Start, Text, End, Eof, Error, Other};
use crate::sources::{trimmed, lossy_utf8, str_trim, utf8_lossy, opt_view};
use crate::strings::push_str;
use vstd::utf8::encode_utf8;

verus! {

/// One XML event as the feed reading sees it.
pub enum FeedEvent {
    /// A start tag or an empty-element tag: its name, then its attributes in
    /// order as (key, value), `None` for one that could not be read.
    Start(Vec<u8>, Vec<Option<(Vec<u8>, Vec<u8>)>>),
    /// Character data, unescaped; `None` where unescaping failed.
    Text(Option<String>),
    /// An end tag and its name.
    End(Vec<u8>),
    /// The end of the document.
    Eof,
    /// Malformed XML.
    Error,
    /// Anything else (comments, declarations, CDATA, ...).
    Other,
}

/// The events quick-xml reads from a text, up to and including the end of
/// the document or the first error.
pub uninterp spec fn xml_events(xml: Seq<char>) -> Seq<FeedEvent>;

/// Reads the events of `xml` with `Reader::from_str` and
/// `Reader::read_event` until the end of the document or the first error,
/// converting each one: names and attribute keys and values as bytes, text
/// through `BytesText::unescape`.  The events are named, not stated.
#[verifier::external_body]
fn read_xml_events(xml: &str) -> (evs: Vec<FeedEvent>)
    ensures
        evs@ == xml_events(xml@),
{
    let mut r = Reader::from_str(xml);
    let mut evs = vec![];
    while !matches!(evs.last(), Some(Eof | Error)) {
        evs.push(match r.read_event() {
            Ok(XmlStart(e) | XmlEmpty(e)) => Start(e.name().0.to_vec(), e.attributes().map(|a| a.ok().map(|a| (a.key.0.to_vec(), a.value.to_vec()))).collect()),
            Ok(XmlText(t)) => Text(t.unescape().ok().map(Into::into)),
            Ok(XmlEnd(e)) => End(e.name().0.to_vec()),
            Ok(XmlEof) => Eof,
            Err(_) => Error,
            _ => Other,
        });
    }
    evs
}

/// The bytes are the UTF-8 encoding of `s`.
pub open spec fn spells(b: Seq<u8>, s: Seq<char>) -> bool {
    b == encode_utf8(s)
}

fn bytes_spell(b: &Vec<u8>, s: &str) -> (r: bool)
    ensures
        r == spells(b@, s@),
{
    let t = s.as_bytes();
    if b.len() != t.len() {
        return false;
    }
    let mut i: usize = 0;
    while i < b.len()
        invariant
            i <= b@.len() == t@.len(),
            t@ == encode_utf8(s@),
            forall|j: int| 0 <= j < i ==> b@[j] == t@[j],
        decreases b@.len() - i,
    {
        if b[i] != t[i] {
            return false;
        }
        i = i + 1;
    }
    proof {
        assert(b@ =~= t@);
    }
    true
}

/// The value of the first readable attribute named `term`.
pub open spec fn term_value(attrs: Seq<Option<(Vec<u8>, Vec<u8>)>>) -> Option<Seq<u8>>
    decreases attrs.len(),
{
    if attrs.len() == 0 {
        None
    } else {
        match attrs[0] {
            Some(kv) => if spells(kv.0@, "term"@) {
                Some(kv.1@)
            } else {
                term_value(attrs.drop_first())
            },
            None => term_value(attrs.drop_first()),
        }
    }
}

/// What the feed reading tracks between events.
pub struct FeedState {
    pub in_entry: bool,
    /// Where the next text goes: 0 nowhere, 1 the id, 2 the title.
    pub target: u8,
    pub cur_id: Option<Seq<char>>,
    pub cur_title: Option<Seq<char>>,
    pub cur_tag: Option<Seq<char>>,
    /// The entries read so far.
    pub out: Seq<(Seq<char>, Seq<char>)>,
}

pub open spec fn feed_start() -> FeedState {
    FeedState { in_entry: false, target: 0, cur_id: None, cur_title: None, cur_tag: None, out: seq![] }
}

/// The title suffix a tag gives: ` [tag]`, or nothing.
pub open spec fn tag_suffix(tag: Option<Seq<char>>) -> Seq<char> {
    match tag {
        Some(t) => " ["@ + t + "]"@,
        None => seq![],
    }
}

/// One event read.  An `entry` start opens a fresh entry; inside one, an
/// `id` or `title` start sends the next text there, and the first
/// `category` start with a `term` attribute gives the tag.  An `id` or
/// `title` end stops sending text; an `entry` end closes the entry and
/// keeps it when it has both an id and a title.
pub open spec fn feed_step(st: FeedState, ev: FeedEvent) -> FeedState {
    match ev {
        FeedEvent::Start(name, attributes) => {
            if spells(name@, "entry"@) {
                FeedState { in_entry: true, cur_id: None, cur_title: None, cur_tag: None, ..st }
            } else if spells(name@, "id"@) && st.in_entry {
                FeedState { target: 1, ..st }
            } else if spells(name@, "title"@) && st.in_entry {
                FeedState { target: 2, ..st }
            } else if spells(name@, "category"@) && st.in_entry && st.cur_tag is None {
                match term_value(attributes@) {
                    Some(v) => FeedState { cur_tag: Some(trimmed(lossy_utf8(v))), ..st },
                    None => st,
                }
            } else {
                st
            }
        },
        FeedEvent::Text(t) => {
            let text = trimmed(
                match t {
                    Some(s) => s@,
                    None => Seq::<char>::empty(),
                },
            );
            if st.target == 1 {
                FeedState { cur_id: Some(text), ..st }
            } else if st.target == 2 {
                FeedState { cur_title: Some(text), ..st }
            } else {
                st
            }
        },
        FeedEvent::End(name) => {
            if spells(name@, "id"@) || spells(name@, "title"@) {
                FeedState { target: 0, ..st }
            } else if spells(name@, "entry"@) {
                if st.cur_id is Some && st.cur_title is Some {
                    FeedState {
                        in_entry: false,
                        cur_id: None,
                        cur_title: None,
                        cur_tag: None,
                        out: st.out.push((st.cur_id->0, st.cur_title->0 + tag_suffix(st.cur_tag))),
                        ..st
                    }
                } else {
                    FeedState { in_entry: false, cur_id: None, cur_title: None, ..st }
                }
            } else {
                st
            }
        },
        _ => st,
    }
}

/// The events read in order, up to the end of the document or the first
/// error.
pub open spec fn feed_run(st: FeedState, evs: Seq<FeedEvent>) -> FeedState
    decreases evs.len(),
{
    if evs.len() == 0 || evs[0] is Eof || evs[0] is Error {
        st
    } else {
        feed_run(feed_step(st, evs[0]), evs.drop_first())
    }
}

/// The entries a sequence of events gives.
pub open spec fn feed_entries(evs: Seq<FeedEvent>) -> Seq<(Seq<char>, Seq<char>)> {
    feed_run(feed_start(), evs).out
}

pub open spec fn pairs_view(v: Seq<(String, String)>) -> Seq<(Seq<char>, Seq<char>)> {
    v.map_values(|p: (String, String)| (p.0@, p.1@))
}

fn first_term(attrs: &Vec<Option<(Vec<u8>, Vec<u8>)>>) -> (r: Option<&Vec<u8>>)
    ensures
        match r {
            Some(v) => term_value(attrs@) == Some(v@),
            None => term_value(attrs@) is None,
        },
{
    let mut i: usize = 0;
    proof {
        assert(attrs@.skip(0) =~= attrs@);
    }
    while i < attrs.len()
        invariant
            i <= attrs@.len(),
            term_value(attrs@) == term_value(attrs@.skip(i as int)),
        decreases attrs@.len() - i,
    {
        proof {
            assert(attrs@.skip(i as int)[0] == attrs@[i as int]);
            assert(attrs@.skip(i as int).drop_first() =~= attrs@.skip(i + 1));
        }
        match &attrs[i] {
            Some(kv) => {
                if bytes_spell(&kv.0, "term") {
                    return Some(&kv.1);
                }
            },
            None => {},
        }
        i = i + 1;
    }
    proof {
        assert(attrs@.skip(i as int).len() == 0);
    }
    None
}

/// The entries the events give: each `(id, title)`, the title followed by
/// ` [tag]` where the entry has a tag.
pub fn entries_from_events(events: &Vec<FeedEvent>) -> (out: Vec<(String, String)>)
    ensures
        pairs_view(out@) == feed_entries(events@),
{
    let mut in_entry = false;
    let mut target: u8 = 0;
    let mut cur_id: Option<String> = None;
    let mut cur_title: Option<String> = None;
    let mut cur_tag: Option<String> = None;
    let mut out: Vec<(String, String)> = Vec::new();
    let mut i: usize = 0;
    proof {
        assert(pairs_view(out@) =~= Seq::<(Seq<char>, Seq<char>)>::empty());
        assert(events@.skip(0) =~= events@);
    }
    loop
        invariant
            i <= events@.len(),
            feed_run(feed_start(), events@) == feed_run(
                FeedState {
                    in_entry,
                    target,
                    cur_id: opt_view(cur_id),
                    cur_title: opt_view(cur_title),
                    cur_tag: opt_view(cur_tag),
                    out: pairs_view(out@),
                },
                events@.skip(i as int),
            ),
        ensures
            pairs_view(out@) == feed_entries(events@),
        decreases events@.len() - i,
    {
        if i >= events.len() {
            proof {
                assert(events@.skip(i as int).len() == 0);
            }
            break;
        }
        let ghost st = FeedState {
            in_entry,
            target,
            cur_id: opt_view(cur_id),
            cur_title: opt_view(cur_title),
            cur_tag: opt_view(cur_tag),
            out: pairs_view(out@),
        };
        proof {
            assert(events@.skip(i as int)[0] == events@[i as int]);
            assert(events@.skip(i as int).drop_first() =~= events@.skip(i + 1));
        }
        match &events[i] {
            FeedEvent::Eof => {
                break;
            },
            FeedEvent::Error => {
                break;
            },
            FeedEvent::Start(name, attributes) => {
                if bytes_spell(name, "entry") {
                    in_entry = true;
                    cur_id = None;
                    cur_title = None;
                    cur_tag = None;
                } else if bytes_spell(name, "id") && in_entry {
                    target = 1;
                } else if bytes_spell(name, "title") && in_entry {
                    target = 2;
                } else if bytes_spell(name, "category") && in_entry && cur_tag.is_none() {
                    match first_term(attributes) {
                        Some(v) => {
                            let raw = utf8_lossy(v.as_slice());
                            cur_tag = Some(str_trim(raw.as_str()));
                        },
                        None => {},
                    }
                }
            },
            FeedEvent::Text(t) => {
                if target != 0 {
                    proof {
                        reveal_strlit("");
                        assert(""@ =~= Seq::<char>::empty());
                    }
                    let text = match t {
                        Some(s) => str_trim(s.as_str()),
                        None => str_trim(""),
                    };
                    if target == 1 {
                        cur_id = Some(text);
                    } else if target == 2 {
                        cur_title = Some(text);
                    }
                }
            },
            FeedEvent::End(name) => {
                if bytes_spell(name, "id") || bytes_spell(name, "title") {
                    target = 0;
                } else if bytes_spell(name, "entry") {
                    in_entry = false;
                    let id = cur_id.take();
                    let title = cur_title.take();
                    match (id, title) {
                        (Some(id), Some(title)) => {
                            let mut full = title;
                            let ghost tag = opt_view(cur_tag);
                            match cur_tag.take() {
                                Some(t) => {
                                    push_str(&mut full, " [");
                                    push_str(&mut full, t.as_str());
                                    push_str(&mut full, "]");
                                    proof {
                                        assert(full@ =~= st.cur_title->0 + tag_suffix(tag));
                                    }
                                },
                                None => {
                                    proof {
                                        assert(full@ =~= st.cur_title->0 + tag_suffix(tag));
                                    }
                                },
                            }
                            let ghost prev = out@;
                            out.push((id, full));
                            proof {
                                assert(pairs_view(out@) =~= pairs_view(prev).push((out@.last().0@, out@.last().1@)));
                            }
                        },
                        _ => {},
                    }
                }
            },
            FeedEvent::Other => {},
        }
        proof {
            assert(FeedState {
                in_entry,
                target,
                cur_id: opt_view(cur_id),
                cur_title: opt_view(cur_title),
                cur_tag: opt_view(cur_tag),
                out: pairs_view(out@),
            } == feed_step(st, events@[i as int]));
        }
        i = i + 1;
    }
    out
}

/// Reads an Atom feed body into `(entry id, "title [tag]")` pairs, from
/// the events quick-xml reads up to the end of the document or the first
/// error.  Malformed XML or missing fields drop entries; they are not
/// errors.
pub fn parse_feed(xml: &str) -> (out: Vec<(String, String)>)
    ensures
        pairs_view(out@) == feed_entries(xml_events(xml@)),
{
    let events = read_xml_events(xml);
    entries_from_events(&events)
}


/// The feed re-lists its newest questions on every poll: the ids already
/// forwarded, in the order they were first seen, so that none is
/// forwarded twice.
pub struct SeenIds {
    order: Vec<String>,
}

impl View for SeenIds {
    type V = Seq<Seq<char>>;

    closed spec fn view(&self) -> Seq<Seq<char>> {
        self.order@.map_values(|s: String| s@)
    }
}

impl SeenIds {
    /// No id twice.
    pub closed spec fn wf(&self) -> bool {
        self@.no_duplicates()
    }

    pub fn new() -> (r: Self)
        ensures
            r.wf(),
            r@ == Seq::<Seq<char>>::empty(),
    {
        let r = SeenIds { order: Vec::new() };
        assert(r@ =~= Seq::<Seq<char>>::empty());
        r
    }

    /// Whether `id` is new; a new id is remembered from then on.
    pub fn remember(&mut self, id: String) -> (fresh: bool)
        requires
            old(self).wf(),
        ensures
            final(self).wf(),
            fresh == !old(self)@.contains(id@),
            fresh ==> final(self)@ == old(self)@.push(id@),
            !fresh ==> final(self)@ == old(self)@,
    {
        let mut i: usize = 0;
        while i < self.order.len()
            invariant
                i <= self@.len(),
                self@.len() == self.order@.len(),
                self@ == old(self)@,
                self.wf(),
                forall|j: int| 0 <= j < i ==> self@[j] != id@,
            decreases self.order@.len() - i,
        {
            if self.order[i] == id {
                proof {
                    assert(self@[i as int] == id@);
                }
                return false;
            }
            i = i + 1;
        }
        let ghost before = self@;
        self.order.push(id);
        proof {
            assert(self@ =~= before.push(id@));
            assert forall|a: int, b: int| 0 <= a < self@.len() && 0 <= b < self@.len() && a != b
                implies self@[a] != self@[b] by {
                if a < before.len() && b < before.len() {
                    assert(self@[a] == before[a] && self@[b] == before[b]);
                } else if a < before.len() {
                    assert(self@[a] == before[a]);
                } else if b < before.len() {
                    assert(self@[b] == before[b]);
                }
            }
        }
        true
    }
}

/// Once remembered, an id is never reported fresh again.
pub proof fn remembered_ids_stay(seen: Seq<Seq<char>>, id: Seq<char>, later: Seq<Seq<char>>)
    requires
        seen.contains(id),
        seen.is_prefix_of(later),
    ensures
        later.contains(id),
{
    let j = choose|j: int| 0 <= j < seen.len() && seen[j] == id;
    assert(later[j] == id);
}

} // verus!
