//! Bluesky Jetstream messages (JSON over WebSocket) normalised into "new
//! post" events.  serde_json reads the JSON; which messages count as posts
//! and how a post is summarised is decided here.
use vstd::prelude::*;
use crate::sources::{RawEvent, now_ms, trimmed, str_trim, white_space, blank_trims_to_nothing, opt_view, json_lookup, read_json, paths_view, lookups_view};
use crate::strings::{chars_of, push_chars, push_str, string_of, string_push};

verus! {

/// What a Jetstream message says that matters here.  A text field is
/// present only where the JSON holds a string there.
pub struct JetstreamFields {
    /// The top-level `kind`.
    pub kind: Option<String>,
    /// Whether the message has a `commit`.
    pub has_commit: bool,
    /// The commit's `operation`.
    pub operation: Option<String>,
    /// Whether the commit has a `record`.
    pub has_record: bool,
    /// The record's `text`.
    pub text: Option<String>,
    /// The author's `did`.
    pub did: Option<String>,
}

pub struct JetstreamView {
    pub kind: Option<Seq<char>>,
    pub has_commit: bool,
    pub operation: Option<Seq<char>>,
    pub has_record: bool,
    pub text: Option<Seq<char>>,
    pub did: Option<Seq<char>>,
}

impl View for JetstreamFields {
    type V = JetstreamView;

    open spec fn view(&self) -> JetstreamView {
        JetstreamView {
            kind: opt_view(self.kind),
            has_commit: self.has_commit,
            operation: opt_view(self.operation),
            has_record: self.has_record,
            text: opt_view(self.text),
            did: opt_view(self.did),
        }
    }
}

/// The key paths of a Jetstream message that matter: `kind`, `commit`,
/// `commit.operation`, `commit.record`, `commit.record.text` and `did`.
pub open spec fn jetstream_paths() -> Seq<Seq<Seq<char>>> {
    seq![
        seq!["kind"@],
        seq!["commit"@],
        seq!["commit"@, "operation"@],
        seq!["commit"@, "record"@],
        seq!["commit"@, "record"@, "text"@],
        seq!["did"@],
    ]
}

/// The fields the lookups along `jetstream_paths` give.
pub open spec fn jetstream_view(v: Seq<(bool, Option<Seq<char>>)>) -> JetstreamView {
    JetstreamView {
        kind: v[0].1,
        has_commit: v[1].0,
        operation: v[2].1,
        has_record: v[3].0,
        text: v[4].1,
        did: v[5].1,
    }
}

/// The fields of a message, `None` when it is not JSON.
pub open spec fn jetstream_fields(text: Seq<char>) -> Option<JetstreamView> {
    match json_lookup(text, jetstream_paths()) {
        Some(v) => Some(jetstream_view(v)),
        None => None,
    }
}

/// Reads the fields of a message through serde_json.
fn read_jetstream(text: &str) -> (r: Option<JetstreamFields>)
    ensures
        match r {
            Some(f) => jetstream_fields(text@) == Some(f@),
            None => jetstream_fields(text@) is None,
        },
{
    let paths: Vec<Vec<&str>> = vec![
        vec!["kind"],
        vec!["commit"],
        vec!["commit", "operation"],
        vec!["commit", "record"],
        vec!["commit", "record", "text"],
        vec!["did"],
    ];
    assert(paths_view(paths@) =~~= jetstream_paths());
    let mut v = read_json(text, &paths)?;
    assert(v@.len() == 6);
    let ghost lv = lookups_view(v@);
    let did = v.pop().unwrap().1;
    let text_field = v.pop().unwrap();
    let record = v.pop().unwrap();
    let operation = v.pop().unwrap().1;
    let commit = v.pop().unwrap();
    let kind = v.pop().unwrap().1;
    let f = JetstreamFields {
        kind,
        has_commit: commit.0,
        operation,
        has_record: record.0,
        text: text_field.1,
        did,
    };
    assert(f@ == jetstream_view(lv));
    Some(f)
}

/// The record's text, empty where there is none.
pub open spec fn post_text(f: JetstreamView) -> Seq<char> {
    match f.text {
        Some(t) => t,
        None => Seq::<char>::empty(),
    }
}

/// The author, `?` where there is none.
pub open spec fn post_did(f: JetstreamView) -> Seq<char> {
    match f.did {
        Some(d) => d,
        None => "?"@,
    }
}

/// A post worth reporting: a commit that creates a record whose text is
/// not blank.
pub open spec fn is_new_post(f: JetstreamView) -> bool {
    &&& f.kind == Some("commit"@)
    &&& f.has_commit
    &&& f.operation == Some("create"@)
    &&& f.has_record
    &&& trimmed(post_text(f)).len() > 0
}

/// What follows the last `:` of `s` (all of `s` when it has none).
pub open spec fn after_last_colon(s: Seq<char>) -> Seq<char>
    decreases s.len(),
{
    if s.len() == 0 {
        s
    } else if s.last() == ':' {
        Seq::<char>::empty()
    } else {
        after_last_colon(s.drop_last()).push(s.last())
    }
}

/// At most the first `n` characters of `s`.
pub open spec fn first_chars(s: Seq<char>, n: nat) -> Seq<char> {
    if s.len() <= n { s } else { s.take(n as int) }
}

/// `s` cut to `max` characters, an ellipsis marking a cut.
pub open spec fn truncate_spec(s: Seq<char>, max: nat) -> Seq<char> {
    if s.len() <= max { s } else { s.take(max as int).push('\u{2026}') }
}

/// `@` and the first ten characters of the author's last `:`-separated
/// part, then `: ` and the text cut to 120 characters.
pub open spec fn post_summary(did: Seq<char>, text: Seq<char>) -> Seq<char> {
    "@"@ + first_chars(after_last_colon(did), 10) + ": "@ + truncate_spec(text, 120)
}

proof fn lemma_after_last_colon(s: Seq<char>, j: int)
    requires
        -1 <= j < s.len(),
        j >= 0 ==> s[j] == ':',
        forall|k: int| j < k < s.len() ==> s[k] != ':',
    ensures
        after_last_colon(s) == s.subrange(j + 1, s.len() as int),
    decreases s.len(),
{
    if s.len() > 0 {
        if s.last() == ':' {
            assert(j == s.len() - 1);
        } else {
            lemma_after_last_colon(s.drop_last(), j);
            assert(s.subrange(j + 1, s.len() as int) =~= s.drop_last().subrange(j + 1, s.len() - 1).push(s.last()));
        }
    } else {
        assert(s.subrange(j + 1, s.len() as int) =~= s);
    }
}

/// `s` cut to `max_chars` characters, with an ellipsis where it was cut.
pub fn truncate(s: &str, max_chars: usize) -> (r: String)
    ensures
        r@ == truncate_spec(s@, max_chars as nat),
{
    let cs = chars_of(s);
    if cs.len() <= max_chars {
        string_of(&cs, 0, cs.len())
    } else {
        let mut head = string_of(&cs, 0, max_chars);
        string_push(&mut head, '\u{2026}');
        head
    }
}

fn is_text(o: &Option<String>, lit: &str) -> (r: bool)
    ensures
        r == (opt_view(*o) == Some(lit@)),
{
    match o {
        Some(x) => *x == String::from_str(lit),
        None => false,
    }
}

/// The post a message's fields describe, stamped `ts_ms`, or `None` for
/// anything but a new post with text.
pub fn post_from_fields(f: &JetstreamFields, ts_ms: i64) -> (r: Option<RawEvent>)
    ensures
        r is Some <==> is_new_post(f@),
        r matches Some(e) ==> {
            &&& e.source@ == "bluesky"@
            &&& e.kind@ == "post"@
            &&& e.summary@ == post_summary(post_did(f@), post_text(f@))
            &&& e.ts_ms == ts_ms
        },
{
    if !is_text(&f.kind, "commit") || !f.has_commit || !is_text(&f.operation, "create") || !f.has_record {
        return None;
    }
    proof {
        reveal_strlit("");
        reveal_strlit("?");
    }
    let text: String = match &f.text {
        Some(t) => t.clone(),
        None => String::new(),
    };
    assert(text@ == post_text(f@));
    let t = str_trim(text.as_str());
    if t.as_str().is_empty() {
        return None;
    }
    let did: String = match &f.did {
        Some(d) => d.clone(),
        None => String::from_str("?"),
    };
    assert(did@ == post_did(f@));
    let dc = chars_of(did.as_str());
    // The last ':' of the did, if any.
    let mut k = dc.len();
    while k > 0 && dc[k - 1] != ':'
        invariant
            k <= dc@.len(),
            forall|m: int| k <= m < dc@.len() ==> dc@[m] != ':',
        decreases k,
    {
        k = k - 1;
    }
    proof {
        lemma_after_last_colon(dc@, k - 1);
    }
    let end = if dc.len() - k <= 10 { dc.len() } else { k + 10 };
    let mut summary = String::new();
    string_push(&mut summary, '@');
    push_chars(&mut summary, &dc, k, end);
    push_str(&mut summary, ": ");
    let cut = truncate(text.as_str(), 120);
    push_str(&mut summary, cut.as_str());
    proof {
        reveal_strlit("@");
        reveal_strlit(": ");
        let tail = dc@.subrange(k as int, dc@.len() as int);
        assert(dc@.subrange(k as int, end as int) =~= first_chars(tail, 10));
        assert(summary@ =~= post_summary(did@, text@));
    }
    Some(RawEvent { source: "bluesky", kind: String::from_str("post"), summary, ts_ms })
}

/// Reads one Jetstream message: `None` for anything that is not JSON or
/// not a new post with text; a post is stamped with the clock's reading.
pub fn parse_message(text: &str) -> (r: Option<RawEvent>)
    ensures
        match jetstream_fields(text@) {
            None => r is None,
            Some(f) => {
                &&& r is Some <==> is_new_post(f)
                &&& r matches Some(e) ==> {
                    &&& e.source@ == "bluesky"@
                    &&& e.kind@ == "post"@
                    &&& e.summary@ == post_summary(post_did(f), post_text(f))
                }
            },
        },
{
    let f = read_jetstream(text)?;
    post_from_fields(&f, now_ms())
}


/// A post summary is at most 134 characters: `@`, ten of the author's,
/// `: `, and 120 of the text with an ellipsis.
pub proof fn post_summary_is_short(did: Seq<char>, text: Seq<char>)
    ensures
        post_summary(did, text).len() <= 134,
{
    reveal_strlit("@");
    reveal_strlit(": ");
}


/// A post whose text is empty or all whitespace is never reported.
pub proof fn blank_text_is_no_post(f: JetstreamView)
    requires
        forall|i: int| 0 <= i < post_text(f).len() ==> white_space(#[trigger] post_text(f)[i]),
    ensures
        !is_new_post(f),
{
    blank_trims_to_nothing(post_text(f));
}

/// What follows the last `:` of a text is its last part: a suffix with no
/// `:` in it, preceded by a `:` unless it is the whole text.
pub proof fn after_last_colon_is_the_last_part(s: Seq<char>)
    ensures
        after_last_colon(s).len() <= s.len(),
        after_last_colon(s) == s.skip(s.len() - after_last_colon(s).len()),
        !after_last_colon(s).contains(':'),
        after_last_colon(s).len() < s.len() ==> s[s.len() - after_last_colon(s).len() - 1] == ':',
    decreases s.len(),
{
    if s.len() > 0 && s.last() != ':' {
        let p = s.drop_last();
        after_last_colon_is_the_last_part(p);
        let a = after_last_colon(p);
        assert(after_last_colon(s) == a.push(s.last()));
        assert(s.skip(s.len() - a.len() - 1) =~= p.skip(p.len() - a.len()).push(s.last()));
        if a.push(s.last()).contains(':') {
            let k = choose|k: int| 0 <= k < a.len() + 1 && a.push(s.last())[k] == ':';
            if k < a.len() {
                assert(a[k] == ':');
            }
        }
        if a.len() < p.len() {
            assert(s[s.len() - a.len() - 2] == p[p.len() - a.len() - 1]);
        }
    } else if s.len() > 0 {
        assert(s.skip(s.len() as int) =~= Seq::<char>::empty());
    } else {
        assert(s.skip(0) =~= s);
    }
}

/// A post's summary is `@`, at most the first ten characters of the
/// author's last `:`-separated part, `: `, and the text: all of it when it
/// has at most 120 characters, and otherwise exactly its first 120
/// characters followed by an ellipsis.
pub proof fn post_summary_keeps_up_to_120_characters(did: Seq<char>, text: Seq<char>)
    ensures
        ({
            let who = after_last_colon(did);
            let head = "@"@ + (if who.len() <= 10 { who } else { who.take(10) }) + ": "@;
            &&& text.len() <= 120 ==> post_summary(did, text) == head + text
            &&& text.len() > 120 ==> post_summary(did, text) == head + text.take(120) + seq!['\u{2026}']
        }),
{
    let who = after_last_colon(did);
    let head = "@"@ + (if who.len() <= 10 { who } else { who.take(10) }) + ": "@;
    if text.len() > 120 {
        assert(text.take(120).push('\u{2026}') =~= text.take(120) + seq!['\u{2026}']);
        assert(post_summary(did, text) =~= head + text.take(120) + seq!['\u{2026}']);
    }
}

} // verus!
