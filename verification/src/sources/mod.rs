//! Normalising firehose messages into source-agnostic events: Bluesky
//! Jetstream posts, Wikipedia recent-change frames and Stack Overflow feed
//! entries.  Fetching them is left to the caller.
use vstd::prelude::*;

pub mod bluesky;
pub mod wikipedia;
pub mod stackoverflow;

verus! {

/// A source-agnostic event, normalised before it reaches the aggregator.
#[derive(Clone, Debug)]
pub struct RawEvent {
    /// "bluesky", "wikipedia" or "stackoverflow".
    pub source: &'static str,
    pub kind: String,
    pub summary: String,
    pub ts_ms: i64,
}

/// Milliseconds since the Unix epoch by the system clock (zero for a clock
/// set before it).  Nothing is stated of the reading.
#[verifier::external_body]
pub fn now_ms() -> i64 {
    std::time::SystemTime::now().duration_since(std::time::UNIX_EPOCH).unwrap_or_default().as_millis() as i64
}


/// The characters with the Unicode `White_Space` property: tab through
/// carriage return, space, next line, no-break space, ogham space mark, the
/// spaces from en quad through hair space, line and paragraph separator,
/// narrow no-break space, medium mathematical space and ideographic space.
pub open spec fn white_space(c: char) -> bool {
    let x = c as u32;
    ||| 0x9 <= x <= 0xd
    ||| x == 0x20
    ||| x == 0x85
    ||| x == 0xa0
    ||| x == 0x1680
    ||| 0x2000 <= x <= 0x200a
    ||| x == 0x2028
    ||| x == 0x2029
    ||| x == 0x202f
    ||| x == 0x205f
    ||| x == 0x3000
}

/// `s` without its leading whitespace.
pub open spec fn trim_start(s: Seq<char>) -> Seq<char>
    decreases s.len(),
{
    if s.len() > 0 && white_space(s[0]) {
        trim_start(s.drop_first())
    } else {
        s
    }
}

/// `s` without its trailing whitespace.
pub open spec fn trim_end(s: Seq<char>) -> Seq<char>
    decreases s.len(),
{
    if s.len() > 0 && white_space(s.last()) {
        trim_end(s.drop_last())
    } else {
        s
    }
}

/// `s` without its leading and trailing whitespace.
pub open spec fn trimmed(s: Seq<char>) -> Seq<char> {
    trim_end(trim_start(s))
}

/// A text of whitespace only trims to nothing.
pub proof fn blank_trims_to_nothing(s: Seq<char>)
    requires
        forall|i: int| 0 <= i < s.len() ==> white_space(#[trigger] s[i]),
    ensures
        trimmed(s).len() == 0,
    decreases s.len(),
{
    if s.len() > 0 {
        assert forall|i: int| 0 <= i < s.drop_first().len() implies white_space(#[trigger] s.drop_first()[i]) by {
            assert(s.drop_first()[i] == s[i + 1]);
        }
        blank_trims_to_nothing(s.drop_first());
    }
}

/// Calls `str::trim`, which removes the leading and trailing characters
/// with the Unicode `White_Space` property (`char::is_whitespace`).
#[verifier::external_body]
pub(crate) fn str_trim(s: &str) -> (r: String)
    ensures
        r@ == trimmed(s@),
{
    s.trim().to_string()
}

/// The text of `bytes` read as UTF-8, each invalid sequence replaced by
/// U+FFFD, as `String::from_utf8_lossy` gives it.
pub uninterp spec fn lossy_utf8(bytes: Seq<u8>) -> Seq<char>;

/// Calls `String::from_utf8_lossy`; the result is named, not stated.
#[verifier::external_body]
pub(crate) fn utf8_lossy(bytes: &[u8]) -> (r: String)
    ensures
        r@ == lossy_utf8(bytes@),
{
    String::from_utf8_lossy(bytes).into_owned()
}


/// An optional string by its characters.
pub open spec fn opt_view(o: Option<String>) -> Option<Seq<char>> {
    match o {
        Some(s) => Some(s@),
        None => None,
    }
}

/// Key paths by their characters.
pub open spec fn paths_view(paths: Seq<Vec<&str>>) -> Seq<Seq<Seq<char>>> {
    paths.map_values(|p: Vec<&str>| p@.map_values(|k: &str| k@))
}

/// Lookup results by their characters.
pub open spec fn lookups_view(r: Seq<(bool, Option<String>)>) -> Seq<(bool, Option<Seq<char>>)> {
    r.map_values(|e: (bool, Option<String>)| (e.0, opt_view(e.1)))
}

/// What a JSON text holds at each of the given key paths, as serde_json
/// reads it: whether there is a value there, and the string there if the
/// value is a string; `None` when the text is not JSON.
pub uninterp spec fn json_lookup(text: Seq<char>, paths: Seq<Seq<Seq<char>>>) -> Option<Seq<(bool, Option<Seq<char>>)>>;

/// Parses `text` with `serde_json::from_str` into a `Value` and follows
/// each key path with `Value::get`, reading the value found with
/// `Value::as_str`; one result per path.  The results are named, not
/// stated.
#[verifier::external_body]
pub(crate) fn read_json(text: &str, paths: &Vec<Vec<&str>>) -> (r: Option<Vec<(bool, Option<String>)>>)
    ensures
        match r {
            Some(v) => v@.len() == paths@.len() && json_lookup(text@, paths_view(paths@)) == Some(
                lookups_view(v@),
            ),
            None => json_lookup(text@, paths_view(paths@)) is None,
        },
{
    let v: serde_json::Value = serde_json::from_str(text).ok()?;
    Some(
        paths
            .iter()
            .map(|p| {
                let found = p.iter().try_fold(&v, |x, k| x.get(*k));
                (found.is_some(), found.and_then(|x| x.as_str()).map(|s| s.to_string()))
            })
            .collect(),
    )
}

} // verus!
