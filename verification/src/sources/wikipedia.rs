//! Wikipedia EventStreams `recentchange` frames (server-sent events)
//! normalised into edit events.  serde_json reads the JSON payload; finding
//! it in the frame and summarising the edit is decided here.
use vstd::prelude::*;
use crate::sources::{RawEvent, now_ms, trimmed, str_trim, opt_view, json_lookup, read_json, paths_view, lookups_view};
use crate::strings::{chars_of, push_str, string_of};

verus! {

/// The fields of a recent change that the summary uses, each present only
/// where the JSON holds a string there.
pub struct WikiFields {
    pub wiki: Option<String>,
    pub title: Option<String>,
    pub user: Option<String>,
    pub comment: Option<String>,
}

pub struct WikiView {
    pub wiki: Option<Seq<char>>,
    pub title: Option<Seq<char>>,
    pub user: Option<Seq<char>>,
    pub comment: Option<Seq<char>>,
}

impl View for WikiFields {
    type V = WikiView;

    open spec fn view(&self) -> WikiView {
        WikiView {
            wiki: opt_view(self.wiki),
            title: opt_view(self.title),
            user: opt_view(self.user),
            comment: opt_view(self.comment),
        }
    }
}

/// The keys of a recent change that the summary uses.
pub open spec fn wiki_paths() -> Seq<Seq<Seq<char>>> {
    seq![seq!["wiki"@], seq!["title"@], seq!["user"@], seq!["comment"@]]
}

/// The fields of a JSON payload, `None` when it is not JSON.
pub open spec fn wiki_fields(json: Seq<char>) -> Option<WikiView> {
    match json_lookup(json, wiki_paths()) {
        Some(v) => Some(WikiView { wiki: v[0].1, title: v[1].1, user: v[2].1, comment: v[3].1 }),
        None => None,
    }
}

/// Reads the fields of a payload through serde_json.
fn read_wiki_change(json: &str) -> (r: Option<WikiFields>)
    ensures
        match r {
            Some(f) => wiki_fields(json@) == Some(f@),
            None => wiki_fields(json@) is None,
        },
{
    let paths: Vec<Vec<&str>> = vec![vec!["wiki"], vec!["title"], vec!["user"], vec!["comment"]];
    assert(paths_view(paths@) =~~= wiki_paths());
    let mut v = read_json(json, &paths)?;
    assert(v@.len() == 4);
    let ghost lv = lookups_view(v@);
    let comment = v.pop().unwrap().1;
    let user = v.pop().unwrap().1;
    let title = v.pop().unwrap().1;
    let wiki = v.pop().unwrap().1;
    let f = WikiFields { wiki, title, user, comment };
    assert(f@ == WikiView { wiki: lv[0].1, title: lv[1].1, user: lv[2].1, comment: lv[3].1 });
    Some(f)
}

/// The lines of a frame: the pieces between its `\n` characters.
pub open spec fn frame_lines(s: Seq<char>) -> Seq<Seq<char>>
    decreases s.len(),
{
    if s.len() == 0 {
        seq![Seq::<char>::empty()]
    } else {
        let p = frame_lines(s.drop_last());
        if s.last() == '\n' {
            p.push(Seq::<char>::empty())
        } else {
            p.update(p.len() - 1, p.last().push(s.last()))
        }
    }
}

/// `data:`, the prefix of a payload line.
pub open spec fn data_prefix() -> Seq<char> {
    seq!['d', 'a', 't', 'a', ':']
}

pub open spec fn is_data_line(l: Seq<char>) -> bool {
    l.len() >= 5 && l.take(5) == data_prefix()
}

/// The first line of `ls` that starts with `data:`.
pub open spec fn first_data_line(ls: Seq<Seq<char>>) -> Option<Seq<char>>
    decreases ls.len(),
{
    if ls.len() == 0 {
        None
    } else if is_data_line(ls[0]) {
        Some(ls[0])
    } else {
        first_data_line(ls.drop_first())
    }
}

/// `s` with every leading `data:` taken off.
pub open spec fn strip_data_prefixes(s: Seq<char>) -> Seq<char>
    decreases s.len(),
{
    if is_data_line(s) {
        strip_data_prefixes(s.skip(5))
    } else {
        s
    }
}

/// The JSON payload of a frame: its first `data:` line with the prefixes
/// and surrounding whitespace taken off.
pub open spec fn frame_payload(frame: Seq<char>) -> Option<Seq<char>> {
    match first_data_line(frame_lines(frame)) {
        Some(l) => Some(trimmed(strip_data_prefixes(l))),
        None => None,
    }
}

pub open spec fn or_default(o: Option<Seq<char>>, d: Seq<char>) -> Seq<char> {
    match o {
        Some(s) => s,
        None => d,
    }
}

/// The edit summary: `[wiki] title — user: comment`, with `?`,
/// `(untitled)`, `anon` and `(no summary)` for what is missing (an empty
/// comment counts as missing).
pub open spec fn edit_summary(f: WikiView) -> Seq<char> {
    let comment = match f.comment {
        Some(c) => if c.len() > 0 { c } else { "(no summary)"@ },
        None => "(no summary)"@,
    };
    "["@ + or_default(f.wiki, "?"@) + "] "@ + or_default(f.title, "(untitled)"@) + " \u{2014} "@
        + or_default(f.user, "anon"@) + ": "@ + comment
}

fn push_or(out: &mut String, o: &Option<String>, d: &str)
    ensures
        final(out)@ == old(out)@ + or_default(opt_view(*o), d@),
{
    match o {
        Some(s) => push_str(out, s.as_str()),
        None => push_str(out, d),
    }
}

/// The edit event for a change's fields, stamped `ts_ms`.
pub fn edit_from_fields(f: &WikiFields, ts_ms: i64) -> (e: RawEvent)
    ensures
        e.source@ == "wikipedia"@,
        e.kind@ == "edit"@,
        e.summary@ == edit_summary(f@),
        e.ts_ms == ts_ms,
{
    let mut summary = String::new();
    push_str(&mut summary, "[");
    push_or(&mut summary, &f.wiki, "?");
    push_str(&mut summary, "] ");
    push_or(&mut summary, &f.title, "(untitled)");
    push_str(&mut summary, " \u{2014} ");
    push_or(&mut summary, &f.user, "anon");
    push_str(&mut summary, ": ");
    let ghost before = summary@;
    match &f.comment {
        Some(c) => {
            if c.as_str().is_empty() {
                push_str(&mut summary, "(no summary)");
            } else {
                push_str(&mut summary, c.as_str());
            }
        },
        None => push_str(&mut summary, "(no summary)"),
    }
    proof {
        let comment = match f@.comment {
            Some(c) => if c.len() > 0 { c } else { "(no summary)"@ },
            None => "(no summary)"@,
        };
        assert(summary@ == before + comment);
        assert(summary@ =~= edit_summary(f@));
    }
    RawEvent { source: "wikipedia", kind: String::from_str("edit"), summary, ts_ms }
}

proof fn lemma_frame_lines_nonempty(s: Seq<char>)
    ensures
        frame_lines(s).len() >= 1,
    decreases s.len(),
{
    if s.len() > 0 {
        lemma_frame_lines_nonempty(s.drop_last());
    }
}

/// Where the first `data:` line of a frame starts and ends, by character
/// index.
fn find_data_line(cs: &Vec<char>) -> (r: Option<(usize, usize)>)
    ensures
        match r {
            Some((a, b)) => a <= b <= cs@.len() && first_data_line(frame_lines(cs@)) == Some(
                cs@.subrange(a as int, b as int),
            ),
            None => first_data_line(frame_lines(cs@)) is None,
        },
{
    // Lines are scanned from the front; `start` is where the current one
    // began.
    let mut start: usize = 0;
    let mut i: usize = 0;
    let ghost mut seen: Seq<Seq<char>> = seq![];
    proof {
        assert(cs@.take(0) =~= Seq::<char>::empty());
    }
    loop
        invariant
            start <= i <= cs@.len(),
            frame_lines(cs@.take(i as int)) == seen.push(cs@.subrange(start as int, i as int)),
            forall|j: int| 0 <= j < seen.len() ==> !is_data_line(#[trigger] seen[j]),
            forall|k: int| start <= k < i ==> cs@[k] != '\n',
        decreases cs@.len() - i,
    {
        if i == cs.len() || cs[i] == '\n' {
            let ghost l = cs@.subrange(start as int, i as int);
            let is_data = i - start >= 5 && cs[start] == 'd' && cs[start + 1] == 'a' && cs[start + 2] == 't'
                && cs[start + 3] == 'a' && cs[start + 4] == ':';
            proof {
                if i - start >= 5 {
                    if is_data {
                        assert(l.take(5) =~= data_prefix());
                    } else {
                        assert(l.take(5) != data_prefix()) by {
                            if l.take(5) == data_prefix() {
                                assert(l.take(5)[0] == 'd' && l.take(5)[1] == 'a' && l.take(5)[2] == 't');
                                assert(l.take(5)[3] == 'a' && l.take(5)[4] == ':');
                            }
                        }
                    }
                }
            }
            if is_data {
                proof {
                    lemma_first_data_line_after(seen, cs@, i as int, start as int);
                }
                return Some((start, i));
            }
            if i == cs.len() {
                proof {
                    assert(cs@.take(i as int) =~= cs@);
                    lemma_first_data_line_none(seen.push(l));
                }
                return None;
            }
            proof {
                assert(cs@.take(i + 1).drop_last() =~= cs@.take(i as int));
                assert(cs@.take(i + 1).last() == '\n');
                seen = seen.push(l);
                assert(cs@.subrange((i + 1) as int, (i + 1) as int) =~= Seq::<char>::empty());
            }
            i = i + 1;
            start = i;
        } else {
            proof {
                assert(cs@.take(i + 1).drop_last() =~= cs@.take(i as int));
                assert(cs@.take(i + 1).last() == cs@[i as int]);
                assert(cs@.subrange(start as int, i + 1) =~= cs@.subrange(start as int, i as int).push(
                    cs@[i as int],
                ));
            }
            i = i + 1;
        }
    }
}

/// A data line found after lines that are not: it is the first.
proof fn lemma_first_data_line_after(seen: Seq<Seq<char>>, cs: Seq<char>, i: int, start: int)
    requires
        0 <= start <= i <= cs.len(),
        i < cs.len() ==> cs[i] == '\n',
        frame_lines(cs.take(i)) == seen.push(cs.subrange(start, i)),
        forall|j: int| 0 <= j < seen.len() ==> !is_data_line(#[trigger] seen[j]),
        is_data_line(cs.subrange(start, i)),
    ensures
        first_data_line(frame_lines(cs)) == Some(cs.subrange(start, i)),
{
    lemma_lines_extend(cs, i);
    let ls = frame_lines(cs);
    let k = seen.len() as int;
    assert(ls.len() > k);
    assert(ls[k] == cs.subrange(start, i));
    lemma_first_data_line_at(ls, k);
}

/// The lines of a frame extend those of its prefix ending at a line
/// break (or at its end): the earlier lines stay, and the last line of the
/// prefix is a whole line of the frame.
proof fn lemma_lines_extend(cs: Seq<char>, i: int)
    requires
        0 <= i <= cs.len(),
        i < cs.len() ==> cs[i] == '\n',
    ensures
        frame_lines(cs).len() >= frame_lines(cs.take(i)).len(),
        forall|j: int| 0 <= j < frame_lines(cs.take(i)).len() ==> #[trigger] frame_lines(cs)[j] == frame_lines(cs.take(i))[j],
    decreases cs.len() - i,
{
    if i == cs.len() {
        assert(cs.take(i) =~= cs);
    } else {
        // After the break at `i`, every later character only touches
        // lines from index `frame_lines(cs.take(i)).len()` on.
        assert(cs.take(i + 1).drop_last() =~= cs.take(i));
        assert(cs.take(i + 1).last() == '\n');
        lemma_frame_lines_nonempty(cs.take(i));
        lemma_lines_keep(cs, i + 1, frame_lines(cs.take(i)).len() as int);
    }
}

/// Extending a text only changes its last line or adds new ones: lines
/// before index `n` of a prefix whose lines number more than `n` stay.
proof fn lemma_lines_keep(cs: Seq<char>, m: int, n: int)
    requires
        0 <= m <= cs.len(),
        0 <= n < frame_lines(cs.take(m)).len(),
    ensures
        frame_lines(cs).len() >= frame_lines(cs.take(m)).len(),
        forall|j: int| 0 <= j < n ==> #[trigger] frame_lines(cs)[j] == frame_lines(cs.take(m))[j],
    decreases cs.len() - m,
{
    if m < cs.len() {
        assert(cs.take(m + 1).drop_last() =~= cs.take(m));
        lemma_lines_keep(cs, m + 1, n);
    } else {
        assert(cs.take(m) =~= cs);
    }
}

proof fn lemma_first_data_line_at(ls: Seq<Seq<char>>, k: int)
    requires
        0 <= k < ls.len(),
        is_data_line(ls[k]),
        forall|j: int| 0 <= j < k ==> !is_data_line(#[trigger] ls[j]),
    ensures
        first_data_line(ls) == Some(ls[k]),
    decreases k,
{
    if k > 0 {
        lemma_first_data_line_at(ls.drop_first(), k - 1);
    }
}

proof fn lemma_first_data_line_none(ls: Seq<Seq<char>>)
    requires
        forall|j: int| 0 <= j < ls.len() ==> !is_data_line(#[trigger] ls[j]),
    ensures
        first_data_line(ls) is None,
    decreases ls.len(),
{
    if ls.len() > 0 {
        lemma_first_data_line_none(ls.drop_first());
    }
}

/// `s` with every leading `data:` taken off.
fn strip_prefixes(cs: &Vec<char>, from: usize, to: usize) -> (r: usize)
    requires
        from <= to <= cs@.len(),
    ensures
        from <= r <= to,
        cs@.subrange(r as int, to as int) == strip_data_prefixes(cs@.subrange(from as int, to as int)),
{
    let mut k = from;
    loop
        invariant
            from <= k <= to <= cs@.len(),
            strip_data_prefixes(cs@.subrange(from as int, to as int)) == strip_data_prefixes(
                cs@.subrange(k as int, to as int),
            ),
        decreases to - k,
    {
        let ghost l = cs@.subrange(k as int, to as int);
        if to - k >= 5 && cs[k] == 'd' && cs[k + 1] == 'a' && cs[k + 2] == 't' && cs[k + 3] == 'a' && cs[k
            + 4] == ':' {
            proof {
                assert(l.take(5) =~= data_prefix());
                assert(l.skip(5) =~= cs@.subrange(k + 5, to as int));
            }
            k = k + 5;
        } else {
            proof {
                if l.len() >= 5 {
                    assert(l.take(5) != data_prefix()) by {
                        if l.take(5) == data_prefix() {
                            assert(l.take(5)[0] == 'd');
                            assert(l.take(5)[1] == 'a');
                            assert(l.take(5)[2] == 't');
                            assert(l.take(5)[3] == 'a');
                            assert(l.take(5)[4] == ':');
                        }
                    }
                }
            }
            return k;
        }
    }
}

/// Reads one recentchange frame: `None` for a frame without a `data:`
/// line or whose payload is not JSON; an edit is stamped with the clock's
/// reading.
pub fn parse_frame(frame: &str) -> (r: Option<RawEvent>)
    ensures
        match frame_payload(frame@) {
            None => r is None,
            Some(json) => match wiki_fields(json) {
                None => r is None,
                Some(f) => r matches Some(e) && {
                    &&& e.source@ == "wikipedia"@
                    &&& e.kind@ == "edit"@
                    &&& e.summary@ == edit_summary(f)
                },
            },
        },
{
    let cs = chars_of(frame);
    let (a, b) = find_data_line(&cs)?;
    let k = strip_prefixes(&cs, a, b);
    let payload = string_of(&cs, k, b);
    let json = str_trim(payload.as_str());
    let f = read_wiki_change(json.as_str())?;
    Some(edit_from_fields(&f, now_ms()))
}


/// A blank line starts at `i`: `\n\n`.
pub open spec fn blank_line_at(s: Seq<char>, i: int) -> bool {
    0 <= i && i + 1 < s.len() && s[i] == '\n' && s[i + 1] == '\n'
}

/// Where the first blank line at or after `from` starts, or -1.
pub open spec fn first_blank(s: Seq<char>, from: int) -> int
    decreases s.len() - from,
{
    if from < 0 || from + 1 >= s.len() {
        -1
    } else if blank_line_at(s, from) {
        from
    } else {
        first_blank(s, from + 1)
    }
}

pub proof fn lemma_first_blank(s: Seq<char>, from: int)
    requires
        0 <= from,
    ensures
        first_blank(s, from) == -1 || (from <= first_blank(s, from) && blank_line_at(s, first_blank(s, from))),
        forall|j: int| from <= j && (first_blank(s, from) == -1 || j < first_blank(s, from)) ==> !#[trigger] blank_line_at(s, j),
    decreases s.len() - from,
{
    if from + 1 < s.len() && !blank_line_at(s, from) {
        lemma_first_blank(s, from + 1);
    }
}

/// The frames of a stream buffer from `start` on: the text before each
/// blank line, up to the last blank line.
pub open spec fn frames_from(s: Seq<char>, start: int) -> Seq<Seq<char>>
    decreases s.len() - start,
{
    let p = first_blank(s, start);
    if start < 0 || p < 0 {
        seq![]
    } else {
        proof {
            lemma_first_blank(s, start);
        }
        seq![s.subrange(start, p)] + frames_from(s, p + 2)
    }
}

/// What is left of a stream buffer from `start` on once its frames are
/// taken: the text after its last blank line.
pub open spec fn leftover_from(s: Seq<char>, start: int) -> Seq<char>
    decreases s.len() - start,
{
    let p = first_blank(s, start);
    if start < 0 || p < 0 {
        s.skip(start)
    } else {
        proof {
            lemma_first_blank(s, start);
        }
        leftover_from(s, p + 2)
    }
}

pub open spec fn strings_view(v: Seq<String>) -> Seq<Seq<char>> {
    v.map_values(|x: String| x@)
}

/// Takes every complete frame (the text before a blank line) off the front
/// of a server-sent-event buffer, in order, leaving what follows the last
/// blank line.
pub fn drain_frames(buf: &mut String) -> (frames: Vec<String>)
    ensures
        strings_view(frames@) == frames_from(old(buf)@, 0),
        final(buf)@ == leftover_from(old(buf)@, 0),
{
    let cs = chars_of(buf.as_str());
    let ghost s = cs@;
    let mut frames: Vec<String> = Vec::new();
    let mut start: usize = 0;
    let mut i: usize = 0;
    loop
        invariant
            s == cs@,
            s == old(buf)@,
            start <= i <= s.len(),
            forall|j: int| start <= j < i ==> !#[trigger] blank_line_at(s, j),
            frames_from(s, 0) == strings_view(frames@) + frames_from(s, start as int),
            leftover_from(s, 0) == leftover_from(s, start as int),
        decreases s.len() - i,
    {
        if cs.len() - i < 2 {
            proof {
                lemma_first_blank(s, start as int);
                lemma_first_blank(s, i as int);
                assert(first_blank(s, start as int) == -1) by {
                    if first_blank(s, start as int) != -1 {
                        let p = first_blank(s, start as int);
                        if p < i {
                            assert(!blank_line_at(s, p));
                        }
                    }
                }
                assert(frames_from(s, start as int) =~= Seq::<Seq<char>>::empty());
                assert(strings_view(frames@) + Seq::<Seq<char>>::empty() =~= strings_view(frames@));
            }
            let rest = string_of(&cs, start, cs.len());
            *buf = rest;
            return frames;
        }
        if cs[i] == '\n' && cs[i + 1] == '\n' {
            proof {
                lemma_first_blank(s, start as int);
                assert(first_blank(s, start as int) == i) by {
                    let p = first_blank(s, start as int);
                    if p == -1 || p > i {
                        assert(!blank_line_at(s, i as int));
                    } else if p < i {
                        assert(!blank_line_at(s, p));
                    }
                }
            }
            let f = string_of(&cs, start, i);
            let ghost before = frames@;
            frames.push(f);
            proof {
                assert(strings_view(frames@) =~= strings_view(before).push(s.subrange(start as int, i as int)));
                assert(frames_from(s, start as int) == seq![s.subrange(start as int, i as int)] + frames_from(
                    s,
                    i + 2,
                ));
                assert(strings_view(before) + frames_from(s, start as int) =~= strings_view(frames@)
                    + frames_from(s, i + 2));
            }
            i = i + 2;
            start = i;
        } else {
            i = i + 1;
        }
    }
}


/// Frames laid back out, each followed by its blank line.
pub open spec fn join_frames(fs: Seq<Seq<char>>) -> Seq<char>
    decreases fs.len(),
{
    if fs.len() == 0 {
        Seq::<char>::empty()
    } else {
        fs[0] + seq!['\n', '\n'] + join_frames(fs.drop_first())
    }
}

/// Nothing is lost or invented: the frames, each with its blank line, and
/// then what is left over make up the buffer again.
pub proof fn frames_rebuild_the_buffer(s: Seq<char>, start: int)
    requires
        0 <= start <= s.len(),
    ensures
        join_frames(frames_from(s, start)) + leftover_from(s, start) == s.skip(start),
    decreases s.len() - start,
{
    lemma_first_blank(s, start);
    let p = first_blank(s, start);
    if p >= 0 {
        frames_rebuild_the_buffer(s, p + 2);
        let fs = frames_from(s, start);
        assert(fs[0] == s.subrange(start, p));
        assert(fs.drop_first() =~= frames_from(s, p + 2));
        assert(s.skip(start) =~= s.subrange(start, p) + seq!['\n', '\n'] + s.skip(p + 2));
        assert(join_frames(fs) + leftover_from(s, start) =~= s.subrange(start, p) + seq!['\n', '\n'] + (
        join_frames(frames_from(s, p + 2)) + leftover_from(s, p + 2)));
    } else {
        assert(frames_from(s, start) =~= Seq::<Seq<char>>::empty());
        assert(join_frames(Seq::<Seq<char>>::empty()) + s.skip(start) =~= s.skip(start));
    }
}

} // verus!
