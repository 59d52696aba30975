//! Tokenising free text into trending-topic words.
//!
//! Text is split on every character that is not alphanumeric; pieces
//! shorter than three bytes are dropped, the rest lowercased, and common
//! stop words removed.
use vstd::prelude::*;
use vstd::utf8::{encode_utf8, encode_scalar};
use vstd::std_specs::iter::IteratorSpec;
use crate::strings::string_push;

verus! {

/// Whether `c` is alphabetic or numeric in the Unicode sense, as
/// `char::is_alphanumeric` answers it.
pub uninterp spec fn is_alphanumeric(c: char) -> bool;

/// Calls `char::is_alphanumeric`; its answer is named, not stated.
#[verifier::external_body]
fn char_is_alphanumeric(c: char) -> (r: bool)
    ensures
        r == is_alphanumeric(c),
{
    c.is_alphanumeric()
}

/// The lowercase form of a string, as `str::to_lowercase` gives it.
pub uninterp spec fn lowercase(s: Seq<char>) -> Seq<char>;

/// Calls `str::to_lowercase`; the result is named, not stated.
#[verifier::external_body]
fn str_to_lowercase(s: &str) -> (r: String)
    ensures
        r@ == lowercase(s@),
{
    s.to_lowercase()
}

/// The pieces of `text` between the characters that are not alphanumeric,
/// empty pieces included, as `str::split` with that predicate yields them.
pub open spec fn pieces(text: Seq<char>) -> Seq<Seq<char>>
    decreases text.len(),
{
    if text.len() == 0 {
        seq![Seq::<char>::empty()]
    } else {
        let p = pieces(text.drop_last());
        let c = text.last();
        if is_alphanumeric(c) {
            p.update(p.len() - 1, p.last().push(c))
        } else {
            p.push(Seq::<char>::empty())
        }
    }
}

/// The words that never count as topics.
pub open spec fn stop_word_list() -> Seq<Seq<char>> {
    seq![
        "the"@, "and"@, "for"@, "that"@, "with"@, "this"@, "from"@, "have"@, "are"@, "was"@,
        "were"@, "you"@, "your"@, "http"@, "https"@, "www"@, "com"@, "org"@, "net"@, "not"@,
        "but"@, "his"@, "her"@, "she"@, "him"@,
    ]
}

/// A piece is kept when its UTF-8 encoding has at least three bytes.
pub open spec fn long_enough(w: Seq<char>) -> bool {
    encode_utf8(w).len() >= 3
}

/// `w` is not one of the stop words `stop`.
pub open spec fn not_stop_word(stop: Seq<Seq<char>>, w: Seq<char>) -> bool {
    !stop.contains(w)
}

/// What one finished piece adds to the words: its lowercase form, when the
/// piece is long enough and that form is not among the stop words `stop`.
pub open spec fn emit(stop: Seq<Seq<char>>, w: Seq<char>) -> Seq<Seq<char>> {
    if long_enough(w) && not_stop_word(stop, lowercase(w)) {
        seq![lowercase(w)]
    } else {
        seq![]
    }
}

/// The words the pieces give, in order, with the stop words `stop`.
pub open spec fn process(stop: Seq<Seq<char>>, ps: Seq<Seq<char>>) -> Seq<Seq<char>>
    decreases ps.len(),
{
    if ps.len() == 0 {
        seq![]
    } else {
        process(stop, ps.drop_last()) + emit(stop, ps.last())
    }
}

/// The topic words of a text, in order, with the stop words `stop`.
pub open spec fn tokens_without(stop: Seq<Seq<char>>, text: Seq<char>) -> Seq<Seq<char>> {
    process(stop, pieces(text))
}

/// The topic words of a text, in order, with the built-in stop words.
pub open spec fn tokens(text: Seq<char>) -> Seq<Seq<char>> {
    tokens_without(stop_word_list(), text)
}

pub proof fn lemma_process_push(stop: Seq<Seq<char>>, ps: Seq<Seq<char>>, w: Seq<char>)
    ensures
        process(stop, ps.push(w)) == process(stop, ps) + emit(stop, w),
{
    assert(ps.push(w).drop_last() =~= ps);
}

pub proof fn lemma_pieces_len(text: Seq<char>)
    ensures
        pieces(text).len() <= text.len() + 1,
        pieces(text).len() >= 1,
    decreases text.len(),
{
    if text.len() > 0 {
        lemma_pieces_len(text.drop_last());
    }
}

pub proof fn lemma_process_len(stop: Seq<Seq<char>>, ps: Seq<Seq<char>>)
    ensures
        process(stop, ps).len() <= ps.len(),
    decreases ps.len(),
{
    if ps.len() > 0 {
        lemma_process_len(stop, ps.drop_last());
    }
}

pub proof fn lemma_tokens_len(stop: Seq<Seq<char>>, text: Seq<char>)
    ensures
        tokens_without(stop, text).len() <= text.len() + 1,
{
    lemma_pieces_len(text);
    lemma_process_len(stop, pieces(text));
}

pub proof fn lemma_encode_push(w: Seq<char>, c: char)
    ensures
        encode_utf8(w.push(c)) == encode_utf8(w) + encode_scalar(c as u32),
    decreases w.len(),
{
    if w.len() == 0 {
        let e = Seq::<char>::empty();
        assert(w.push(c).drop_first() =~= e);
        assert(encode_utf8(e) == Seq::<u8>::empty());
        assert(encode_utf8(w.push(c)) == encode_scalar(c as u32) + Seq::<u8>::empty());
        assert(encode_utf8(w) == Seq::<u8>::empty());
        assert(encode_utf8(w.push(c)) =~= encode_utf8(w) + encode_scalar(c as u32));
    } else {
        assert(w.push(c).drop_first() =~= w.drop_first().push(c));
        lemma_encode_push(w.drop_first(), c);
        assert(encode_utf8(w.push(c)) =~= encode_utf8(w) + encode_scalar(c as u32));
    }
}

/// The number of bytes `c` takes in UTF-8, as `char::len_utf8` gives it.
fn utf8_width(c: char) -> (r: usize)
    ensures
        r == encode_scalar(c as u32).len(),
        1 <= r <= 4,
{
    proof {
        broadcast use vstd::utf8::char_is_scalar;
    }
    let u = c as u32;
    if u <= 0x7F {
        1
    } else if u <= 0x7FF {
        2
    } else if u <= 0xFFFF {
        3
    } else {
        4
    }
}

/// Builds the stop word list.
pub fn stop_words() -> (v: Vec<String>)
    ensures
        v@.map_values(|s: String| s@) == stop_word_list(),
{
    let v: Vec<String> = vec![
        "the".to_owned(), "and".to_owned(), "for".to_owned(), "that".to_owned(),
        "with".to_owned(), "this".to_owned(), "from".to_owned(), "have".to_owned(),
        "are".to_owned(), "was".to_owned(), "were".to_owned(), "you".to_owned(),
        "your".to_owned(), "http".to_owned(), "https".to_owned(), "www".to_owned(),
        "com".to_owned(), "org".to_owned(), "net".to_owned(), "not".to_owned(),
        "but".to_owned(), "his".to_owned(), "her".to_owned(), "she".to_owned(),
        "him".to_owned(),
    ];
    assert(v@.map_values(|s: String| s@) =~= stop_word_list());
    v
}

fn is_stop_word(w: &String, stop_words: &Vec<String>) -> (r: bool)
    ensures
        r == !not_stop_word(stop_words@.map_values(|s: String| s@), w@),
{
    let ghost sw = stop_words@.map_values(|s: String| s@);
    let mut i: usize = 0;
    while i < stop_words.len()
        invariant
            i <= stop_words@.len(),
            sw == stop_words@.map_values(|s: String| s@),
            forall|j: int| 0 <= j < i ==> sw[j] != w@,
        decreases stop_words@.len() - i,
    {
        assert(sw[i as int] == stop_words@[i as int]@);
        if stop_words[i] == *w {
            assert(sw[i as int] == w@);
            return true;
        }
        i += 1;
    }
    assert(!sw.contains(w@)) by {
        if sw.contains(w@) {
            let j = choose|j: int| 0 <= j < sw.len() && sw[j] == w@;
            assert(j < stop_words@.len());
        }
    }
    false
}

/// Appends the word a finished piece gives, if any; `long` tells whether
/// the piece has at least three bytes.
fn finish_piece(out: &mut Vec<String>, piece: &String, long: bool, stop_words: &Vec<String>)
    requires
        long == long_enough(piece@),
    ensures
        final(out)@.map_values(|s: String| s@) == old(out)@.map_values(|s: String| s@) + emit(
            stop_words@.map_values(|s: String| s@),
            piece@,
        ),
{
    if long {
        let lower = str_to_lowercase(piece.as_str());
        if !is_stop_word(&lower, stop_words) {
            out.push(lower);
            assert(out@.map_values(|s: String| s@) =~= old(out)@.map_values(|s: String| s@) + emit(stop_words@.map_values(|s: String| s@), piece@));
            return;
        }
    }
    assert(out@.map_values(|s: String| s@) =~= old(out)@.map_values(|s: String| s@) + emit(stop_words@.map_values(|s: String| s@), piece@));
}

/// Splits `text` into its topic words, leaving out the given stop words.
pub fn tokenize(text: &str, stop_words: &Vec<String>) -> (out: Vec<String>)
    ensures
        out@.map_values(|s: String| s@) == tokens_without(stop_words@.map_values(|s: String| s@), text@),
{
    let ghost sw = stop_words@.map_values(|s: String| s@);
    let mut out: Vec<String> = Vec::new();
    let mut cur = String::new();
    // Bytes in `cur`, counted up to 3.
    let mut cur_bytes: usize = 0;
    let ghost mut done: Seq<Seq<char>> = seq![];
    let ghost t = text@;
    let mut chars = text.chars();
    let ghost mut i: int = 0;
    proof {
        assert(t.take(0) =~= Seq::<char>::empty());
        assert(done.push(cur@) =~= seq![Seq::<char>::empty()]);
        broadcast use vstd::string::axiom_spec_iter;
        assert(chars.remaining() == t);
    }
    loop
        invariant
            0 <= i <= t.len(),
            chars.remaining() == t.skip(i),
            chars.obeys_prophetic_iter_laws(),
            pieces(t.take(i)) == done.push(cur@),
            cur_bytes == (if encode_utf8(cur@).len() < 3 { encode_utf8(cur@).len() } else { 3 }),
            out@.map_values(|s: String| s@) == process(sw, done),
            sw == stop_words@.map_values(|s: String| s@),
        ensures
            pieces(t) == done.push(cur@),
            cur_bytes == (if encode_utf8(cur@).len() < 3 { encode_utf8(cur@).len() } else { 3 }),
            out@.map_values(|s: String| s@) == process(sw, done),
            sw == stop_words@.map_values(|s: String| s@),
        decreases t.len() - i,
    {
        let ghost before = chars;
        let next = chars.next();
        proof {
            broadcast use vstd::string::next_postcondition;
            assert(before.remaining() == t.skip(i));
        }
        match next {
            None => {
                proof {
                    assert(t.skip(i).len() == 0);
                    assert(t.take(i) =~= t);
                }
                break;
            },
            Some(c) => {
                proof {
                    assert(c == t[i]);
                    assert(t.take(i + 1).drop_last() =~= t.take(i));
                    assert(t.take(i + 1).last() == c);
                    assert(chars.remaining() =~= t.skip(i + 1));
                }
                if char_is_alphanumeric(c) {
                    proof {
                        lemma_encode_push(cur@, c);
                    }
                    let w = utf8_width(c);
                    cur_bytes = if cur_bytes + w >= 3 { 3 } else { cur_bytes + w };
                    string_push(&mut cur, c);
                    proof {
                        assert(pieces(t.take(i + 1)) =~= done.push(cur@));
                    }
                } else {
                    finish_piece(&mut out, &cur, cur_bytes >= 3, stop_words);
                    proof {
                        lemma_process_push(sw, done, cur@);
                        done = done.push(cur@);
                    }
                    cur = String::new();
                    cur_bytes = 0;
                    proof {
                        assert(pieces(t.take(i + 1)) =~= done.push(cur@));
                    }
                }
                proof {
                    i = i + 1;
                }
            },
        }
    }
    finish_piece(&mut out, &cur, cur_bytes >= 3, stop_words);
    proof {
        lemma_process_push(sw, done, cur@);
    }
    out
}


/// Every topic word of a text is the lowercase form of one of its pieces
/// that is at least three bytes long in UTF-8, and is not one of the stop
/// words.
pub proof fn tokens_are_topic_words(stop: Seq<Seq<char>>, text: Seq<char>)
    ensures
        forall|i: int|
            0 <= i < tokens_without(stop, text).len() ==> {
                &&& not_stop_word(stop, #[trigger] tokens_without(stop, text)[i])
                &&& exists|j: int|
                    0 <= j < pieces(text).len() && encode_utf8(#[trigger] pieces(text)[j]).len() >= 3
                        && lowercase(pieces(text)[j]) == tokens_without(stop, text)[i]
            },
{
    lemma_process_words(stop, pieces(text));
}

proof fn lemma_process_words(stop: Seq<Seq<char>>, ps: Seq<Seq<char>>)
    ensures
        forall|i: int|
            0 <= i < process(stop, ps).len() ==> {
                &&& not_stop_word(stop, #[trigger] process(stop, ps)[i])
                &&& exists|j: int|
                    0 <= j < ps.len() && long_enough(#[trigger] ps[j]) && lowercase(ps[j]) == process(stop, ps)[i]
            },
    decreases ps.len(),
{
    if ps.len() > 0 {
        let p = ps.drop_last();
        lemma_process_words(stop, p);
        let r = process(stop, ps);
        assert forall|i: int| 0 <= i < r.len() implies {
            &&& not_stop_word(stop, #[trigger] r[i])
            &&& exists|j: int| 0 <= j < ps.len() && long_enough(#[trigger] ps[j]) && lowercase(ps[j]) == r[i]
        } by {
            if i < process(stop, p).len() {
                assert(r[i] == process(stop, p)[i]);
                let j = choose|j: int| 0 <= j < p.len() && long_enough(#[trigger] p[j]) && lowercase(p[j]) == process(stop, p)[i];
                assert(ps[j] == p[j]);
            } else {
                let j = ps.len() - 1;
                assert(ps[j] == ps.last());
            }
        }
    }
}

/// The built-in stop words are exactly these 25, in this order, and none of
/// them is ever a topic word of a text under the built-in list.
pub proof fn built_in_stop_words(text: Seq<char>)
    ensures
        ({
            let l = seq![
                "the"@,
                "and"@,
                "for"@,
                "that"@,
                "with"@,
                "this"@,
                "from"@,
                "have"@,
                "are"@,
                "was"@,
                "were"@,
                "you"@,
                "your"@,
                "http"@,
                "https"@,
                "www"@,
                "com"@,
                "org"@,
                "net"@,
                "not"@,
                "but"@,
                "his"@,
                "her"@,
                "she"@,
                "him"@,
            ];
            &&& stop_word_list() == l
            &&& forall|i: int| 0 <= i < tokens(text).len() ==> !l.contains(#[trigger] tokens(text)[i])
        }),
{
    let l = seq![
        "the"@,
        "and"@,
        "for"@,
        "that"@,
        "with"@,
        "this"@,
        "from"@,
        "have"@,
        "are"@,
        "was"@,
        "were"@,
        "you"@,
        "your"@,
        "http"@,
        "https"@,
        "www"@,
        "com"@,
        "org"@,
        "net"@,
        "not"@,
        "but"@,
        "his"@,
        "her"@,
        "she"@,
        "him"@,
    ];
    assert(stop_word_list() =~= l);
    tokens_are_topic_words(stop_word_list(), text);
}

} // verus!
