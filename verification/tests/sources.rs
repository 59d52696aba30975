use tokimeki_quant_rust::sources::bluesky::{parse_message, post_from_fields, truncate, JetstreamFields};
use tokimeki_quant_rust::sources::stackoverflow::{
    entries_from_events, parse_feed, FeedEvent, SeenIds,
};
use tokimeki_quant_rust::sources::wikipedia::{drain_frames, edit_from_fields, parse_frame, WikiFields};

fn create_post_json(text: &str) -> String {
    format!(
        "{{\"did\":\"did:plc:abc123xyz\",\"time_us\":1234567890,\"kind\":\"commit\",\"commit\":{{\"rev\":\"r1\",\"operation\":\"create\",\"collection\":\"app.bsky.feed.post\",\"rkey\":\"k1\",\"record\":{{\"text\":\"{text}\",\"createdAt\":\"2026-01-01T00:00:00Z\"}},\"cid\":\"c1\"}}}}"
    )
}

// ---------------------------------------------------------------------
//  Bluesky
// ---------------------------------------------------------------------

#[test]
fn parses_a_realistic_create_post_commit() {
    let msg = create_post_json("hello world");
    let evt = parse_message(&msg).expect("should parse");
    assert_eq!(evt.source, "bluesky");
    assert_eq!(evt.kind, "post");
    assert!(evt.summary.starts_with('@'));
    assert!(evt.summary.contains("hello world"));
}

#[test]
fn identity_events_are_ignored() {
    let msg = "{\"did\":\"did:plc:abc\",\"time_us\":1,\"kind\":\"identity\",\"identity\":{}}";
    assert!(parse_message(msg).is_none());
}

#[test]
fn delete_operations_are_ignored() {
    let msg = "{\"did\":\"did:plc:abc\",\"time_us\":1,\"kind\":\"commit\",\"commit\":{\"rev\":\"r\",\"operation\":\"delete\",\"collection\":\"app.bsky.feed.post\",\"rkey\":\"k\"}}";
    assert!(parse_message(msg).is_none());
}

#[test]
fn empty_post_text_is_ignored() {
    let msg = create_post_json("");
    assert!(parse_message(&msg).is_none());
}

#[test]
fn long_text_gets_truncated_with_ellipsis() {
    let long_text = "a".repeat(200);
    let msg = create_post_json(&long_text);
    let evt = parse_message(&msg).expect("should parse");
    assert!(evt.summary.contains('\u{2026}'));
    assert!(evt.summary.chars().count() < 200);
}

#[test]
fn bluesky_malformed_json_is_ignored_not_panicking() {
    assert!(parse_message("{not valid json").is_none());
}

#[test]
fn post_summary_is_exact() {
    let msg = create_post_json("hello world");
    let evt = parse_message(&msg).unwrap();
    assert_eq!(evt.summary, "@abc123xyz: hello world");
}

#[test]
fn whitespace_only_post_is_ignored() {
    let msg = create_post_json("   \\t  ");
    assert!(parse_message(&msg).is_none());
}

#[test]
fn non_string_kind_is_not_a_commit() {
    let msg = "{\"did\":\"did:plc:abc\",\"kind\":7,\"commit\":{\"operation\":\"create\",\"record\":{\"text\":\"hi there\"}}}";
    assert!(parse_message(msg).is_none());
}

fn fields(did: Option<&str>, text: Option<&str>) -> JetstreamFields {
    JetstreamFields {
        kind: Some("commit".to_string()),
        has_commit: true,
        operation: Some("create".to_string()),
        has_record: true,
        text: text.map(|t| t.to_string()),
        did: did.map(|d| d.to_string()),
    }
}

#[test]
fn post_from_fields_builds_the_summary() {
    let e = post_from_fields(&fields(Some("did:plc:abcdefghijklmnop"), Some("ok then")), 77).unwrap();
    assert_eq!(e.source, "bluesky");
    assert_eq!(e.kind, "post");
    assert_eq!(e.summary, "@abcdefghij: ok then");
    assert_eq!(e.ts_ms, 77);
}

#[test]
fn post_without_did_uses_question_mark() {
    let e = post_from_fields(&fields(None, Some("text")), 1).unwrap();
    assert_eq!(e.summary, "@?: text");
}

#[test]
fn did_without_colon_is_used_whole() {
    let e = post_from_fields(&fields(Some("plain"), Some("text")), 1).unwrap();
    assert_eq!(e.summary, "@plain: text");
}

#[test]
fn post_without_text_is_ignored() {
    assert!(post_from_fields(&fields(Some("did:x"), None), 1).is_none());
    let mut f = fields(Some("did:x"), Some("text"));
    f.has_record = false;
    assert!(post_from_fields(&f, 1).is_none());
    let mut g = fields(Some("did:x"), Some("text"));
    g.operation = Some("update".to_string());
    assert!(post_from_fields(&g, 1).is_none());
}

#[test]
fn truncate_cuts_by_characters() {
    assert_eq!(truncate("abc", 3), "abc");
    assert_eq!(truncate("abcd", 3), "abc\u{2026}");
    assert_eq!(truncate("日本語テキスト", 2), "日本\u{2026}");
    assert_eq!(truncate("", 0), "");
}

// ---------------------------------------------------------------------
//  Stack Overflow
// ---------------------------------------------------------------------

const SAMPLE_FEED: &str = r#"<?xml version="1.0" encoding="utf-8"?>
<feed xmlns="http://www.w3.org/2005/Atom">
  <title type="text">Recent Questions - Stack Overflow</title>
  <entry>
    <id>https://stackoverflow.com/q/111</id>
    <title type="text">How do I parse Atom feeds in Rust?</title>
    <category scheme="https://stackoverflow.com/tags" term="rust"/>
    <link rel="alternate" href="https://stackoverflow.com/questions/111/how-do-i-parse"/>
  </entry>
  <entry>
    <id>https://stackoverflow.com/q/222</id>
    <title type="text">Why is my tokio task not yielding?</title>
    <category scheme="https://stackoverflow.com/tags" term="tokio"/>
  </entry>
</feed>"#;

#[test]
fn parses_entries_with_id_title_and_tag() {
    let entries = parse_feed(SAMPLE_FEED);
    assert_eq!(entries.len(), 2);
    assert_eq!(entries[0].0, "https://stackoverflow.com/q/111");
    assert!(entries[0].1.contains("How do I parse Atom feeds in Rust?"));
    assert!(entries[0].1.contains("[rust]"));
    assert_eq!(entries[1].0, "https://stackoverflow.com/q/222");
    assert!(entries[1].1.contains("[tokio]"));
}

#[test]
fn empty_feed_yields_no_entries() {
    let entries = parse_feed("<feed xmlns=\"http://www.w3.org/2005/Atom\"></feed>");
    assert!(entries.is_empty());
}

#[test]
fn entry_missing_title_is_skipped() {
    let feed = r#"<feed xmlns="http://www.w3.org/2005/Atom">
          <entry><id>https://stackoverflow.com/q/999</id></entry>
        </feed>"#;
    assert!(parse_feed(feed).is_empty());
}

#[test]
fn malformed_xml_does_not_panic() {
    let entries = parse_feed("<feed><entry><id>oops");
    assert!(entries.is_empty());
}

#[test]
fn feed_titles_are_exact() {
    let entries = parse_feed(SAMPLE_FEED);
    assert_eq!(entries[0].1, "How do I parse Atom feeds in Rust? [rust]");
    assert_eq!(entries[1].1, "Why is my tokio task not yielding? [tokio]");
}

#[test]
fn entry_without_tag_has_bare_title() {
    let feed = "<feed><entry><id> q1 </id><title>  Plain  </title></entry></feed>";
    assert_eq!(parse_feed(feed), vec![("q1".to_string(), "Plain".to_string())]);
}

#[test]
fn escaped_text_is_unescaped() {
    let feed = "<feed><entry><id>q2</id><title>a &amp; b</title><category term=\" c# \"/></entry></feed>";
    assert_eq!(parse_feed(feed), vec![("q2".to_string(), "a & b [c#]".to_string())]);
}

fn start(name: &str, attrs: Vec<(&str, &str)>) -> FeedEvent {
    FeedEvent::Start(
        name.as_bytes().to_vec(),
        attrs
            .into_iter()
            .map(|(k, v)| Some((k.as_bytes().to_vec(), v.as_bytes().to_vec())))
            .collect(),
    )
}

fn end(name: &str) -> FeedEvent {
    FeedEvent::End(name.as_bytes().to_vec())
}

fn text(t: &str) -> FeedEvent {
    FeedEvent::Text(Some(t.to_string()))
}

#[test]
fn events_make_entries() {
    let evs = vec![
        start("entry", vec![]),
        start("id", vec![]),
        text("x1"),
        end("id"),
        start("title", vec![]),
        text("T"),
        end("title"),
        start("category", vec![("scheme", "s"), ("term", "go")]),
        start("category", vec![("term", "second")]),
        end("entry"),
    ];
    assert_eq!(entries_from_events(&evs), vec![("x1".to_string(), "T [go]".to_string())]);
}

#[test]
fn events_after_eof_or_error_are_ignored() {
    let entry = |id: &str| {
        vec![
            start("entry", vec![]),
            start("id", vec![]),
            text(id),
            end("id"),
            start("title", vec![]),
            text("t"),
            end("title"),
            end("entry"),
        ]
    };
    let mut evs = entry("a");
    evs.push(FeedEvent::Error);
    evs.extend(entry("b"));
    assert_eq!(entries_from_events(&evs), vec![("a".to_string(), "t".to_string())]);
    let mut evs2 = entry("a");
    evs2.push(FeedEvent::Eof);
    evs2.extend(entry("b"));
    assert_eq!(entries_from_events(&evs2).len(), 1);
}

#[test]
fn id_outside_entry_is_ignored() {
    let evs = vec![
        start("id", vec![]),
        text("stray"),
        end("id"),
        start("entry", vec![]),
        start("title", vec![]),
        text("t"),
        end("title"),
        end("entry"),
    ];
    assert!(entries_from_events(&evs).is_empty());
}

#[test]
fn text_that_fails_to_unescape_reads_as_empty() {
    let evs = vec![
        start("entry", vec![]),
        start("id", vec![]),
        FeedEvent::Text(None),
        end("id"),
        start("title", vec![]),
        text("t"),
        end("title"),
        end("entry"),
    ];
    assert_eq!(entries_from_events(&evs), vec![("".to_string(), "t".to_string())]);
}

#[test]
fn seen_ids_never_report_twice() {
    let mut seen = SeenIds::new();
    assert!(seen.remember("a".to_string()));
    assert!(!seen.remember("a".to_string()));
    for i in 0..600 {
        assert!(seen.remember(format!("id{i}")));
    }
    assert!(!seen.remember("a".to_string()));
    assert!(!seen.remember("id0".to_string()));
    assert!(seen.remember("new".to_string()));
}

// ---------------------------------------------------------------------
//  Wikipedia
// ---------------------------------------------------------------------

#[test]
fn parses_a_realistic_recentchange_frame() {
    let frame = "event: message\nid: 123\ndata: {\"$schema\":\"/mediawiki/recentchange/1.0.0\",\"wiki\":\"enwiki\",\"title\":\"Example page\",\"user\":\"SomeUser\",\"comment\":\"Fixed typo\",\"type\":\"edit\"}";
    let evt = parse_frame(frame).expect("should parse");
    assert_eq!(evt.source, "wikipedia");
    assert_eq!(evt.kind, "edit");
    assert_eq!(evt.summary, "[enwiki] Example page \u{2014} SomeUser: Fixed typo");
}

#[test]
fn missing_optional_fields_fall_back_to_placeholders() {
    let frame = "event: message\ndata: {\"wiki\":\"enwiki\"}";
    let evt = parse_frame(frame).expect("should parse even with missing fields");
    assert!(evt.summary.contains("(untitled)"));
    assert!(evt.summary.contains("anon"));
    assert!(evt.summary.contains("(no summary)"));
}

#[test]
fn heartbeat_comment_frame_without_data_line_is_ignored() {
    let frame = ": heartbeat";
    assert!(parse_frame(frame).is_none());
}

#[test]
fn wikipedia_malformed_json_is_ignored_not_panicking() {
    let frame = "data: {not valid json";
    assert!(parse_frame(frame).is_none());
}

#[test]
fn crlf_frames_and_repeated_prefixes_parse() {
    let frame = "id: 1\r\ndata:data: {\"wiki\":\"dewiki\",\"comment\":\"\"}\r\n";
    let evt = parse_frame(frame).unwrap();
    assert_eq!(evt.summary, "[dewiki] (untitled) \u{2014} anon: (no summary)");
}

#[test]
fn only_the_first_data_line_counts() {
    let frame = "data: {\"wiki\":\"a\"}\ndata: {\"wiki\":\"b\"}";
    assert!(parse_frame(frame).unwrap().summary.starts_with("[a]"));
    assert!(parse_frame("data: [1, 2]").unwrap().summary.starts_with("[?]"));
}

#[test]
fn edit_from_fields_is_exact() {
    let f = WikiFields {
        wiki: Some("frwiki".to_string()),
        title: Some("Page".to_string()),
        user: None,
        comment: Some("c".to_string()),
    };
    let e = edit_from_fields(&f, 5);
    assert_eq!(e.summary, "[frwiki] Page \u{2014} anon: c");
    assert_eq!(e.ts_ms, 5);
    assert_eq!(e.kind, "edit");
}

#[test]
fn stream_buffer_yields_complete_frames() {
    let mut buf = "a\n\nb\n\n\nc".to_string();
    assert_eq!(drain_frames(&mut buf), vec!["a".to_string(), "b".to_string()]);
    assert_eq!(buf, "\nc");
    buf.push_str("\n\n");
    assert_eq!(drain_frames(&mut buf), vec!["\nc".to_string()]);
    assert_eq!(buf, "");
    let mut none = "data: {}\n".to_string();
    assert!(drain_frames(&mut none).is_empty());
    assert_eq!(none, "data: {}\n");
}
