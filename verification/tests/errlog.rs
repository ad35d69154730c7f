use kitaebot::errlog::{
    bound_line, shorten, stub_line, BoundedLineWriter, LineFormat, LINE_MAX_BYTES,
};

#[test]
fn bound_line_passes_small_lines_untouched() {
    assert_eq!(bound_line(b"short", LineFormat::Text), None);
    assert_eq!(bound_line(b"{\"a\":1}", LineFormat::Json), None);
}

#[test]
fn bound_line_truncates_text_with_marker() {
    let long = "x".repeat(LINE_MAX_BYTES + 1);
    let out = bound_line(long.as_bytes(), LineFormat::Text).unwrap();
    assert!(out.len() < LINE_MAX_BYTES);
    let s = String::from_utf8(out).unwrap();
    assert!(s.ends_with(&format!("[line truncated, {} bytes total]", long.len())));
}

#[test]
fn bound_line_keeps_json_lines_parseable() {
    let line = format!("{{\"fields\":{{\"message\":\"{}\"}}}}", "y".repeat(LINE_MAX_BYTES));
    let out = bound_line(line.as_bytes(), LineFormat::Json).unwrap();
    assert!(out.len() < LINE_MAX_BYTES);
    let obj: serde_json::Value =
        serde_json::from_slice(&out).expect("stub must stay valid JSON");
    assert_eq!(obj["original_bytes"], line.len());
    assert!(
        obj["truncated_line"].as_str().unwrap().starts_with("{\"fields\""),
        "stub carries the head"
    );
}

#[test]
fn writer_bounds_each_line_independently() {
    let mut sink: Vec<u8> = Vec::new();
    let mut w = BoundedLineWriter::new(LineFormat::Text);
    sink.extend(w.write(b"fine line\n"));
    sink.extend(w.write(format!("{}\n", "z".repeat(LINE_MAX_BYTES * 2)).as_bytes()));
    // Split across writes, still one line.
    sink.extend(w.write(b"tail without"));
    sink.extend(w.write(b" newline yet\n"));
    sink.extend(w.finish());

    let text = String::from_utf8(sink).unwrap();
    let lines: Vec<&str> = text.lines().collect();
    assert_eq!(lines.len(), 3);
    assert_eq!(lines[0], "fine line");
    assert!(lines[1].contains("[line truncated,"));
    assert!(lines[1].len() < LINE_MAX_BYTES);
    assert_eq!(lines[2], "tail without newline yet");
}

#[test]
fn a_line_at_the_cap_passes() {
    let line = vec![b'a'; LINE_MAX_BYTES];
    assert_eq!(bound_line(&line, LineFormat::Text), None);
}

#[test]
fn the_head_of_a_cut_line_is_half_the_cap() {
    let line = vec![b'a'; 9000];
    let out = String::from_utf8(bound_line(&line, LineFormat::Text).unwrap()).unwrap();
    assert_eq!(
        out,
        format!("{}...[line truncated, 9000 bytes total]", "a".repeat(4096))
    );
}

#[test]
fn bytes_that_are_no_text_are_replaced() {
    let mut line = vec![0xffu8];
    line.extend(vec![b'a'; LINE_MAX_BYTES]);
    let out = String::from_utf8(bound_line(&line, LineFormat::Text).unwrap()).unwrap();
    assert!(out.starts_with("\u{fffd}a"));
}

#[test]
fn the_stub_escapes_the_head() {
    assert_eq!(
        shorten("say \"hi\"", 9000, LineFormat::Json),
        "{\"original_bytes\":9000,\"truncated_line\":\"say \\\"hi\\\"\"}"
    );
    assert_eq!(
        stub_line("\"x\"", 7),
        "{\"original_bytes\":7,\"truncated_line\":\"x\"}"
    );
}

#[test]
fn a_stub_of_escaped_characters_stays_within_the_cap() {
    // What each line holds, and the bytes that it takes in a JSON string.
    for (c, taken) in [('"', 2), ('\u{1}', 6), ('\n', 2), ('a', 1)] {
        let line = c.to_string().repeat(9_000);
        let out = bound_line(line.as_bytes(), LineFormat::Json).unwrap();
        assert!(out.len() <= LINE_MAX_BYTES, "{c:?}: {}", out.len());
        let obj: serde_json::Value = serde_json::from_slice(&out).unwrap();
        assert_eq!(obj["original_bytes"], 9_000);
        let kept = obj["truncated_line"].as_str().unwrap();
        assert!(line.starts_with(kept));
        // As much as fits, up to half the cap.
        let frame = "{\"original_bytes\":9000,\"truncated_line\":\"\"}".len();
        assert_eq!(kept.len(), 4_096.min((LINE_MAX_BYTES - frame) / taken));
    }
}

#[test]
fn control_characters_are_escaped_in_a_stub() {
    assert_eq!(
        shorten("\u{8}\t\n\u{c}\r\u{1f}\u{7f}\\é", 9_000, LineFormat::Json),
        "{\"original_bytes\":9000,\"truncated_line\":\"\\b\\t\\n\\f\\r\\u001f\u{7f}\\\\é\"}"
    );
}

#[test]
fn a_line_without_an_end_is_passed_on_past_twice_the_cap() {
    let mut w = BoundedLineWriter::new(LineFormat::Text);
    assert!(w.write(&vec![b'q'; 2 * LINE_MAX_BYTES]).is_empty());
    let out = String::from_utf8(w.write(b"q")).unwrap();
    assert!(out.ends_with("...[line truncated, 16385 bytes total]\n"));
    assert!(w.finish().is_empty());
}

#[test]
fn an_open_line_is_passed_on_at_the_end() {
    let mut w = BoundedLineWriter::new(LineFormat::Text);
    assert_eq!(w.write(b"a\nb"), b"a\n".to_vec());
    assert_eq!(w.finish(), b"b\n".to_vec());
    assert!(w.finish().is_empty());
}

#[test]
fn pieces_of_a_write_give_what_one_write_gives() {
    let mut whole = BoundedLineWriter::new(LineFormat::Json);
    let mut split = BoundedLineWriter::new(LineFormat::Json);
    let mut a = whole.write(b"one\ntwo\nthr");
    a.extend(whole.finish());
    let mut b = split.write(b"on");
    b.extend(split.write(b"e\ntwo\n"));
    b.extend(split.write(b"thr"));
    b.extend(split.finish());
    assert_eq!(a, b);
}
