use nasutil::driver::{download_all, is_video_link, Step};
use nasutil::lines::{take_line, CrLfLines, MyError};
use nasutil::progress::{percentage_is_valid, progress};
use nasutil::queue::{append_text, join_lines, load_queue, normalize, remove_first};
use nasutil::status::{destination_title, follow_line, progress_fields_of};

fn all_lines(bytes: &[u8]) -> Vec<String> {
    let mut lines = CrLfLines::new(bytes.to_vec());
    lines.finish();
    let mut out = Vec::new();
    while let Some(item) = lines.next() {
        out.push(item.expect("valid text"));
    }
    out
}

fn chunked_lines(chunks: &[&[u8]]) -> Vec<String> {
    let mut lines = CrLfLines::new(Vec::new());
    let mut out = Vec::new();
    for chunk in chunks {
        lines.push(chunk);
        while let Some(item) = lines.next() {
            out.push(item.expect("valid text"));
        }
    }
    lines.finish();
    while let Some(item) = lines.next() {
        out.push(item.expect("valid text"));
    }
    out
}

#[test]
fn splitter_handles_every_line_ending() {
    assert_eq!(all_lines(b"a\r\nb\rc\n"), vec!["a", "b", "c"]);
}

#[test]
fn splitter_keeps_a_last_line_without_delimiter() {
    assert_eq!(all_lines(b"one\ntwo"), vec!["one", "two"]);
}

#[test]
fn splitter_yields_empty_lines_between_delimiters() {
    assert_eq!(all_lines(b"\n\r\r\nx"), vec!["", "", "", "x"]);
}

#[test]
fn splitter_on_empty_input_is_done() {
    let mut lines = CrLfLines::new(Vec::new());
    assert!(lines.next().is_none());
    lines.finish();
    assert!(lines.next().is_none());
}

#[test]
fn splitter_waits_for_complete_lines() {
    let mut lines = CrLfLines::new(b"ab".to_vec());
    assert!(lines.next().is_none());
    lines.push(b"c\r");
    assert!(lines.next().is_none());
    lines.push(b"\nd");
    assert_eq!(lines.next().unwrap().unwrap(), "abc");
    assert!(lines.next().is_none());
    lines.finish();
    assert_eq!(lines.next().unwrap().unwrap(), "d");
    assert!(lines.next().is_none());
}

#[test]
fn splitter_is_independent_of_chunking() {
    let whole: &[u8] = "a\r\nb\rcé\n\r\nlast".as_bytes();
    let expected = all_lines(whole);
    assert_eq!(expected, vec!["a", "b", "cé", "", "last"]);
    for cut in 0..=whole.len() {
        assert_eq!(chunked_lines(&[&whole[..cut], &whole[cut..]]), expected, "cut at {cut}");
    }
    let singles: Vec<&[u8]> = whole.chunks(1).collect();
    assert_eq!(chunked_lines(&singles), expected);
}

#[test]
fn splitter_decodes_utf8() {
    assert_eq!(all_lines("héllo\rwörld".as_bytes()), vec!["héllo", "wörld"]);
}

#[test]
fn splitter_reports_invalid_utf8_and_moves_on() {
    let mut lines = CrLfLines::new(vec![b'o', b'k', b'\n', 0xff, 0xfe, b'\n', b'z']);
    lines.finish();
    assert_eq!(lines.next().unwrap().unwrap(), "ok");
    assert!(matches!(lines.next(), Some(Err(MyError::Utf8(_)))));
    assert_eq!(lines.next().unwrap().unwrap(), "z");
    assert!(lines.next().is_none());
}

#[test]
fn take_line_counts_crlf_as_one_delimiter() {
    let (line, used) = take_line(b"ab\r\ncd", 0);
    assert_eq!(line.unwrap(), "ab");
    assert_eq!(used, 4);
    let (line, used) = take_line(b"ab\r\ncd", 4);
    assert_eq!(line.unwrap(), "cd");
    assert_eq!(used, 2);
}

#[test]
fn render_zero_percent() {
    assert_eq!(progress("5:00", "0.0%"), "[>---------] (ETA 5:00)");
}

#[test]
fn render_full() {
    assert_eq!(progress("0:00", "100.0%"), "[==========] (ETA 0:00)");
}

#[test]
fn render_partial() {
    assert_eq!(progress("00:07", "45.3%"), "[====>-----] (ETA 00:07)");
    assert_eq!(progress("00:01", "95.5%"), "[=========>] (ETA 00:01)");
    assert_eq!(progress("1:00", "9.9%"), "[>---------] (ETA 1:00)");
}

#[test]
fn render_is_deterministic() {
    assert_eq!(progress("3:21", "12.5%"), progress("3:21", "12.5%"));
}

#[test]
fn percentage_validity() {
    assert!(percentage_is_valid("45.3%"));
    assert!(percentage_is_valid("100"));
    assert!(!percentage_is_valid(".5%"));
    assert!(!percentage_is_valid("4a.5%"));
    assert!(!percentage_is_valid("99999999999.0%"));
}

#[test]
fn normalize_drops_tracking_suffix() {
    assert_eq!(
        normalize("https://www.youtube.com/watch?v=abc&tracker=feed"),
        "https://www.youtube.com/watch?v=abc"
    );
    assert_eq!(normalize("https://youtu.be/x&a=1&b=2"), "https://youtu.be/x");
    assert_eq!(normalize("https://youtu.be/x"), "https://youtu.be/x");
}

#[test]
fn normalize_extracts_markdown_link() {
    assert_eq!(
        normalize("[a video](https://youtu.be/abc&x=y)"),
        "https://youtu.be/abc"
    );
    assert_eq!(normalize("[t](https://youtu.be/abc)"), "https://youtu.be/abc");
}

#[test]
fn load_skips_empty_lines() {
    assert_eq!(load_queue("a\n\nb\n"), vec!["a", "b"]);
    assert_eq!(load_queue("a\nb"), vec!["a", "b"]);
}

#[test]
fn cleared_queue_loads_empty() {
    assert!(load_queue("").is_empty());
}

#[test]
fn append_then_load_keeps_order() {
    let mut text = String::new();
    text.push_str(&append_text(true, "https://youtu.be/one&t=1"));
    text.push_str(&append_text(true, "https://youtu.be/two"));
    assert_eq!(text, "https://youtu.be/one\nhttps://youtu.be/two\n");
    assert_eq!(load_queue(&text), vec!["https://youtu.be/one", "https://youtu.be/two"]);
}

#[test]
fn append_after_last_line_without_break() {
    let mut text = String::from("a");
    let ends_with_break = text.is_empty() || text.ends_with('\n');
    text.push_str(&append_text(ends_with_break, "b"));
    assert_eq!(text, "a\nb\n");
    assert_eq!(load_queue(&text), vec!["a", "b"]);
}

#[test]
fn load_treats_crlf_as_line_break() {
    assert_eq!(load_queue("a\r\nb\r\n\r\nc"), vec!["a", "b", "c"]);
    assert_eq!(remove_first("a\r\nb\r\n", "a"), Some("b\n".to_string()));
}

#[test]
fn remove_absent_url_leaves_text() {
    assert_eq!(remove_first("a\nb\n", "c"), None);
}

#[test]
fn remove_takes_first_match_only() {
    assert_eq!(remove_first("a\nb\na\n", "a"), Some("b\na\n".to_string()));
    assert_eq!(remove_first("a\nb", "b"), Some("a\n".to_string()));
    assert_eq!(remove_first("a\n", "a"), Some(String::new()));
}

#[test]
fn join_writes_one_entry_per_line() {
    assert_eq!(join_lines(&vec!["x".to_string(), "y".to_string()]), "x\ny\n");
}

#[test]
fn video_links() {
    assert!(is_video_link("https://www.youtube.com/watch?v=1"));
    assert!(is_video_link("https://youtu.be/1"));
    assert!(!is_video_link("https://example.com/video"));
}

#[test]
fn driver_empties_queue_of_two() {
    let mut text = String::from("https://youtu.be/one\nhttps://youtu.be/two\n");
    let mut fetched = Vec::new();
    loop {
        match download_all(&text) {
            Step::Fetch(url) | Step::Discard(url) => {
                fetched.push(url.clone());
                text = remove_first(&text, &url).expect("head is queued");
            }
            Step::Finish => break,
        }
    }
    assert_eq!(fetched, vec!["https://youtu.be/one", "https://youtu.be/two"]);
    assert_eq!(text, "");
}

#[test]
fn driver_discards_other_links() {
    assert_eq!(
        download_all("https://example.com/a\n"),
        Step::Discard("https://example.com/a".to_string())
    );
    assert_eq!(download_all("\n\n"), Step::Finish);
}

#[test]
fn progress_fields_of_downloader_line() {
    let line = "[download]  45.3% of 10.00MiB at  1.00MiB/s ETA 00:07";
    assert_eq!(
        progress_fields_of(line),
        Some(("45.3%".to_string(), "00:07".to_string()))
    );
    assert_eq!(progress_fields_of("[download] Destination: x.mp4"), None);
    assert_eq!(progress_fields_of("no ETA here 5%"), None);
}

#[test]
fn destination_title_of_line() {
    assert_eq!(
        destination_title("[download] Destination: Someone---A_Title.f137.mp4"),
        "Someone---A_Title"
    );
    assert_eq!(destination_title("  padded name .mp4"), "padded name");
}

#[test]
fn follow_line_tracks_title_and_progress() {
    let mut title = String::new();
    assert_eq!(
        follow_line(&mut title, "[download] Destination: Someone---A_Title.mp4"),
        None
    );
    assert_eq!(title, "Someone---A_Title");
    assert_eq!(
        follow_line(&mut title, "[download]  45.3% of 10.00MiB at 1.00MiB/s ETA 00:07"),
        Some("Someone---A_Title...: [====>-----] (ETA 00:07)".to_string())
    );
    assert_eq!(follow_line(&mut title, "[info] other"), None);
    assert_eq!(title, "Someone---A_Title");
}

#[test]
fn follow_line_shortens_long_titles() {
    let mut title = "x".repeat(50);
    let shown = follow_line(&mut title, " 0.0% ETA 1:00").unwrap();
    assert_eq!(shown, format!("{}...: [>---------] (ETA 1:00)", "x".repeat(40)));
}
