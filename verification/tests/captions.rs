use diolingo::captions::{
    clean_text, normalize, parse, parse_blocks, parse_json3, parse_srt, parse_timestamp, parse_vtt, CaptionError, Cue,
};
use diolingo::subs::srt_time;
use diolingo::float::parse_seconds;
use diolingo::number::IntegerError;
use diolingo::text::is_whitespace;

#[test]
fn json3_skips_append_events_and_clamps() {
    let doc = r#"{"events":[
            {"tStartMs":0,"dDurationMs":1000,"id":1},
            {"tStartMs":160,"dDurationMs":4000,"segs":[{"utf8":"rust"},{"utf8":" a","tOffsetMs":680}]},
            {"tStartMs":2669,"dDurationMs":1491,"aAppend":1,"segs":[{"utf8":"\n"}]},
            {"tStartMs":2679,"dDurationMs":3600,"segs":[{"utf8":"language &amp; that"}]}
        ]}"#;
    let cues = parse_json3(doc).unwrap();
    assert_eq!(cues.len(), 2);
    assert_eq!(cues[0].text, "rust a");
    assert_eq!(cues[0].end_ms, 2679);
    assert_eq!(cues[1].text, "language & that");
    assert_eq!(cues[1].end_ms, 2679 + 3600);
}

#[test]
fn vtt_dedupes_rolling_lines() {
    let vtt = "WEBVTT\nKind: captions\n\n00:00:00.160 --> 00:00:02.669 align:start\n \nrust<00:00:00.840><c> a</c>\n\n00:00:02.669 --> 00:00:02.679\nrust a\n \n\n00:00:02.679 --> 00:00:04.150\nrust a\nlanguage<00:00:03.000><c> that</c>\n";
    let cues = parse_vtt(vtt).unwrap();
    assert_eq!(cues.len(), 2);
    assert_eq!(cues[0].text, "rust a");
    assert_eq!(cues[1].text, "language that");
    assert_eq!(cues[1].start_ms, 2679);
}

#[test]
fn normalize_merges_same_start() {
    let cues = vec![
        Cue { start_ms: 10, end_ms: 20, text: "a".into() },
        Cue { start_ms: 10, end_ms: 30, text: "b".into() },
        Cue { start_ms: 25, end_ms: 40, text: "c".into() },
    ];
    let n = normalize(cues);
    assert_eq!(n.len(), 2);
    assert_eq!(n[0].text, "a\nb");
    assert_eq!(n[0].end_ms, 25);
}

fn at(stamp: &str) -> Result<u64, CaptionError> {
    parse_srt(&format!("1\n{stamp} --> 200000000:00:00\nx\n")).map(|c| c[0].start_ms)
}

#[test]
fn timestamps() {
    assert_eq!(at("01:02:03,456").unwrap(), 3_723_456);
    assert_eq!(at("01:02:03.456").unwrap(), 3_723_456);
    assert_eq!(at("02:03.4").unwrap(), 123_400);
    assert_eq!(at("+1:+2:+3").unwrap(), 3_723_000);
    assert_eq!(at("0:0:61.5").unwrap(), 61_500);
    assert_eq!(at("0:0:-5").unwrap(), 0);
    assert_eq!(at("0:0:nan").unwrap(), 0);
    assert!(matches!(at("5"), Err(CaptionError::Timestamp(s)) if s == "5"));
    assert!(matches!(at("1:2:3:4,5"), Err(CaptionError::Timestamp(s)) if s == "1:2:3:4.5"));
    assert!(matches!(at("x:2:3"), Err(CaptionError::Integer(IntegerError::InvalidDigit))));
    assert!(matches!(at(":2:3"), Err(CaptionError::Integer(IntegerError::Empty))));
    assert!(matches!(at("99999999999999999999:0:0"), Err(CaptionError::Integer(IntegerError::OutOfRange))));
    assert!(matches!(at("1:2:x"), Err(CaptionError::Seconds)));
    assert!(matches!(at("9999999999999:0:0"), Err(CaptionError::TooLate)));
    assert!(matches!(at("0:1:inf"), Err(CaptionError::TooLate)));
}

#[test]
fn seconds_follow_floating_point() {
    let mut texts: Vec<String> = [
        "0", "1.0005", "1.00050", "0.0005", "0.0015", "2.0005", "59.9995", "8.0345", "1e3", "1e-3", "4.9e-4", "5e-4", "5.1e-4",
        "123456789.0005", "9007199254740993", "9007199254740.9935", "18446744073709551.615", "18446744073709551.616",
        "18446744073709553", "18446744073709552", "1e17", "1e300", "1e400", "1e-400", "1e-20", "1e-21", "1e99999999999999999999",
        "1e-99999999999999999999", "0e99999999999999999999", ".5", "5.", "00000.25", "0.00024414062499999999999999999999999999",
        "0.00049999999999999999", "0.000500000000000000000000000001", "144115188075855871", "144115188075855872", "inf",
        "+inf", "-inf", "nan", "-0.1", "36028797018963967.5", "72057594037927935.9",
    ]
    .iter()
    .map(|s| s.to_string())
    .collect();
    let mut x: u64 = 88172645463325252;
    for i in 0..4000u64 {
        x ^= x << 13;
        x ^= x >> 7;
        x ^= x << 17;
        let whole = if i % 3 == 0 { x % 60 } else { x % 10u64.pow((i % 17) as u32 + 1) };
        let places = (i % 19) as usize;
        let digits = format!("{:020}", x.rotate_left(17));
        texts.push(format!("{whole}.{}5", &digits[..places]));
        texts.push(format!("{}e-{}", x, i % 40));
    }
    for t in texts {
        let product = t.parse::<f64>().unwrap() * 1000.0;
        let chars: Vec<char> = t.chars().collect();
        assert_eq!(parse_seconds(&chars, true), Some(product.round() as u64), "{t}");
        assert_eq!(parse_seconds(&chars, false), Some(product as u64), "{t}");
    }
}

#[test]
fn blocks_and_tags() {
    let vtt = "\u{feff}WEBVTT\r\n\r\nNOTE x\r\n\r\nid\r\n00:01.000 --> 00:02.000 line:0\r\n<i>a</i> &lt;b&gt;&nbsp;c\r\n\r\n00:03.000 --> 00:04.000\r\n<c>\r\n";
    let cues = parse_vtt(vtt).unwrap();
    assert_eq!(cues, vec![Cue { start_ms: 1000, end_ms: 2000, text: "a <b> c".into() }]);
    assert_eq!(parse_srt("").unwrap(), vec![]);
    // Only the rolling format drops repeated lines.
    let doc = "00:01.0 --> 00:02.0\na\n\n00:02.0 --> 00:03.0\na\nb\n";
    assert_eq!(parse_vtt(doc).unwrap()[1].text, "b");
    assert_eq!(parse_srt(doc).unwrap()[1].text, "a\nb");
}

#[test]
fn cleaning() {
    assert_eq!(clean_text(" a \u{200b} b\t\n\n \u{3000} \n c&#39;d&#x27;&quot; "), "a b\nc'd'\"");
    assert_eq!(clean_text("&amp;lt;"), "&lt;");
    assert_eq!(clean_text("&lt;&gt;&nbsp;"), "<>");
    assert_eq!(clean_text(""), "");
}

#[test]
fn white_space_is_unicode_white_space() {
    for u in 0..=0x10ffffu32 {
        if let Some(c) = char::from_u32(u) {
            assert_eq!(is_whitespace(c), c.is_whitespace(), "{u:x}");
        }
    }
}

#[test]
fn normalizing() {
    let c = |s: u64, e: u64, t: &str| Cue { start_ms: s, end_ms: e, text: t.into() };
    let n = normalize(vec![c(50, 60, "z"), c(10, 20, "a"), c(10, 15, "a"), c(30, 30, "gone"), c(40, 45, "")]);
    assert_eq!(n, vec![c(10, 20, "a"), c(50, 60, "z")]);
    assert_eq!(normalize(n.clone()), n);
    // Cues that start together keep their order.
    let n = normalize(vec![c(5, 6, "b"), c(5, 9, "a"), c(7, 8, "c")]);
    assert_eq!(n, vec![c(5, 7, "b\na"), c(7, 8, "c")]);
}

#[test]
fn json3_shapes() {
    assert_eq!(parse_json3("{}").unwrap(), vec![]);
    assert!(matches!(parse_json3("nope"), Err(CaptionError::InvalidJson3)));
    assert!(matches!(parse_json3("3"), Err(CaptionError::InvalidJson3)));
    assert!(matches!(parse_json3(r#"{"events":null}"#), Err(CaptionError::InvalidJson3)));
    assert!(matches!(parse_json3(r#"{"events":[{"tStartMs":"1"}]}"#), Err(CaptionError::InvalidJson3)));
    assert!(matches!(parse_json3(r#"{"events":[{"aAppend":256}]}"#), Err(CaptionError::InvalidJson3)));
    assert!(matches!(parse_json3(r#"{"events":[{"segs":[{"utf8":1}]}]}"#), Err(CaptionError::InvalidJson3)));
    let doc = r#"{"events":[{"tStartMs":-5,"dDurationMs":10.5,"segs":[{"utf8":"a"},{}]}]}"#;
    assert_eq!(parse_json3(doc).unwrap(), vec![Cue { start_ms: 0, end_ms: 11, text: "a".into() }]);
    let doc = r#"{"events":[{"tStartMs":1e300,"dDurationMs":1,"segs":[{"utf8":"a"}]}]}"#;
    assert!(matches!(parse_json3(doc), Err(CaptionError::TooLate)));
}

#[test]
fn json3_times_follow_floating_point() {
    let numbers = [
        "0.5", "1.5", "2.5", "0.49999999999999994", "4503599627370495.5", "4503599627370496.5", "9007199254740993",
        "9007199254740992.9", "1e3", "1.25e2", "12345678901234567", "0.1", "-0.0", "1e-5", "123456789.499999999",
    ];
    for n in numbers {
        let doc = format!(r#"{{"events":[{{"tStartMs":{n},"dDurationMs":1000,"segs":[{{"utf8":"a"}}]}}]}}"#);
        let f: f64 = serde_json::from_str(n).unwrap();
        let want = f.max(0.0).round() as u64;
        assert_eq!(parse_json3(&doc).unwrap()[0].start_ms, want, "{n}");
    }
}

#[test]
fn kinds_of_documents() {
    assert_eq!(parse("json3", r#"{"events":[]}"#).unwrap(), vec![]);
    assert_eq!(parse("srt", "00:01.0 --> 00:02.0\na").unwrap().len(), 1);
    assert_eq!(parse("vtt", "00:01.0 --> 00:02.0\na").unwrap().len(), 1);
    assert!(matches!(parse("ttml", ""), Err(CaptionError::Unsupported(e)) if e == "ttml"));
}

#[test]
fn line_ends_and_marks() {
    let srt = "1\n00:00:00,000 --> 00:00:01,000\na\nb\n\n2\n00:00:01,000 --> 00:00:02,000\nc\n";
    let want = parse_srt(srt).unwrap();
    assert_eq!(want.len(), 2);
    assert_eq!(want[0].text, "a\nb");
    assert_eq!(parse_srt(&srt.replace('\n', "\r\n")).unwrap(), want);
    assert_eq!(parse_srt(&format!("\u{feff}{srt}")).unwrap(), want);
    assert_eq!(parse_srt(&format!("\u{feff}\u{feff}{}", srt.replace('\n', "\r\n"))).unwrap(), want);
}

#[test]
fn json3_records_as_lists() {
    assert_eq!(parse_json3("[]").unwrap(), vec![]);
    assert_eq!(parse_json3("[[]]").unwrap(), vec![]);
    let want = vec![Cue { start_ms: 5, end_ms: 15, text: "ab".into() }];
    assert_eq!(parse_json3(r#"[[[5,10,0,[["a"],{"utf8":"b"},[]]],[],[1],{}]]"#).unwrap(), want);
    assert_eq!(parse_json3(r#"{"events":[[5,10,0,[["ab"]]],[5,10,1,[["c"]]]]}"#).unwrap(), want);
    for bad in ["[[],1]", "[1]", "[[[1,2,3,[],5]]]", r#"[[["1"]]]"#, r#"[[[1,2,3,[["a","b"]]]]]"#, "[[[1,2,256]]]", "[null]"] {
        assert!(matches!(parse_json3(bad), Err(CaptionError::InvalidJson3)), "{bad}");
    }
}

#[test]
fn every_written_time_reads_back() {
    for ms in [0, 1, 999, 59_999, 3_599_999, 3_723_456, 359_999_999, 360_000_000, u64::MAX] {
        assert_eq!(parse_timestamp(&srt_time(ms)).unwrap(), ms);
    }
    let doc = "00:01 --> 00:02\nx\n";
    for rolling in [false, true] {
        let want = parse_blocks(doc, rolling).unwrap();
        assert_eq!(want.len(), 1);
        assert_eq!(parse_blocks(&doc.replace('\n', "\r\n"), rolling).unwrap(), want);
        assert_eq!(parse_blocks(&format!("\u{feff}{doc}"), rolling).unwrap(), want);
    }
}
