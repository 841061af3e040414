use diolingo::align::BiCue;
use diolingo::captions::{parse_json3, parse_srt, parse_vtt, Cue};
use diolingo::subs::{ass_time, srt_time, write_ass, write_bilingual_srt, write_srt, write_zh_srt, AssStyle, Order};

#[test]
fn time_formats() {
    assert_eq!(srt_time(3_723_456), "01:02:03,456");
    assert_eq!(ass_time(3_723_456), "1:02:03.46");
    assert_eq!(ass_time(0), "0:00:00.00");
}

fn cue(start_ms: u64, end_ms: u64, text: &str) -> Cue {
    Cue { start_ms, end_ms, text: text.into() }
}

fn bi(start_ms: u64, end_ms: u64, en: &str, zh: &str) -> BiCue {
    BiCue { start_ms, end_ms, en: en.into(), zh: zh.into() }
}

#[test]
fn times_at_the_edges() {
    assert_eq!(srt_time(0), "00:00:00,000");
    assert_eq!(srt_time(359_999_999), "99:59:59,999");
    assert_eq!(srt_time(360_000_000), "100:00:00,000");
    assert_eq!(srt_time(u64::MAX), "5124095576030:25:51,615");
    assert_eq!(ass_time(4), "0:00:00.00");
    assert_eq!(ass_time(5), "0:00:00.01");
    assert_eq!(ass_time(59_995), "0:01:00.00");
    assert_eq!(ass_time(u64::MAX), "5124095576030:25:51.62");
}

#[test]
fn written_times_read_back() {
    let mut ms: u64 = 1;
    for i in 0..4000u64 {
        ms = ms.wrapping_mul(6364136223846793005).wrapping_add(i) % 400_000_000;
        let doc = write_srt(&[cue(ms, ms + 1, "x")]);
        assert_eq!(parse_srt(&doc).unwrap(), vec![cue(ms, ms + 1, "x")]);
    }
}

#[test]
fn srt_documents() {
    let cues = vec![bi(0, 1000, "a", "甲"), bi(1000, 2000, "b", ""), bi(2000, 3000, "", "丙"), bi(3000, 4000, "", "")];
    assert_eq!(
        write_bilingual_srt(&cues, Order::EnZh),
        "1\n00:00:00,000 --> 00:00:01,000\na\n甲\n\n2\n00:00:01,000 --> 00:00:02,000\nb\n\n3\n00:00:02,000 --> 00:00:03,000\n丙\n\n"
    );
    assert!(write_bilingual_srt(&cues, Order::ZhEn).starts_with("1\n00:00:00,000 --> 00:00:01,000\n甲\na\n\n"));
    assert_eq!(
        write_zh_srt(&cues),
        "1\n00:00:00,000 --> 00:00:01,000\n甲\n\n2\n00:00:02,000 --> 00:00:03,000\n丙\n\n"
    );
    assert_eq!(write_srt(&[]), "");
    assert_eq!(write_srt(&[cue(0, 1, ""), cue(1, 2, "x")]), "1\n00:00:00,001 --> 00:00:00,002\nx\n\n");
}

#[test]
fn documents_read_back() {
    let cues = vec![cue(0, 1, "a b\nc"), cue(5, 100, "第二"), cue(100, 3_600_000, "-- 7 -->")];
    assert_eq!(parse_srt(&write_srt(&cues)).unwrap(), cues);
}

#[test]
fn parsed_cues_read_back() {
    let vtt = "WEBVTT\n\n00:00:00.160 --> 00:00:02.669 align:start\n \nrust<00:00:00.840><c> a</c>\n\n00:00:02.669 --> 00:00:04.150\nrust a\nsalt &amp;  pepper\n\n00:00:02.669 --> 00:00:05.000\nthird\n";
    let cues = parse_vtt(vtt).unwrap();
    assert_eq!(cues, vec![cue(160, 2669, "rust a"), cue(2669, 5000, "salt & pepper\nthird")]);
    assert_eq!(parse_srt(&write_srt(&cues)).unwrap(), cues);

    let json3 = r#"{"events":[{"tStartMs":160,"dDurationMs":4000,"segs":[{"utf8":"a\n b"},{"utf8":"  c"}]}]}"#;
    let cues = parse_json3(json3).unwrap();
    assert_eq!(cues, vec![cue(160, 4160, "a\nb c")]);
    assert_eq!(parse_srt(&write_srt(&cues)).unwrap(), cues);

    // An escaped entity loses one more layer on each reading.
    let cues = parse_srt("1\n00:00:00,000 --> 00:00:01,000\na &amp;lt; b\n").unwrap();
    assert_eq!(cues, vec![cue(0, 1000, "a &lt; b")]);
    assert_eq!(parse_srt(&write_srt(&cues)).unwrap(), vec![cue(0, 1000, "a < b")]);
}

#[test]
fn styled_documents() {
    let style = AssStyle::video("Noto Sans", "Noto Sans CJK TC");
    let doc = write_ass(&[bi(0, 1000, "a{b}\nc", "甲"), bi(1, 2, "", "乙"), bi(2, 3, "", "")], Order::ZhEn, &style);
    assert_eq!(
        doc,
        "[Script Info]\nScriptType: v4.00+\nPlayResX: 1920\nPlayResY: 1080\nWrapStyle: 0\nScaledBorderAndShadow: yes\nYCbCr Matrix: None\n\n\
         [V4+ Styles]\nFormat: Name, Fontname, Fontsize, PrimaryColour, SecondaryColour, OutlineColour, BackColour, Bold, Italic, Underline, StrikeOut, ScaleX, ScaleY, Spacing, Angle, BorderStyle, Outline, Shadow, Alignment, MarginL, MarginR, MarginV, Encoding\n\
         Style: EN,Noto Sans,54,&H00FFFFFF,&H000000FF,&H00000000,&H80000000,0,0,0,0,100,100,0,0,1,2.5,1,2,80,80,42,1\n\
         Style: ZH,Noto Sans CJK TC,48,&H0096E6FF,&H000000FF,&H00000000,&H80000000,0,0,0,0,100,100,0,0,1,2.5,1,2,80,80,42,1\n\n\
         [Events]\nFormat: Layer, Start, End, Style, Name, MarginL, MarginR, MarginV, Effect, Text\n\
         Dialogue: 0,0:00:00.00,0:00:01.00,ZH,,0,0,0,,甲\\N{\\rEN}a｛b｝\\Nc\n\
         Dialogue: 0,0:00:00.00,0:00:00.00,ZH,,0,0,0,,乙\n"
    );
    let doc = write_ass(&[bi(0, 10, "a", "")], Order::ZhEn, &style);
    assert!(doc.ends_with("Dialogue: 0,0:00:00.00,0:00:00.01,EN,,0,0,0,,a\n"));
}

#[test]
fn player_sizes_follow_floating_point() {
    let mut heights: Vec<u32> = (0..3000).collect();
    heights.extend([16_777_215, 16_777_216, 16_777_217, 33_554_435, 4_000_000_000, u32::MAX - 1, u32::MAX]);
    let mut h: u32 = 1;
    for i in 0..3000u32 {
        h = h.wrapping_mul(1_664_525).wrapping_add(1_013_904_223 + i);
        heights.push(h);
    }
    for h in heights {
        let s = AssStyle::player("a", "b", 7, h);
        assert_eq!(s.play_res, (7, h));
        assert_eq!(s.size_en, (h as f32 * 0.20).round() as u32, "{h}");
        assert_eq!(s.size_zh, (h as f32 * 0.18).round() as u32, "{h}");
        assert_eq!(s.margin_v, (h as f32 * 0.06).round() as u32, "{h}");
        assert_eq!(s.margin_h, 20);
    }
}
