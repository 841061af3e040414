use diolingo::captions::Cue;
use diolingo::session::{
    common_args, next_entry, process_video, report_failures, sanitize, stem, title_of, track_cache, video_dir, Action, Event, Failure,
    Options, Stage, VideoDir, Walk, WalkAction,
};
use diolingo::ytdlp::{Info, SubFormat, SubMap, Track};

#[test]
fn sanitize_titles() {
    assert_eq!(sanitize("Rust: in 100 Seconds?"), "Rust_ in 100 Seconds_");
    assert_eq!(sanitize("  中文  標題 / test  "), "中文 標題 _ test");
    assert_eq!(sanitize("..."), "video");
}

#[test]
fn sanitize_edges() {
    assert_eq!(sanitize(""), "video");
    assert_eq!(sanitize("a\u{1}b\u{7f}c\u{85}d"), "a b c d");
    assert_eq!(sanitize("..a.b.."), "a.b");
    assert_eq!(sanitize("\\:*?\"<>|/"), "_________");
    let long = "é".repeat(150);
    assert_eq!(sanitize(&long).chars().count(), 100);
    // A space that the cut leaves at the end stays.
    let cut = format!("{} bcd", "a".repeat(99));
    assert_eq!(sanitize(&cut), format!("{} ", "a".repeat(99)));
}

#[test]
fn every_control_character_becomes_a_space() {
    for u in 0..=0x10ffffu32 {
        if let Some(c) = char::from_u32(u) {
            let got = sanitize(&format!("a{c}b"));
            if c.is_control() {
                assert_eq!(got, "a b", "{u:x}");
            } else if !c.is_whitespace() && !"/\\:*?\"<>|".contains(c) {
                assert_eq!(got, format!("a{c}b"), "{u:x}");
            }
        }
    }
}

#[test]
fn folders_are_found_by_id() {
    let names = vec!["other".to_string(), "[abc] Old title".to_string(), "[abc] x".to_string()];
    assert_eq!(video_dir(&names, "abc", "New title"), VideoDir::Existing(1));
    assert_eq!(video_dir(&names, "ab", "A/B"), VideoDir::New("[ab] A_B".to_string()));
    assert_eq!(video_dir(&[], "id", ""), VideoDir::New("[id] video".to_string()));
}

#[test]
fn names_of_files() {
    assert_eq!(stem("A: b", "xyz"), "A_ b [xyz]");
    let mut i = info(&[]);
    assert_eq!(title_of(&i), "t");
    i.title = String::new();
    assert_eq!(title_of(&i), "id");
    let t = Track { key: "en-orig".into(), auto: true, name: String::new(), ext: "json3".into(), url: "u".into() };
    assert_eq!(track_cache(&t, "xyz"), "xyz.en-orig.auto.json3");
    let t = Track { key: "en".into(), auto: false, name: String::new(), ext: "vtt".into(), url: "u".into() };
    assert_eq!(track_cache(&t, "xyz"), "xyz.en.manual.vtt");
}

#[test]
fn arguments_for_every_call() {
    let more = vec!["--limit-rate".to_string(), "2M".to_string()];
    assert_eq!(common_args(None, None, &more), more);
    assert_eq!(
        common_args(Some("firefox"), Some("c.txt"), &more),
        vec!["--cookies-from-browser", "firefox", "--cookies", "c.txt", "--limit-rate", "2M"]
    );
    assert_eq!(common_args(None, Some("c.txt"), &[]), vec!["--cookies", "c.txt"]);
}

fn options() -> Options {
    Options { list_subs: false, force: false, no_video: false, audio: true, burn: false, clean: false, en_lang: None }
}

fn info(manual: &[&str]) -> Info {
    let mut m = SubMap::new();
    for k in manual {
        m.insert(k.to_string(), vec![SubFormat { ext: "vtt".into(), url: Some(format!("http://x/{k}")), name: None }]);
    }
    Info {
        kind: None,
        id: "id".into(),
        title: "t".into(),
        url: None,
        subtitles: Some(m),
        automatic_captions: None,
        entries: None,
    }
}

#[test]
fn a_video_goes_through_all_steps() {
    let mut o = options();
    o.burn = true;
    o.clean = true;
    o.force = true;
    let i = info(&["en"]);
    let (s, a) = process_video(&o, &i, Stage::Start, Event::Begin { work_exists: true });
    assert!(matches!(a, Action::Prepare { clear: true }));
    let (s, a) = process_video(&o, &i, s, Event::Done);
    match a {
        Action::Fetch(t) => assert_eq!(t.url, "http://x/en"),
        other => panic!("{other:?}"),
    }
    let cues = vec![
        Cue { start_ms: 0, end_ms: 1000, text: "a".into() },
        Cue { start_ms: 1000, end_ms: 2000, text: "b".into() },
    ];
    let (s, a) = process_video(&o, &i, s, Event::Captions(cues));
    match a {
        Action::Translate(lines) => assert_eq!(lines, vec!["a", "b"]),
        other => panic!("{other:?}"),
    }
    let (s, a) = process_video(&o, &i, s, Event::Translations(vec!["甲".into(), " ".into()]));
    match a {
        Action::Write { en, zh, cues, with_zh } => {
            assert_eq!(
                en,
                "1\n00:00:00,000 --> 00:00:01,000\na\n\n2\n00:00:01,000 --> 00:00:02,000\nb\n\n"
            );
            assert_eq!(zh, "1\n00:00:00,000 --> 00:00:01,000\n甲\n\n");
            assert_eq!((cues, with_zh), (2, 1));
        }
        other => panic!("{other:?}"),
    }
    let (s, a) = process_video(&o, &i, s, Event::Done);
    assert!(matches!(a, Action::Download));
    let (s, a) = process_video(&o, &i, s, Event::Downloaded { mkv_exists: false });
    assert!(matches!(a, Action::Link));
    let (s, a) = process_video(&o, &i, s, Event::Done);
    assert!(matches!(a, Action::Extract));
    let (s, a) = process_video(&o, &i, s, Event::Done);
    assert!(matches!(a, Action::Burn));
    let (s, a) = process_video(&o, &i, s, Event::Done);
    assert!(matches!(a, Action::Clean));
    let (s, a) = process_video(&o, &i, s, Event::Done);
    assert!(matches!(a, Action::Finish));
    assert!(matches!(s, Stage::Over));
}

#[test]
fn steps_are_left_out() {
    let mut o = options();
    o.no_video = true;
    let i = info(&["en"]);
    let (s, a) = process_video(&o, &i, Stage::Writing, Event::Done);
    assert!(matches!((s, a), (Stage::Over, Action::Finish)));
    o.no_video = false;
    let (s, a) = process_video(&o, &i, Stage::Downloading, Event::Downloaded { mkv_exists: true });
    assert!(matches!((s, a), (Stage::Extracting, Action::Extract)));
    o.audio = false;
    let (s, a) = process_video(&o, &i, Stage::Downloading, Event::Downloaded { mkv_exists: true });
    assert!(matches!((s, a), (Stage::Over, Action::Finish)));
    let (_, a) = process_video(&o, &i, Stage::Start, Event::Begin { work_exists: true });
    assert!(matches!(a, Action::Prepare { clear: false }));
    o.list_subs = true;
    let (s, a) = process_video(&o, &i, Stage::Start, Event::Begin { work_exists: true });
    match (s, a) {
        (Stage::Over, Action::List(text)) => assert_eq!(
            text,
            "  manual subtitles (1): en\n  auto captions (0 languages), English keys: none\n"
        ),
        other => panic!("{other:?}"),
    }
}

#[test]
fn videos_fail() {
    let o = options();
    let (_, a) = process_video(&o, &info(&["fr"]), Stage::Preparing, Event::Done);
    assert!(matches!(a, Action::Fail(Failure::NoEnglish)));
    let mut forced = options();
    forced.en_lang = Some("de".into());
    let (_, a) = process_video(&forced, &info(&["en"]), Stage::Preparing, Event::Done);
    match a {
        Action::Fail(Failure::NoTrack(key)) => assert_eq!(key, "de"),
        other => panic!("{other:?}"),
    }
    let (_, a) = process_video(&o, &info(&["en"]), Stage::Fetching("en".into()), Event::Captions(vec![]));
    match a {
        Action::Fail(Failure::NoCues(key)) => assert_eq!(key, "en"),
        other => panic!("{other:?}"),
    }
    assert_eq!(report_failures(0), None);
    assert_eq!(report_failures(3).as_deref(), Some("3 video(s) failed"));
}

#[test]
fn playlists_go_on_after_failures() {
    let results = [false, true, true, false];
    let mut walk = Walk::new();
    let mut failed = None;
    let mut seen = Vec::new();
    loop {
        let (next, action) = next_entry(results.len(), walk, failed);
        walk = next;
        match action {
            WalkAction::Process(i) => {
                seen.push(i);
                failed = Some(results[i]);
            }
            WalkAction::Finish => break,
        }
    }
    assert_eq!(seen, vec![0, 1, 2, 3]);
    assert_eq!(walk, Walk { done: 4, failures: 2 });
    assert_eq!(next_entry(0, Walk::new(), None), (Walk::new(), WalkAction::Finish));
    assert_eq!(next_entry(2, Walk::new(), Some(true)), (Walk { done: 1, failures: 1 }, WalkAction::Process(1)));
}
