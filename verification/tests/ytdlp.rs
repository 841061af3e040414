use diolingo::command::Word;
use diolingo::ytdlp::{
    describe_tracks, fetch_caption, find_track, find_video_file, pick_english, Download, DownloadAction,
    DownloadEvent, DownloadStage, Fetch, Fetched, Info, Outcome,
    SubFormat, SubMap, Track, YtDlp, ZhScript,
};

fn info_with(manual: &[&str], auto: &[&str]) -> Info {
    let mk = |keys: &[&str]| -> SubMap {
        let mut m = SubMap::new();
        for k in keys {
            m.insert(
                k.to_string(),
                vec![SubFormat { ext: "json3".into(), url: Some(format!("http://x/{k}")), name: None }],
            );
        }
        m
    };
    Info {
        kind: None,
        id: "id".into(),
        title: String::new(),
        url: None,
        subtitles: Some(mk(manual)),
        automatic_captions: Some(mk(auto)),
        entries: None,
    }
}

#[test]
fn english_prefers_manual_then_orig() {
    let i = info_with(&["en-CA"], &["en", "en-orig"]);
    let t = pick_english(&i, None).unwrap().unwrap();
    assert!(!t.auto && t.key == "en-CA");
    let i = info_with(&[], &["en", "en-orig"]);
    let t = pick_english(&i, None).unwrap().unwrap();
    assert!(t.auto && t.key == "en-orig");
}

#[test]
fn english_in_order() {
    let key = |i: &Info| pick_english(i, None).unwrap().map(|t| (t.key, t.auto));
    assert_eq!(key(&info_with(&["en-GB", "en-US", "en"], &[])), Some(("en".into(), false)));
    assert_eq!(key(&info_with(&["en-GB", "en-US", "en-AU"], &[])), Some(("en-US".into(), false)));
    assert_eq!(key(&info_with(&["en-GB", "en-AU"], &[])), Some(("en-GB".into(), false)));
    // Keys are looked at in their order, and `english` is no key of English.
    assert_eq!(key(&info_with(&["en-ZA", "en-AU", "english"], &[])), Some(("en-AU".into(), false)));
    assert_eq!(key(&info_with(&["english"], &["en-US", "en"])), Some(("en".into(), true)));
    assert_eq!(key(&info_with(&[], &["en-US"])), Some(("en-US".into(), true)));
    assert_eq!(key(&info_with(&["fr"], &["fr"])), None);
}

#[test]
fn forced_tracks() {
    let i = info_with(&["fr"], &["fr", "de"]);
    let t = pick_english(&i, Some("fr")).unwrap().unwrap();
    assert!(!t.auto);
    let t = pick_english(&i, Some("de")).unwrap().unwrap();
    assert!(t.auto);
    assert_eq!(pick_english(&i, Some("es")).unwrap_err().key, "es");
}

#[test]
fn formats_in_order() {
    let f = |ext: &str, url: Option<&str>| SubFormat {
        ext: ext.into(),
        url: url.map(|u| u.to_string()),
        name: Some(format!("name {ext}")),
    };
    let mut m = SubMap::new();
    m.insert("a".into(), vec![f("srt", Some("1")), f("vtt", Some("2")), f("vtt", Some("3"))]);
    m.insert("b".into(), vec![f("ttml", Some("1"))]);
    m.insert("c".into(), vec![f("json3", None), f("vtt", Some("2"))]);
    let i = Info {
        kind: None,
        id: String::new(),
        title: String::new(),
        url: None,
        subtitles: Some(m),
        automatic_captions: None,
        entries: None,
    };
    let t = find_track(&i, "a", false).unwrap();
    assert_eq!((t.ext.as_str(), t.url.as_str(), t.name.as_str()), ("vtt", "2", "name vtt"));
    assert!(find_track(&i, "b", false).is_none());
    assert!(find_track(&i, "c", false).is_none());
    assert!(find_track(&i, "d", false).is_none());
    assert!(find_track(&i, "a", true).is_none());
}

#[test]
fn maps_keep_their_keys_in_order() {
    let f = |u: &str| vec![SubFormat { ext: "vtt".into(), url: Some(u.into()), name: None }];
    let mut m = SubMap::new();
    for k in ["b", "é", "a", "中", "aa", "a"] {
        m.insert(k.into(), f(k));
    }
    m.insert("b".into(), f("new"));
    let keys: Vec<&str> = (0..m.len()).map(|i| m.key(i)).collect();
    assert_eq!(keys, vec!["a", "aa", "b", "é", "中"]);
    assert_eq!(m.get("b").unwrap()[0].url.as_deref(), Some("new"));
    assert!(m.get("c").is_none());
    assert_eq!(m.formats(3)[0].url.as_deref(), Some("é"));
}

#[test]
fn listing_of_tracks() {
    let mut i = info_with(&["fr"], &["en", "de", "en-orig"]);
    let mut m = SubMap::new();
    m.insert("en".into(), vec![SubFormat { ext: "vtt".into(), url: None, name: Some("English".into()) }]);
    m.insert("fr".into(), vec![]);
    i.subtitles = Some(m);
    assert_eq!(
        describe_tracks(&i),
        "  manual subtitles (2): en (English), fr\n  auto captions (3 languages), English keys: en, en-orig\n  other auto captions: de\n"
    );
}

#[test]
fn tracks_in_words() {
    let mut t = Track { key: "en".into(), auto: false, name: String::new(), ext: "vtt".into(), url: String::new() };
    assert_eq!(t.describe(), "en [manual]");
    t.auto = true;
    t.name = "English".into();
    assert_eq!(t.describe(), "en [auto, English]");
}

#[test]
fn reports() {
    let mut i = info_with(&[], &[]);
    assert!(!i.is_playlist());
    assert_eq!(i.video_url(), "https://www.youtube.com/watch?v=id");
    i.kind = Some("playlist".into());
    i.url = Some("http://u".into());
    assert!(i.is_playlist());
    assert_eq!(i.video_url(), "http://u");
    assert_eq!(ZhScript::ZhHant.tag(), "zh-Hant");
    assert_eq!(ZhScript::ZhHans.tag(), "zh-Hans");
    assert_eq!(ZhScript::ZhHans.llm_name(), "Simplified Chinese (简体中文)");
    assert_eq!(
        ZhScript::ZhHant.llm_name(),
        "Traditional Chinese as used in Taiwan (台灣繁體中文，使用台灣慣用語)"
    );
}

#[test]
fn fetching_backs_off_six_times() {
    let mut f = Fetch::new();
    let mut waits = Vec::new();
    while !f.is_over() {
        let status = if f.attempt % 2 == 0 { 429 } else { 503 };
        match fetch_caption(&mut f, Outcome::Response { status, body: String::new() }) {
            Fetched::Retry(w) => waits.push(w),
            other => panic!("{other:?}"),
        }
    }
    assert_eq!(waits, vec![3, 6, 12, 24, 48, 60]);
}

#[test]
fn fetching_ends() {
    let answer = |status: u16, body: &str| {
        let mut f = Fetch::new();
        fetch_caption(&mut f, Outcome::Response { status, body: body.into() })
    };
    assert!(matches!(answer(200, " x "), Fetched::Done(s) if s == " x "));
    assert!(matches!(answer(299, "y"), Fetched::Done(_)));
    assert!(matches!(answer(204, " \n\u{3000}"), Fetched::Empty));
    assert!(matches!(answer(404, "x"), Fetched::Refused(404)));
    assert!(matches!(answer(300, "x"), Fetched::Refused(300)));
    assert!(matches!(answer(199, "x"), Fetched::Refused(199)));
    assert!(matches!(answer(500, "x"), Fetched::Retry(3)));
    let mut f = Fetch::new();
    for _ in 0..5 {
        assert!(matches!(fetch_caption(&mut f, Outcome::Failed), Fetched::Retry(_)));
    }
    assert!(matches!(fetch_caption(&mut f, Outcome::Failed), Fetched::Broken));
}

fn words(w: &[Word]) -> Vec<String> {
    w.iter()
        .map(|x| match x {
            Word::Text(s) => s.clone(),
            Word::Path(i) => format!("<{i}>"),
        })
        .collect()
}

#[test]
fn command_lines() {
    let yt = YtDlp { bin: "yt-dlp".into(), common_args: vec!["--x".into()] };
    assert_eq!(
        words(&yt.probe("URL")),
        vec!["yt-dlp", "-J", "--no-playlist", "--flat-playlist", "--x", "--", "URL"]
    );
    let fmt = "bv*[height<=1080][vcodec^=avc1]+ba[ext=m4a]/bv*[height<=1080]+ba/b[height<=1080]/bv*+ba/b";
    let base = vec![
        "yt-dlp", "--no-playlist", "-f", fmt, "--merge-output-format", "mkv", "--remux-video", "mkv",
        "--no-overwrites", "--continue", "-o", "w/id.%(ext)s", "--x",
    ];
    let mut saved = base.clone();
    saved.extend(["--load-info-json", "<0>"]);
    assert_eq!(words(&yt.download_command("URL", "w/id.%(ext)s", 1080, false)), saved);
    let mut fresh = base;
    fresh.extend(["--", "URL"]);
    assert_eq!(words(&yt.download_command("URL", "w/id.%(ext)s", 1080, true)), fresh);
}

#[test]
fn downloaded_videos() {
    let names: Vec<String> = ["id.info.json", "id.webm", "id.mp4", "other.mkv"].iter().map(|s| s.to_string()).collect();
    assert_eq!(find_video_file(&names, "id"), Some(2));
    assert_eq!(find_video_file(&names[..2], "id"), Some(1));
    assert_eq!(find_video_file(&names, "other"), Some(3));
    assert_eq!(find_video_file(&names, "i"), None);
}

fn download() -> Download {
    Download { url: "URL".into(), id: "id".into(), template: "w/id.%(ext)s".into(), max_height: 1080 }
}

fn files(names: &[&str]) -> DownloadEvent {
    DownloadEvent::Files(names.iter().map(|s| s.to_string()).collect())
}

#[test]
fn downloads_try_saved_information_first() {
    let yt = YtDlp { bin: "yt-dlp".into(), common_args: vec![] };
    let d = download();
    let (stage, action) = yt.download_video(&d, DownloadStage::Start, files(&["id.info.json"]));
    assert_eq!(stage, DownloadStage::Saved);
    match action {
        DownloadAction::Run(w) => assert_eq!(words(&w), words(&yt.download_command("URL", "w/id.%(ext)s", 1080, false))),
        other => panic!("{other:?}"),
    }
    let (stage, action) = yt.download_video(&d, stage, DownloadEvent::Ended { success: false });
    assert_eq!(stage, DownloadStage::Fresh);
    match action {
        DownloadAction::Run(w) => assert_eq!(words(&w), words(&yt.download_command("URL", "w/id.%(ext)s", 1080, true))),
        other => panic!("{other:?}"),
    }
    let (_, action) = yt.download_video(&d, stage, DownloadEvent::Ended { success: false });
    assert!(matches!(action, DownloadAction::Fail));
    let (stage, action) = yt.download_video(&d, stage, DownloadEvent::Ended { success: true });
    assert!(matches!(action, DownloadAction::Look));
    let (end, action) = yt.download_video(&d, stage, files(&["id.info.json", "id.mkv"]));
    assert_eq!(end, DownloadStage::Over);
    assert!(matches!(action, DownloadAction::Done(1)));
    let (_, action) = yt.download_video(&d, stage, files(&["id.info.json"]));
    assert!(matches!(action, DownloadAction::NoFile));
}

#[test]
fn downloads_keep_what_is_there() {
    let yt = YtDlp { bin: "yt-dlp".into(), common_args: vec![] };
    let (stage, action) = yt.download_video(&download(), DownloadStage::Start, files(&["x", "id.webm"]));
    assert_eq!(stage, DownloadStage::Over);
    assert!(matches!(action, DownloadAction::Existing(1)));
    let (stage, action) = yt.download_video(&download(), DownloadStage::Saved, DownloadEvent::Ended { success: true });
    assert_eq!(stage, DownloadStage::Looking);
    assert!(matches!(action, DownloadAction::Look));
}

#[test]
fn usable_manual_english_comes_first() {
    let mut i = info_with(&["en-AU", "en-CA"], &["en"]);
    let mut m = SubMap::new();
    m.insert("en-AU".into(), vec![SubFormat { ext: "ttml".into(), url: Some("http://x/a".into()), name: None }]);
    m.insert("en-CA".into(), vec![SubFormat { ext: "json3".into(), url: Some("http://x/c".into()), name: None }]);
    i.subtitles = Some(m);
    let t = pick_english(&i, None).unwrap().unwrap();
    assert_eq!((t.key.as_str(), t.auto, t.url.as_str()), ("en-CA", false, "http://x/c"));
}

#[test]
fn every_track_is_listed() {
    let text = describe_tracks(&info_with(&["de", "pt-BR"], &["fr", "ja"]));
    assert_eq!(
        text,
        "  manual subtitles (2): de, pt-BR\n  auto captions (2 languages), English keys: none\n  other auto captions: fr, ja\n"
    );
}

#[test]
fn two_lines_where_they_name_every_track() {
    assert_eq!(
        describe_tracks(&info_with(&["en-CA", "fr"], &["en", "en-orig"])),
        "  manual subtitles (2): en-CA, fr\n  auto captions (2 languages), English keys: en, en-orig\n"
    );
    assert_eq!(
        describe_tracks(&info_with(&[], &[])),
        "  manual subtitles (0): none\n  auto captions (0 languages), English keys: none\n"
    );
}

#[test]
fn reports_without_an_id() {
    let mut i = info_with(&[], &[]);
    assert!(i.has_id());
    i.id = String::new();
    assert!(!i.has_id());
}
