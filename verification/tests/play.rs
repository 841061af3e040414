use diolingo::align::{zip, BiCue};
use diolingo::captions::{CaptionError, Cue};
use diolingo::command::Word;
use diolingo::play::{
    choose_dir, find_file, load_bilingual, media_files, resolve_dir, run, shell_words, youtube_id, Missing, PlayOpts,
    ResolveError, SidecarError,
};
use diolingo::subs::{write_srt, write_zh_srt, Order};
use diolingo::ytdlp::Info;

#[test]
fn extracts_ids() {
    assert_eq!(youtube_id("5C_HPTJg5ek").as_deref(), Some("5C_HPTJg5ek"));
    assert_eq!(youtube_id("https://www.youtube.com/watch?v=5C_HPTJg5ek&t=10").as_deref(), Some("5C_HPTJg5ek"));
    assert_eq!(youtube_id("https://youtu.be/5C_HPTJg5ek?si=x").as_deref(), Some("5C_HPTJg5ek"));
    assert_eq!(youtube_id("rust"), None);
}

#[test]
fn ids_in_odd_places() {
    assert_eq!(youtube_id("?v=abcdefghij-#t"), Some("abcdefghij-".into()));
    assert_eq!(youtube_id("youtu.be/abcdefghij_"), Some("abcdefghij_".into()));
    // Only what stands behind the first `v=` counts.
    assert_eq!(youtube_id("v=short&v=abcdefghijk"), None);
    assert_eq!(youtube_id("abcdefghijk "), None);
    assert_eq!(youtube_id("abcdefghijé"), None);
    assert_eq!(youtube_id(""), None);
}

fn names(list: &[&str]) -> Vec<String> {
    list.iter().map(|s| s.to_string()).collect()
}

#[test]
fn resolves_by_id_then_title() {
    let n = names(&["[5C_HPTJg5ek] Rust in 100 Seconds", "[abcdefghijk] Rust and Go"]);
    assert_eq!(resolve_dir(&n, "5C_HPTJg5ek"), Ok(0));
    assert_eq!(resolve_dir(&n, "100 seconds"), Ok(0));
    assert_eq!(resolve_dir(&n, "[abcdefghijk] Rust and Go"), Ok(1));
    assert_eq!(resolve_dir(&n, "rust"), Err(ResolveError::Several(vec![0, 1])), "ambiguous");
    assert_eq!(resolve_dir(&n, "nope"), Err(ResolveError::Nothing));
}

#[test]
fn case_does_not_matter() {
    let n = names(&["[a] ÉCOLE", "[b] Straße"]);
    assert_eq!(resolve_dir(&n, "école"), Ok(0));
    assert_eq!(resolve_dir(&n, "STRASSE"), Err(ResolveError::Nothing));
    assert_eq!(resolve_dir(&n, "STRAßE"), Ok(1));
    // An id that no folder has is looked for in the titles.
    let n = names(&["[x] the abcdefghijk story"]);
    assert_eq!(resolve_dir(&n, "ABCDEFGHIJK"), Ok(0));
}

#[test]
fn choosing_takes_the_lower_case_forms_given() {
    let n = names(&["One", "Two"]);
    let l = names(&["first", "second"]);
    assert_eq!(choose_dir(&n, &l, "x", "sec"), Ok(1));
    assert_eq!(choose_dir(&n, &l, "x", "s"), Err(ResolveError::Several(vec![0, 1])));
    assert_eq!(choose_dir(&n, &l, "x", "two"), Err(ResolveError::Nothing));
}

#[test]
fn files_of_a_folder() {
    let n = names(&["b.m4a", "a.m4a", "A.m4a", "x.en.srt", "x.zh.srt", "m4a"]);
    assert_eq!(find_file(&n, ".m4a"), Some(2));
    assert_eq!(find_file(&n, ".srt"), Some(3));
    assert_eq!(find_file(&n, ".ass"), None);
    let m = media_files(&n).unwrap();
    assert_eq!((m.audio, m.en_srt, m.zh_srt), (2, 3, 4));
    assert_eq!(media_files(&n[3..]), Err(Missing::Audio));
    assert_eq!(media_files(&n[..3]), Err(Missing::English));
    assert_eq!(media_files(&n[..4]), Err(Missing::Chinese));
    let v = names(&["t.mkv", "t.en.srt", "t.zh.srt"]);
    assert_eq!(media_files(&v).unwrap().audio, 0);
    // The hard-subbed copy comes first in order and is not played.
    let h = names(&["t.mkv", "t.hardsub.mkv", "t.en.srt", "t.zh.srt"]);
    assert_eq!(media_files(&h), Err(Missing::Audio));
}

fn cue(start_ms: u64, end_ms: u64, text: &str) -> Cue {
    Cue { start_ms, end_ms, text: text.into() }
}

#[test]
fn sidecars_give_back_the_bilingual_cues() {
    let en = vec![cue(0, 900, "Hello there"), cue(900, 2500, "two\nlines"), cue(3_600_000, 360_000_123, "last 'one'")];
    let zh = vec!["你好".to_string(), " ".to_string(), "最後\n一個 x".to_string()];
    let bi = zip(&en, &zh);
    let back = load_bilingual(&write_srt(&en), &write_zh_srt(&bi)).unwrap();
    assert_eq!(back, bi);
    assert_eq!(back[1].zh, "");
    assert_eq!(back[2].zh, "最後一個 x");
}

#[test]
fn markup_does_not_survive() {
    let en = vec![cue(0, 900, "a <b> c &amp; d")];
    let back = load_bilingual(&write_srt(&en), "").unwrap();
    assert_eq!(back, vec![BiCue { start_ms: 0, end_ms: 900, en: "a c & d".into(), zh: String::new() }]);
}

#[test]
fn broken_sidecars() {
    let bad = "1\nx --> 00:00:01,000\na\n";
    assert!(matches!(load_bilingual(bad, bad), Err(SidecarError::English(CaptionError::Timestamp(_)))));
    assert!(matches!(load_bilingual("", bad), Err(SidecarError::Chinese(CaptionError::Timestamp(_)))));
}

#[test]
fn words_for_a_shell() {
    let w = names(&["mpv", "--geometry=960x200", "a b", "it's", "", "é", "x/y.z:,_-"]);
    assert_eq!(shell_words(&w), "mpv --geometry=960x200 'a b' 'it'\\''s'  'é' x/y.z:,_-");
}

#[test]
fn playing() {
    let extra = names(&["--volume=70"]);
    let opts = PlayOpts {
        target: "t",
        geometry: (960, 200),
        order: Order::EnZh,
        font_en: "E",
        font_zh: "Z",
        mpv_args: &extra,
        dry_run: false,
    };
    let en = write_srt(&[cue(0, 1000, "hi")]);
    let zh = write_srt(&[cue(0, 1000, "嗨")]);
    let p = run(&opts, &en, &zh, "/d/.player.ass").unwrap();
    let got: Vec<String> = p
        .command
        .iter()
        .map(|w| match w {
            Word::Text(s) => s.clone(),
            Word::Path(i) => format!("<{i}>"),
        })
        .collect();
    assert_eq!(
        got,
        vec![
            "mpv", "--title=diolingo", "--force-window=immediate", "--geometry=960x200", "--ontop", "--border=no",
            "--keep-open=yes", "--vid=no", "--audio-display=no", "--sub-ass-override=no",
            "--sub-file=/d/.player.ass", "--volume=70", "<0>",
        ]
    );
    assert!(p.document.contains("PlayResX: 960\nPlayResY: 200\n"));
    assert!(p.document.ends_with("Dialogue: 0,0:00:00.00,0:00:01.00,EN,,0,0,0,,hi\\N{\\rZH}嗨\n"));
    assert!(run(&opts, "1\nx --> y\nz", "", "a").is_err());
}

#[test]
fn addresses_name_videos() {
    let info = Info {
        kind: None,
        id: "a-b_C123456".into(),
        title: String::new(),
        url: None,
        subtitles: None,
        automatic_captions: None,
        entries: None,
    };
    assert_eq!(info.video_url(), "https://www.youtube.com/watch?v=a-b_C123456");
    assert_eq!(youtube_id(&info.video_url()).as_deref(), Some("a-b_C123456"));
}
