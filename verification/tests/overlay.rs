use diolingo::align::BiCue;
use diolingo::overlay::{
    chinese_size, chunk_at, chunk_cues, current_cue, refresh, start_position, stylesheet, wheel, Drag, Event, Layout,
    OverlayOpts, Position, Shadowing, Shared, Status, Volume,
};
use diolingo::subs::Order;

fn c(s: u64, e: u64, en: &str) -> BiCue {
    BiCue { start_ms: s, end_ms: e, en: en.into(), zh: String::new() }
}

#[test]
fn position_round_trip() {
    let saved = Position { left: Some(120), bottom: 300 }.save();
    assert_eq!(Position::load(&saved), Some(Position { left: Some(120), bottom: 300 }));
    let saved = Position { left: None, bottom: 40 }.save();
    assert_eq!(Position::load(&saved), Some(Position::default()));
}

#[test]
fn positions_as_text() {
    assert_eq!(Position { left: Some(-1), bottom: i32::MIN }.save(), "bottom=-2147483648\nleft=-1\n");
    assert_eq!(Position::load(""), Some(Position::default()));
    assert_eq!(Position::load(" bottom= 5 \r\n\n \t\n left=+7"), Some(Position { left: Some(7), bottom: 5 }));
    assert_eq!(Position::load("left=9\nleft=8"), Some(Position { left: Some(8), bottom: 40 }));
    for garbage in ["hello\n", "left=9\nleft=x", "left=", "bottom = 5", "right=3", "bottom=1\nx", "=", "left 9"] {
        assert_eq!(Position::load(garbage), None, "{garbage:?}");
    }
    assert_eq!(Position::load("bottom=x\nbottom=1"), None);
    assert_eq!(Position::load("bottom=2147483648"), None);
    assert_eq!(Position::load("bottom=-2147483648"), Some(Position { left: None, bottom: i32::MIN }));
}

#[test]
fn starting_positions() {
    let saved = Some(Position { left: Some(1), bottom: 2 });
    assert_eq!(start_position(saved, false, None, None), Position { left: Some(1), bottom: 2 });
    assert_eq!(start_position(saved, true, None, None), Position::default());
    assert_eq!(start_position(None, false, None, None), Position { left: None, bottom: 40 });
    assert_eq!(start_position(saved, false, Some(-3), Some(9)), Position { left: Some(0), bottom: 9 });
    assert_eq!(start_position(saved, false, None, Some(-9)), Position { left: Some(1), bottom: 0 });
}

#[test]
fn chunks_follow_punctuation_gaps_and_length() {
    let cues = vec![
        c(0, 1000, "hello there"),
        c(1000, 2000, "how are you?"),
        c(2000, 3000, "fine"),
        c(4000, 5000, "and you"),
        c(5000, 9000, "a very long one"),
        c(9000, 10000, "continues"),
    ];
    let ch = chunk_cues(&cues, 5000);
    let spans: Vec<(usize, usize)> = ch.iter().map(|k| (k.first, k.last)).collect();
    assert_eq!(spans, vec![(0, 1), (2, 2), (3, 4), (5, 5)]);
    assert_eq!(chunk_at(&ch, 1500), Some(0));
    assert_eq!(chunk_at(&ch, 3500), None);
}

#[test]
fn sentence_ends() {
    for (text, end) in [
        ("a.", true), ("a", false), ("a!\u{3000} ", true), ("\"a?\"", true), ("(a.) ]", false), ("a.)]", true),
        ("他說。』", true), ("好！」", true), ("什麼？”", true), ("a.' b", false), ("", false), ("...", true), (")\"", false),
    ] {
        let n = chunk_cues(&[c(0, 10, text), c(10, 20, "x")], 1000).len();
        assert_eq!(n == 2, end, "{text:?}");
    }
    assert_eq!(chunk_cues(&[], 1000), vec![]);
    assert_eq!(chunk_cues(&[c(0, 10, "a"), c(709, 720, "b")], 1000).len(), 1);
    assert_eq!(chunk_cues(&[c(0, 10, "a"), c(710, 720, "b")], 1000).len(), 2);
    assert_eq!(chunk_cues(&[c(0, 10, "a"), c(10, 20, "b"), c(20, 30, "c")], 0).len(), 3);
    assert_eq!(chunk_cues(&[c(9, 5, "a"), c(3, 4, "b")], 1000).len(), 1);
}

#[test]
fn cue_lookup() {
    let cues = vec![
        BiCue { start_ms: 0, end_ms: 1000, en: "a".into(), zh: String::new() },
        BiCue { start_ms: 1500, end_ms: 2000, en: "b".into(), zh: String::new() },
    ];
    assert_eq!(current_cue(&cues, 0), Some(0));
    assert_eq!(current_cue(&cues, 999), Some(0));
    assert_eq!(current_cue(&cues, 1200), None);
    assert_eq!(current_cue(&cues, 1500), Some(1));
    assert_eq!(current_cue(&cues, 2000), None);
}

#[test]
fn lookups_agree_with_a_scan() {
    let cues: Vec<BiCue> = (0..37u64).map(|i| c(i * 10 + 3, i * 10 + 3 + i % 11, "x")).collect();
    for t in 0..400 {
        let want = cues.iter().position(|k| k.start_ms <= t && t < k.end_ms);
        assert_eq!(current_cue(&cues, t), want, "{t}");
    }
    assert_eq!(current_cue(&[], 5), None);
}

fn vol(key: u64, percent: &str) -> Option<Volume> {
    Some(Volume { key, percent: percent.into() })
}

#[test]
fn reports_from_the_player() {
    let mut s = Shared::new();
    assert!(s.alive && !s.paused && s.time_ms.is_none());
    s.report(Event::Time(Some(5)), 0);
    s.report(Event::Pause(true), 0);
    assert_eq!((s.time_ms, s.paused), (Some(5), true));
    s.report(Event::Volume(vol(1, "50")), 10);
    assert_eq!(s.volume_until, None, "the first volume is not shown");
    s.report(Event::Volume(vol(1, "50")), 20);
    assert_eq!(s.volume_until, None, "the same volume is not shown");
    s.report(Event::Volume(vol(2, "55")), 30);
    assert_eq!(s.volume_until, Some(1_500_000_030));
    s.report(Event::Volume(None), 40);
    assert_eq!((s.volume.clone(), s.volume_until), (None, Some(1_500_000_040)));
    s.report(Event::Volume(vol(2, "55")), 50);
    assert_eq!(s.volume_until, Some(1_500_000_040));
    s.report(Event::Closed, 60);
    assert!(!s.alive);
}

#[test]
fn shadowing_pauses_once_for_each_sentence() {
    let mut cues = vec![c(0, 1000, "a\nb"), c(1000, 2000, "c."), c(2000, 3000, "d.")];
    cues[0].zh = "甲".into();
    cues[1].zh = "乙".into();
    let chunks = chunk_cues(&cues, 5000);
    assert_eq!(chunks.len(), 2);
    let pauses = [100u64, 200];
    let mut st = Shadowing::new();
    let mut p = Shared::new();
    let mut tick = |st: &mut Shadowing, t: u64, paused: bool, now: u64| {
        p.time_ms = Some(t);
        p.paused = paused;
        refresh(st, &p, &cues, &chunks, Some(&pauses), now).unwrap()
    };
    assert_eq!(tick(&mut st, 500, false, 0).frame.en, "a\nb");
    assert_eq!(tick(&mut st, 1969, false, 0).pause, None);
    assert_eq!(tick(&mut st, 1970, false, 10).pause, Some(true));
    // mpv has not confirmed yet.
    let r = tick(&mut st, 1975, false, 20);
    assert_eq!((r.pause, r.frame.status), (None, Status::Repeat(90)));
    let r = tick(&mut st, 1975, true, 50);
    assert_eq!((r.frame.en.as_str(), r.frame.zh.as_str()), ("a b c.", "甲乙"));
    assert_eq!(r.frame.status, Status::Repeat(60));
    let r = tick(&mut st, 1975, true, 110);
    assert_eq!((r.pause, r.frame.status), (Some(false), Status::Paused));
    // Not again, until sought back.
    assert_eq!(tick(&mut st, 1980, false, 120).pause, None);
    assert_eq!(tick(&mut st, 1990, false, 130).pause, None);
    assert_eq!(tick(&mut st, 2500, false, 140).pause, None);
    assert_eq!(tick(&mut st, 3499, false, 150).pause, Some(true));
    assert_eq!(tick(&mut st, 3499, true, 160).frame.status, Status::Repeat(190));
    // The listener goes on early.
    assert_eq!(tick(&mut st, 3499, false, 170).pause, None);
    assert_eq!(st.shadowed, Some(1));
    assert_eq!(tick(&mut st, 1500, false, 180).pause, None);
    assert_eq!(st.shadowed, None);
    assert_eq!(tick(&mut st, 1999, false, 190).pause, Some(true));
}

#[test]
fn frames() {
    let cues = vec![c(0, 1000, "a")];
    let mut st = Shadowing::new();
    let mut p = Shared::new();
    let f = refresh(&mut st, &p, &cues, &[], None, 0).unwrap().frame;
    assert!(!f.is_visible());
    p.time_ms = Some(10);
    let f = refresh(&mut st, &p, &cues, &[], None, 0).unwrap().frame;
    assert!(f.is_visible());
    assert_eq!((f.en.as_str(), f.status), ("a", Status::Nothing));
    p.time_ms = Some(5000);
    p.volume = vol(3, "60");
    p.volume_until = Some(100);
    let f = refresh(&mut st, &p, &cues, &[], None, 99).unwrap().frame;
    assert_eq!((f.en.as_str(), f.status.clone(), f.is_visible()), ("", Status::Volume("60".into()), true));
    assert_eq!(refresh(&mut st, &p, &cues, &[], None, 100).unwrap().frame.status, Status::Nothing);
    p.paused = true;
    assert_eq!(refresh(&mut st, &p, &cues, &[], None, 99).unwrap().frame.status, Status::Paused);
    p.alive = false;
    assert_eq!(refresh(&mut st, &p, &cues, &[], None, 0), None);
}

#[test]
fn placing_the_bar() {
    let mut l = Layout { width: 1600, last: None };
    assert_eq!(l.left_of(Position::default(), 1920), 160);
    assert_eq!(l.left_of(Position { left: Some(500), bottom: 0 }, 1920), 320);
    assert_eq!(l.left_of(Position { left: Some(-5), bottom: 0 }, 1920), 0);
    assert_eq!(l.left_of(Position::default(), 1000), 0);
    let p = l.place(Position::default(), (1920, 1080), 100, true).unwrap();
    assert_eq!((p.x, p.y, p.w, p.h, p.visible), (160, 940, 1600, 100, true));
    assert_eq!(l.place(Position::default(), (1920, 1080), 100, true), None);
    assert!(l.place(Position::default(), (1920, 1080), 100, false).is_some());
    assert_eq!(l.place(Position { left: None, bottom: 2000 }, (1920, 1080), 100, false).unwrap().y, 0);
}

#[test]
fn dragging_the_bar() {
    let l = Layout { width: 1600, last: None };
    let pos = Position::default();
    let mut d = Drag::begin(&l, pos, 1920);
    assert_eq!(d.start, Position { left: Some(160), bottom: 40 });
    assert_eq!(d.update(false, 2, 2, pos, (1920, 1080), (1600, 100)), None);
    assert!(!d.dragged);
    let next = d.update(true, 10, -20, pos, (1920, 1080), (1600, 100)).unwrap();
    assert_eq!(next, Position { left: Some(170), bottom: 60 });
    assert_eq!(d.update(false, 10, -20, next, (1920, 1080), (1600, 100)), None);
    let far = d.update(false, 5000, 5000, next, (1920, 1080), (1600, 100)).unwrap();
    assert_eq!(far, Position { left: Some(320), bottom: 0 });
    let up = d.update(false, i32::MIN, i32::MIN, next, (1920, 1080), (1600, 100)).unwrap();
    assert_eq!(up, Position { left: Some(0), bottom: 980 });
}

#[test]
fn style_sheet() {
    let mut o = OverlayOpts {
        width: 1600,
        font_size: 40,
        font_en: "Noto Sans".into(),
        font_zh: "Noto Sans CJK TC".into(),
        order: Order::EnZh,
        position: Position::default(),
        chunk_ms: None,
    };
    assert_eq!(
        stylesheet(&o),
        "window { background-color: transparent; }\n\
         .bar { background-color: rgba(0, 0, 0, 0.62); border-radius: 14px; padding: 10px 28px; }\n\
         .en { color: #ffffff; font-family: \"Noto Sans\"; font-size: 40px; text-shadow: 0 0 3px #000000; }\n\
         .zh { color: #ffe696; font-family: \"Noto Sans CJK TC\"; font-size: 36px; text-shadow: 0 0 3px #000000; }\n\
         .status { color: #bbbbbb; font-size: 20px; }\n"
    );
    o.font_size = 9;
    assert!(stylesheet(&o).contains(".status { color: #bbbbbb; font-size: 12px; }"));
    for size in (-2000..2000).chain([i32::MIN, i32::MAX, 16_777_217, 123_456_789]) {
        assert_eq!(chinese_size(size), (size as f32 * 0.9).round() as i32, "{size}");
    }
}

#[test]
fn wheel_and_click() {
    assert_eq!(wheel(true), 5);
    assert_eq!(wheel(false), -5);
    let mut d = Drag { start: Position::default(), dragged: false };
    assert!(d.clicks());
    d.dragged = true;
    assert!(!d.clicks());
}
