use diolingo::align::{flatten_zh, join_piece, zip};
use diolingo::captions::Cue;

#[test]
fn zip_pairs_and_flattens() {
    let en = vec![Cue { start_ms: 0, end_ms: 1000, text: "a\nb".into() }];
    let bi = zip(&en, &["甲\n乙 c".to_string()]);
    assert_eq!(bi.len(), 1);
    assert_eq!(bi[0].en, "a\nb");
    assert_eq!(bi[0].zh, "甲乙 c");
}

#[test]
fn spaces_only_between_latin() {
    let mut s = String::from("中文");
    join_piece(&mut s, "English");
    join_piece(&mut s, "word");
    join_piece(&mut s, "漢字");
    assert_eq!(s, "中文English word漢字");
}

#[test]
fn zip_stops_with_the_shorter_list() {
    let en = vec![
        Cue { start_ms: 0, end_ms: 1, text: "a".into() },
        Cue { start_ms: 1, end_ms: 2, text: "b".into() },
    ];
    assert_eq!(zip(&en, &["x".to_string()]).len(), 1);
    assert_eq!(zip(&en[..1], &["x".to_string(), "y".to_string()]).len(), 1);
    let bi = zip(&en, &["x".to_string(), "y".to_string()]);
    assert_eq!((bi[1].start_ms, bi[1].end_ms, bi[1].en.as_str(), bi[1].zh.as_str()), (1, 2, "b", "y"));
}

#[test]
fn flattening() {
    assert_eq!(flatten_zh(" 一 \n\n 二 \nab\ncd\n三"), "一二ab cd三");
    assert_eq!(flatten_zh(" \n\t"), "");
    assert_eq!(flatten_zh("a，\nb"), "a，b");
    let mut s = String::new();
    join_piece(&mut s, "");
    join_piece(&mut s, "x");
    assert_eq!(s, "x");
}

#[test]
fn flattening_twice() {
    for s in [" 一 \n\n 二 \nab\ncd\n三", "a  b\n \nc", "", "\u{3000}x\n", "甲\r\n乙"] {
        let f = flatten_zh(s);
        assert!(!f.contains('\n'));
        assert_eq!(flatten_zh(&f), f);
        let visible = |t: &str| t.chars().filter(|c| !c.is_whitespace()).collect::<String>();
        assert_eq!(visible(&f), visible(s));
    }
}
