use diolingo::burn::{count_zh, folder_id, run, source, write_bilingual, zh_title, BurnError, BurnOpts, Source};
use diolingo::captions::Cue;
use diolingo::command::Word;
use diolingo::ffmpeg::{audio_codec, burn, extract_audio, mux, SubTrack};
use diolingo::play::SidecarError;
use diolingo::subs::{write_srt, Order};
use diolingo::ytdlp::ZhScript;

fn words(w: &[Word]) -> Vec<String> {
    w.iter()
        .map(|x| match x {
            Word::Text(s) => s.clone(),
            Word::Path(i) => format!("<{i}>"),
        })
        .collect()
}

#[test]
fn muxing() {
    let subs = [
        SubTrack { path: 2, lang: "mul", title: "A b", default: true },
        SubTrack { path: 9, lang: "eng", title: "E", default: false },
    ];
    assert_eq!(
        words(&mux(&subs)).join(" "),
        "ffmpeg -y -hide_banner -loglevel error -i <0> -i <2> -i <9> -map 0:v:0 -map 0:a? -map 1 -map 2 -c copy \
         -metadata:s:s:0 language=mul -metadata:s:s:0 title=A b -disposition:s:0 default \
         -metadata:s:s:1 language=eng -metadata:s:s:1 title=E -disposition:s:1 0 <1>"
    );
    assert_eq!(
        words(&mux(&[])).join(" "),
        "ffmpeg -y -hide_banner -loglevel error -i <0> -map 0:v:0 -map 0:a? -c copy <1>"
    );
}

#[test]
fn audio() {
    assert_eq!(
        words(&audio_codec()).join(" "),
        "ffprobe -v error -select_streams a:0 -show_entries stream=codec_name -of csv=p=0 <0>"
    );
    let start = "ffmpeg -y -hide_banner -loglevel error -i <0> -map 0:a:0 -vn";
    assert_eq!(
        words(&extract_audio(" aac\n").unwrap()).join(" "),
        format!("{start} -c:a copy -movflags +faststart <1>")
    );
    assert_eq!(
        words(&extract_audio("opus").unwrap()).join(" "),
        format!("{start} -c:a aac -b:a 192k -movflags +faststart <1>")
    );
    assert_eq!(extract_audio(" \n"), None);
}

#[test]
fn burning() {
    assert_eq!(
        words(&burn(".burn.ass")).join(" "),
        "ffmpeg -y -hide_banner -loglevel error -stats -i <0> -map 0:v:0 -map 0:a? -vf ass=.burn.ass \
         -c:v libx264 -preset medium -crf 20 -pix_fmt yuv420p -c:a copy <1>"
    );
}

fn opts(soft_only: bool) -> BurnOpts<'static> {
    BurnOpts { order: Order::EnZh, font_en: "E", font_zh: "Z", zh_title: zh_title(ZhScript::ZhHant), soft_only }
}

#[test]
fn plans() {
    let cue = |s: u64, e: u64, t: &str| Cue { start_ms: s, end_ms: e, text: t.into() };
    let en = write_srt(&[cue(0, 10, "a"), cue(10, 20, "b")]);
    let zh = write_srt(&[cue(10, 20, "乙")]);
    let p = run(&opts(false), "T [id].en.srt", &en, &zh).unwrap();
    assert_eq!((p.files.stem.as_str(), p.files.cues, p.files.with_zh), ("T [id]", 2, 1));
    assert_eq!((p.mkv.as_str(), p.temporary.as_str()), ("T [id].mkv", "T [id].mux.tmp.mkv"));
    assert!(p.files.srt.contains("b\n乙\n"));
    assert!(p.files.ass.contains("PlayResX: 1920"));
    let line = words(&p.mux).join(" ");
    assert!(line.contains("-i <0> -i <2> -i <3> -i <4> -i <5> -map"));
    assert!(line.contains("title=English + 中文 (styled) -disposition:s:0 default"));
    assert!(line.contains("language=chi -metadata:s:s:3 title=中文（繁體） -disposition:s:3 0 <1>"));
    let (name, command) = p.hard.unwrap();
    assert_eq!(name, "T [id].hardsub.mkv");
    assert_eq!(command, burn(".burn.ass"));
    assert!(run(&opts(true), "T [id].en.srt", &en, &zh).unwrap().hard.is_none());
    assert!(matches!(run(&opts(true), "T.srt", &en, &zh), Err(BurnError::OddName)));
    assert!(matches!(
        write_bilingual(&opts(true), "T.en.srt", &en, "x --> y\nz"),
        Err(BurnError::Sidecar(SidecarError::Chinese(_)))
    ));
    assert_eq!(count_zh(&[]), 0);
    assert_eq!(zh_title(ZhScript::ZhHans), "中文（简体）");
}

#[test]
fn sources() {
    assert_eq!(source(true, true), Some(Source::Download));
    assert_eq!(source(false, true), Some(Source::Own));
    assert_eq!(source(false, false), None);
    assert_eq!(folder_id("[abc] t]").as_deref(), Some("abc"));
    assert_eq!(folder_id("[]").as_deref(), Some(""));
    assert_eq!(folder_id("[abc"), None);
    assert_eq!(folder_id("x[abc]"), None);
    assert_eq!(folder_id(""), None);
}
