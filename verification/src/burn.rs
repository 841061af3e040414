//! From a folder's `.en.srt` and `.zh.srt`: the bilingual `.srt` and `.ass`, the commands that mux
//! the subtitle tracks into the MKV and that render the hard-subbed copy.

use crate::align::{bicue_views, BiCue, BiCueView};
use crate::command::{word_views, Word};
use crate::ffmpeg::{self, burn_line, mux_line, SubTrack};
use crate::play::{bilingual, load_bilingual, SidecarError};
use crate::subs::{ass_document, both_cues, srt_document, video_style, write_ass, write_bilingual_srt, AssStyle, Order};
use crate::text::{chars_of, ends, ends_with, find, position, push_str, string_of};
use crate::ytdlp::ZhScript;
use vstd::prelude::*;
use vstd::slice::slice_subrange;

verus! {

/// How bilingual subtitles are made.
#[derive(Debug, Clone, Copy)]
pub struct BurnOpts<'a> {
    pub order: Order,
    pub font_en: &'a str,
    pub font_zh: &'a str,
    /// Track title for the Chinese subtitle stream.
    pub zh_title: &'a str,
    /// Only the sidecars and the soft subtitle tracks; skip the re-encode.
    pub soft_only: bool,
}

/// The track title for a Chinese script.
pub fn zh_title(zh: ZhScript) -> (r: &'static str)
    ensures
        r@ == match zh {
            ZhScript::ZhHant => "中文（繁體）"@,
            ZhScript::ZhHans => "中文（简体）"@,
        },
{
    match zh {
        ZhScript::ZhHant => "中文（繁體）",
        ZhScript::ZhHans => "中文（简体）",
    }
}

/// What the names of a video's files begin with, from the name of its English sidecar.
pub open spec fn stem_of(en_name: Seq<char>) -> Option<Seq<char>> {
    if ends(en_name, ".en.srt"@) {
        Some(en_name.take(en_name.len() - ".en.srt"@.len()))
    } else {
        None
    }
}

/// What the names of a video's files begin with.
fn stem(en_name: &str) -> (r: Option<String>)
    ensures
        match stem_of(en_name@) {
            Some(s) => r is Some && r->0@ == s,
            None => r is None,
        },
{
    let name = chars_of(en_name);
    let ending = chars_of(".en.srt");
    if ends_with(name.as_slice(), ending.as_slice()) {
        let front = slice_subrange(name.as_slice(), 0, name.len() - ending.len());
        assert(front@ =~= name@.take(name@.len() - ending@.len()));
        Some(string_of(front))
    } else {
        None
    }
}

/// The id in brackets at the front of a folder's name.
pub open spec fn bracketed(name: Seq<char>) -> Option<Seq<char>> {
    if name.len() > 0 && name[0] == '[' {
        match find(name, seq![']']) {
            Some(i) => Some(name.subrange(1, i)),
            None => None,
        }
    } else {
        None
    }
}

/// The id in brackets at the front of a folder's name.
pub fn folder_id(name: &str) -> (r: Option<String>)
    ensures
        match bracketed(name@) {
            Some(id) => r is Some && r->0@ == id,
            None => r is None,
        },
{
    let close: Vec<char> = vec![']'];
    assert(close@ =~= seq![']']);
    let s = chars_of(name);
    if s.len() == 0 || s[0] != '[' {
        return None;
    }
    proof {
        crate::text::lemma_find(s@, seq![']']);
    }
    match position(s.as_slice(), close.as_slice()) {
        Some(i) => {
            assert(i >= 1) by {
                if i == 0 {
                    assert(s@.subrange(0, 1)[0] == s@[0]);
                }
            }
            Some(string_of(slice_subrange(s.as_slice(), 1, i)))
        },
        None => None,
    }
}

/// Law: the folder that a video gets names its id.
pub proof fn law_folder_names_id(id: Seq<char>, rest: Seq<char>)
    requires
        crate::text_lemmas::lacks(id, ']'),
    ensures
        bracketed(seq!['['] + id + seq![']'] + rest) == Some(id),
{
    let front = seq!['['] + id;
    crate::text_lemmas::lemma_lacks_add(seq!['['], id, ']');
    crate::text_lemmas::lemma_split_first(front, ']', rest);
    let name = front + seq![']'] + rest;
    assert(name[0] == '[');
    assert(name.subrange(1, front.len() as int) =~= id);
}

/// How many cues have Chinese.
pub open spec fn zh_count(s: Seq<BiCueView>) -> nat
    decreases s.len(),
{
    if s.len() == 0 {
        0
    } else {
        zh_count(s.drop_last()) + if s.last().zh.len() > 0 {
            1nat
        } else {
            0nat
        }
    }
}

/// How many cues have Chinese.
pub fn count_zh(cues: &[BiCue]) -> (r: usize)
    ensures
        r == zh_count(bicue_views(cues@)),
{
    let ghost s = bicue_views(cues@);
    let mut n: usize = 0;
    for i in 0..cues.len()
        invariant
            s == bicue_views(cues@),
            n == zh_count(s.take(i as int)),
            n <= i,
    {
        assert(s.take(i + 1).drop_last() =~= s.take(i as int));
        if !cues[i].zh.as_str().is_empty() {
            n = n + 1;
        }
    }
    assert(s.take(s.len() as int) =~= s);
    n
}

/// The bilingual files of a folder.
#[derive(Debug)]
pub struct BilingualFiles {
    pub stem: String,
    pub srt: String,
    pub ass: String,
    pub cues: usize,
    pub with_zh: usize,
}

/// Why bilingual files cannot be made.
#[derive(Debug)]
pub enum BurnError {
    /// The English sidecar has another name than a sidecar has.
    OddName,
    Sidecar(SidecarError),
}

/// Whether files hold these cues.
pub open spec fn holds(f: BilingualFiles, cues: Seq<BiCueView>, opts: BurnOpts) -> bool {
    &&& f.srt@ == srt_document(both_cues(cues, opts.order))
    &&& f.ass@ == ass_document(cues, opts.order, video_style(opts.font_en, opts.font_zh))
    &&& f.cues == cues.len()
    &&& f.with_zh == zh_count(cues)
}

/// The bilingual `.srt` and `.ass` of the sidecars' texts.
pub fn write_bilingual(opts: &BurnOpts, en_name: &str, en_srt: &str, zh_srt: &str) -> (r: Result<BilingualFiles, BurnError>)
    ensures
        match (stem_of(en_name@), bilingual(en_srt@, zh_srt@)) {
            (None, _) => r matches Err(BurnError::OddName),
            (Some(_), Err(e)) => r matches Err(BurnError::Sidecar(x)) && x@ == e,
            (Some(stem), Ok(cues)) => r matches Ok(f) && f.stem@ == stem && holds(f, cues, *opts),
        },
{
    let stem = match stem(en_name) {
        Some(s) => s,
        None => {
            return Err(BurnError::OddName);
        },
    };
    let bi = match load_bilingual(en_srt, zh_srt) {
        Ok(v) => v,
        Err(e) => {
            return Err(BurnError::Sidecar(e));
        },
    };
    let style = AssStyle::video(opts.font_en, opts.font_zh);
    assert(bicue_views(bi@).len() == bi@.len());
    Ok(
        BilingualFiles {
            stem,
            srt: write_bilingual_srt(bi.as_slice(), opts.order),
            ass: write_ass(bi.as_slice(), opts.order, &style),
            cues: bi.len(),
            with_zh: count_zh(bi.as_slice()),
        },
    )
}

/// The number of the styled bilingual file's path in the mux command.
pub const STYLED: usize = 2;

/// The number of the plain bilingual file's path.
pub const PLAIN: usize = 3;

/// The number of the English file's path.
pub const ENGLISH: usize = 4;

/// The number of the Chinese file's path.
pub const CHINESE: usize = 5;

/// The tracks of the MKV: styled bilingual (shown by default), plain bilingual, English, Chinese.
pub open spec fn track_list(zh_title: &str) -> Seq<SubTrack<'_>> {
    seq![
        SubTrack { path: STYLED, lang: "mul", title: "English + 中文 (styled)", default: true },
        SubTrack { path: PLAIN, lang: "mul", title: "English + 中文", default: false },
        SubTrack { path: ENGLISH, lang: "eng", title: "English", default: false },
        SubTrack { path: CHINESE, lang: "chi", title: zh_title, default: false },
    ]
}

/// The name of the copy of the styled subtitles that is burned in.
pub const BURN_ASS: &'static str = ".burn.ass";

/// What to do with a folder's video: the name of the MKV and of the file it is built as, the
/// command that builds it, and the hard-subbed copy's name and command where one is made.
#[derive(Debug)]
pub struct BurnPlan {
    pub files: BilingualFiles,
    pub mkv: String,
    pub temporary: String,
    pub mux: Vec<Word>,
    pub hard: Option<(String, Vec<Word>)>,
}

/// A name with an ending.
fn named(stem: &str, ending: &str) -> (r: String)
    ensures
        r@ == stem@ + ending@,
{
    let mut s = chars_of(stem);
    push_str(&mut s, ending);
    string_of(s.as_slice())
}

/// The command that builds the MKV.
fn mux_tracks(zh_title: &str) -> (r: Vec<Word>)
    ensures
        word_views(r@) == mux_line(track_list(zh_title)),
{
    let mut tracks: Vec<SubTrack> = Vec::new();
    tracks.push(
        SubTrack { path: STYLED, lang: "mul", title: "English + 中文 (styled)", default: true },
    );
    tracks.push(SubTrack { path: PLAIN, lang: "mul", title: "English + 中文", default: false });
    tracks.push(SubTrack { path: ENGLISH, lang: "eng", title: "English", default: false });
    tracks.push(SubTrack { path: CHINESE, lang: "chi", title: zh_title, default: false });
    assert(tracks@ =~= track_list(zh_title));
    ffmpeg::mux(tracks.as_slice())
}

/// Whether a plan is that of a folder with these file names.
pub open spec fn plans(p: BurnPlan, stem: Seq<char>, opts: BurnOpts) -> bool {
    &&& p.files.stem@ == stem
    &&& p.mkv@ == stem + ".mkv"@
    &&& p.temporary@ == stem + ".mux.tmp.mkv"@
    &&& word_views(p.mux@) == mux_line(track_list(opts.zh_title))
    &&& p.hard is Some <==> !opts.soft_only
    &&& p.hard matches Some((name, words)) ==> name@ == stem + ".hardsub.mkv"@ && word_views(words@)
        == burn_line(BURN_ASS@)
}

/// From a folder's sidecars: the bilingual files, and how the video gets them.
pub fn run(opts: &BurnOpts, en_name: &str, en_srt: &str, zh_srt: &str) -> (r: Result<BurnPlan, BurnError>)
    ensures
        match (stem_of(en_name@), bilingual(en_srt@, zh_srt@)) {
            (None, _) => r matches Err(BurnError::OddName),
            (Some(_), Err(e)) => r matches Err(BurnError::Sidecar(x)) && x@ == e,
            (Some(stem), Ok(cues)) => r matches Ok(p) && plans(p, stem, *opts) && holds(
                p.files,
                cues,
                *opts,
            ),
        },
{
    let files = match write_bilingual(opts, en_name, en_srt, zh_srt) {
        Ok(f) => f,
        Err(e) => {
            return Err(e);
        },
    };
    let mkv = named(files.stem.as_str(), ".mkv");
    let temporary = named(files.stem.as_str(), ".mux.tmp.mkv");
    let mux = mux_tracks(opts.zh_title);
    let hard = if opts.soft_only {
        None
    } else {
        Some((named(files.stem.as_str(), ".hardsub.mkv"), ffmpeg::burn(BURN_ASS)))
    };
    Ok(BurnPlan { files, mkv, temporary, mux, hard })
}

/// Where the picture and the sound come from.
#[derive(Debug, Clone, Copy, PartialEq, Eq)]
pub enum Source {
    /// The untouched download in the work directory.
    Download,
    /// The folder's own MKV (its old subtitle tracks are dropped because only video and audio
    /// are mapped).
    Own,
}

/// Picks the source video: the download, else the folder's own MKV, else none.
pub fn source(download: bool, own: bool) -> (r: Option<Source>)
    ensures
        r == if download {
            Some(Source::Download)
        } else if own {
            Some(Source::Own)
        } else {
            None
        },
{
    if download {
        Some(Source::Download)
    } else if own {
        Some(Source::Own)
    } else {
        None
    }
}

} // verus!
