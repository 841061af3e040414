//! ffmpeg command lines: soft-mux subtitle tracks into MKV, extract the audio, or burn the ASS in.

use crate::command::{add_path, add_text, text_words, word_views, Word, WordView};
use crate::number::{decimal, push_decimal};
use crate::text::{chars_of, push_str, same, string_of, trim, trimmed};
use vstd::prelude::*;

verus! {

/// The number of the video's path in a command line.
pub const VIDEO: usize = 0;

/// The number of the output's path.
pub const OUT: usize = 1;

/// A subtitle file that becomes a track.
#[derive(Debug, Clone, Copy)]
pub struct SubTrack<'a> {
    /// The number of its path.
    pub path: usize,
    pub lang: &'a str,
    pub title: &'a str,
    pub default: bool,
}

/// The words that name the subtitle files.
pub open spec fn inputs(subs: Seq<SubTrack>) -> Seq<WordView>
    decreases subs.len(),
{
    if subs.len() == 0 {
        Seq::empty()
    } else {
        inputs(subs.drop_last()) + seq![WordView::Text("-i"@), WordView::Path(subs.last().path)]
    }
}

/// The words that take up the first `n` subtitle files.
pub open spec fn maps(n: nat) -> Seq<WordView>
    decreases n,
{
    if n == 0 {
        Seq::empty()
    } else {
        maps((n - 1) as nat) + text_words(seq!["-map"@, decimal(n)])
    }
}

/// The words that describe a track.
pub open spec fn track_words(i: nat, s: SubTrack) -> Seq<WordView> {
    text_words(
        seq![
            "-metadata:s:s:"@ + decimal(i),
            "language="@ + s.lang@,
            "-metadata:s:s:"@ + decimal(i),
            "title="@ + s.title@,
            "-disposition:s:"@ + decimal(i),
            if s.default {
                "default"@
            } else {
                "0"@
            },
        ],
    )
}

/// The words that describe the tracks.
pub open spec fn tags(subs: Seq<SubTrack>) -> Seq<WordView>
    decreases subs.len(),
{
    if subs.len() == 0 {
        Seq::empty()
    } else {
        tags(subs.drop_last()) + track_words((subs.len() - 1) as nat, subs.last())
    }
}

/// The words in front of every input.
pub open spec fn opening() -> Seq<WordView> {
    text_words(seq!["ffmpeg"@, "-y"@, "-hide_banner"@, "-loglevel"@, "error"@])
}

/// The command that attaches subtitle files.
pub open spec fn mux_line(subs: Seq<SubTrack>) -> Seq<WordView> {
    opening() + seq![WordView::Text("-i"@), WordView::Path(VIDEO)] + inputs(subs) + text_words(
        seq!["-map"@, "0:v:0"@, "-map"@, "0:a?"@],
    ) + maps(subs.len()) + text_words(seq!["-c"@, "copy"@]) + tags(subs) + seq![WordView::Path(OUT)]
}

/// Appends the opening.
fn add_opening(words: &mut Vec<Word>)
    ensures
        word_views(final(words)@) == word_views(old(words)@) + opening(),
{
    let ghost start = word_views(words@);
    add_text(words, "ffmpeg");
    add_text(words, "-y");
    add_text(words, "-hide_banner");
    add_text(words, "-loglevel");
    add_text(words, "error");
    assert(word_views(words@) =~= start + opening());
}

/// Appends the words that name the subtitle files.
fn add_inputs(words: &mut Vec<Word>, subs: &[SubTrack])
    ensures
        word_views(final(words)@) == word_views(old(words)@) + inputs(subs@),
{
    let ghost start = word_views(words@);
    assert(start + inputs(subs@.take(0)) =~= start);
    for i in 0..subs.len()
        invariant
            word_views(words@) == start + inputs(subs@.take(i as int)),
    {
        let ghost so_far = word_views(words@);
        assert(subs@.take(i + 1).drop_last() =~= subs@.take(i as int));
        add_text(words, "-i");
        add_path(words, subs[i].path);
        assert(word_views(words@) =~= start + inputs(subs@.take(i + 1)));
    }
    assert(subs@.take(subs@.len() as int) =~= subs@);
}

/// Appends a number as a word, behind a text.
fn add_numbered(words: &mut Vec<Word>, s: &str, n: u64)
    ensures
        word_views(final(words)@) == word_views(old(words)@).push(
            WordView::Text(s@ + decimal(n as nat)),
        ),
{
    let mut text = chars_of(s);
    push_decimal(&mut text, n);
    add_text(words, string_of(text.as_slice()).as_str());
}

/// Appends two texts as one word.
fn add_pair(words: &mut Vec<Word>, s: &str, t: &str)
    ensures
        word_views(final(words)@) == word_views(old(words)@).push(WordView::Text(s@ + t@)),
{
    let mut text = chars_of(s);
    push_str(&mut text, t);
    add_text(words, string_of(text.as_slice()).as_str());
}

/// Appends the words that take up the subtitle files.
fn add_maps(words: &mut Vec<Word>, n: usize)
    requires
        n < usize::MAX,
    ensures
        word_views(final(words)@) == word_views(old(words)@) + maps(n as nat),
{
    let ghost start = word_views(words@);
    assert(start + maps(0) =~= start);
    for i in 0..n
        invariant
            n < usize::MAX,
            word_views(words@) == start + maps(i as nat),
    {
        add_text(words, "-map");
        let mut text: Vec<char> = Vec::new();
        push_decimal(&mut text, (i + 1) as u64);
        assert(text@ =~= decimal((i + 1) as nat));
        add_text(words, string_of(text.as_slice()).as_str());
        assert(word_views(words@) =~= start + maps((i + 1) as nat));
    }
}

/// Appends the words that describe a track.
fn add_track(words: &mut Vec<Word>, i: usize, s: &SubTrack)
    ensures
        word_views(final(words)@) == word_views(old(words)@) + track_words(i as nat, *s),
{
    let ghost start = word_views(words@);
    add_numbered(words, "-metadata:s:s:", i as u64);
    add_pair(words, "language=", s.lang);
    add_numbered(words, "-metadata:s:s:", i as u64);
    add_pair(words, "title=", s.title);
    add_numbered(words, "-disposition:s:", i as u64);
    add_text(
        words,
        if s.default {
            "default"
        } else {
            "0"
        },
    );
    assert(word_views(words@) =~= start + track_words(i as nat, *s));
}

/// Appends the words that describe the tracks.
fn add_tags(words: &mut Vec<Word>, subs: &[SubTrack])
    ensures
        word_views(final(words)@) == word_views(old(words)@) + tags(subs@),
{
    let ghost start = word_views(words@);
    assert(start + tags(subs@.take(0)) =~= start);
    for i in 0..subs.len()
        invariant
            word_views(words@) == start + tags(subs@.take(i as int)),
    {
        assert(subs@.take(i + 1).drop_last() =~= subs@.take(i as int));
        add_track(words, i, &subs[i]);
        assert(start + tags(subs@.take(i as int)) + track_words(i as nat, subs@[i as int]) =~= start + (tags(
            subs@.take(i as int),
        ) + track_words(i as nat, subs@[i as int])));
    }
    assert(subs@.take(subs@.len() as int) =~= subs@);
}

/// The command that copies video and audio streams and attaches every subtitle file as its own
/// track.
pub fn mux(subs: &[SubTrack]) -> (r: Vec<Word>)
    requires
        subs@.len() < usize::MAX,
    ensures
        word_views(r@) == mux_line(subs@),
{
    let mut words: Vec<Word> = Vec::new();
    add_opening(&mut words);
    assert(word_views(words@) =~= opening());
    add_text(&mut words, "-i");
    add_path(&mut words, VIDEO);
    assert(word_views(words@) =~= opening() + seq![WordView::Text("-i"@), WordView::Path(VIDEO)]);
    add_inputs(&mut words, subs);
    let ghost a = word_views(words@);
    add_text(&mut words, "-map");
    add_text(&mut words, "0:v:0");
    add_text(&mut words, "-map");
    add_text(&mut words, "0:a?");
    assert(word_views(words@) =~= a + text_words(seq!["-map"@, "0:v:0"@, "-map"@, "0:a?"@]));
    add_maps(&mut words, subs.len());
    let ghost b = word_views(words@);
    add_text(&mut words, "-c");
    add_text(&mut words, "copy");
    assert(word_views(words@) =~= b + text_words(seq!["-c"@, "copy"@]));
    add_tags(&mut words, subs);
    let ghost c = word_views(words@);
    add_path(&mut words, OUT);
    assert(word_views(words@) =~= c + seq![WordView::Path(OUT)]);
    words
}

/// The command that names the codec of the first audio stream.
pub open spec fn codec_line() -> Seq<WordView> {
    text_words(
        seq![
            "ffprobe"@,
            "-v"@,
            "error"@,
            "-select_streams"@,
            "a:0"@,
            "-show_entries"@,
            "stream=codec_name"@,
            "-of"@,
            "csv=p=0"@,
        ],
    ) + seq![WordView::Path(VIDEO)]
}

/// The command that names the codec of the first audio stream.
pub fn audio_codec() -> (r: Vec<Word>)
    ensures
        word_views(r@) == codec_line(),
{
    let mut words: Vec<Word> = Vec::new();
    add_text(&mut words, "ffprobe");
    add_text(&mut words, "-v");
    add_text(&mut words, "error");
    add_text(&mut words, "-select_streams");
    add_text(&mut words, "a:0");
    add_text(&mut words, "-show_entries");
    add_text(&mut words, "stream=codec_name");
    add_text(&mut words, "-of");
    add_text(&mut words, "csv=p=0");
    add_path(&mut words, VIDEO);
    assert(word_views(words@) =~= codec_line());
    words
}

/// The command that writes the first audio stream of a video whose audio has this codec.
pub open spec fn audio_line(codec: Seq<char>) -> Seq<WordView> {
    opening() + seq![WordView::Text("-i"@), WordView::Path(VIDEO)] + text_words(
        seq!["-map"@, "0:a:0"@, "-vn"@],
    ) + text_words(
        if codec == "aac"@ {
            seq!["-c:a"@, "copy"@]
        } else {
            seq!["-c:a"@, "aac"@, "-b:a"@, "192k"@]
        },
    ) + text_words(seq!["-movflags"@, "+faststart"@]) + seq![WordView::Path(OUT)]
}

/// The command that writes the first audio stream to an `.m4a`: stream-copied when it is already
/// AAC (YouTube's usual m4a track), otherwise transcoded to AAC. `probe` is what `audio_codec`'s
/// command printed; `None` where that names no stream.
pub fn extract_audio(probe: &str) -> (r: Option<Vec<Word>>)
    ensures
        r is Some <==> trimmed(probe@).len() > 0,
        r matches Some(words) ==> word_views(words@) == audio_line(trimmed(probe@)),
{
    let text = chars_of(probe);
    let codec = trim(text.as_slice());
    if codec.len() == 0 {
        return None;
    }
    let mut words: Vec<Word> = Vec::new();
    add_opening(&mut words);
    assert(word_views(words@) =~= opening());
    add_text(&mut words, "-i");
    add_path(&mut words, VIDEO);
    add_text(&mut words, "-map");
    add_text(&mut words, "0:a:0");
    add_text(&mut words, "-vn");
    assert(word_views(words@) =~= opening() + seq![WordView::Text("-i"@), WordView::Path(VIDEO)]
        + text_words(seq!["-map"@, "0:a:0"@, "-vn"@]));
    let ghost a = word_views(words@);
    if same(codec, chars_of("aac").as_slice()) {
        add_text(&mut words, "-c:a");
        add_text(&mut words, "copy");
        assert(word_views(words@) =~= a + text_words(seq!["-c:a"@, "copy"@]));
    } else {
        add_text(&mut words, "-c:a");
        add_text(&mut words, "aac");
        add_text(&mut words, "-b:a");
        add_text(&mut words, "192k");
        assert(word_views(words@) =~= a + text_words(seq!["-c:a"@, "aac"@, "-b:a"@, "192k"@]));
    }
    let ghost b = word_views(words@);
    add_text(&mut words, "-movflags");
    add_text(&mut words, "+faststart");
    add_path(&mut words, OUT);
    assert(word_views(words@) =~= b + text_words(seq!["-movflags"@, "+faststart"@]) + seq![
        WordView::Path(OUT),
    ]);
    Some(words)
}

/// The command that renders an ASS file into the picture.
pub open spec fn burn_line(ass_name: Seq<char>) -> Seq<WordView> {
    opening() + text_words(seq!["-stats"@, "-i"@]) + seq![WordView::Path(VIDEO)] + text_words(
        seq!["-map"@, "0:v:0"@, "-map"@, "0:a?"@, "-vf"@, "ass="@ + ass_name],
    ) + text_words(
        seq![
            "-c:v"@,
            "libx264"@,
            "-preset"@,
            "medium"@,
            "-crf"@,
            "20"@,
            "-pix_fmt"@,
            "yuv420p"@,
            "-c:a"@,
            "copy"@,
        ],
    ) + seq![WordView::Path(OUT)]
}

/// The command that re-encodes the video with the ASS file rendered into the picture.
/// `ass_name` must be a plain file name inside the directory that it runs in (no path escaping
/// needed).
pub fn burn(ass_name: &str) -> (r: Vec<Word>)
    ensures
        word_views(r@) == burn_line(ass_name@),
{
    let mut words: Vec<Word> = Vec::new();
    add_opening(&mut words);
    assert(word_views(words@) =~= opening());
    add_text(&mut words, "-stats");
    add_text(&mut words, "-i");
    add_path(&mut words, VIDEO);
    assert(word_views(words@) =~= opening() + text_words(seq!["-stats"@, "-i"@]) + seq![
        WordView::Path(VIDEO),
    ]);
    let ghost a = word_views(words@);
    add_text(&mut words, "-map");
    add_text(&mut words, "0:v:0");
    add_text(&mut words, "-map");
    add_text(&mut words, "0:a?");
    add_text(&mut words, "-vf");
    add_pair(&mut words, "ass=", ass_name);
    assert(word_views(words@) =~= a + text_words(
        seq!["-map"@, "0:v:0"@, "-map"@, "0:a?"@, "-vf"@, "ass="@ + ass_name@],
    ));
    let ghost b = word_views(words@);
    add_text(&mut words, "-c:v");
    add_text(&mut words, "libx264");
    add_text(&mut words, "-preset");
    add_text(&mut words, "medium");
    add_text(&mut words, "-crf");
    add_text(&mut words, "20");
    add_text(&mut words, "-pix_fmt");
    add_text(&mut words, "yuv420p");
    add_text(&mut words, "-c:a");
    add_text(&mut words, "copy");
    assert(word_views(words@) =~= b + text_words(
        seq![
            "-c:v"@,
            "libx264"@,
            "-preset"@,
            "medium"@,
            "-crf"@,
            "20"@,
            "-pix_fmt"@,
            "yuv420p"@,
            "-c:a"@,
            "copy"@,
        ],
    ));
    add_path(&mut words, OUT);
    assert(word_views(words@) =~= burn_line(ass_name@));
    words
}

} // verus!
