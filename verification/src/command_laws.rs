//! What command lines tell the programs that they run: which file each option takes, and how often.

use crate::align::BiCueView;
use crate::burn::{bracketed, holds, plans, stem_of, track_list, zh_count, BilingualFiles, BurnOpts, BurnPlan, CHINESE, ENGLISH, PLAIN, STYLED};
use crate::command::{text_words, word_views, WordView};
use crate::ffmpeg::{audio_line, burn_line, codec_line, inputs, maps, mux_line, opening, tags, track_words, SubTrack, OUT, VIDEO};
use crate::number::{decimal, is_digit, lemma_decimal};
use crate::subs::{ass_document, both_cues, srt_document, video_style};
use crate::text::stands_at;
use crate::text_lemmas::lacks;
use vstd::prelude::*;

verus! {

/// Whether an option with a value stands at a place of a command line.
pub open spec fn option_at(w: Seq<WordView>, p: int, name: Seq<char>, value: WordView) -> bool {
    0 <= p && p + 1 < w.len() && w[p] == WordView::Text(name) && w[p + 1] == value
}

// ---- Muxing --------------------------------------------------------------------------------

/// The words that name the subtitle files, one by one.
proof fn lemma_inputs(subs: Seq<SubTrack>)
    ensures
        inputs(subs).len() == 2 * subs.len(),
        forall|j: int|
            #![trigger inputs(subs)[2 * j]]
            0 <= j < subs.len() ==> inputs(subs)[2 * j] == WordView::Text("-i"@),
        forall|j: int|
            #![trigger inputs(subs)[2 * j + 1]]
            0 <= j < subs.len() ==> inputs(subs)[2 * j + 1] == WordView::Path(subs[j].path),
    decreases subs.len(),
{
    if subs.len() > 0 {
        let front = subs.drop_last();
        lemma_inputs(front);
        assert forall|j: int|
            #![trigger inputs(subs)[2 * j]]
            0 <= j < subs.len() implies inputs(subs)[2 * j] == WordView::Text("-i"@) by {
            if j < front.len() {
                assert(inputs(subs)[2 * j] == inputs(front)[2 * j]);
            }
        }
        assert forall|j: int|
            #![trigger inputs(subs)[2 * j + 1]]
            0 <= j < subs.len() implies inputs(subs)[2 * j + 1] == WordView::Path(subs[j].path) by {
            if j < front.len() {
                assert(inputs(subs)[2 * j + 1] == inputs(front)[2 * j + 1]);
                assert(front[j] == subs[j]);
            }
        }
    }
}

/// The words that take up the subtitle files, one by one.
proof fn lemma_maps(n: nat)
    ensures
        maps(n).len() == 2 * n,
        forall|j: int|
            #![trigger maps(n)[2 * j]]
            0 <= j < n ==> maps(n)[2 * j] == WordView::Text("-map"@),
        forall|j: int|
            #![trigger maps(n)[2 * j + 1]]
            0 <= j < n ==> maps(n)[2 * j + 1] == WordView::Text(decimal((j + 1) as nat)),
    decreases n,
{
    if n > 0 {
        let m = (n - 1) as nat;
        lemma_maps(m);
        assert forall|j: int|
            #![trigger maps(n)[2 * j]]
            0 <= j < n implies maps(n)[2 * j] == WordView::Text("-map"@) by {
            if j < m {
                assert(maps(n)[2 * j] == maps(m)[2 * j]);
            }
        }
        assert forall|j: int|
            #![trigger maps(n)[2 * j + 1]]
            0 <= j < n implies maps(n)[2 * j + 1] == WordView::Text(decimal((j + 1) as nat)) by {
            if j < m {
                assert(maps(n)[2 * j + 1] == maps(m)[2 * j + 1]);
            }
        }
    }
}

/// The words that describe the tracks, one by one.
proof fn lemma_tags(subs: Seq<SubTrack>)
    ensures
        tags(subs).len() == 6 * subs.len(),
        forall|j: int, k: int|
            #![trigger tags(subs)[6 * j + k]]
            0 <= j < subs.len() && 0 <= k < 6 ==> tags(subs)[6 * j + k] == track_words(
                j as nat,
                subs[j],
            )[k],
    decreases subs.len(),
{
    if subs.len() > 0 {
        let front = subs.drop_last();
        lemma_tags(front);
        assert forall|j: int, k: int|
            #![trigger tags(subs)[6 * j + k]]
            0 <= j < subs.len() && 0 <= k < 6 implies tags(subs)[6 * j + k] == track_words(
            j as nat,
            subs[j],
        )[k] by {
            if j < front.len() {
                assert(tags(subs)[6 * j + k] == tags(front)[6 * j + k]);
                assert(front[j] == subs[j]);
            }
        }
    }
}

/// The words that describe a track are no `-map` and no `-i`.
proof fn lemma_track_words(i: nat, s: SubTrack)
    ensures
        track_words(i, s).len() == 6,
        forall|k: int|
            0 <= k < 6 ==> #[trigger] track_words(i, s)[k] != WordView::Text("-map"@) && track_words(
                i,
                s,
            )[k] != WordView::Text("-i"@) && track_words(i, s)[k] is Text,
{
    reveal_strlit("-map");
    reveal_strlit("-i");
    reveal_strlit("-metadata:s:s:");
    reveal_strlit("-disposition:s:");
    reveal_strlit("language=");
    reveal_strlit("title=");
    reveal_strlit("default");
    reveal_strlit("0");
    let a = "-metadata:s:s:"@ + decimal(i);
    let b = "-disposition:s:"@ + decimal(i);
    let c = "language="@ + s.lang@;
    let d = "title="@ + s.title@;
    assert(a[1] == 'm' && a[2] == 'e' && b[1] == 'd' && c[0] == 'l' && d[0] == 't');
    assert("-map"@[2] == 'a' && "-i"@[1] == 'i' && "-map"@[0] == '-' && "-i"@[0] == '-');
    assert("default"@[0] == 'd' && "0"@[0] == '0');
    assert forall|k: int| 0 <= k < 6 implies #[trigger] track_words(i, s)[k] != WordView::Text("-map"@)
        && track_words(i, s)[k] != WordView::Text("-i"@) && track_words(i, s)[k] is Text by {
        let t = track_words(i, s)[k]->Text_0;
        assert(k == 0 || k == 1 || k == 2 || k == 3 || k == 4 || k == 5);
        assert(t == a || t == b || t == c || t == d || t == "default"@ || t == "0"@);
    }
}

/// A decimal number is no option and no stream.
proof fn lemma_decimal_word(n: nat)
    ensures
        decimal(n) != "-map"@,
        decimal(n) != "-i"@,
        decimal(n) != "0:v:0"@,
        decimal(n) != "0:a?"@,
{
    lemma_decimal(n);
    reveal_strlit("-map");
    reveal_strlit("-i");
    reveal_strlit("0:v:0");
    reveal_strlit("0:a?");
    assert(is_digit(decimal(n)[0]));
    if decimal(n) == "0:v:0"@ {
        assert(is_digit(decimal(n)[1]));
    }
    if decimal(n) == "0:a?"@ {
        assert(is_digit(decimal(n)[1]));
    }
}

/// How a mux command falls into parts.
spec fn framed(w: Seq<WordView>, subs: Seq<SubTrack>) -> bool {
    let n = subs.len() as int;
    &&& w.len() == 10 * n + 14
    &&& w.take(7) == opening() + seq![WordView::Text("-i"@), WordView::Path(VIDEO)]
    &&& w.subrange(7, 2 * n + 7) == inputs(subs)
    &&& w.subrange(2 * n + 7, 2 * n + 11) == text_words(seq!["-map"@, "0:v:0"@, "-map"@, "0:a?"@])
    &&& w.subrange(2 * n + 11, 4 * n + 11) == maps(subs.len())
    &&& w.subrange(4 * n + 11, 4 * n + 13) == text_words(seq!["-c"@, "copy"@])
    &&& w.subrange(4 * n + 13, 10 * n + 13) == tags(subs)
    &&& w.last() == WordView::Path(OUT)
}

/// The parts of the mux command.
proof fn lemma_mux_frame(subs: Seq<SubTrack>)
    ensures
        framed(mux_line(subs), subs),
{
    lemma_inputs(subs);
    lemma_maps(subs.len());
    lemma_tags(subs);
    let w = mux_line(subs);
    let n = subs.len() as int;
    assert(opening().len() == 5);
    assert(w.take(7) =~= opening() + seq![WordView::Text("-i"@), WordView::Path(VIDEO)]);
    assert(w.subrange(7, 2 * n + 7) =~= inputs(subs));
    assert(w.subrange(2 * n + 7, 2 * n + 11) =~= text_words(
        seq!["-map"@, "0:v:0"@, "-map"@, "0:a?"@],
    ));
    assert(w.subrange(2 * n + 11, 4 * n + 11) =~= maps(subs.len()));
    assert(w.subrange(4 * n + 11, 4 * n + 13) =~= text_words(seq!["-c"@, "copy"@]));
    assert(w.subrange(4 * n + 13, 10 * n + 13) =~= tags(subs));
}

/// The words in front of the subtitle files.
proof fn lemma_head_word(w: Seq<WordView>, subs: Seq<SubTrack>, p: int)
    requires
        framed(w, subs),
        0 <= p < 7,
    ensures
        w[p] != WordView::Text("-map"@),
        w[p] == WordView::Text("-i"@) <==> p == 5,
        p == 6 ==> w[p] == WordView::Path(VIDEO),
        p == 0 ==> w[p] == WordView::Text("ffmpeg"@),
{
    reveal_strlit("-map");
    reveal_strlit("-i");
    reveal_strlit("ffmpeg");
    reveal_strlit("-y");
    reveal_strlit("-hide_banner");
    reveal_strlit("-loglevel");
    reveal_strlit("error");
    assert(w[p] == w.take(7)[p]);
    assert("-map"@.len() == 4 && "-i"@.len() == 2 && "-i"@[1] == 'i');
    assert("ffmpeg"@.len() == 6 && "-y"@[1] == 'y' && "-hide_banner"@.len() == 12);
    assert("-loglevel"@.len() == 9 && "error"@.len() == 5);
    assert(p == 0 || p == 1 || p == 2 || p == 3 || p == 4 || p == 5 || p == 6);
}

/// The words that take up the video's streams.
proof fn lemma_stream_word(w: Seq<WordView>, subs: Seq<SubTrack>, q: int)
    requires
        framed(w, subs),
        0 <= q < 4,
    ensures
        ({
            let x = w[2 * subs.len() as int + 7 + q];
            &&& x == WordView::Text("-map"@) <==> q == 0 || q == 2
            &&& x != WordView::Text("-i"@)
            &&& q == 1 ==> x == WordView::Text("0:v:0"@)
            &&& q == 3 ==> x == WordView::Text("0:a?"@)
        }),
{
    let n = subs.len() as int;
    reveal_strlit("-map");
    reveal_strlit("-i");
    reveal_strlit("0:v:0");
    reveal_strlit("0:a?");
    assert(w[2 * n + 7 + q] == w.subrange(2 * n + 7, 2 * n + 11)[q]);
    assert("0:v:0"@[0] == '0' && "0:a?"@[0] == '0' && "-map"@[0] == '-' && "-i"@[0] == '-');
    assert("-map"@.len() == 4 && "-i"@.len() == 2);
    assert(q == 0 || q == 1 || q == 2 || q == 3);
}

/// The words that say how the streams are encoded.
proof fn lemma_codec_word(w: Seq<WordView>, subs: Seq<SubTrack>, q: int)
    requires
        framed(w, subs),
        0 <= q < 2,
    ensures
        ({
            let x = w[4 * subs.len() as int + 11 + q];
            &&& x != WordView::Text("-map"@)
            &&& x != WordView::Text("-i"@)
            &&& q == 0 ==> x == WordView::Text("-c"@)
            &&& q == 1 ==> x == WordView::Text("copy"@)
        }),
{
    let n = subs.len() as int;
    reveal_strlit("-map");
    reveal_strlit("-i");
    reveal_strlit("-c");
    reveal_strlit("copy");
    assert(w[4 * n + 11 + q] == w.subrange(4 * n + 11, 4 * n + 13)[q]);
    assert("-c"@[1] == 'c' && "copy"@[0] == 'c' && "-i"@[1] == 'i' && "-i"@[0] == '-');
    assert("-c"@.len() == 2 && "copy"@.len() == 4 && "-map"@[0] == '-' && "-map"@.len() == 4);
    assert(q == 0 || q == 1);
}

/// The words that name and take up the subtitle files.
proof fn lemma_file_words(w: Seq<WordView>, subs: Seq<SubTrack>, j: int)
    requires
        framed(w, subs),
        0 <= j < subs.len(),
    ensures
        w[7 + 2 * j] == WordView::Text("-i"@),
        w[7 + 2 * j + 1] == WordView::Path(subs[j].path),
        w[2 * subs.len() as int + 11 + 2 * j] == WordView::Text("-map"@),
        w[2 * subs.len() as int + 11 + 2 * j + 1] == WordView::Text(decimal((j + 1) as nat)),
{
    let n = subs.len() as int;
    lemma_inputs(subs);
    lemma_maps(subs.len());
    assert(w[7 + 2 * j] == w.subrange(7, 2 * n + 7)[2 * j]);
    assert(w[7 + 2 * j + 1] == w.subrange(7, 2 * n + 7)[2 * j + 1]);
    assert(w[2 * n + 11 + 2 * j] == w.subrange(2 * n + 11, 4 * n + 11)[2 * j]);
    assert(w[2 * n + 11 + 2 * j + 1] == w.subrange(2 * n + 11, 4 * n + 11)[2 * j + 1]);
}

/// The words that describe the tracks.
proof fn lemma_tag_word(w: Seq<WordView>, subs: Seq<SubTrack>, j: int, k: int)
    requires
        framed(w, subs),
        0 <= j < subs.len(),
        0 <= k < 6,
    ensures
        w[4 * subs.len() as int + 13 + 6 * j + k] == track_words(j as nat, subs[j])[k],
{
    let n = subs.len() as int;
    lemma_tags(subs);
    assert(w[4 * n + 13 + 6 * j + k] == w.subrange(4 * n + 13, 10 * n + 13)[6 * j + k]);
    assert(tags(subs)[6 * j + k] == track_words(j as nat, subs[j])[k]);
}

/// Which word stands where: `-map` and `-i` stand only where they take something up.
proof fn lemma_mux_word(w: Seq<WordView>, subs: Seq<SubTrack>, p: int)
    requires
        framed(w, subs),
        0 <= p < w.len(),
    ensures
        ({
            let n = subs.len() as int;
            &&& w[p] == WordView::Text("-map"@) <==> (2 * n + 7 <= p < 4 * n + 11 && (p - 2 * n - 7) % 2
                == 0)
            &&& w[p] == WordView::Text("-i"@) <==> (5 <= p < 2 * n + 7 && (p - 5) % 2 == 0)
        }),
{
    let n = subs.len() as int;
    assert("-i"@ != "-map"@) by {
        reveal_strlit("-map");
        reveal_strlit("-i");
        assert("-i"@.len() != "-map"@.len());
    }
    if p < 7 {
        lemma_head_word(w, subs, p);
    } else if p < 2 * n + 7 {
        lemma_file_words(w, subs, (p - 7) / 2);
    } else if p < 2 * n + 11 {
        lemma_stream_word(w, subs, p - 2 * n - 7);
    } else if p < 4 * n + 11 {
        let j = (p - 2 * n - 11) / 2;
        lemma_file_words(w, subs, j);
        lemma_decimal_word((j + 1) as nat);
    } else if p < 4 * n + 13 {
        lemma_codec_word(w, subs, p - 4 * n - 11);
    } else if p < 10 * n + 13 {
        let j = (p - 4 * n - 13) / 6;
        let k = (p - 4 * n - 13) % 6;
        lemma_tag_word(w, subs, j, k);
        lemma_track_words(j as nat, subs[j]);
    }
}

/// Law: in the mux command the video is the first input and the subtitle files follow in their
/// order; there is no other input.
pub proof fn law_mux_inputs(subs: Seq<SubTrack>, p: int, file: usize)
    ensures
        option_at(mux_line(subs), p, "-i"@, WordView::Path(file)) <==> {
            ||| p == 5 && file == VIDEO
            ||| 7 <= p < 2 * subs.len() + 7 && (p - 7) % 2 == 0 && file == subs[(p - 7) / 2].path
        },
        mux_line(subs).last() == WordView::Path(OUT),
        mux_line(subs)[0] == WordView::Text("ffmpeg"@),
{
    lemma_mux_frame(subs);
    lemma_inputs_at(mux_line(subs), subs, p, file);
}

/// Where the inputs stand.
proof fn lemma_inputs_at(w: Seq<WordView>, subs: Seq<SubTrack>, p: int, file: usize)
    requires
        framed(w, subs),
    ensures
        option_at(w, p, "-i"@, WordView::Path(file)) <==> {
            ||| p == 5 && file == VIDEO
            ||| 7 <= p < 2 * subs.len() + 7 && (p - 7) % 2 == 0 && file == subs[(p - 7) / 2].path
        },
        w.last() == WordView::Path(OUT),
        w[0] == WordView::Text("ffmpeg"@),
{
    let n = subs.len() as int;
    lemma_head_word(w, subs, 0);
    if 0 <= p && p + 1 < w.len() {
        lemma_mux_word(w, subs, p);
        lemma_head_word(w, subs, 6);
        if 7 <= p < 2 * n + 7 && (p - 7) % 2 == 0 {
            lemma_file_words(w, subs, (p - 7) / 2);
        }
    }
}

/// Law: every subtitle file is taken up exactly once, in the order of the files, behind the video
/// and the sound, and nothing else is; so there are as many subtitle tracks as subtitle files.
pub proof fn law_mux_maps(subs: Seq<SubTrack>, p: int)
    ensures
        forall|k: nat|
            #![trigger decimal(k)]
            1 <= k <= subs.len() ==> (option_at(
                mux_line(subs),
                p,
                "-map"@,
                WordView::Text(decimal(k)),
            ) <==> p == 2 * subs.len() + 9 + 2 * k),
        option_at(mux_line(subs), p, "-map"@, WordView::Text("0:v:0"@)) <==> p == 2 * subs.len() + 7,
        option_at(mux_line(subs), p, "-map"@, WordView::Text("0:a?"@)) <==> p == 2 * subs.len() + 9,
        0 <= p < mux_line(subs).len() ==> (mux_line(subs)[p] == WordView::Text("-map"@) <==> 2
            * subs.len() + 7 <= p < 4 * subs.len() + 11 && (p - 7) % 2 == 0),
        option_at(mux_line(subs), 4 * subs.len() as int + 11, "-c"@, WordView::Text("copy"@)),
{
    lemma_mux_frame(subs);
    lemma_maps_at(mux_line(subs), subs, p);
}

/// Where the files are taken up.
proof fn lemma_maps_at(w: Seq<WordView>, subs: Seq<SubTrack>, p: int)
    requires
        framed(w, subs),
    ensures
        forall|k: nat|
            #![trigger decimal(k)]
            1 <= k <= subs.len() ==> (option_at(w, p, "-map"@, WordView::Text(decimal(k))) <==> p == 2
                * subs.len() + 9 + 2 * k),
        option_at(w, p, "-map"@, WordView::Text("0:v:0"@)) <==> p == 2 * subs.len() + 7,
        option_at(w, p, "-map"@, WordView::Text("0:a?"@)) <==> p == 2 * subs.len() + 9,
        0 <= p < w.len() ==> (w[p] == WordView::Text("-map"@) <==> 2 * subs.len() + 7 <= p < 4
            * subs.len() + 11 && (p - 7) % 2 == 0),
        option_at(w, 4 * subs.len() as int + 11, "-c"@, WordView::Text("copy"@)),
{
    let n = subs.len() as int;
    lemma_codec_word(w, subs, 0);
    lemma_codec_word(w, subs, 1);
    lemma_streams();
    lemma_stream_word(w, subs, 1);
    lemma_stream_word(w, subs, 3);
    if 0 <= p < w.len() {
        lemma_mux_word(w, subs, p);
    }
    let taken = 2 * n + 11 <= p < 4 * n + 11 && (p - 2 * n - 7) % 2 == 0;
    let j = (p - 2 * n - 11) / 2;
    if taken {
        lemma_file_words(w, subs, j);
        assert(p == 2 * n + 9 + 2 * (j + 1));
        lemma_decimal_word((j + 1) as nat);
        lemma_decimal((j + 1) as nat);
    }
    assert forall|k: nat|
        #![trigger decimal(k)]
        1 <= k <= subs.len() implies (option_at(w, p, "-map"@, WordView::Text(decimal(k))) <==> p == 2
        * subs.len() + 9 + 2 * k) by {
        lemma_decimal(k);
        lemma_decimal_word(k);
        if option_at(w, p, "-map"@, WordView::Text(decimal(k))) {
            assert(taken);
            assert(decimal(k) == decimal((j + 1) as nat));
        }
        if p == 2 * subs.len() + 9 + 2 * k {
            assert(taken && j + 1 == k);
        }
    }
}

/// The streams of the video differ.
proof fn lemma_streams()
    ensures
        "0:v:0"@ != "0:a?"@,
{
    reveal_strlit("0:v:0");
    reveal_strlit("0:a?");
    assert("0:v:0"@.len() != "0:a?"@.len());
}

/// Law: every track is told its language, its title and whether it is shown by default, under its
/// own number.
pub proof fn law_mux_tags(subs: Seq<SubTrack>, j: int)
    requires
        0 <= j < subs.len(),
    ensures
        ({
            let w = mux_line(subs);
            let p = 4 * subs.len() as int + 13 + 6 * j;
            &&& option_at(
                w,
                p,
                "-metadata:s:s:"@ + decimal(j as nat),
                WordView::Text("language="@ + subs[j].lang@),
            )
            &&& option_at(
                w,
                p + 2,
                "-metadata:s:s:"@ + decimal(j as nat),
                WordView::Text("title="@ + subs[j].title@),
            )
            &&& option_at(
                w,
                p + 4,
                "-disposition:s:"@ + decimal(j as nat),
                WordView::Text(
                    if subs[j].default {
                        "default"@
                    } else {
                        "0"@
                    },
                ),
            )
        }),
{
    lemma_mux_frame(subs);
    lemma_tag_word(mux_line(subs), subs, j, 0);
    lemma_tag_word(mux_line(subs), subs, j, 1);
    lemma_tag_word(mux_line(subs), subs, j, 2);
    lemma_tag_word(mux_line(subs), subs, j, 3);
    lemma_tag_word(mux_line(subs), subs, j, 4);
    lemma_tag_word(mux_line(subs), subs, j, 5);
}

/// Law: the MKV gets four subtitle tracks: the styled bilingual one, which alone is shown by
/// default, the plain bilingual one, English and Chinese, each from a file of its own.
pub proof fn law_four_tracks(zh_title: &str)
    ensures
        track_list(zh_title).len() == 4,
        track_list(zh_title)[0].path == STYLED && track_list(zh_title)[0].default,
        track_list(zh_title)[0].title@ == "English + 中文 (styled)"@,
        track_list(zh_title)[0].lang@ == "mul"@,
        track_list(zh_title)[1].path == PLAIN && !track_list(zh_title)[1].default,
        track_list(zh_title)[1].title@ == "English + 中文"@,
        track_list(zh_title)[1].lang@ == "mul"@,
        track_list(zh_title)[2].path == ENGLISH && !track_list(zh_title)[2].default,
        track_list(zh_title)[2].title@ == "English"@,
        track_list(zh_title)[2].lang@ == "eng"@,
        track_list(zh_title)[3].path == CHINESE && !track_list(zh_title)[3].default,
        track_list(zh_title)[3].title@ == zh_title@,
        track_list(zh_title)[3].lang@ == "chi"@,
        forall|i: int, j: int|
            0 <= i < j < 4 ==> (#[trigger] track_list(zh_title)[i]).path != (#[trigger] track_list(
                zh_title,
            )[j]).path,
        forall|i: int|
            0 <= i < 4 ==> (#[trigger] track_list(zh_title)[i]).path != VIDEO && track_list(
                zh_title,
            )[i].path != OUT,
{
}

/// Law: a burn plan builds the MKV from the four tracks under a temporary name, and burns the
/// styled subtitles in unless only soft tracks are wanted.
pub proof fn law_burn_plan(p: BurnPlan, stem: Seq<char>, opts: BurnOpts)
    requires
        plans(p, stem, opts),
    ensures
        p.mkv@ == stem + ".mkv"@,
        p.temporary@ == stem + ".mux.tmp.mkv"@,
        word_views(p.mux@) == mux_line(track_list(opts.zh_title)),
        opts.soft_only ==> p.hard is None,
        !opts.soft_only ==> (p.hard matches Some((name, words)) && name@ == stem + ".hardsub.mkv"@
            && word_views(words@) == burn_line(".burn.ass"@)),
{
}

// ---- Audio and burning ---------------------------------------------------------------------

/// Law: the audio is copied where it is AAC already and transcoded to AAC elsewhere; either way it
/// is the video's first audio stream, without pictures, and goes to the output.
pub proof fn law_audio(codec: Seq<char>)
    ensures
        ({
            let w = audio_line(codec);
            &&& w[0] == WordView::Text("ffmpeg"@)
            &&& option_at(w, 5, "-i"@, WordView::Path(VIDEO))
            &&& option_at(w, 7, "-map"@, WordView::Text("0:a:0"@))
            &&& w[9] == WordView::Text("-vn"@)
            &&& codec == "aac"@ ==> option_at(w, 10, "-c:a"@, WordView::Text("copy"@)) && w.len() == 15
            &&& codec != "aac"@ ==> option_at(w, 10, "-c:a"@, WordView::Text("aac"@)) && option_at(
                w,
                12,
                "-b:a"@,
                WordView::Text("192k"@),
            ) && w.len() == 17
            &&& option_at(w, w.len() - 3, "-movflags"@, WordView::Text("+faststart"@))
            &&& w.last() == WordView::Path(OUT)
        }),
{
    assert(opening().len() == 5);
}

/// Law: burning renders the named subtitles into the video's picture, re-encodes it and copies the
/// sound.
pub proof fn law_burning(name: Seq<char>)
    ensures
        ({
            let w = burn_line(name);
            &&& w[0] == WordView::Text("ffmpeg"@)
            &&& option_at(w, 6, "-i"@, WordView::Path(VIDEO))
            &&& option_at(w, 8, "-map"@, WordView::Text("0:v:0"@))
            &&& option_at(w, 10, "-map"@, WordView::Text("0:a?"@))
            &&& option_at(w, 12, "-vf"@, WordView::Text("ass="@ + name))
            &&& option_at(w, 14, "-c:v"@, WordView::Text("libx264"@))
            &&& option_at(w, 16, "-preset"@, WordView::Text("medium"@))
            &&& option_at(w, 18, "-crf"@, WordView::Text("20"@))
            &&& option_at(w, 20, "-pix_fmt"@, WordView::Text("yuv420p"@))
            &&& option_at(w, 22, "-c:a"@, WordView::Text("copy"@))
            &&& w.len() == 25
            &&& w.last() == WordView::Path(OUT)
        }),
{
    assert(opening().len() == 5);
}

/// Law: the codec that is asked for is that of the video's first audio stream, as a bare name.
pub proof fn law_codec_line()
    ensures
        ({
            let w = codec_line();
            &&& w.len() == 10
            &&& w[0] == WordView::Text("ffprobe"@)
            &&& option_at(w, 1, "-v"@, WordView::Text("error"@))
            &&& option_at(w, 3, "-select_streams"@, WordView::Text("a:0"@))
            &&& option_at(w, 5, "-show_entries"@, WordView::Text("stream=codec_name"@))
            &&& option_at(w, 7, "-of"@, WordView::Text("csv=p=0"@))
            &&& w[9] == WordView::Path(VIDEO)
        }),
{
}

/// Law: ffmpeg always overwrites, and says nothing but errors; only burning shows its progress.
pub proof fn law_opening(subs: Seq<SubTrack>, codec: Seq<char>, name: Seq<char>, i: int)
    requires
        0 <= i < 5,
    ensures
        ({
            let words = seq!["ffmpeg"@, "-y"@, "-hide_banner"@, "-loglevel"@, "error"@];
            &&& mux_line(subs)[i] == WordView::Text(words[i])
            &&& audio_line(codec)[i] == WordView::Text(words[i])
            &&& burn_line(name)[i] == WordView::Text(words[i])
            &&& burn_line(name)[5] == WordView::Text("-stats"@)
        }),
{
    lemma_mux_frame(subs);
    assert(mux_line(subs)[i] == mux_line(subs).take(7)[i]);
    assert(opening().len() == 5);
    assert(i == 0 || i == 1 || i == 2 || i == 3 || i == 4);
}

/// Law: the paths of a command line are numbered apart.
pub proof fn law_paths()
    ensures
        VIDEO == 0,
        OUT == 1,
        STYLED == 2,
        PLAIN == 3,
        ENGLISH == 4,
        CHINESE == 5,
{
}

// ---- Folders -------------------------------------------------------------------------------

/// Law: the names of a video's files begin with what its English sidecar is called without its
/// ending; what has another ending is no sidecar.
pub proof fn law_stem(stem: Seq<char>, name: Seq<char>)
    ensures
        stem_of(stem + ".en.srt"@) == Some(stem),
        stem_of(name) matches Some(s) ==> name == s + ".en.srt"@,
        stem_of(name) is None ==> forall|s: Seq<char>| #[trigger] (s + ".en.srt"@) != name,
{
    let e = ".en.srt"@;
    let x = stem + e;
    assert(x.subrange(x.len() - e.len(), x.len() as int) =~= e);
    assert(x.take(x.len() - e.len()) =~= stem);
    if let Some(s) = stem_of(name) {
        assert(name.subrange(name.len() - e.len(), name.len() as int) == e);
        assert(name =~= s + e);
    } else {
        assert forall|s: Seq<char>| #[trigger] (s + e) != name by {
            if s + e == name {
                assert(name.subrange(name.len() - e.len(), name.len() as int) =~= e);
            }
        }
    }
}

/// Law: a folder whose name does not begin with a bracket, or never closes it, names no id; and an
/// id that is named holds no closing bracket.
pub proof fn law_bracketed(name: Seq<char>)
    ensures
        name.len() == 0 || name[0] != '[' ==> bracketed(name) is None,
        lacks(name, ']') ==> bracketed(name) is None,
        bracketed(name) matches Some(id) ==> lacks(id, ']') && id.len() + 2 <= name.len() && name[0] == '['
            && name.subrange(1, id.len() as int + 1) == id && name[id.len() as int + 1] == ']',
{
    let p = seq![']'];
    crate::text::lemma_find(name, p);
    if lacks(name, ']') {
        crate::text_lemmas::lemma_find_absent(name, p, 0);
    }
    if let Some(id) = bracketed(name) {
        let i = crate::text::find(name, p)->0;
        assert(name.subrange(i, i + 1)[0] == name[i]);
        assert(i > 0);
        assert forall|j: int| 0 <= j < id.len() implies #[trigger] id[j] != ']' by {
            assert(id[j] == name[j + 1]);
            assert(!stands_at(name, j + 1, p));
            if name[j + 1] == ']' {
                assert(name.subrange(j + 1, j + 2) =~= p);
            }
        }
    }
}

/// Law: the Chinese that is counted is that of every cue that has some.
pub proof fn law_zh_count(s: Seq<BiCueView>, c: BiCueView)
    ensures
        zh_count(Seq::empty()) == 0,
        c.zh.len() > 0 ==> zh_count(s.push(c)) == zh_count(s) + 1,
        c.zh.len() == 0 ==> zh_count(s.push(c)) == zh_count(s),
{
    assert(s.push(c).drop_last() =~= s);
}

/// Law: the bilingual files hold the same cues in the same order of languages, the styled one for a
/// full video frame, and count all cues and those with Chinese.
pub proof fn law_bilingual_files(f: BilingualFiles, cues: Seq<BiCueView>, opts: BurnOpts)
    requires
        holds(f, cues, opts),
    ensures
        f.srt@ == srt_document(both_cues(cues, opts.order)),
        f.ass@ == ass_document(cues, opts.order, video_style(opts.font_en, opts.font_zh)),
        f.cues == cues.len(),
        f.with_zh == zh_count(cues),
{
}

} // verus!
