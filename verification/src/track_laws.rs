//! Which caption track is taken, how it is fetched, and how yt-dlp is called.

use crate::command::WordView;
use crate::number::{decimal, is_digit, lemma_decimal};
use crate::text::{begins, lemma_joined_push, split, string_texts, trimmed};
use crate::text_lemmas::{lemma_lacks_add, lemma_split_first, lemma_split_lacking};
use crate::ytdlp::{address, best_format, comma_list, download_line, download_step, english, english_keys, english_track, fetched, first_english, forced_track, format_text, format_with, formats_of, listed, listing, named, next_fetch, other_keys, probe_line, track, track_in, track_text, tracks, tracks_or_none, video_file, Download, DownloadActionView, DownloadEventView, DownloadStage, EntryView, Fetch, Fetched, Info, Outcome, SubFormatView, TrackView, YtDlp};
use vstd::prelude::*;

verus! {

// ---- Choosing a track ----------------------------------------------------------------------

/// Which format is the first with an extension.
proof fn lemma_format_with(fmts: Seq<SubFormatView>, ext: Seq<char>)
    ensures
        match format_with(fmts, ext) {
            Some(f) => f.ext == ext && exists|i: int|
                0 <= i < fmts.len() && #[trigger] fmts[i] == f && forall|j: int|
                    0 <= j < i ==> (#[trigger] fmts[j]).ext != ext,
            None => forall|j: int| 0 <= j < fmts.len() ==> (#[trigger] fmts[j]).ext != ext,
        },
    decreases fmts.len(),
{
    if fmts.len() > 0 {
        if fmts[0].ext == ext {
            assert(fmts[0] == format_with(fmts, ext)->0);
        } else {
            let rest = fmts.drop_first();
            lemma_format_with(rest, ext);
            match format_with(rest, ext) {
                Some(f) => {
                    let i = choose|i: int|
                        0 <= i < rest.len() && #[trigger] rest[i] == f && forall|j: int|
                            0 <= j < i ==> (#[trigger] rest[j]).ext != ext;
                    assert(fmts[i + 1] == f);
                    assert forall|j: int| 0 <= j < i + 1 implies (#[trigger] fmts[j]).ext != ext by {
                        if j > 0 {
                            assert(fmts[j] == rest[j - 1]);
                        }
                    }
                },
                None => {
                    assert forall|j: int| 0 <= j < fmts.len() implies (#[trigger] fmts[j]).ext != ext by {
                        if j > 0 {
                            assert(fmts[j] == rest[j - 1]);
                        }
                    }
                },
            }
        }
    }
}

/// The extensions differ.
proof fn lemma_extensions()
    ensures
        "json3"@ == seq!['j', 's', 'o', 'n', '3'],
        "vtt"@ == seq!['v', 't', 't'],
        "srt"@ == seq!['s', 'r', 't'],
        "json3"@ != "vtt"@,
        "json3"@ != "srt"@,
        "vtt"@ != "srt"@,
{
    reveal_strlit("json3");
    reveal_strlit("vtt");
    reveal_strlit("srt");
    assert("json3"@ =~= seq!['j', 's', 'o', 'n', '3']);
    assert("vtt"@ =~= seq!['v', 't', 't']);
    assert("srt"@ =~= seq!['s', 'r', 't']);
    assert("vtt"@[0] != "srt"@[0] && "json3"@.len() != "vtt"@.len() && "json3"@.len() != "srt"@.len());
}

/// Law: the format that is taken is the first `json3`, or where there is none the first `vtt`, or
/// where there is none the first `srt`; there is none only where none of these is offered.
pub proof fn law_format_choice(fmts: Seq<SubFormatView>, k: int)
    requires
        0 <= k < fmts.len(),
    ensures
        best_format(fmts) matches Some(f) ==> exists|i: int|
            0 <= i < fmts.len() && #[trigger] fmts[i] == f && forall|j: int|
                0 <= j < i ==> (#[trigger] fmts[j]).ext != f.ext,
        fmts[k].ext == seq!['j', 's', 'o', 'n', '3'] ==> (best_format(fmts) matches Some(f) && f.ext == seq![
            'j',
            's',
            'o',
            'n',
            '3',
        ]),
        fmts[k].ext == seq!['v', 't', 't'] ==> (best_format(fmts) matches Some(f) && f.ext != seq![
            's',
            'r',
            't',
        ]),
        fmts[k].ext == seq!['s', 'r', 't'] ==> best_format(fmts) is Some,
        best_format(fmts) matches Some(f) ==> f.ext == seq!['j', 's', 'o', 'n', '3'] || f.ext == seq![
            'v',
            't',
            't',
        ] || f.ext == seq!['s', 'r', 't'],
{
    lemma_extensions();
    lemma_format_with(fmts, "json3"@);
    lemma_format_with(fmts, "vtt"@);
    lemma_format_with(fmts, "srt"@);
}

/// Law: a track has the key and the kind that it was looked up by, and the format, the name and
/// the address of its best format; there is none where the key has no format or the format no
/// address.
pub proof fn law_track(entries: Seq<EntryView>, key: Seq<char>, auto: bool)
    ensures
        track_in(entries, key, auto) is Some <==> (formats_of(entries, key) matches Some(fmts)
            && best_format(fmts) matches Some(f) && f.url is Some),
        track_in(entries, key, auto) matches Some(t) ==> {
            let f = best_format(formats_of(entries, key)->0)->0;
            &&& t.key == key && t.auto == auto
            &&& t.ext == f.ext && Some(t.url) == f.url
            &&& f.name matches Some(n) ==> t.name == n
            &&& f.name is None ==> t.name.len() == 0
        },
{
}

/// Law: a key's formats are those of the first entry with that key.
pub proof fn law_formats(entries: Seq<EntryView>, key: Seq<char>, i: int)
    ensures
        0 <= i < entries.len() && entries[i].key == key && (forall|j: int|
            0 <= j < i ==> (#[trigger] entries[j]).key != key) ==> formats_of(entries, key) == Some(
            entries[i].formats,
        ),
        (forall|j: int| 0 <= j < entries.len() ==> (#[trigger] entries[j]).key != key) ==> formats_of(
            entries,
            key,
        ) is None,
    decreases entries.len(),
{
    if entries.len() > 0 && entries[0].key != key {
        let rest = entries.drop_first();
        law_formats(rest, key, i - 1);
        if 0 <= i < entries.len() && entries[i].key == key && (forall|j: int|
            0 <= j < i ==> (#[trigger] entries[j]).key != key) {
            assert forall|j: int| 0 <= j < i - 1 implies (#[trigger] rest[j]).key != key by {
                assert(rest[j] == entries[j + 1]);
            }
        }
        if forall|j: int| 0 <= j < entries.len() ==> (#[trigger] entries[j]).key != key {
            assert forall|j: int| 0 <= j < rest.len() implies (#[trigger] rest[j]).key != key by {
                assert(rest[j] == entries[j + 1]);
            }
        }
    }
}

/// Law: English is `en`, and what begins with `en-`.
pub proof fn law_english_key(key: Seq<char>)
    ensures
        english(key) <==> key == seq!['e', 'n'] || (key.len() >= 3 && key[0] == 'e' && key[1] == 'n' && key[2]
            == '-'),
{
    reveal_strlit("en");
    reveal_strlit("en-");
    assert("en"@ =~= seq!['e', 'n']);
    let p = "en-"@;
    assert(p =~= seq!['e', 'n', '-']);
    if key.len() >= 3 {
        let x = key.subrange(0, 3);
        assert(x[0] == key[0] && x[1] == key[1] && x[2] == key[2]);
        if key[0] == 'e' && key[1] == 'n' && key[2] == '-' {
            assert(x =~= p);
        }
    }
}

/// Law: of the English tracks that can be used, a manual `en` is taken first, then `en-US`, then
/// `en-GB`, then the first other manual one in the order of the report; then the original automatic
/// one, then the automatic `en`, then `en-US`. Without any of them there is none.
pub proof fn law_english_order(info: Info, i: int)
    ensures
        ({
            let t = english_track(info);
            let m = |key: Seq<char>| track(info, key, false);
            let a = |key: Seq<char>| track(info, key, true);
            &&& m("en"@) is Some ==> t == m("en"@)
            &&& m("en"@) is None && m("en-US"@) is Some ==> t == m("en-US"@)
            &&& m("en"@) is None && m("en-US"@) is None && m("en-GB"@) is Some ==> t == m("en-GB"@)
            &&& m("en"@) is None && m("en-US"@) is None && m("en-GB"@) is None ==> (tracks(
                info,
                false,
            ) matches Some(s) ==> {
                &&& 0 <= i < s.len() && english(s[i].key) && m(s[i].key) is Some && (forall|j: int|
                    0 <= j < i ==> !(english((#[trigger] s[j]).key) && m(s[j].key) is Some)) ==> t == m(
                    s[i].key,
                )
                &&& (forall|j: int|
                    0 <= j < s.len() ==> !(english((#[trigger] s[j]).key) && m(s[j].key) is Some)) ==> {
                    &&& a("en-orig"@) is Some ==> t == a("en-orig"@)
                    &&& a("en-orig"@) is None && a("en"@) is Some ==> t == a("en"@)
                    &&& a("en-orig"@) is None && a("en"@) is None ==> t == a("en-US"@)
                }
            })
            &&& tracks(info, false) is None ==> {
                &&& a("en-orig"@) is Some ==> t == a("en-orig"@)
                &&& a("en-orig"@) is None && a("en"@) is Some ==> t == a("en"@)
                &&& a("en-orig"@) is None && a("en"@) is None ==> t == a("en-US"@)
            }
        }),
{
    if let Some(s) = tracks(info, false) {
        lemma_first_english(s, s, i);
    }
}

/// Which entry is the first of English with a manual track.
proof fn lemma_first_english(all: Seq<EntryView>, entries: Seq<EntryView>, i: int)
    ensures
        0 <= i < entries.len() && english(entries[i].key) && track_in(all, entries[i].key, false) is Some && (
        forall|j: int|
            0 <= j < i ==> !(english((#[trigger] entries[j]).key) && track_in(
                all,
                entries[j].key,
                false,
            ) is Some)) ==> first_english(all, entries) == track_in(all, entries[i].key, false),
        (forall|j: int|
            0 <= j < entries.len() ==> !(english((#[trigger] entries[j]).key) && track_in(
                all,
                entries[j].key,
                false,
            ) is Some)) ==> first_english(all, entries) is None,
    decreases entries.len(),
{
    if entries.len() > 0 && !(english(entries[0].key) && track_in(all, entries[0].key, false) is Some) {
        let rest = entries.drop_first();
        lemma_first_english(all, rest, i - 1);
        if 0 <= i < entries.len() && english(entries[i].key) && track_in(all, entries[i].key, false) is Some
            && (forall|j: int|
            0 <= j < i ==> !(english((#[trigger] entries[j]).key) && track_in(
                all,
                entries[j].key,
                false,
            ) is Some)) {
            assert forall|j: int| 0 <= j < i - 1 implies !(english((#[trigger] rest[j]).key) && track_in(
                all,
                rest[j].key,
                false,
            ) is Some) by {
                assert(rest[j] == entries[j + 1]);
            }
        }
        if forall|j: int|
            0 <= j < entries.len() ==> !(english((#[trigger] entries[j]).key) && track_in(
                all,
                entries[j].key,
                false,
            ) is Some) {
            assert forall|j: int| 0 <= j < rest.len() implies !(english((#[trigger] rest[j]).key) && track_in(
                all,
                rest[j].key,
                false,
            ) is Some) by {
                assert(rest[j] == entries[j + 1]);
            }
        }
    }
}

/// Law: a track that was asked for by its key is the manual one where there is one, else the
/// automatic one.
pub proof fn law_forced(info: Info, key: Seq<char>)
    ensures
        track(info, key, false) is Some ==> forced_track(info, key) == track(info, key, false),
        track(info, key, false) is None ==> forced_track(info, key) == track(info, key, true),
        tracks(info, false) == match info.subtitles {
            Some(m) => Some(m@),
            None => None,
        },
        tracks(info, true) == match info.automatic_captions {
            Some(m) => Some(m@),
            None => None,
        },
{
}

/// Law: a video is where its report says, and otherwise at YouTube under its id.
pub proof fn law_address(info: Info)
    ensures
        info.url matches Some(u) ==> address(info) == u@,
        info.url is None ==> address(info) == "https://www.youtube.com/watch?v="@ + info.id@,
{
}

// ---- Naming tracks -------------------------------------------------------------------------

/// Law: a track is told by its key and, in brackets, how it came about and its name where it has
/// one.
pub proof fn law_track_text(t: TrackView)
    ensures
        ({
            let s = track_text(t);
            let kind = if t.auto {
                seq!['a', 'u', 't', 'o']
            } else {
                seq!['m', 'a', 'n', 'u', 'a', 'l']
            };
            s == t.key + seq![' ', '['] + kind + (if t.name.len() == 0 {
                Seq::empty()
            } else {
                seq![',', ' '] + t.name
            }) + seq![']']
        }),
{
    reveal_strlit("auto");
    reveal_strlit("manual");
    reveal_strlit(" [");
    reveal_strlit(", ");
    reveal_strlit("]");
    assert("auto"@ =~= seq!['a', 'u', 't', 'o']);
    assert("manual"@ =~= seq!['m', 'a', 'n', 'u', 'a', 'l']);
    assert(" ["@ =~= seq![' ', '[']);
    assert(", "@ =~= seq![',', ' ']);
    assert("]"@ =~= seq![']']);
    let kind = if t.auto {
        seq!['a', 'u', 't', 'o']
    } else {
        seq!['m', 'a', 'n', 'u', 'a', 'l']
    };
    assert(track_text(t) =~= t.key + seq![' ', '['] + kind + (if t.name.len() == 0 {
        Seq::empty()
    } else {
        seq![',', ' '] + t.name
    }) + seq![']']);
}

/// Law: keys are parted by whether they begin with `en`, and stay in their order; a list of them is
/// written with commas between, and `none` where it is empty.
pub proof fn law_keys(s: Seq<EntryView>, e: EntryView, ks: Seq<Seq<char>>, k: Seq<char>)
    ensures
        begins(e.key, "en"@) ==> english_keys(s.push(e)) == english_keys(s).push(e.key) && other_keys(
            s.push(e),
        ) == other_keys(s),
        !begins(e.key, "en"@) ==> other_keys(s.push(e)) == other_keys(s).push(e.key) && english_keys(
            s.push(e),
        ) == english_keys(s),
        english_keys(Seq::empty()).len() == 0,
        other_keys(Seq::empty()).len() == 0,
        comma_list(Seq::empty()) == "none"@,
        comma_list(seq![k]) == k,
        ks.len() > 0 ==> comma_list(ks.push(k)) == comma_list(ks) + seq![',', ' '] + k,
        e.formats.len() > 0 ==> (e.formats[0].name matches Some(n) ==> listed(e) == e.key + " ("@ + n + ")"@),
        e.formats.len() == 0 || e.formats[0].name is None ==> listed(e) == e.key,
{
    assert(s.push(e).drop_last() =~= s);
    reveal_strlit(", ");
    assert(", "@ =~= seq![',', ' ']);
    if ks.len() > 0 {
        lemma_joined_push(ks, k, ", "@);
    }
}

/// Law: the listing counts the manual tracks and then lists them all, then counts the automatic
/// ones and lists those of English; the rest of them comes last, on a line of its own, where there
/// are any.
pub proof fn law_listing(info: Info)
    ensures
        ({
            let manual = tracks_or_none(info, false);
            let auto = tracks_or_none(info, true);
            let names = Seq::new(manual.len(), |i: int| listed(manual[i]));
            let head = "  manual subtitles ("@ + decimal(manual.len()) + "): "@ + comma_list(names) + "\n"@
                + "  auto captions ("@ + decimal(auto.len()) + " languages), English keys: "@
                + comma_list(english_keys(auto)) + "\n"@;
            &&& other_keys(auto).len() == 0 ==> listing(info) == head
            &&& other_keys(auto).len() > 0 ==> listing(info) == head + ("  other auto captions: "@
                + comma_list(other_keys(auto)) + "\n"@)
        }),
{
    let manual = tracks_or_none(info, false);
    let auto = tracks_or_none(info, true);
    let names = Seq::new(manual.len(), |i: int| listed(manual[i]));
    assert(names =~= crate::ytdlp::listed_all(manual));
    let head = "  manual subtitles ("@ + decimal(manual.len()) + "): "@ + comma_list(names) + "\n"@
        + "  auto captions ("@ + decimal(auto.len()) + " languages), English keys: "@ + comma_list(
        english_keys(auto),
    ) + "\n"@;
    if other_keys(auto).len() == 0 {
        assert(listing(info) =~= head);
    }
}

// ---- Fetching ------------------------------------------------------------------------------

/// Law: a good answer with text is taken as it is, a blank one is given up; what the server may do
/// better on is tried again after the wait; any other answer is given up, with its status. Without
/// an answer it is tried again, but for the sixth time.
pub proof fn law_fetch_answer(f: Fetch, o: Outcome, r: Fetched)
    requires
        fetched(f, o, r),
    ensures
        o matches Outcome::Response { status, body } ==> {
            &&& 200 <= status <= 299 && trimmed(body@).len() > 0 <==> r is Done
            &&& r matches Fetched::Done(text) ==> text@ == body@
            &&& 200 <= status <= 299 && trimmed(body@).len() == 0 <==> r is Empty
            &&& status == 429 || status >= 500 <==> r is Retry
            &&& r matches Fetched::Refused(n) ==> n == status && (status < 200 || 300 <= status < 500) && status
                != 429
            &&& !(r is Broken)
        },
        o is Failed ==> (r is Broken <==> f.attempt == 6) && (r is Retry <==> f.attempt != 6),
        r matches Fetched::Retry(wait) ==> wait == f.delay,
{
}

/// Law: every attempt waits twice as long as the one before, but a minute at most.
pub proof fn law_fetch_doubles(f: Fetch)
    requires
        f.attempt < u32::MAX,
        f.delay <= 60,
    ensures
        next_fetch(f).attempt == f.attempt + 1,
        2 * f.delay <= 60 ==> next_fetch(f).delay == 2 * f.delay,
        2 * f.delay > 60 ==> next_fetch(f).delay == 60,
{
}

// ---- Command lines -------------------------------------------------------------------------

/// Law: yt-dlp reports on one address, behind `--`, as JSON and without walking a playlist; the
/// user's arguments stand in front of it, word by word.
pub proof fn law_probe_line(yt: YtDlp, url: Seq<char>)
    ensures
        ({
            let w = probe_line(yt, url);
            let args = string_texts(yt.common_args@);
            let n = args.len() as int;
            &&& w.len() == n + 6
            &&& w[0] == WordView::Text(yt.bin@)
            &&& w[1] == WordView::Text("-J"@)
            &&& w[2] == WordView::Text("--no-playlist"@)
            &&& w[3] == WordView::Text("--flat-playlist"@)
            &&& forall|i: int| 0 <= i < n ==> w[4 + i] == WordView::Text(#[trigger] args[i])
            &&& w[4 + n] == WordView::Text("--"@)
            &&& w[5 + n] == WordView::Text(url)
        }),
{
}

/// Law: a download takes a video of at most this height into an MKV at the template, goes on where
/// it was broken off and overwrites nothing; it starts from the saved report, or afresh from the
/// address, behind the user's arguments.
pub proof fn law_download_line(yt: YtDlp, url: Seq<char>, template: Seq<char>, height: u32, fresh: bool)
    ensures
        ({
            let w = download_line(yt, url, template, height, fresh);
            let args = string_texts(yt.common_args@);
            let n = args.len() as int;
            &&& w.len() == n + 14
            &&& w[0] == WordView::Text(yt.bin@)
            &&& w[1] == WordView::Text("--no-playlist"@)
            &&& w[2] == WordView::Text("-f"@) && w[3] == WordView::Text(format_text(height))
            &&& w[4] == WordView::Text("--merge-output-format"@) && w[5] == WordView::Text("mkv"@)
            &&& w[6] == WordView::Text("--remux-video"@) && w[7] == WordView::Text("mkv"@)
            &&& w[8] == WordView::Text("--no-overwrites"@)
            &&& w[9] == WordView::Text("--continue"@)
            &&& w[10] == WordView::Text("-o"@) && w[11] == WordView::Text(template)
            &&& forall|i: int| 0 <= i < n ==> w[12 + i] == WordView::Text(#[trigger] args[i])
            &&& fresh ==> w[12 + n] == WordView::Text("--"@) && w[13 + n] == WordView::Text(url)
            &&& !fresh ==> w[12 + n] == WordView::Text("--load-info-json"@) && w[13 + n]
                == WordView::Path(0)
        }),
{
}

/// Law: the formats to download are, best first: H.264 with AAC up to the height, any picture with
/// any sound up to it, a single file up to it, and then whatever there is.
pub proof fn law_format_text(height: u32)
    ensures
        ({
            let h = decimal(height as nat);
            split(format_text(height), seq!['/']) == seq![
                "bv*[height<="@ + h + "][vcodec^=avc1]+ba[ext=m4a]"@,
                "bv*[height<="@ + h + "]+ba"@,
                "b[height<="@ + h + "]"@,
                "bv*+ba"@,
                "b"@,
            ]
        }),
{
    let h = decimal(height as nat);
    let p = seq!['/'];
    lemma_decimal(height as nat);
    assert forall|i: int| 0 <= i < h.len() implies #[trigger] h[i] != '/' by {
        assert(is_digit(h[i]));
    }
    reveal_strlit("bv*[height<=");
    reveal_strlit("][vcodec^=avc1]+ba[ext=m4a]/bv*[height<=");
    reveal_strlit("]+ba/b[height<=");
    reveal_strlit("]/bv*+ba/b");
    reveal_strlit("][vcodec^=avc1]+ba[ext=m4a]");
    reveal_strlit("]+ba");
    reveal_strlit("b[height<=");
    reveal_strlit("]");
    reveal_strlit("bv*+ba");
    reveal_strlit("b");
    let a = "bv*[height<="@ + h + "][vcodec^=avc1]+ba[ext=m4a]"@;
    let b = "bv*[height<="@ + h + "]+ba"@;
    let c = "b[height<="@ + h + "]"@;
    let d = "bv*+ba"@;
    let e = "b"@;
    lemma_lacks_add("bv*[height<="@, h, '/');
    lemma_lacks_add("bv*[height<="@ + h, "][vcodec^=avc1]+ba[ext=m4a]"@, '/');
    lemma_lacks_add("bv*[height<="@ + h, "]+ba"@, '/');
    lemma_lacks_add("b[height<="@, h, '/');
    lemma_lacks_add("b[height<="@ + h, "]"@, '/');
    lemma_split_lacking(e, '/');
    lemma_split_first(d, '/', e);
    lemma_split_first(c, '/', d + p + e);
    lemma_split_first(b, '/', c + p + (d + p + e));
    lemma_split_first(a, '/', b + p + (c + p + (d + p + e)));
    assert("][vcodec^=avc1]+ba[ext=m4a]/bv*[height<="@ =~= "][vcodec^=avc1]+ba[ext=m4a]"@ + p
        + "bv*[height<="@);
    assert("]+ba/b[height<="@ =~= "]+ba"@ + p + "b[height<="@);
    assert("]/bv*+ba/b"@ =~= "]"@ + p + d + p + e);
    assert(format_text(height) =~= a + p + (b + p + (c + p + (d + p + e))));
    assert(split(format_text(height), p) =~= seq![a, b, c, d, e]);
}

// ---- The download --------------------------------------------------------------------------

/// Which name is the first that is this.
proof fn lemma_named(names: Seq<Seq<char>>, name: Seq<char>)
    requires
        names.len() <= usize::MAX,
    ensures
        match named(names, name) {
            Some(i) => i < names.len() && names[i as int] == name,
            None => forall|j: int| 0 <= j < names.len() ==> #[trigger] names[j] != name,
        },
    decreases names.len(),
{
    if names.len() > 0 {
        let front = names.drop_last();
        lemma_named(front, name);
        match named(front, name) {
            Some(i) => {
                assert(names[i as int] == front[i as int]);
            },
            None => {
                assert forall|j: int| 0 <= j < names.len() - 1 implies #[trigger] names[j] != name by {
                    assert(names[j] == front[j]);
                }
            },
        }
    }
}

/// Law: the video of an id is its `.mkv` where there is one, else its `.mp4`, else its `.webm`; and
/// there is none only where none of them is there.
pub proof fn law_video_file(names: Seq<Seq<char>>, id: Seq<char>, k: int)
    requires
        names.len() <= usize::MAX,
        0 <= k < names.len(),
    ensures
        video_file(names, id) matches Some(i) ==> i < names.len() && (names[i as int] == id + ".mkv"@
            || names[i as int] == id + ".mp4"@ || names[i as int] == id + ".webm"@),
        names[k] == id + ".mkv"@ ==> (video_file(names, id) matches Some(i) && names[i as int] == id
            + ".mkv"@),
        names[k] == id + ".mp4"@ ==> (video_file(names, id) matches Some(i) && names[i as int] != id
            + ".webm"@),
        names[k] == id + ".webm"@ ==> video_file(names, id) is Some,
{
    lemma_named(names, id + ".mkv"@);
    lemma_named(names, id + ".mp4"@);
    lemma_named(names, id + ".webm"@);
    reveal_strlit(".mkv");
    reveal_strlit(".mp4");
    reveal_strlit(".webm");
    assert((id + ".webm"@).len() != (id + ".mkv"@).len());
    assert((id + ".webm"@).len() != (id + ".mp4"@).len());
}

/// Law: a download that is there already is taken; otherwise the saved report is tried and, only
/// where that fails, a fresh extraction; after a success the video is looked for and taken, and a
/// second failure or a video that is not there ends it.
pub proof fn law_download_step(yt: YtDlp, d: Download, names: Seq<Seq<char>>, success: bool)
    ensures
        ({
            let files = DownloadEventView::Files(names);
            let ended = DownloadEventView::Ended { success };
            let start = download_step(yt, d, DownloadStage::Start, files);
            let saved = download_step(yt, d, DownloadStage::Saved, ended);
            let fresh = download_step(yt, d, DownloadStage::Fresh, ended);
            let looking = download_step(yt, d, DownloadStage::Looking, files);
            let line = |b: bool|
                DownloadActionView::Run(
                    download_line(yt, d.url@, d.template@, d.max_height, b),
                );
            &&& video_file(names, d.id@) matches Some(i) ==> start == (
                DownloadStage::Over,
                DownloadActionView::Existing(i),
            ) && looking == (DownloadStage::Over, DownloadActionView::Done(i))
            &&& video_file(names, d.id@) is None ==> start == (DownloadStage::Saved, line(false)) && looking
                == (DownloadStage::Over, DownloadActionView::NoFile)
            &&& success ==> saved == (DownloadStage::Looking, DownloadActionView::Look) && fresh == saved
            &&& !success ==> saved == (DownloadStage::Fresh, line(true)) && fresh == (
                DownloadStage::Over,
                DownloadActionView::Fail,
            )
        }),
{
}

} // verus!
