//! What becomes of a video, step by step, and how its files are named.

use crate::align::{flattened, zipped};
use crate::burn::zh_count;
use crate::captions::{collapsed, CueView};
use crate::number::decimal;
use crate::session::{advance, common_words, failure_text, file_stem, folder_name, safe_chars, sanitized, title_or_id, track_file, without_back, without_front, ActionView, EventView, FailureView, Options, StageView};
use crate::subs::{srt_document, zh_cues};
use crate::text::{is_white, joined, lemma_joined_push, words};
use crate::text_lemmas::{lemma_words_joined, solid};
use crate::ytdlp::{english_track, forced_track, listing, Info, TrackView};
use vstd::prelude::*;

verus! {

// ---- Steps ---------------------------------------------------------------------------------

/// Law: when captions with at least one cue come in, every cue is translated: there are as many
/// lines as cues, line by line the whole text of the cue; and the cues are kept for writing.
/// Captions without a cue fail, with the track's name.
pub proof fn law_lines_translated(opts: Options, info: Info, key: Seq<char>, cues: Seq<CueView>)
    ensures
        ({
            let (next, action) = advance(opts, info, StageView::Fetching(key), EventView::Captions(cues));
            &&& cues.len() > 0 ==> {
                &&& next == StageView::Translating(cues)
                &&& action matches ActionView::Translate(lines) && lines.len() == cues.len() && forall|i: int|
                    0 <= i < cues.len() ==> #[trigger] lines[i] == cues[i].text
            }
            &&& cues.len() == 0 ==> next is Over && action == ActionView::Fail(FailureView::NoCues(key))
        }),
{
}

/// How many lines are left of something on one line.
pub open spec fn filled(lines: Seq<Seq<char>>) -> nat
    decreases lines.len(),
{
    if lines.len() == 0 {
        0
    } else {
        filled(lines.drop_first()) + if flattened(lines[0]).len() > 0 {
            1nat
        } else {
            0nat
        }
    }
}

/// Counting from either end gives the same.
proof fn lemma_filled(lines: Seq<Seq<char>>)
    ensures
        lines.len() > 0 ==> filled(lines) == filled(lines.drop_last()) + if flattened(
            lines.last(),
        ).len() > 0 {
            1nat
        } else {
            0nat
        },
    decreases lines.len(),
{
    if lines.len() > 1 {
        lemma_filled(lines.drop_first());
        assert(lines.drop_first().drop_last() =~= lines.drop_last().drop_first());
        assert(lines.drop_last()[0] == lines[0]);
    } else if lines.len() == 1 {
        assert(lines.drop_last() =~= Seq::empty());
        assert(lines.drop_first() =~= Seq::empty());
    }
}

/// What is counted of cues is what their translations hold.
proof fn lemma_zh_count(cues: Seq<CueView>, lines: Seq<Seq<char>>)
    requires
        cues.len() == lines.len(),
    ensures
        zh_count(zipped(cues, lines)) == filled(lines),
    decreases cues.len(),
{
    if cues.len() > 0 {
        lemma_zh_count(cues.drop_last(), lines.drop_last());
        lemma_filled(lines);
        assert(zipped(cues, lines).drop_last() =~= zipped(cues.drop_last(), lines.drop_last()));
    }
}

/// Law: once there is a translation of every cue, the English sidecar holds all cues as they came
/// in, the Chinese one holds line by line the translation on one line at the times of its cue, and
/// the counts are those of the cues and of the translations that say something.
pub proof fn law_sidecars_written(opts: Options, info: Info, cues: Seq<CueView>, lines: Seq<Seq<char>>)
    requires
        cues.len() == lines.len(),
    ensures
        ({
            let (next, action) = advance(
                opts,
                info,
                StageView::Translating(cues),
                EventView::Translations(lines),
            );
            let chinese = Seq::new(
                cues.len(),
                |i: int|
                    CueView {
                        start_ms: cues[i].start_ms,
                        end_ms: cues[i].end_ms,
                        text: flattened(lines[i]),
                    },
            );
            &&& next is Writing
            &&& action == ActionView::Write {
                en: srt_document(cues),
                zh: srt_document(chinese),
                cues: cues.len(),
                with_zh: filled(lines),
            }
        }),
{
    lemma_zh_count(cues, lines);
    let chinese = Seq::new(
        cues.len(),
        |i: int|
            CueView {
                start_ms: cues[i].start_ms,
                end_ms: cues[i].end_ms,
                text: flattened(lines[i]),
            },
    );
    assert(zh_cues(zipped(cues, lines)) =~= chinese);
}

/// Law: a video begins with a listing where one is asked for, and otherwise with its directories;
/// the work directory is cleared only where it exists and a fresh start is asked for.
pub proof fn law_begins(opts: Options, info: Info, work_exists: bool)
    ensures
        ({
            let (next, action) = advance(opts, info, StageView::Start, EventView::Begin { work_exists });
            &&& opts.list_subs ==> next is Over && action == ActionView::List(listing(info))
            &&& !opts.list_subs ==> next is Preparing && (action matches ActionView::Prepare { clear }
                && (clear <==> opts.force && work_exists))
        }),
{
}

/// Law: the track that is fetched is the one that was asked for, or else the English one; where it
/// does not exist the video fails, with the name that was asked for where one was.
pub proof fn law_fetches(opts: Options, info: Info)
    ensures
        ({
            let (next, action) = advance(opts, info, StageView::Preparing, EventView::Done);
            let t = match opts.en_lang {
                Some(key) => forced_track(info, key@),
                None => english_track(info),
            };
            &&& t is Some ==> action == ActionView::Fetch(t->0) && next == StageView::Fetching(t->0.key)
            &&& t is None ==> next is Over && action == ActionView::Fail(
                match opts.en_lang {
                    Some(key) => FailureView::NoTrack(key@),
                    None => FailureView::NoEnglish,
                },
            )
        }),
{
}

/// Where a video is in the order of what is left to do: the download, the link, the audio, the
/// burning, the cleaning.
pub open spec fn place(s: StageView) -> int {
    match s {
        StageView::Writing => 0,
        StageView::Downloading => 1,
        StageView::Linking => 2,
        StageView::Extracting => 3,
        StageView::Burning => 4,
        StageView::Cleaning => 5,
        _ => 6,
    }
}

/// What is left to do at each place.
pub open spec fn work_at(p: int) -> ActionView {
    if p == 1 {
        ActionView::Download
    } else if p == 2 {
        ActionView::Link
    } else if p == 3 {
        ActionView::Extract
    } else if p == 4 {
        ActionView::Burn
    } else if p == 5 {
        ActionView::Clean
    } else {
        ActionView::Finish
    }
}

/// Whether there is something to do at a place.
pub open spec fn wanted(opts: Options, p: int, s: StageView, e: EventView) -> bool {
    if p == 1 {
        !opts.no_video
    } else if p == 2 {
        e matches EventView::Downloaded { mkv_exists } && !mkv_exists
    } else if p == 3 {
        opts.audio && !(s is Writing)
    } else if p == 4 {
        opts.burn && !(s is Writing)
    } else if p == 5 {
        opts.clean
    } else {
        true
    }
}

/// Law: once the sidecars are written, the first thing that is left and wanted is done next: the
/// download unless only subtitles are wanted, the link where the video is not in its folder yet,
/// the audio, the burning, the cleaning; then the video is finished. Without video there is neither
/// audio nor burning.
pub proof fn law_next_work(opts: Options, info: Info, s: StageView, e: EventView, q: int)
    requires
        s is Writing || s is Downloading || s is Linking || s is Extracting || s is Burning || s is Cleaning,
        s is Downloading <==> e is Downloaded,
        !(s is Downloading) ==> e is Done,
    ensures
        ({
            let (next, action) = advance(opts, info, s, e);
            &&& place(s) < place(next)
            &&& action == work_at(place(next))
            &&& wanted(opts, place(next), s, e)
            &&& place(s) < q < place(next) ==> !wanted(opts, q, s, e)
        }),
{
}

// ---- Names ---------------------------------------------------------------------------------

/// Law: in a title a reserved character counts as an underscore and a control character as a
/// space, wherever it stands.
pub proof fn law_title_char(a: Seq<char>, c: char, b: Seq<char>)
    ensures
        c == '/' || c == '\\' || c == ':' || c == '*' || c == '?' || c == '"' || c == '<' || c == '>' || c
            == '|' ==> sanitized(a + seq![c] + b) == sanitized(a + seq!['_'] + b),
        c as u32 <= 0x1f || 0x7f <= c as u32 <= 0x9f ==> sanitized(a + seq![c] + b) == sanitized(
            a + seq![' '] + b,
        ),
{
    let bad = seq!['/', '\\', ':', '*', '?', '"', '<', '>', '|'];
    assert(bad[0] == '/' && bad[1] == '\\' && bad[2] == ':' && bad[3] == '*' && bad[4] == '?' && bad[5]
        == '"' && bad[6] == '<' && bad[7] == '>' && bad[8] == '|');
    assert(!bad.contains('_') && !bad.contains(' '));
    if bad.contains(c) {
        assert(safe_chars(a + seq![c] + b) =~= safe_chars(a + seq!['_'] + b));
    } else if c as u32 <= 0x1f || 0x7f <= c as u32 <= 0x9f {
        assert(safe_chars(a + seq![c] + b) =~= safe_chars(a + seq![' '] + b));
    }
}

/// Whether a character may stand in a file name as it is.
pub open spec fn tame(c: char) -> bool {
    &&& c != '/' && c != '\\' && c != ':' && c != '*' && c != '?'
    &&& c != '"' && c != '<' && c != '>' && c != '|'
    &&& c as u32 > 0x1f && !(0x7f <= c as u32 <= 0x9f)
}

/// Law: a title of words with single spaces between, without reserved or control characters and
/// without a point at either end, stays as it is up to its hundredth character.
pub proof fn law_title_stays(ws: Seq<Seq<char>>)
    requires
        ws.len() > 0,
        forall|i: int| 0 <= i < ws.len() ==> solid(#[trigger] ws[i]) && ws[i].len() > 0,
        forall|i: int|
            0 <= i < joined(ws, seq![' ']).len() ==> tame(#[trigger] joined(ws, seq![' '])[i]),
        joined(ws, seq![' '])[0] != '.',
        joined(ws, seq![' ']).last() != '.',
    ensures
        ({
            let title = joined(ws, seq![' ']);
            sanitized(title) == if title.len() > 100 {
                title.take(100)
            } else {
                title
            }
        }),
{
    let title = joined(ws, seq![' ']);
    crate::text_lemmas::lemma_joined_words(ws);
    let bad = seq!['/', '\\', ':', '*', '?', '"', '<', '>', '|'];
    assert forall|i: int| 0 <= i < title.len() implies #[trigger] safe_chars(title)[i] == title[i] by {
        assert(tame(title[i]));
        if bad.contains(title[i]) {
            let k = choose|k: int| 0 <= k < bad.len() && bad[k] == title[i];
        }
    }
    assert(safe_chars(title) =~= title);
    lemma_words_joined(ws);
    assert(collapsed(title) == title);
    assert(!is_white(title[0]) && !is_white(title.last()));
    assert(is_white(' '));
    assert(without_front(title) == title);
    assert(without_back(title) == title);
}

/// Text put in front of the first of joined texts stands in front.
proof fn lemma_joined_front(ws: Seq<Seq<char>>, p: Seq<char>)
    requires
        ws.len() > 0,
    ensures
        joined(ws.update(0, p + ws[0]), seq![' ']) == p + joined(ws, seq![' ']),
{
    let vs = ws.update(0, p + ws[0]);
    assert(vs.drop_first() =~= ws.drop_first());
    assert(joined(vs, seq![' ']) =~= p + joined(ws, seq![' ']));
}

/// Text put behind the last of joined texts stands behind.
proof fn lemma_joined_back(ws: Seq<Seq<char>>, p: Seq<char>)
    requires
        ws.len() > 0,
    ensures
        joined(ws.drop_last().push(ws.last() + p), seq![' ']) == joined(ws, seq![' ']) + p,
{
    let front = ws.drop_last();
    let sep = seq![' '];
    assert(front.push(ws.last()) =~= ws);
    if front.len() > 0 {
        lemma_joined_push(front, ws.last(), sep);
        lemma_joined_push(front, ws.last() + p, sep);
        assert(joined(front, sep) + sep + (ws.last() + p) =~= joined(front, sep) + sep + ws.last() + p);
    }
}

/// Points in front go.
proof fn lemma_front_points(n: nat, s: Seq<char>)
    requires
        s.len() > 0,
        s[0] != '.' && s[0] != ' ',
    ensures
        without_front(points(n) + s) == s,
    decreases n,
{
    let t = points(n) + s;
    if n > 0 {
        lemma_front_points((n - 1) as nat, s);
        assert(t.drop_first() =~= points((n - 1) as nat) + s);
    } else {
        assert(t =~= s);
    }
}

/// Points at the end go.
proof fn lemma_back_points(n: nat, s: Seq<char>)
    requires
        s.len() > 0,
        s.last() != '.' && s.last() != ' ',
    ensures
        without_back(s + points(n)) == s,
    decreases n,
{
    let t = s + points(n);
    if n > 0 {
        lemma_back_points((n - 1) as nat, s);
        assert(t.drop_last() =~= s + points((n - 1) as nat));
    } else {
        assert(t =~= s);
    }
}

/// So many points.
pub open spec fn points(n: nat) -> Seq<char> {
    Seq::new(n, |i: int| '.')
}

/// Law: points at both ends of a title go before it is cut to a hundred characters.
pub proof fn law_title_points(ws: Seq<Seq<char>>, n: nat, m: nat)
    requires
        ws.len() > 0,
        forall|i: int| 0 <= i < ws.len() ==> solid(#[trigger] ws[i]) && ws[i].len() > 0,
        forall|i: int|
            0 <= i < joined(ws, seq![' ']).len() ==> tame(#[trigger] joined(ws, seq![' '])[i]),
        joined(ws, seq![' '])[0] != '.',
        joined(ws, seq![' ']).last() != '.',
    ensures
        sanitized(points(n) + joined(ws, seq![' ']) + points(m)) == sanitized(joined(ws, seq![' '])),
{
    let title = joined(ws, seq![' ']);
    let (a, b) = (points(n), points(m));
    let s = a + title + b;
    let us = ws.update(0, a + ws[0]);
    let vs = us.drop_last().push(us.last() + b);
    lemma_joined_front(ws, a);
    lemma_joined_back(us, b);
    assert(joined(vs, seq![' ']) == s);
    assert forall|i: int| 0 <= i < us.len() implies solid(#[trigger] us[i]) && us[i].len() > 0 by {
        assert(solid(ws[i]) && ws[i].len() > 0);
        if i == 0 {
            let u = a + ws[0];
            assert forall|j: int| 0 <= j < u.len() implies !is_white(#[trigger] u[j]) by {
                if j >= n {
                    assert(u[j] == ws[0][j - n]);
                }
            }
        }
    }
    assert forall|i: int| 0 <= i < vs.len() implies solid(#[trigger] vs[i]) && vs[i].len() > 0 by {
        assert(solid(us[i]) && us[i].len() > 0);
        if i == vs.len() - 1 {
            let x = us.last();
            let u = x + b;
            assert(us.last() == us[us.len() - 1]);
            assert forall|j: int| 0 <= j < u.len() implies !is_white(#[trigger] u[j]) by {
                if j < x.len() {
                    assert(u[j] == x[j]);
                }
            }
        } else {
            assert(vs[i] == us[i]);
        }
    }
    lemma_words_joined(vs);
    assert(collapsed(s) == s);
    let bad = seq!['/', '\\', ':', '*', '?', '"', '<', '>', '|'];
    assert forall|i: int| 0 <= i < s.len() implies #[trigger] safe_chars(s)[i] == s[i] by {
        assert(tame('.'));
        if n <= i && i < n + title.len() {
            assert(s[i] == title[i - n]);
            assert(tame(title[i - n]));
        }
        assert(tame(s[i]));
        if bad.contains(s[i]) {
            let k = choose|k: int| 0 <= k < bad.len() && bad[k] == s[i];
        }
    }
    assert(safe_chars(s) =~= s);
    crate::text_lemmas::lemma_joined_words(ws);
    assert(is_white(' '));
    assert(s =~= a + (title + b));
    assert((title + b)[0] == title[0]);
    lemma_front_points(n, title + b);
    lemma_back_points(m, title);
    law_title_stays(ws);
}

/// Law: a title of which nothing is left is called `video`.
pub proof fn law_title_empty(n: nat)
    ensures
        sanitized(points(n)) == "video"@,
    decreases n,
{
    let s = Seq::new(n, |i: int| '.');
    let bad = seq!['/', '\\', ':', '*', '?', '"', '<', '>', '|'];
    assert(!bad.contains('.'));
    assert(safe_chars(s) =~= s);
    if n > 0 {
        assert forall|i: int| 0 <= i < s.len() implies !is_white(#[trigger] s[i]) by {}
        crate::text_lemmas::lemma_words_solid(s);
        assert(words(s) =~= seq![s]);
        assert(collapsed(s) == s);
    } else {
        assert(words(s) =~= Seq::empty());
        assert(collapsed(s) =~= s);
    }
    lemma_points(n);
}

/// Nothing but points is nothing.
proof fn lemma_points(n: nat)
    ensures
        without_front(Seq::new(n, |i: int| '.')).len() == 0,
    decreases n,
{
    let s = Seq::new(n, |i: int| '.');
    if n > 0 {
        lemma_points((n - 1) as nat);
        assert(s.drop_first() =~= Seq::new((n - 1) as nat, |i: int| '.'));
    }
}

/// Law: a folder's name begins with the id in brackets, a file's name with the title and ends with
/// the id in brackets; both hold the sanitised title.
pub proof fn law_names(title: Seq<char>, id: Seq<char>)
    ensures
        ({
            let f = folder_name(id, title);
            let s = file_stem(title, id);
            let t = sanitized(title);
            let n = id.len() as int;
            let k = t.len() as int;
            &&& f.len() == s.len() == t.len() + n + 3
            &&& f[0] == '[' && f.subrange(1, n + 1) == id && f[n + 1] == ']' && f[n + 2] == ' '
            &&& f.skip(n + 3) == t
            &&& s.take(k) == t
            &&& s[k] == ' ' && s[k + 1] == '[' && s.last() == ']'
            &&& s.subrange(k + 2, k + 2 + n) == id
        }),
        title_or_id(title, id) == if title.len() > 0 {
            title
        } else {
            id
        },
{
    reveal_strlit(" [");
    reveal_strlit("]");
    let f = folder_name(id, title);
    let s = file_stem(title, id);
    let t = sanitized(title);
    let n = id.len() as int;
    assert(f.subrange(1, n + 1) =~= id);
    assert(f.skip(n + 3) =~= t);
    assert(s.take(t.len() as int) =~= t);
    let k = t.len() as int;
    assert(s.subrange(k + 2, k + 2 + n) =~= id);
}

/// Law: where ids and keys hold no point, a kept track's document is named by the id, the track's
/// key, whether it is automatic, and its format, so different tracks are kept apart.
pub proof fn law_track_files(a: TrackView, b: TrackView, id: Seq<char>)
    requires
        track_file(a, id) == track_file(b, id),
        crate::text_lemmas::lacks(a.key, '.'),
        crate::text_lemmas::lacks(b.key, '.'),
    ensures
        a.key == b.key,
        a.auto == b.auto,
        a.ext == b.ext,
{
    reveal_strlit(".");
    reveal_strlit("manual");
    reveal_strlit("auto");
    let x = track_file(a, id);
    let y = track_file(b, id);
    let n = id.len() as int;
    assert(x[n + 1 + a.key.len()] == '.');
    assert(y[n + 1 + b.key.len()] == '.');
    if a.key.len() < b.key.len() {
        assert(y[n + 1 + a.key.len()] == b.key[a.key.len() as int]);
    }
    if b.key.len() < a.key.len() {
        assert(x[n + 1 + b.key.len()] == a.key[b.key.len() as int]);
    }
    assert(x.subrange(n + 1, n + 1 + a.key.len()) =~= a.key);
    assert(y.subrange(n + 1, n + 1 + b.key.len()) =~= b.key);
    let m = n + 2 + a.key.len();
    assert(x[m] == if a.auto { 'a' } else { 'm' });
    assert(y[m] == if b.auto { 'a' } else { 'm' });
    let k = m + crate::ytdlp::track_kind(a.auto).len() + 1;
    assert(x.skip(k) =~= a.ext);
    assert(y.skip(k) =~= b.ext);
}

/// Law: cookies of a browser and of a file are passed on as options with a value where they are
/// given, in this order, and what the user passes through stands at the end, word by word.
pub proof fn law_common_words(browser: Option<Seq<char>>, cookies: Option<Seq<char>>, more: Seq<Seq<char>>)
    ensures
        ({
            let w = common_words(browser, cookies, more);
            let n = if browser is Some {
                2int
            } else {
                0int
            };
            let m = if cookies is Some {
                n + 2
            } else {
                n
            };
            &&& w.len() == m + more.len()
            &&& browser matches Some(b) ==> w[0] == "--cookies-from-browser"@ && w[1] == b
            &&& cookies matches Some(c) ==> w[n] == "--cookies"@ && w[n + 1] == c
            &&& w.skip(m) == more
        }),
{
    let w = common_words(browser, cookies, more);
    let m = w.len() - more.len();
    assert(w.skip(m) =~= more);
}

/// Law: failures are told where there are any, with their number.
pub proof fn law_failure_text(n: nat)
    ensures
        failure_text(0) is None,
        n > 0 ==> failure_text(n) == Some(decimal(n) + " video(s) failed"@),
{
}

} // verus!
