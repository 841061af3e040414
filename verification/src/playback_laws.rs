//! What playback shows and when it stops: sentences, cues, pauses and places in terms of times and
//! characters.

use crate::align::{flattened, pieced, BiCueView};
use crate::overlay::{chunk_ends, chunk_starts, chunks_from, closers, covering, cue_ends, cue_starts, dragged_to, ends_sentence, frame_of, law_chunks_cover, law_chunks_end, lemma_setting, lemma_started, placement, position_of, refresh_step, reported, saved_position, sentence_en, sentence_zh, setting, shadow_step, shadowing_wf, shows, started, status_size, style_text, zh_size, starting_position, terminals, without_tail, Chunk, Event, FrameView, Pausing, Position, Shadowing, Shared, StatusView, Volume};
use crate::number::{read_i32, signed_decimal};
use crate::play_laws::law_flattened_lines;
use crate::subtitle_laws::lemma_scaled;
use crate::text::{is_white, joined, lemma_joined_push, replaced, trim_back, trimmed};
use crate::text_lemmas::{lacks, lemma_find_absent, lemma_split_first, lemma_trim_solid, solid};
use vstd::prelude::*;

verus! {

// ---- Sentences -----------------------------------------------------------------------------

/// Law: a sentence goes on as long as no cue of it but the last ends `max_ms` or more after the
/// sentence began, ends with a terminal mark, or is followed by a silence of 0.7 s; and it ends
/// with a cue of which one of these holds, or with the last cue. Its times are those of its first
/// and its last cue.
pub proof fn law_sentence_times(s: Seq<BiCueView>, max_ms: u64, k: int)
    requires
        s.len() <= usize::MAX,
        0 <= k < chunks_from(s, 0, max_ms).len(),
    ensures
        ({
            let c = chunks_from(s, 0, max_ms)[k];
            &&& c.first <= c.last < s.len()
            &&& c.start_ms == s[c.first as int].start_ms
            &&& c.end_ms == s[c.last as int].end_ms
            &&& forall|j: int|
                c.first <= j < c.last ==> (#[trigger] s[j]).end_ms - s[c.first as int].start_ms < max_ms
                    && s[j + 1].start_ms - s[j].end_ms < 700 && !ends_sentence(s[j].en)
            &&& {
                ||| c.last == s.len() - 1
                ||| max_ms == 0
                ||| s[c.last as int].end_ms - s[c.first as int].start_ms >= max_ms
                ||| s[c.last + 1].start_ms - s[c.last as int].end_ms >= 700
                ||| ends_sentence(s[c.last as int].en)
            }
        }),
{
    law_chunks_cover(s, 0, max_ms);
    law_chunks_end(s, 0, max_ms);
    let all = chunks_from(s, 0, max_ms);
    let c = all[k];
    lemma_last_grows(all, k);
    assert forall|j: int| c.first <= j < c.last implies (#[trigger] s[j]).end_ms
        - s[c.first as int].start_ms < max_ms && s[j + 1].start_ms - s[j].end_ms < 700
        && !ends_sentence(s[j].en) by {
        assert(!crate::overlay::ends_chunk(s, c.first as int, j, max_ms));
    }
}

/// No sentence ends behind the last one.
proof fn lemma_last_grows(c: Seq<Chunk>, k: int)
    requires
        0 <= k < c.len(),
        forall|k: int| 0 <= k < c.len() ==> (#[trigger] c[k]).first <= c[k].last,
        forall|k: int| 1 <= k < c.len() ==> (#[trigger] c[k]).first == c[k - 1].last + 1,
    ensures
        c[k].last <= c.last().last,
    decreases c.len() - k,
{
    if k + 1 < c.len() {
        lemma_last_grows(c, k + 1);
        assert(c[k + 1].first == c[k].last + 1);
    }
}

/// Law: every cue belongs to exactly one sentence, and sentences keep the order of the cues.
pub proof fn law_sentence_order(s: Seq<BiCueView>, max_ms: u64, j: int, k: int)
    requires
        s.len() <= usize::MAX,
        0 <= j < k < chunks_from(s, 0, max_ms).len(),
    ensures
        chunks_from(s, 0, max_ms)[j].last < chunks_from(s, 0, max_ms)[k].first,
    decreases k - j,
{
    law_chunks_cover(s, 0, max_ms);
    let c = chunks_from(s, 0, max_ms);
    assert(c[j + 1].first == c[j].last + 1);
    if j + 1 < k {
        assert(c[j + 1].first <= c[j + 1].last);
        law_sentence_order(s, max_ms, j + 1, k);
    }
}

/// Whether a character ends a sentence, in English or in Chinese.
pub open spec fn full_stop(c: char) -> bool {
    c == '.' || c == '?' || c == '!' || c == '。' || c == '？' || c == '！'
}

/// Whether a character closes a quotation or a bracket.
pub open spec fn closing_mark(c: char) -> bool {
    c == '"' || c == '\'' || c == ')' || c == ']' || c == '”' || c == '』' || c == '」'
}

/// Whether a terminal mark stands at `i`, closing marks from there to `j`, and white space from
/// `j` on.
pub open spec fn stops_at(s: Seq<char>, i: int, j: int) -> bool {
    &&& 0 <= i < j <= s.len()
    &&& full_stop(s[i])
    &&& forall|k: int| i < k < j ==> closing_mark(#[trigger] s[k])
    &&& forall|k: int| j <= k < s.len() ==> is_white(#[trigger] s[k])
}

/// Removing white space at the end cuts a text where its white space at the end begins.
proof fn lemma_trim_back_cut(s: Seq<char>)
    ensures
        trim_back(s).len() <= s.len(),
        trim_back(s) == s.take(trim_back(s).len() as int),
        forall|k: int| trim_back(s).len() <= k < s.len() ==> is_white(#[trigger] s[k]),
        trim_back(s).len() > 0 ==> !is_white(trim_back(s).last()),
    decreases s.len(),
{
    if s.len() > 0 && is_white(s.last()) {
        let front = s.drop_last();
        lemma_trim_back_cut(front);
        let n = trim_back(s).len() as int;
        assert(front.take(n) =~= s.take(n));
        assert forall|k: int| n <= k < s.len() implies is_white(#[trigger] s[k]) by {
            if k < front.len() {
                assert(front[k] == s[k]);
            }
        }
    } else {
        assert(s.take(s.len() as int) =~= s);
    }
}

/// Removing characters at the end cuts a text where they begin.
proof fn lemma_without_tail_cut(s: Seq<char>, tail: Seq<char>)
    ensures
        without_tail(s, tail).len() <= s.len(),
        without_tail(s, tail) == s.take(without_tail(s, tail).len() as int),
        forall|k: int| without_tail(s, tail).len() <= k < s.len() ==> tail.contains(#[trigger] s[k]),
        without_tail(s, tail).len() > 0 ==> !tail.contains(without_tail(s, tail).last()),
    decreases s.len(),
{
    if s.len() > 0 && tail.contains(s.last()) {
        let front = s.drop_last();
        lemma_without_tail_cut(front, tail);
        let n = without_tail(s, tail).len() as int;
        assert(front.take(n) =~= s.take(n));
        assert forall|k: int| n <= k < s.len() implies tail.contains(#[trigger] s[k]) by {
            if k < front.len() {
                assert(front[k] == s[k]);
            }
        }
    } else {
        assert(s.take(s.len() as int) =~= s);
    }
}

/// What the two lists of marks hold.
proof fn lemma_marks(c: char)
    ensures
        closers().contains(c) <==> closing_mark(c),
        terminals().contains(c) <==> full_stop(c),
        closing_mark(c) ==> !full_stop(c),
        closing_mark(c) || full_stop(c) ==> !is_white(c),
{
    let a = closers();
    let b = terminals();
    if closing_mark(c) {
        assert(a[0] == '"' && a[1] == '\'' && a[2] == ')' && a[3] == ']' && a[4] == '”' && a[5] == '』'
            && a[6] == '」');
    }
    if full_stop(c) {
        assert(b[0] == '.' && b[1] == '?' && b[2] == '!' && b[3] == '。' && b[4] == '？' && b[5]
            == '！');
    }
}

/// Law: a text ends a sentence where a terminal mark stands in it with nothing behind it but
/// closing marks and, behind those, white space; and only there.
pub proof fn law_sentence_mark(s: Seq<char>)
    ensures
        ends_sentence(s) <==> exists|i: int, j: int| #[trigger] stops_at(s, i, j),
{
    let t = trim_back(s);
    let u = without_tail(t, closers());
    lemma_trim_back_cut(s);
    lemma_without_tail_cut(t, closers());
    if ends_sentence(s) {
        lemma_marks(u.last());
        assert forall|k: int| u.len() - 1 < k < t.len() implies closing_mark(#[trigger] s[k]) by {
            assert(s[k] == t[k]);
            lemma_marks(t[k]);
        }
        assert(stops_at(s, u.len() - 1, t.len() as int));
    }
    if exists|i: int, j: int| #[trigger] stops_at(s, i, j) {
        let (i, j) = choose|i: int, j: int| #[trigger] stops_at(s, i, j);
        lemma_marks(s[i]);
        if i < j - 1 {
            lemma_marks(s[j - 1]);
        }
        assert(!is_white(s[j - 1]));
        if t.len() < j {
            assert(is_white(s[j - 1]));
        }
        if t.len() > j {
            assert(is_white(s[t.len() - 1]));
        }
        assert(t.len() == j);
        if u.len() <= i {
            assert(closers().contains(t[i]));
        }
        if u.len() > i + 1 {
            assert(closing_mark(s[u.len() - 1]));
            lemma_marks(s[u.len() - 1]);
        }
        assert(u.last() == s[i]);
    }
}

// ---- Looking up a time ---------------------------------------------------------------------

/// Law: the cue at a time is the last one that has started by then, where it has not ended; there
/// is none otherwise.
pub proof fn law_cue_at(s: Seq<BiCueView>, t: u64, i: int)
    requires
        s.len() <= usize::MAX,
        0 <= i < s.len(),
        forall|a: int, b: int| 0 <= a <= b < s.len() ==> (#[trigger] s[a]).start_ms <= (#[trigger] s[b]).start_ms,
    ensures
        covering(cue_starts(s), cue_ends(s), t) == Some(i as usize) <==> {
            &&& s[i].start_ms <= t < s[i].end_ms
            &&& i + 1 < s.len() ==> t < s[i + 1].start_ms
        },
        covering(cue_starts(s), cue_ends(s), t) matches Some(n) ==> n < s.len(),
{
    let starts = cue_starts(s);
    assert forall|a: int, b: int| 0 <= a <= b < starts.len() implies starts[a] <= starts[b] by {
        assert(s[a].start_ms <= s[b].start_ms);
    }
    lemma_started(starts, t, 0, starts.len() as int);
    let n = started(starts, t, 0, starts.len() as int);
    assert(i < n <==> starts[i] <= t);
    if i + 1 < s.len() {
        assert(i + 1 < n <==> starts[i + 1] <= t);
    }
}

/// Law: the sentence at a time is the last one that has started by then, where it has not ended;
/// there is none otherwise.
pub proof fn law_sentence_at(s: Seq<Chunk>, t: u64, i: int)
    requires
        s.len() <= usize::MAX,
        0 <= i < s.len(),
        forall|a: int, b: int| 0 <= a <= b < s.len() ==> (#[trigger] s[a]).start_ms <= (#[trigger] s[b]).start_ms,
    ensures
        covering(chunk_starts(s), chunk_ends(s), t) == Some(i as usize) <==> {
            &&& s[i].start_ms <= t < s[i].end_ms
            &&& i + 1 < s.len() ==> t < s[i + 1].start_ms
        },
        covering(chunk_starts(s), chunk_ends(s), t) matches Some(n) ==> n < s.len(),
{
    let starts = chunk_starts(s);
    assert forall|a: int, b: int| 0 <= a <= b < starts.len() implies starts[a] <= starts[b] by {
        assert(s[a].start_ms <= s[b].start_ms);
    }
    lemma_started(starts, t, 0, starts.len() as int);
    let n = started(starts, t, 0, starts.len() as int);
    assert(i < n <==> starts[i] <= t);
    if i + 1 < s.len() {
        assert(i + 1 < n <==> starts[i + 1] <= t);
    }
}

// ---- Shadowing -----------------------------------------------------------------------------

/// Law: while playing, a pause begins only for the sentence that was last seen, only from 30 ms
/// before its end to half a second after it, and only where it was not practised already; it then
/// lasts as long as that sentence's pause, counted from now.
pub proof fn law_pause_begins(s: Shadowing, chunks: Seq<Chunk>, pauses: Seq<u64>, t: u64, paused: bool, now: u64, k: usize)
    requires
        shadowing_wf(s, chunks.len()),
        s.pausing is None,
        s.seen == Some(k),
        now + pauses[k as int] <= u64::MAX,
    ensures
        ({
            let next = shadow_step(s, chunks, pauses, t, paused, now);
            let c = chunks[k as int];
            let practised = s.shadowed == Some(k) && c.start_ms <= t;
            &&& next.pause == Some(true) <==> next.state.pausing is Some
            &&& next.state.pausing is Some <==> !paused && !practised && c.end_ms - 30 <= t < c.end_ms
                + 500
            &&& next.state.pausing matches Some(p) ==> p.chunk == k && p.until - now == pauses[k as int]
                && !p.confirmed
            &&& next.pause != Some(false)
            &&& next.repeat is None
        }),
{
}

/// Law: before any sentence was seen, nothing is paused.
pub proof fn law_no_pause_unseen(s: Shadowing, chunks: Seq<Chunk>, pauses: Seq<u64>, t: u64, paused: bool, now: u64)
    requires
        shadowing_wf(s, chunks.len()),
        s.pausing is None,
        s.seen is None,
    ensures
        ({
            let next = shadow_step(s, chunks, pauses, t, paused, now);
            next.pause is None && next.state.pausing is None && next.repeat is None
        }),
{
}

/// Law: while playing, the sentence that covers the time becomes the one last seen, and where none
/// covers it the one before stays; a practised sentence is forgotten where playback is in front of
/// it.
pub proof fn law_seen(s: Shadowing, chunks: Seq<Chunk>, pauses: Seq<u64>, t: u64, paused: bool, now: u64, i: int)
    requires
        shadowing_wf(s, chunks.len()),
        chunks.len() <= usize::MAX,
        s.pausing is None,
        0 <= i < chunks.len(),
        forall|a: int, b: int|
            0 <= a <= b < chunks.len() ==> (#[trigger] chunks[a]).start_ms <= (#[trigger] chunks[b]).start_ms,
    ensures
        ({
            let next = shadow_step(s, chunks, pauses, t, paused, now);
            &&& chunks[i].start_ms <= t < chunks[i].end_ms && (i + 1 < chunks.len() ==> t < chunks[i
                + 1].start_ms) ==> next.state.seen == Some(i as usize)
            &&& next.state.seen == s.seen || (next.state.seen matches Some(n) && chunks[n as int].start_ms
                <= t < chunks[n as int].end_ms)
            &&& s.shadowed matches Some(n) ==> next.state.shadowed == if t < chunks[n as int].start_ms {
                None
            } else {
                Some(n)
            }
            &&& s.shadowed is None ==> next.state.shadowed is None
        }),
{
    law_sentence_at(chunks, t, i);
    if let Some(n) = covering(chunk_starts(chunks), chunk_ends(chunks), t) {
        law_sentence_at(chunks, t, n as int);
    }
}

/// Law: a pause waits until mpv has confirmed it, then counts down; while it lasts nothing is
/// told to mpv, and the sentence is shown with the time that is left. It ends when its time is
/// over, and mpv is then told to go on, or when the listener has gone on, and mpv is then told
/// nothing; either way its sentence counts as practised.
pub proof fn law_pause_lasts(s: Shadowing, chunks: Seq<Chunk>, pauses: Seq<u64>, t: u64, paused: bool, now: u64, p: Pausing)
    requires
        s.pausing == Some(p),
    ensures
        ({
            let next = shadow_step(s, chunks, pauses, t, paused, now);
            &&& next.state.seen == s.seen
            &&& next.state.pausing is None <==> (paused && now >= p.until) || (p.confirmed && !paused)
            &&& next.state.pausing is None ==> next.state.shadowed == Some(p.chunk) && next.repeat is None
                && next.pause == if paused {
                Some(false)
            } else {
                None
            }
            &&& next.state.pausing matches Some(q) ==> {
                &&& q.chunk == p.chunk
                &&& q.until == p.until
                &&& q.confirmed == (p.confirmed || paused)
                &&& next.state.shadowed == s.shadowed
                &&& next.pause is None
                &&& next.repeat matches Some((chunk, left)) && chunk == p.chunk && (now <= p.until ==> left
                    == p.until - now) && (now > p.until ==> left == 0)
            }
        }),
{
}

// ---- What the bar shows --------------------------------------------------------------------

/// Law: without a sentence to repeat, the bar shows the whole text of the cue at the playback
/// time, in both languages, and nothing where there is no such cue or no time yet.
pub proof fn law_frame_cue(player: Shared, s: Seq<BiCueView>, chunks: Seq<Chunk>, now: u64, i: int)
    requires
        s.len() <= usize::MAX,
        0 <= i < s.len(),
        forall|a: int, b: int| 0 <= a <= b < s.len() ==> (#[trigger] s[a]).start_ms <= (#[trigger] s[b]).start_ms,
    ensures
        ({
            let f = frame_of(player, s, chunks, None, now);
            &&& player.time_ms matches Some(t) ==> (s[i].start_ms <= t < s[i].end_ms && (i + 1 < s.len()
                ==> t < s[i + 1].start_ms) ==> f.en == s[i].en && f.zh == s[i].zh)
            &&& player.time_ms matches Some(t) ==> ((forall|a: int|
                0 <= a < s.len() ==> t < (#[trigger] s[a]).start_ms || s[a].end_ms <= t) ==> f.en.len() == 0
                && f.zh.len() == 0)
            &&& player.time_ms is None ==> f.en.len() == 0 && f.zh.len() == 0
        }),
{
    if let Some(t) = player.time_ms {
        law_cue_at(s, t, i);
        if let Some(n) = covering(cue_starts(s), cue_ends(s), t) {
            law_cue_at(s, t, n as int);
        }
    }
}

/// Law: a pause is what the status says first, then a volume whose time is not over; while a
/// sentence is repeated it says how long there is for it.
pub proof fn law_frame_status(player: Shared, s: Seq<BiCueView>, chunks: Seq<Chunk>, k: usize, left: u64, now: u64)
    ensures
        frame_of(player, s, chunks, Some((k, left)), now).status == StatusView::Repeat(left),
        frame_of(player, s, chunks, None, now).status is Paused <==> player.paused,
        frame_of(player, s, chunks, None, now).status is Volume <==> !player.paused && player.volume is Some
            && (player.volume_until matches Some(until) && now < until),
        frame_of(player, s, chunks, None, now).status matches StatusView::Volume(v) ==> (
        player.volume matches Some(w) && v == w.percent@),
        frame_of(player, s, chunks, None, now).status !is Repeat,
{
}

/// Law: a volume that takes the place of another is shown for 1.5 s; one that is the same, or the
/// first, changes nothing of what is shown. Nothing else that mpv reports touches the volume.
pub proof fn law_volume_shown(s: Shared, v: Volume, now: u64)
    requires
        now + 1_500_000_000 <= u64::MAX,
    ensures
        ({
            let next = reported(s, Event::Volume(Some(v)), now);
            &&& next.volume == Some(v)
            &&& s.volume matches Some(w) ==> next.volume_until == if w.key != v.key {
                Some((now + 1_500_000_000) as u64)
            } else {
                s.volume_until
            }
            &&& s.volume is None ==> next.volume_until == s.volume_until
            &&& next.time_ms == s.time_ms && next.paused == s.paused && next.alive == s.alive
        }),
        forall|t: Option<u64>|
            #![trigger reported(s, Event::Time(t), now)]
            {
                let next = reported(s, Event::Time(t), now);
                &&& next.time_ms == t
                &&& next.paused == s.paused && next.volume == s.volume
                &&& next.volume_until == s.volume_until && next.alive == s.alive
            },
        forall|b: bool|
            #![trigger reported(s, Event::Pause(b), now)]
            {
                let next = reported(s, Event::Pause(b), now);
                &&& next.paused == b
                &&& next.time_ms == s.time_ms && next.volume == s.volume
                &&& next.volume_until == s.volume_until && next.alive == s.alive
            },
        ({
            let next = reported(s, Event::Closed, now);
            &&& !next.alive
            &&& next.time_ms == s.time_ms && next.paused == s.paused
            &&& next.volume == s.volume && next.volume_until == s.volume_until
        }),
{
}

/// The lines of a sentence's English.
spec fn en_lines(s: Seq<BiCueView>, first: int, last: int) -> Seq<Seq<char>> {
    Seq::new(
        (last - first + 1) as nat,
        |i: int| replaced(s[first + i].en, seq!['\n'], seq![' ']),
    )
}

/// Law: the English of a sentence is that of its cues one behind the other, with a space between
/// and a space for every line break.
pub proof fn law_sentence_text(s: Seq<BiCueView>, c: Chunk)
    requires
        c.first <= c.last < s.len(),
    ensures
        c.first == c.last ==> sentence_en(s, c) == replaced(s[c.last as int].en, seq!['\n'], seq![' ']),
        c.first == c.last ==> sentence_zh(s, c) == flattened(s[c.last as int].zh),
        c.first < c.last ==> sentence_en(s, c) == sentence_en(
            s,
            (Chunk { last: (c.last - 1) as usize, ..c }),
        ) + seq![' '] + replaced(s[c.last as int].en, seq!['\n'], seq![' ']),
{
    let all = en_lines(s, c.first as int, c.last as int);
    if c.first < c.last {
        let front = en_lines(s, c.first as int, c.last - 1);
        let last = replaced(s[c.last as int].en, seq!['\n'], seq![' ']);
        lemma_joined_push(front, last, seq![' ']);
        assert(front.push(last) =~= all);
        assert(sentence_en(s, c) == joined(all, seq![' ']));
        assert(sentence_en(s, (Chunk { last: (c.last - 1) as usize, ..c })) == joined(front, seq![' ']));
    } else {
        let zh = Seq::new(
            (c.last - c.first + 1) as nat,
            |i: int| s[c.first + i].zh,
        );
        assert(zh.len() == 1 && zh[0] == s[c.last as int].zh);
        assert(joined(zh, seq!['\n']) == zh[0]);
        assert(all.len() == 1 && joined(all, seq![' ']) == all[0]);
    }
}

// ---- Where the bar sits --------------------------------------------------------------------

/// Law: a bar that fits is centred to the pixel where its position does not say, and otherwise
/// stands where it was put, as far as the screen goes; its lower edge is where it was put.
pub proof fn law_bar_place(pos: Position, screen: (i32, i32), bar: (i32, i32), visible: bool)
    requires
        0 <= bar.0 <= screen.0,
        0 <= bar.1 <= screen.1,
    ensures
        ({
            let p = placement(pos, screen, bar, visible);
            let right = screen.0 - p.x - bar.0;
            &&& p.w == bar.0 && p.h == bar.1 && p.visible == visible
            &&& pos.left is None ==> 0 <= right - p.x <= 1
            &&& pos.left matches Some(l) ==> (0 <= l <= screen.0 - bar.0 ==> p.x == l)
            &&& pos.left matches Some(l) ==> (l < 0 ==> p.x == 0)
            &&& pos.left matches Some(l) ==> (l > screen.0 - bar.0 ==> right == 0)
            &&& 0 <= pos.bottom <= screen.1 - bar.1 ==> p.y + bar.1 + pos.bottom == screen.1
            &&& pos.bottom > screen.1 - bar.1 ==> p.y == 0
        }),
{
}

/// Law: a drag moves the bar by as much as the pointer moved, to the right and upwards, where
/// there is room for it.
pub proof fn law_drag_moves(start: Position, ox: i32, oy: i32, screen: (i32, i32), bar: (i32, i32), l: i32)
    requires
        start.left == Some(l),
        0 <= bar.0 <= screen.0,
        0 <= bar.1 <= screen.1,
    ensures
        ({
            let p = dragged_to(start, ox, oy, screen, bar);
            &&& 0 <= l + ox <= screen.0 - bar.0 ==> p.left == Some((l + ox) as i32)
            &&& 0 <= start.bottom - oy <= screen.1 - bar.1 ==> p.bottom == start.bottom - oy
            &&& l + ox < 0 ==> p.left == Some(0i32)
            &&& l + ox > screen.0 - bar.0 ==> p.left == Some((screen.0 - bar.0) as i32)
            &&& start.bottom - oy < 0 ==> p.bottom == 0
            &&& start.bottom - oy > screen.1 - bar.1 ==> p.bottom == screen.1 - bar.1
        }),
{
}

/// Law: the bar starts where it was told to, but not off the screen; what it was not told it takes
/// from the saved position, and without one, or after a reset, it is centred 40 pixels up.
pub proof fn law_start_place(saved: Option<Position>, reset: bool, left: Option<i32>, bottom: Option<i32>)
    ensures
        ({
            let p = starting_position(saved, reset, left, bottom);
            &&& left matches Some(l) ==> (l >= 0 ==> p.left == Some(l))
            &&& left matches Some(l) ==> (l < 0 ==> p.left == Some(0i32))
            &&& bottom matches Some(b) ==> (b >= 0 ==> p.bottom == b)
            &&& bottom matches Some(b) ==> (b < 0 ==> p.bottom == 0)
            &&& left is None && !reset && saved is Some ==> p.left == saved->0.left
            &&& bottom is None && !reset && saved is Some ==> p.bottom == saved->0.bottom
            &&& left is None && (reset || saved is None) ==> p.left is None
            &&& bottom is None && (reset || saved is None) ==> p.bottom == 40
        }),
{
}

// ---- How the bar looks ---------------------------------------------------------------------

/// Law: the Chinese is nine tenths as large as the English, and the status line half as large but
/// no smaller than 12, to the nearest pixel, at ordinary sizes.
pub proof fn law_bar_sizes(font_size: i32)
    requires
        0 <= font_size <= 0xffff,
    ensures
        -5 <= 10 * zh_size(font_size) - 9 * font_size <= 5,
        font_size >= 24 ==> -1 <= 2 * status_size(font_size) - font_size <= 1,
        font_size <= 24 ==> status_size(font_size) == 12,
{
    lemma_scaled(font_size as u32, 15_099_494, 24, 0x100_0000);
    lemma_scaled(font_size as u32, 8_388_608, 24, 0x100_0000);
}

/// Law: the style sheet gives each language its own font and size, and the status line its size.
pub proof fn law_stylesheet(font_en: Seq<char>, font_zh: Seq<char>, font_size: i32)
    ensures
        ({
            let s = style_text(font_en, font_zh, font_size);
            let en = ".en { color: #ffffff; font-family: \""@ + font_en + "\"; font-size: "@
                + signed_decimal(font_size as int) + "px;"@;
            let zh = ".zh { color: #ffe696; font-family: \""@ + font_zh + "\"; font-size: "@
                + signed_decimal(zh_size(font_size) as int) + "px;"@;
            let status = ".status { color: #bbbbbb; font-size: "@ + signed_decimal(
                status_size(font_size) as int,
            ) + "px;"@;
            exists|a: Seq<char>, b: Seq<char>, c: Seq<char>, d: Seq<char>|
                s == #[trigger] (a + en + b + zh + c + status + d)
        }),
{
    let s = style_text(font_en, font_zh, font_size);
    let en = ".en { color: #ffffff; font-family: \""@ + font_en + "\"; font-size: "@ + signed_decimal(
        font_size as int,
    ) + "px;"@;
    let zh = ".zh { color: #ffe696; font-family: \""@ + font_zh + "\"; font-size: "@ + signed_decimal(
        zh_size(font_size) as int,
    ) + "px;"@;
    let status = ".status { color: #bbbbbb; font-size: "@ + signed_decimal(
        status_size(font_size) as int,
    ) + "px;"@;
    reveal_strlit("px;");
    reveal_strlit("px; text-shadow: 0 0 3px #000000; }\n");
    reveal_strlit("px; }\n");
    let a = "window { background-color: transparent; }\n"@
        + ".bar { background-color: rgba(0, 0, 0, 0.62); border-radius: 14px; padding: 10px 28px; }\n"@;
    let b = "px; text-shadow: 0 0 3px #000000; }\n"@.skip(3);
    let d = "px; }\n"@.skip(3);
    assert("px; text-shadow: 0 0 3px #000000; }\n"@ =~= "px;"@ + b);
    assert("px; }\n"@ =~= "px;"@ + d);
    assert(s =~= a + en + b + zh + b + status + d);
}

// ---- Saving and refreshing -----------------------------------------------------------------

/// Law: a saved position is a line for the bottom edge and, where it was moved sideways, one for the
/// left edge, each with the number of pixels.
pub proof fn law_saved_position(p: Position)
    ensures
        p.left is None ==> saved_position(p) == "bottom="@ + signed_decimal(p.bottom as int) + seq!['\n'],
        p.left matches Some(l) ==> saved_position(p) == "bottom="@ + signed_decimal(p.bottom as int) + seq![
            '\n',
        ] + "left="@ + signed_decimal(l as int) + seq!['\n'],
{
}

/// Law: a line sets one edge and leaves the other; the last line for an edge counts. A blank line
/// sets nothing. What no line sets is centred, 40 pixels up.
pub proof fn law_setting_lines(ls: Seq<Seq<char>>, p: Position, l: Seq<char>, n: i32)
    requires
        position_of(ls) == Some(p),
        trimmed(l).len() == 0,
    ensures
        position_of(ls.push("left="@ + signed_decimal(n as int))) == Some(
            Position { left: Some(n), bottom: p.bottom },
        ),
        position_of(ls.push("bottom="@ + signed_decimal(n as int))) == Some(
            Position { left: p.left, bottom: n },
        ),
        position_of(ls.push(l)) == Some(p),
        position_of(Seq::empty()) == Some(Position { left: None, bottom: 40 }),
{
    reveal_strlit("left=");
    reveal_strlit("bottom=");
    reveal_strlit("left");
    reveal_strlit("bottom");
    let v = signed_decimal(n as int);
    let a = "left="@ + v;
    let b = "bottom="@ + v;
    lemma_setting("left"@, n as int);
    lemma_setting("bottom"@, n as int);
    assert("left="@ =~= "left"@ + seq!['=']);
    assert("bottom="@ =~= "bottom"@ + seq!['=']);
    assert("left"@.len() != "bottom"@.len());
    assert(ls.push(a).drop_last() =~= ls);
    assert(ls.push(b).drop_last() =~= ls);
    assert(ls.push(l).drop_last() =~= ls);
    lemma_setting_shows("left"@, v);
    lemma_setting_shows("bottom"@, v);
}

/// A setting is no blank line.
proof fn lemma_setting_shows(key: Seq<char>, v: Seq<char>)
    requires
        setting(key + seq!['='] + v) == Some((key, v)),
        key.len() > 0,
    ensures
        trimmed(key + seq!['='] + v).len() > 0,
{
    let l = trimmed(key + seq!['='] + v);
    if l.len() == 0 {
        assert(l.take(0).len() == 0);
        crate::text::lemma_find(l, seq!['=']);
    }
}

/// Law: without shadowing, or before mpv has told the time, a refresh changes nothing and tells mpv
/// nothing; otherwise it is a step of shadowing at that time.
pub proof fn law_refresh_step(s: Shadowing, player: Shared, chunks: Seq<Chunk>, pauses: Option<Seq<u64>>, now: u64)
    ensures
        ({
            let r = refresh_step(s, player, chunks, pauses, now);
            &&& pauses is None || player.time_ms is None ==> r.state == s && r.pause is None && r.repeat is None
            &&& pauses is Some && player.time_ms is Some ==> r == shadow_step(
                s,
                chunks,
                pauses->0,
                player.time_ms->0,
                player.paused,
                now,
            )
        }),
{
}

/// Law: the bar is shown where it has any text or a status.
pub proof fn law_bar_shown(f: FrameView)
    ensures
        shows(f) <==> !(f.en.len() == 0 && f.zh.len() == 0 && f.status == StatusView::Nothing),
{
}

/// Law: the Chinese of a sentence is that of its cues put together on one line, cue by cue.
pub proof fn law_sentence_chinese(s: Seq<BiCueView>, c: Chunk)
    requires
        c.first < c.last < s.len(),
        lacks(s[c.last as int].zh, '\n'),
    ensures
        sentence_zh(s, c) == pieced(
            sentence_zh(s, (Chunk { last: (c.last - 1) as usize, ..c })),
            trimmed(s[c.last as int].zh),
        ),
{
    let d = Chunk { last: (c.last - 1) as usize, ..c };
    let all = Seq::new((c.last - c.first + 1) as nat, |i: int| s[c.first + i].zh);
    let front = Seq::new((d.last - d.first + 1) as nat, |i: int| s[d.first + i].zh);
    let last = s[c.last as int].zh;
    assert(all =~= front.push(last));
    lemma_joined_push(front, last, seq!['\n']);
    law_flattened_lines(joined(front, seq!['\n']), last);
}

/// Law: a bar that is wider than the screen begins at its left edge, and one that is higher than
/// the room above its lower edge begins at the top; a lower edge below the screen is where it was
/// put.
pub proof fn law_bar_too_large(pos: Position, screen: (i32, i32), bar: (i32, i32), visible: bool)
    ensures
        ({
            let p = placement(pos, screen, bar, visible);
            &&& bar.0 > screen.0 ==> p.x == 0
            &&& screen.1 - pos.bottom - bar.1 < 0 ==> p.y == 0
            &&& 0 <= screen.1 - pos.bottom - bar.1 <= i32::MAX ==> p.y + bar.1 + pos.bottom == screen.1
            &&& screen.1 - pos.bottom - bar.1 > i32::MAX ==> p.y == i32::MAX
        }),
{
}

/// Law: while a sentence is repeated the bar shows that sentence, whatever the time.
pub proof fn law_frame_repeat(player: Shared, s: Seq<BiCueView>, chunks: Seq<Chunk>, k: usize, left: u64, now: u64)
    ensures
        frame_of(player, s, chunks, Some((k, left)), now).en == sentence_en(s, chunks[k as int]),
        frame_of(player, s, chunks, Some((k, left)), now).zh == sentence_zh(s, chunks[k as int]),
{
}

/// Law: a line that sets anything else than an edge, or nothing, keeps a position from being loaded,
/// and so does what is no integer.
pub proof fn law_odd_lines(ls: Seq<Seq<char>>, l: Seq<char>, key: Seq<char>, v: Seq<char>)
    requires
        solid(l),
        l.len() > 0,
        lacks(l, '='),
        solid(key),
        solid(v),
        lacks(key, '='),
    ensures
        position_of(ls.push(l)) is None,
        key != "left"@ && key != "bottom"@ ==> position_of(ls.push(key + seq!['='] + v)) is None,
        read_i32(v) is None ==> position_of(ls.push(key + seq!['='] + v)) is None,
{
    let x = key + seq!['='] + v;
    assert(ls.push(l).drop_last() =~= ls);
    assert(ls.push(x).drop_last() =~= ls);
    lemma_trim_solid(l, ' ');
    lemma_find_absent(l, seq!['='], 0);
    assert forall|k: int| 0 <= k < x.len() implies !is_white(#[trigger] x[k]) by {
        if k < key.len() {
            assert(x[k] == key[k]);
        } else if k > key.len() {
            assert(x[k] == v[k - key.len() - 1]);
        }
    }
    lemma_trim_solid(x, ' ');
    lemma_split_first(key, '=', v);
    assert(x.take(key.len() as int) =~= key);
    assert(x.skip(key.len() as int + 1) =~= v);
    if v.len() > 0 {
        lemma_trim_solid(v, ' ');
    } else {
        assert(trimmed(v) =~= v);
    }
}

} // verus!
