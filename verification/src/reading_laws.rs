//! How captions are read: times, blocks, events and formats, and what makes no difference.

use crate::captions::{block_captions, block_cue, captions, cleaned, event_cues, first_word, json3_captions, json3_event, json3_events, timed_cue, timestamp, timing_line, untagged, CaptionFault, CueView, EventView};
use crate::float::read_seconds;
use crate::json::{json_document, milliseconds, unsigned, Json};
use crate::number::{all_digits, digits_value, pow10, pow2, read_u64};
use crate::number_laws::{law_nearest, law_number, law_significant};
use crate::text::{contains_text, find, is_white, joined, lemma_find, lemma_find_some, lemma_joined_push, lines, replaced, split, stands_at, trimmed, words};
use crate::text_laws::{law_lines, law_replaced, lemma_words_add};
use crate::text_lemmas::{lacks, lemma_find_absent, lemma_join_split, lemma_lacks_add, lemma_lines_split, lemma_replace_absent, lemma_split_first, lemma_split_lacking, lemma_split_some};
use vstd::prelude::*;

verus! {

// ---- Times ---------------------------------------------------------------------------------

/// A comma and a point are the same once commas are replaced by points.
proof fn lemma_comma_point(a: Seq<char>, b: Seq<char>)
    ensures
        replaced(a + seq![','] + b, seq![','], seq!['.']) == replaced(
            a + seq!['.'] + b,
            seq![','],
            seq!['.'],
        ),
    decreases a.len(),
{
    let s = a + seq![','] + b;
    let t = a + seq!['.'] + b;
    let p = seq![','];
    law_replaced(s, p, seq!['.']);
    law_replaced(t, p, seq!['.']);
    assert(s.take(1) =~= seq![s[0]] && t.take(1) =~= seq![t[0]]);
    if a.len() == 0 {
        assert(s.skip(1) =~= b);
        assert(s.take(1) =~= p);
        assert(t.drop_first() =~= b);
        assert(t.take(1)[0] != p[0]);
    } else {
        let r = a.drop_first();
        assert(s.drop_first() =~= r + p + b && s.skip(1) =~= r + p + b);
        assert(t.drop_first() =~= r + seq!['.'] + b && t.skip(1) =~= r + seq!['.'] + b);
        lemma_comma_point(r, b);
        if a[0] == ',' {
            assert(s.take(1) =~= p && t.take(1) =~= p);
        } else {
            assert(s.take(1)[0] != p[0] && t.take(1)[0] != p[0]);
        }
    }
}

/// Law: it makes no difference whether a time is written with a comma or with a point.
pub proof fn law_comma_or_point(a: Seq<char>, b: Seq<char>)
    ensures
        timestamp(a + seq![','] + b) == timestamp(a + seq!['.'] + b),
{
    lemma_comma_point(a, b);
}

/// The parts of a time without commas.
proof fn lemma_time_parts(h: Seq<char>, m: Seq<char>, s: Seq<char>)
    requires
        lacks(h, ':'),
        lacks(m, ':'),
        lacks(s, ':'),
        lacks(h, ','),
        lacks(m, ','),
        lacks(s, ','),
    ensures
        replaced(s, seq![','], seq!['.']) == s,
        replaced(m + seq![':'] + s, seq![','], seq!['.']) == m + seq![':'] + s,
        replaced(h + seq![':'] + (m + seq![':'] + s), seq![','], seq!['.']) == h + seq![':'] + (m + seq![
            ':',
        ] + s),
        split(s, seq![':']) == seq![s],
        split(m + seq![':'] + s, seq![':']) == seq![m, s],
        split(h + seq![':'] + (m + seq![':'] + s), seq![':']) == seq![h, m, s],
{
    let c = seq![':'];
    let x = m + c + s;
    let y = h + c + x;
    lemma_lacks_add(m, c, ',');
    lemma_lacks_add(m + c, s, ',');
    lemma_lacks_add(h, c, ',');
    lemma_lacks_add(h + c, x, ',');
    lemma_find_absent(s, seq![','], 0);
    lemma_find_absent(x, seq![','], 0);
    lemma_find_absent(y, seq![','], 0);
    lemma_replace_absent(s, seq![','], seq!['.']);
    lemma_replace_absent(x, seq![','], seq!['.']);
    lemma_replace_absent(y, seq![','], seq!['.']);
    lemma_split_lacking(s, ':');
    lemma_split_first(m, ':', s);
    lemma_split_first(h, ':', x);
    assert(split(x, c) =~= seq![m, s]);
    assert(split(y, c) =~= seq![h, m, s]);
}

/// Law: a time is minutes and seconds, with hours in front or without, and means their sum; a time
/// that does not fit is refused, and a part that is no number is refused, the first one first.
/// What has no colon is no time.
pub proof fn law_time_sum(h: Seq<char>, m: Seq<char>, s: Seq<char>)
    requires
        lacks(h, ':'),
        lacks(m, ':'),
        lacks(s, ':'),
        lacks(h, ','),
        lacks(m, ','),
        lacks(s, ','),
    ensures
        ({
            let short = timestamp(m + seq![':'] + s);
            let long = timestamp(h + seq![':'] + (m + seq![':'] + s));
            &&& timestamp(s) == Err::<u64, CaptionFault>(CaptionFault::Timestamp(s))
            &&& read_u64(m) matches Err(e) ==> short == Err::<u64, CaptionFault>(CaptionFault::Integer(e))
            &&& read_u64(m) is Ok && read_seconds(s, true) is None ==> short == Err::<u64, CaptionFault>(
                CaptionFault::Seconds,
            )
            &&& read_u64(m) is Ok && read_seconds(s, true) is Some ==> {
                let sum = read_u64(m)->Ok_0 * 60_000 + read_seconds(s, true)->0;
                short == if sum <= u64::MAX {
                    Ok(sum as u64)
                } else {
                    Err(CaptionFault::TooLate)
                }
            }
            &&& read_u64(h) matches Err(e) ==> long == Err::<u64, CaptionFault>(CaptionFault::Integer(e))
            &&& read_u64(h) is Ok ==> (short matches Err(e) ==> long == Err::<u64, CaptionFault>(e))
            &&& read_u64(h) is Ok ==> (short matches Ok(t) ==> {
                let sum = read_u64(h)->Ok_0 * 3_600_000 + t;
                long == if sum <= u64::MAX {
                    Ok(sum as u64)
                } else {
                    Err(CaptionFault::TooLate)
                }
            })
        }),
{
    lemma_time_parts(h, m, s);
    let p = split(h + seq![':'] + (m + seq![':'] + s), seq![':']);
    assert(p[0] == h && p[1] == m && p[2] == s);
    let q = split(m + seq![':'] + s, seq![':']);
    assert(q[0] == m && q[1] == s);
}

/// Law: more than hours, minutes and seconds are no time.
pub proof fn law_too_many_parts(g: Seq<char>, h: Seq<char>, m: Seq<char>, s: Seq<char>)
    requires
        lacks(g, ':'),
        lacks(h, ':'),
        lacks(m, ':'),
        lacks(g, ','),
        lacks(h, ','),
        lacks(m, ','),
        lacks(s, ','),
    ensures
        ({
            let t = g + seq![':'] + (h + seq![':'] + (m + seq![':'] + s));
            timestamp(t) == Err::<u64, CaptionFault>(CaptionFault::Timestamp(t))
        }),
{
    let c = seq![':'];
    let x = m + c + s;
    let y = h + c + x;
    let z = g + c + y;
    lemma_lacks_add(m, c, ',');
    lemma_lacks_add(m + c, s, ',');
    lemma_lacks_add(h, c, ',');
    lemma_lacks_add(h + c, x, ',');
    lemma_lacks_add(g, c, ',');
    lemma_lacks_add(g + c, y, ',');
    lemma_find_absent(z, seq![','], 0);
    lemma_replace_absent(z, seq![','], seq!['.']);
    lemma_split_some(s, c);
    lemma_split_first(m, ':', s);
    lemma_split_first(h, ':', x);
    lemma_split_first(g, ':', y);
}

// ---- Timing lines --------------------------------------------------------------------------

/// What is found is found again in a longer text.
proof fn lemma_find_longer(s: Seq<char>, r: Seq<char>, p: Seq<char>)
    requires
        find(s, p) is Some,
    ensures
        find(s + r, p) == find(s, p),
{
    lemma_find(s, p);
    let i = find(s, p)->0;
    assert((s + r).subrange(i, i + p.len()) =~= s.subrange(i, i + p.len()));
    assert forall|j: int| 0 <= j < i implies !stands_at(s + r, j, p) by {
        assert(!stands_at(s, j, p));
        assert((s + r).subrange(j, j + p.len()) =~= s.subrange(j, j + p.len()));
    }
    lemma_find_some(s + r, p, i);
}

/// Law: what a timing line says behind its end time, parted by white space, makes no difference.
pub proof fn law_settings_ignored(timing: Seq<char>, rest: Seq<char>, body: Seq<Seq<char>>)
    requires
        find(timing, "-->"@) is Some,
        words(timing.skip(find(timing, "-->"@)->0 + 3)).len() > 0,
        rest.len() > 0,
        is_white(rest[0]),
    ensures
        timed_cue(timing + rest, body) == timed_cue(timing, body),
{
    let p = "-->"@;
    reveal_strlit("-->");
    lemma_find(timing, p);
    lemma_find_longer(timing, rest, p);
    let k = find(timing, p)->0;
    let end = timing.skip(k + 3);
    assert((timing + rest).take(k) =~= timing.take(k));
    assert((timing + rest).skip(k + 3) =~= end + rest);
    lemma_words_add(end, rest);
    assert(words(end + rest)[0] == words(end)[0]);
}

/// Law: lines in front of the timing line, such as a number or a name, make no difference.
pub proof fn law_heading_ignored(l: Seq<char>, block: Seq<char>)
    requires
        lacks(l, '\n'),
        lacks(l, '\r'),
        !contains_text(l, "-->"@),
    ensures
        block_cue(l + seq!['\n'] + block) == block_cue(block),
{
    law_lines(l, block);
    let ls = lines(block);
    let all = seq![l] + ls;
    assert(all.drop_first() =~= ls);
    lemma_timing_line(ls);
    if let Some(i) = timing_line(ls) {
        assert(all[i + 1] == ls[i]);
        assert(all.skip(i + 2) =~= ls.skip(i + 1));
    }
}

/// Where the timing line stands.
proof fn lemma_timing_line(ls: Seq<Seq<char>>)
    ensures
        timing_line(ls) matches Some(i) ==> 0 <= i < ls.len() && contains_text(ls[i], "-->"@),
        timing_line(ls) is None ==> forall|i: int|
            0 <= i < ls.len() ==> !contains_text(#[trigger] ls[i], "-->"@),
    decreases ls.len(),
{
    if ls.len() > 0 && !contains_text(ls[0], "-->"@) {
        let rest = ls.drop_first();
        lemma_timing_line(rest);
        if timing_line(ls) is None {
            assert forall|i: int| 0 <= i < ls.len() implies !contains_text(#[trigger] ls[i], "-->"@) by {
                if i > 0 {
                    assert(rest[i - 1] == ls[i]);
                }
            }
        }
    }
}

/// Law: a block makes a cue only where one of its lines holds an arrow.
pub proof fn law_arrow_needed(block: Seq<char>)
    ensures
        block_cue(block) matches Ok(Some(_)) ==> exists|i: int|
            0 <= i < lines(block).len() && contains_text(#[trigger] lines(block)[i], "-->"@),
        (forall|i: int|
            0 <= i < lines(block).len() ==> !contains_text(#[trigger] lines(block)[i], "-->"@))
            ==> block_cue(block) == Ok::<Option<CueView>, CaptionFault>(None),
{
    lemma_timing_line(lines(block));
}

/// Where the arrow of a timing line stands.
proof fn lemma_arrow(start: Seq<char>, end: Seq<char>)
    requires
        lacks(start, '-'),
    ensures
        find(start + seq!['-', '-', '>'] + end, "-->"@) == Some(start.len() as int),
        (start + seq!['-', '-', '>'] + end).take(start.len() as int) == start,
        (start + seq!['-', '-', '>'] + end).skip(start.len() as int + 3) == end,
{
    reveal_strlit("-->");
    let p = seq!['-', '-', '>'];
    assert("-->"@ =~= p);
    let timing = start + p + end;
    let k = start.len() as int;
    assert(timing.subrange(k, k + 3) =~= p);
    assert forall|j: int| 0 <= j < k implies !stands_at(timing, j, p) by {
        if stands_at(timing, j, p) {
            assert(timing.subrange(j, j + 3)[0] == timing[j]);
            assert(timing[j] == start[j]);
        }
    }
    lemma_find_some(timing, p, k);
    assert(timing.take(k) =~= start);
    assert(timing.skip(k + 3) =~= end);
}

/// A block that begins with its timing line.
proof fn lemma_timed_block(timing: Seq<char>, body: Seq<char>)
    requires
        contains_text(timing, "-->"@),
        lacks(timing, '\n'),
        lacks(timing, '\r'),
        lacks(body, '\r'),
        body.len() > 0,
        body.last() != '\n',
    ensures
        block_cue(timing + seq!['\n'] + body) == timed_cue(timing, split(body, seq!['\n'])),
        joined(split(body, seq!['\n']), seq!['\n']) == body,
{
    law_lines(timing, body);
    lemma_lines_split(body);
    lemma_join_split(body, seq!['\n']);
    let ls = lines(timing + seq!['\n'] + body);
    assert(ls[0] == timing);
    assert(ls.skip(1) =~= split(body, seq!['\n']));
}

/// Law: the cue of a timing line with text below it starts at the time in front of the arrow, ends
/// at the first word behind it, and shows the text below without tags and cleaned; there is none
/// where nothing of the text is left. A time that cannot be read is a fault, the start's first.
pub proof fn law_block_cue(start: Seq<char>, end: Seq<char>, body: Seq<char>)
    requires
        lacks(start, '-'),
        lacks(start, '\n'),
        lacks(start, '\r'),
        lacks(end, '\n'),
        lacks(end, '\r'),
        lacks(body, '\r'),
        body.len() > 0,
        body.last() != '\n',
    ensures
        ({
            let r = block_cue(start + seq!['-', '-', '>'] + end + seq!['\n'] + body);
            let text = cleaned(untagged(body, false));
            let a = timestamp(trimmed(start));
            let b = timestamp(first_word(end));
            &&& a matches Err(e) ==> r == Err::<Option<CueView>, CaptionFault>(e)
            &&& a is Ok ==> (b matches Err(e) ==> r == Err::<Option<CueView>, CaptionFault>(e))
            &&& a is Ok && b is Ok && text.len() == 0 ==> r == Ok::<Option<CueView>, CaptionFault>(None)
            &&& a is Ok && b is Ok && text.len() > 0 ==> r == Ok::<Option<CueView>, CaptionFault>(
                Some(CueView { start_ms: a->Ok_0, end_ms: b->Ok_0, text }),
            )
        }),
{
    let p = seq!['-', '-', '>'];
    let timing = start + p + end;
    lemma_lacks_add(start, p, '\n');
    lemma_lacks_add(start + p, end, '\n');
    lemma_lacks_add(start, p, '\r');
    lemma_lacks_add(start + p, end, '\r');
    lemma_arrow(start, end);
    lemma_timed_block(timing, body);
}

// ---- json3 ---------------------------------------------------------------------------------

/// Texts without anything between them.
pub open spec fn run_together(segs: Seq<Seq<char>>) -> Seq<char>
    decreases segs.len(),
{
    if segs.len() == 0 {
        Seq::empty()
    } else {
        run_together(segs.drop_last()) + segs.last()
    }
}

/// Joining with nothing between.
proof fn lemma_run_together(segs: Seq<Seq<char>>)
    ensures
        joined(segs, Seq::empty()) == run_together(segs),
    decreases segs.len(),
{
    let none = Seq::<char>::empty();
    if segs.len() > 1 {
        let front = segs.drop_last();
        lemma_run_together(front);
        lemma_joined_push(front, segs.last(), none);
        assert(front.push(segs.last()) =~= segs);
        assert(run_together(front) + none + segs.last() =~= run_together(front) + segs.last());
    } else if segs.len() == 1 {
        reveal_with_fuel(run_together, 2);
        assert(run_together(segs) =~= segs[0]);
    }
}

/// Law: an event adds a cue behind those of the events before it, with the pieces of its text run
/// together and cleaned, from its start for as long as it lasts; a line break of the rolling
/// display adds none, nor does an event without text. One that ends too late is a fault, and a
/// fault stays.
pub proof fn law_event_added(evs: Seq<EventView>, ev: EventView)
    ensures
        ({
            let text = cleaned(run_together(ev.segs));
            let r = event_cues(evs.push(ev));
            &&& event_cues(evs) matches Err(e) ==> r == Err::<Seq<CueView>, CaptionFault>(e)
            &&& event_cues(evs) matches Ok(cues) ==> {
                &&& ev.append == 1 ==> r == Ok::<Seq<CueView>, CaptionFault>(cues)
                &&& text.len() == 0 ==> r == Ok::<Seq<CueView>, CaptionFault>(cues)
                &&& ev.append != 1 && ev.segs.len() > 0 && text.len() > 0 ==> r == if ev.start_ms
                    + ev.duration_ms <= u64::MAX {
                    Ok(
                        cues.push(
                            CueView {
                                start_ms: ev.start_ms,
                                end_ms: (ev.start_ms + ev.duration_ms) as u64,
                                text,
                            },
                        ),
                    )
                } else {
                    Err(CaptionFault::TooLate)
                }
            }
        }),
{
    lemma_run_together(ev.segs);
    assert(evs.push(ev).drop_last() =~= evs);
}

/// Law: an event's start, duration, line-break mark and pieces are the members of these names; a
/// member that is missing counts as zero or as none. A member of another kind is refused, and so
/// is what is no event at all.
pub proof fn law_event_members(m: Map<Seq<char>, Json>, ev: EventView)
    requires
        json3_event(Json::Record(m)) == Some(ev),
    ensures
        m.dom().contains("tStartMs"@) ==> (m["tStartMs"@] matches Json::Number(t) && milliseconds(t) == Some(
            ev.start_ms,
        )),
        !m.dom().contains("tStartMs"@) ==> ev.start_ms == 0,
        m.dom().contains("dDurationMs"@) ==> (m["dDurationMs"@] matches Json::Number(t) && milliseconds(t)
            == Some(ev.duration_ms)),
        !m.dom().contains("dDurationMs"@) ==> ev.duration_ms == 0,
        m.dom().contains("aAppend"@) ==> (m["aAppend"@] matches Json::Number(t) && unsigned(t) == Some(
            ev.append as nat,
        )),
        !m.dom().contains("aAppend"@) ==> ev.append == 0,
        m.dom().contains("segs"@) ==> (m["segs"@] matches Json::List(s) && s.len() == ev.segs.len()
            && forall|i: int|
            0 <= i < s.len() ==> (#[trigger] s[i] matches Json::Record(n) ==> (if n.dom().contains("utf8"@) {
                n["utf8"@] == Json::Text(ev.segs[i])
            } else {
                ev.segs[i].len() == 0
            }))),
        !m.dom().contains("segs"@) ==> ev.segs.len() == 0,
{
}

/// Law: a document's events are those of its list `events`, in order and all of them; a document
/// without the list has none, and one event that cannot be read makes it no document.
pub proof fn law_document_events(m: Map<Seq<char>, Json>)
    ensures
        !m.dom().contains("events"@) ==> (json3_events(Json::Record(m)) matches Some(evs) && evs.len() == 0),
        m.dom().contains("events"@) ==> (m["events"@] matches Json::List(s) ==> {
            &&& json3_events(Json::Record(m)) matches Some(evs) ==> evs.len() == s.len() && forall|i: int|
                0 <= i < s.len() ==> json3_event(#[trigger] s[i]) == Some(evs[i])
            &&& json3_events(Json::Record(m)) is None ==> exists|i: int|
                0 <= i < s.len() && json3_event(#[trigger] s[i]) is None
        }),
{
    if m.dom().contains("events"@) {
        if let Json::List(s) = m["events"@] {
            if json3_events(Json::Record(m)) is None {
                let f = |j: Json| json3_event(j);
                assert(!(forall|i: int| 0 <= i < s.len() ==> f(#[trigger] s[i]) is Some));
                let i = choose|i: int| 0 <= i < s.len() && !(f(#[trigger] s[i]) is Some);
                assert(json3_event(s[i]) is None);
            }
        }
    }
}

/// The members that a list of values stands for.
pub open spec fn in_places(s: Seq<Json>, names: Seq<Seq<char>>) -> Map<Seq<char>, Json> {
    Map::new(
        |k: Seq<char>| exists|i: int| 0 <= i < s.len() && i < names.len() && #[trigger] names[i] == k,
        |k: Seq<char>|
            s[choose|i: int| 0 <= i < s.len() && i < names.len() && #[trigger] names[i] == k],
    )
}

/// The names of an event's members.
pub open spec fn event_names() -> Seq<Seq<char>> {
    seq!["tStartMs"@, "dDurationMs"@, "aAppend"@, "segs"@]
}

/// The names differ.
proof fn lemma_event_names()
    ensures
        forall|i: int, j: int|
            0 <= i < j < 4 ==> #[trigger] event_names()[i] != #[trigger] event_names()[j],
{
    reveal_strlit("tStartMs");
    reveal_strlit("dDurationMs");
    reveal_strlit("aAppend");
    reveal_strlit("segs");
    let n = event_names();
    assert(n[0].len() == 8 && n[1].len() == 11 && n[2].len() == 7 && n[3].len() == 4);
    assert forall|i: int, j: int| 0 <= i < j < 4 implies #[trigger] n[i] != #[trigger] n[j] by {
        assert(n[i].len() != n[j].len());
    }
}

/// Law: an event may be a list of up to four values, which are then its start, its duration, its
/// line-break mark and its pieces, in this order; a longer list is no event.
pub proof fn law_event_list(s: Seq<Json>)
    ensures
        s.len() <= 4 ==> json3_event(Json::List(s)) == json3_event(
            Json::Record(in_places(s, event_names())),
        ),
        s.len() > 4 ==> json3_event(Json::List(s)) is None,
{
    lemma_event_names();
    let n = event_names();
    let m = in_places(s, n);
    if s.len() <= 4 {
        assert forall|p: int| 0 <= p < 4 implies crate::json::part(Json::List(s), #[trigger] n[p], p as nat)
            == crate::json::part(Json::Record(m), n[p], p as nat) by {
            if p < s.len() {
                assert(m.dom().contains(n[p]));
                let i = choose|i: int| 0 <= i < s.len() && i < n.len() && #[trigger] n[i] == n[p];
                assert(i == p);
            } else if m.dom().contains(n[p]) {
                let i = choose|i: int| 0 <= i < s.len() && i < n.len() && #[trigger] n[i] == n[p];
                assert(i != p);
            }
        }
        assert(n[0] == "tStartMs"@ && n[1] == "dDurationMs"@ && n[2] == "aAppend"@ && n[3] == "segs"@);
    }
}

// ---- Formats -------------------------------------------------------------------------------

/// Law: a document is read by its format: WebVTT with the rolling rule, SRT without it, `json3` as
/// JSON; other formats are refused by name, whatever they hold.
pub proof fn law_formats(ext: Seq<char>, text: Seq<char>)
    ensures
        captions(seq!['v', 't', 't'], text) == block_captions(text, true),
        captions(seq!['s', 'r', 't'], text) == block_captions(text, false),
        captions(seq!['j', 's', 'o', 'n', '3'], text) == json3_captions(json_document(text)),
        ext != seq!['v', 't', 't'] && ext != seq!['s', 'r', 't'] && ext != seq!['j', 's', 'o', 'n', '3']
            ==> captions(ext, text) == Err::<Seq<CueView>, CaptionFault>(CaptionFault::Unsupported(ext)),
{
    reveal_strlit("json3");
    reveal_strlit("vtt");
    reveal_strlit("srt");
    assert("json3"@ =~= seq!['j', 's', 'o', 'n', '3']);
    assert("vtt"@ =~= seq!['v', 't', 't']);
    assert("srt"@ =~= seq!['s', 'r', 't']);
    assert("vtt"@[0] != "srt"@[0] && "json3"@.len() != "vtt"@.len() && "json3"@.len() != "srt"@.len());
}

/// Law: a whole number of milliseconds below two to the power 53 is taken as it is.
pub proof fn law_json_milliseconds(t: Seq<char>)
    requires
        t.len() > 0,
        all_digits(t),
        digits_value(t) < 0x20_0000_0000_0000,
    ensures
        milliseconds(t) == Some(digits_value(t) as u64),
        unsigned(t) == Some(digits_value(t)),
{
    law_number(t, Seq::empty(), seq!['0']);
    let v = digits_value(t);
    law_nearest(v, 0);
    assert(pow10(0) == 1);
    assert(v * pow10(0) == v) by (nonlinear_arith)
        requires
            pow10(0) == 1,
    ;
    assert(pow2(53) == 0x20_0000_0000_0000) by {
        reveal_with_fuel(pow2, 54);
    }
    law_significant(v, 53);
}

/// Law: a record whose members are of the right kinds is an event.
pub proof fn law_event_accepted(m: Map<Seq<char>, Json>)
    requires
        m.dom().contains("tStartMs"@) ==> (m["tStartMs"@] matches Json::Number(t) && milliseconds(t) is Some),
        m.dom().contains("dDurationMs"@) ==> (m["dDurationMs"@] matches Json::Number(t) && milliseconds(
            t,
        ) is Some),
        m.dom().contains("aAppend"@) ==> (m["aAppend"@] matches Json::Number(t) && unsigned(t) matches Some(n)
            && n <= 255),
        m.dom().contains("segs"@) ==> (m["segs"@] matches Json::List(s) && forall|i: int|
            0 <= i < s.len() ==> (#[trigger] s[i] matches Json::Record(n) && (n.dom().contains("utf8"@)
                ==> n["utf8"@] is Text))),
    ensures
        json3_event(Json::Record(m)) is Some,
{
    if m.dom().contains("segs"@) {
        let s = m["segs"@]->List_0;
        let f = |j: Json| crate::captions::seg_text(j);
        assert forall|i: int| 0 <= i < s.len() implies f(#[trigger] s[i]) is Some by {
            assert(s[i] is Record);
        }
    }
}

} // verus!
