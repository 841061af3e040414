//! The subtitle bar: which cue it shows, when shadowing pauses, and where the bar sits.

use crate::align::{bicue_views, flatten_zh, flattened, BiCue, BiCueView};
use crate::number::{decimal, is_digit, lemma_decimal, lemma_integer_signed, parse_i32, push_signed, read_i32, signed_decimal};
use crate::subs::{scale, scaled, Order};
use crate::text::{chars_of, has_char, join, position, push_str, replace, same, split_lines, string_of, trim, trim_end};
use crate::text::{find, joined, lines, replaced, texts, trim_back, trimmed};
use crate::text_lemmas::{lacks, lemma_split_first, lemma_trim_solid, solid};
use vstd::prelude::*;
use vstd::slice::slice_subrange;

verus! {

// ---- Sentences -----------------------------------------------------------------------------

/// A sentence: consecutive cues `first..=last`.
#[derive(Debug, Clone, Copy, PartialEq, Eq)]
pub struct Chunk {
    pub first: usize,
    pub last: usize,
    pub start_ms: u64,
    pub end_ms: u64,
}

/// A silence this long parts sentences, in milliseconds.
pub const GAP_MS: u64 = 700;

/// `s` without the characters of `tail` at its end.
pub open spec fn without_tail(s: Seq<char>, tail: Seq<char>) -> Seq<char>
    decreases s.len(),
{
    if s.len() > 0 && tail.contains(s.last()) {
        without_tail(s.drop_last(), tail)
    } else {
        s
    }
}

/// What may close a quotation behind the end of a sentence.
pub open spec fn closers() -> Seq<char> {
    seq!['"', '\'', ')', ']', '”', '』', '」']
}

/// What ends a sentence.
pub open spec fn terminals() -> Seq<char> {
    seq!['.', '?', '!', '。', '？', '！']
}

/// Whether a text ends a sentence: a terminal mark stands at its end, but for white space and
/// closing marks.
pub open spec fn ends_sentence(s: Seq<char>) -> bool {
    let t = without_tail(trim_back(s), closers());
    t.len() > 0 && terminals().contains(t.last())
}

/// How much `a` exceeds `b`, if at all.
pub open spec fn excess(a: u64, b: u64) -> u64 {
    if a >= b {
        (a - b) as u64
    } else {
        0
    }
}

/// Whether a sentence that began at cue `first` ends with cue `i`: no cue follows, the text ends
/// a sentence, a gap follows, or it is as long as a sentence may be.
pub open spec fn ends_chunk(s: Seq<BiCueView>, first: int, i: int, max_ms: u64) -> bool {
    ||| i + 1 >= s.len()
    ||| ends_sentence(s[i].en)
    ||| excess(s[i + 1].start_ms, s[i].end_ms) >= GAP_MS
    ||| excess(s[i].end_ms, s[first].start_ms) >= max_ms
}

/// The cue with which a sentence ends that began at cue `first` and has reached cue `i`.
pub open spec fn chunk_end(s: Seq<BiCueView>, first: int, i: int, max_ms: u64) -> int
    decreases s.len() - i,
{
    if i >= s.len() || ends_chunk(s, first, i, max_ms) {
        i
    } else {
        chunk_end(s, first, i + 1, max_ms)
    }
}

/// The sentence of the cues from `first` to `last`.
pub open spec fn chunk_of(s: Seq<BiCueView>, first: int, last: int) -> Chunk {
    Chunk {
        first: first as usize,
        last: last as usize,
        start_ms: s[first].start_ms,
        end_ms: s[last].end_ms,
    }
}

/// The sentences from cue `from` on.
pub open spec fn chunks_from(s: Seq<BiCueView>, from: int, max_ms: u64) -> Seq<Chunk>
    decreases s.len() - from,
{
    if from < 0 || from >= s.len() {
        Seq::empty()
    } else {
        let last = chunk_end(s, from, from, max_ms);
        if last < from || last >= s.len() {
            Seq::empty()
        } else {
            seq![chunk_of(s, from, last)] + chunks_from(s, last + 1, max_ms)
        }
    }
}

/// The end of a sentence lies among the cues.
proof fn lemma_chunk_end(s: Seq<BiCueView>, first: int, i: int, max_ms: u64)
    requires
        0 <= first <= i < s.len(),
    ensures
        i <= chunk_end(s, first, i, max_ms) < s.len(),
        ends_chunk(s, first, chunk_end(s, first, i, max_ms), max_ms),
        forall|j: int|
            i <= j < chunk_end(s, first, i, max_ms) ==> !#[trigger] ends_chunk(s, first, j, max_ms),
    decreases s.len() - i,
{
    if !ends_chunk(s, first, i, max_ms) {
        lemma_chunk_end(s, first, i + 1, max_ms);
    }
}

/// Removes characters at the end.
fn trim_tail<'a>(s: &'a [char], tail: &[char]) -> (r: &'a [char])
    ensures
        r@ == without_tail(s@, tail@),
{
    let mut n: usize = s.len();
    assert(s@.take(n as int) =~= s@);
    while n > 0 && has_char(tail, s[n - 1])
        invariant
            n <= s.len(),
            without_tail(s@.take(n as int), tail@) == without_tail(s@, tail@),
        decreases n,
    {
        assert(s@.take(n as int).drop_last() =~= s@.take(n - 1));
        n = n - 1;
    }
    let r = slice_subrange(s, 0, n);
    assert(r@ =~= s@.take(n as int));
    r
}

/// Tests whether a text ends a sentence.
fn is_sentence_end(en: &str) -> (r: bool)
    ensures
        r == ends_sentence(en@),
{
    let close: Vec<char> = vec!['"', '\'', ')', ']', '”', '』', '」'];
    let terminal: Vec<char> = vec!['.', '?', '!', '。', '？', '！'];
    assert(close@ =~= closers());
    assert(terminal@ =~= terminals());
    let text = chars_of(en);
    let t = trim_tail(trim_end(text.as_slice()), close.as_slice());
    t.len() > 0 && has_char(terminal.as_slice(), t[t.len() - 1])
}

/// Tests whether a sentence ends with a cue.
fn is_chunk_end(cues: &[BiCue], first: usize, i: usize, max_ms: u64) -> (r: bool)
    requires
        first <= i < cues@.len(),
    ensures
        r == ends_chunk(bicue_views(cues@), first as int, i as int, max_ms),
{
    let c = &cues[i];
    i + 1 >= cues.len() || is_sentence_end(c.en.as_str()) || cues[i + 1].start_ms.saturating_sub(
        c.end_ms,
    ) >= GAP_MS || c.end_ms.saturating_sub(cues[first].start_ms) >= max_ms
}

/// Group cues into sentences: a chunk ends at terminal punctuation, before a
/// gap of `GAP_MS` or more, or once it is `max_ms` long.
pub fn chunk_cues(cues: &[BiCue], max_ms: u64) -> (r: Vec<Chunk>)
    ensures
        r@ == chunks_from(bicue_views(cues@), 0, max_ms),
{
    let mut out: Vec<Chunk> = Vec::new();
    let ghost s = bicue_views(cues@);
    let mut i: usize = 0;
    assert(out@ + chunks_from(s, 0, max_ms) =~= chunks_from(s, 0, max_ms));
    while i < cues.len()
        invariant
            s == bicue_views(cues@),
            i <= cues.len(),
            out@ + chunks_from(s, i as int, max_ms) == chunks_from(s, 0, max_ms),
        decreases cues.len() - i,
    {
        let first = i;
        proof {
            lemma_chunk_end(s, first as int, first as int, max_ms);
        }
        while !is_chunk_end(cues, first, i, max_ms)
            invariant
                s == bicue_views(cues@),
                first <= i < cues.len(),
                chunk_end(s, first as int, first as int, max_ms) == chunk_end(
                    s,
                    first as int,
                    i as int,
                    max_ms,
                ),
            decreases cues.len() - i,
        {
            i = i + 1;
        }
        let ghost so_far = out@;
        let chunk = Chunk {
            first,
            last: i,
            start_ms: cues[first].start_ms,
            end_ms: cues[i].end_ms,
        };
        assert(chunk == chunk_of(s, first as int, i as int));
        out.push(chunk);
        assert(so_far.push(chunk) + chunks_from(s, i + 1, max_ms) =~= so_far + (seq![chunk]
            + chunks_from(s, i + 1, max_ms)));
        i = i + 1;
    }
    assert(out@ + Seq::<Chunk>::empty() =~= out@);
    out
}

/// Law: sentences take up all cues from `from` on, in order and without gaps, each at least one
/// cue long.
pub proof fn law_chunks_cover(s: Seq<BiCueView>, from: int, max_ms: u64)
    requires
        0 <= from <= s.len(),
        s.len() <= usize::MAX,
    ensures
        ({
            let c = chunks_from(s, from, max_ms);
            &&& from < s.len() ==> c.len() > 0 && c[0].first == from && c.last().last == s.len() - 1
            &&& from == s.len() ==> c.len() == 0
            &&& forall|k: int| 0 <= k < c.len() ==> (#[trigger] c[k]).first <= c[k].last
            &&& forall|k: int| 1 <= k < c.len() ==> (#[trigger] c[k]).first == c[k - 1].last + 1
            &&& forall|k: int|
                0 <= k < c.len() ==> #[trigger] c[k] == chunk_of(s, c[k].first as int, c[k].last as int)
        }),
    decreases s.len() - from,
{
    if from < s.len() {
        lemma_chunk_end(s, from, from, max_ms);
        let last = chunk_end(s, from, from, max_ms);
        law_chunks_cover(s, last + 1, max_ms);
        let rest = chunks_from(s, last + 1, max_ms);
        let c = chunks_from(s, from, max_ms);
        assert(c =~= seq![chunk_of(s, from, last)] + rest);
        assert forall|k: int| 0 <= k < c.len() implies (#[trigger] c[k]).first <= c[k].last && c[k]
            == chunk_of(s, c[k].first as int, c[k].last as int) by {
            if k > 0 {
                assert(c[k] == rest[k - 1]);
            }
        }
        assert forall|k: int| 1 <= k < c.len() implies (#[trigger] c[k]).first == c[k - 1].last + 1 by {
            assert(c[k] == rest[k - 1]);
            if k > 1 {
                assert(c[k - 1] == rest[k - 2]);
            }
        }
    }
}

/// Law: a sentence ends where one of the reasons for its end holds, and at the first such cue.
pub proof fn law_chunks_end(s: Seq<BiCueView>, from: int, max_ms: u64)
    requires
        0 <= from <= s.len(),
        s.len() <= usize::MAX,
    ensures
        forall|k: int|
            0 <= k < chunks_from(s, from, max_ms).len() ==> {
                let c = #[trigger] chunks_from(s, from, max_ms)[k];
                &&& ends_chunk(s, c.first as int, c.last as int, max_ms)
                &&& forall|j: int|
                    c.first <= j < c.last ==> !#[trigger] ends_chunk(s, c.first as int, j, max_ms)
            },
    decreases s.len() - from,
{
    if from < s.len() {
        lemma_chunk_end(s, from, from, max_ms);
        let last = chunk_end(s, from, from, max_ms);
        law_chunks_end(s, last + 1, max_ms);
        let rest = chunks_from(s, last + 1, max_ms);
        let all = chunks_from(s, from, max_ms);
        assert(all =~= seq![chunk_of(s, from, last)] + rest);
        assert forall|k: int| 0 <= k < all.len() implies {
            let c = #[trigger] all[k];
            &&& ends_chunk(s, c.first as int, c.last as int, max_ms)
            &&& forall|j: int|
                c.first <= j < c.last ==> !#[trigger] ends_chunk(s, c.first as int, j, max_ms)
        } by {
            if k > 0 {
                assert(all[k] == rest[k - 1]);
            }
        }
    }
}

// ---- Looking up a time ---------------------------------------------------------------------

/// How many of the ascending `starts` are not behind `t`, found by halving.
pub open spec fn started(starts: Seq<u64>, t: u64, lo: int, hi: int) -> int
    decreases hi - lo,
{
    if lo >= hi {
        lo
    } else {
        let mid = lo + (hi - lo) / 2;
        if starts[mid] <= t {
            started(starts, t, mid + 1, hi)
        } else {
            started(starts, t, lo, mid)
        }
    }
}

/// The span that was the last to start by the time `t`, where it has not ended.
pub open spec fn covering(starts: Seq<u64>, ends: Seq<u64>, t: u64) -> Option<usize> {
    let n = started(starts, t, 0, starts.len() as int);
    if n > 0 && t < ends[n - 1] {
        Some((n - 1) as usize)
    } else {
        None
    }
}

/// The starts of cues.
pub open spec fn cue_starts(s: Seq<BiCueView>) -> Seq<u64> {
    Seq::new(s.len(), |i: int| s[i].start_ms)
}

/// The ends of cues.
pub open spec fn cue_ends(s: Seq<BiCueView>) -> Seq<u64> {
    Seq::new(s.len(), |i: int| s[i].end_ms)
}

/// The starts of sentences.
pub open spec fn chunk_starts(s: Seq<Chunk>) -> Seq<u64> {
    Seq::new(s.len(), |i: int| s[i].start_ms)
}

/// The ends of sentences.
pub open spec fn chunk_ends(s: Seq<Chunk>) -> Seq<u64> {
    Seq::new(s.len(), |i: int| s[i].end_ms)
}

/// The search by halving finds where the later starts begin.
pub proof fn lemma_started(starts: Seq<u64>, t: u64, lo: int, hi: int)
    requires
        0 <= lo <= hi <= starts.len(),
        forall|i: int, j: int| 0 <= i <= j < starts.len() ==> starts[i] <= starts[j],
        forall|i: int| 0 <= i < lo ==> starts[i] <= t,
        forall|i: int| hi <= i < starts.len() ==> starts[i] > t,
    ensures
        lo <= started(starts, t, lo, hi) <= hi,
        forall|i: int| 0 <= i < started(starts, t, lo, hi) ==> starts[i] <= t,
        forall|i: int| started(starts, t, lo, hi) <= i < starts.len() ==> starts[i] > t,
    decreases hi - lo,
{
    if lo < hi {
        let mid = lo + (hi - lo) / 2;
        if starts[mid] <= t {
            lemma_started(starts, t, mid + 1, hi);
        } else {
            lemma_started(starts, t, lo, mid);
        }
    }
}

/// Law: of spans that follow each other without overlapping, the one that covers a time is found,
/// and none where none covers it.
pub proof fn law_covering(starts: Seq<u64>, ends: Seq<u64>, t: u64)
    requires
        starts.len() == ends.len() <= usize::MAX,
        forall|i: int| 0 <= i < starts.len() ==> starts[i] <= #[trigger] ends[i],
        forall|i: int, j: int| 0 <= i < j < starts.len() ==> ends[i] <= starts[j],
    ensures
        forall|i: int|
            0 <= i < starts.len() ==> (#[trigger] starts[i] <= t < ends[i] <==> covering(
                starts,
                ends,
                t,
            ) == Some(i as usize)),
        covering(starts, ends, t) matches Some(i) ==> i < starts.len(),
{
    assert forall|i: int, j: int| 0 <= i <= j < starts.len() implies starts[i] <= starts[j] by {
        if i < j {
            assert(starts[i] <= ends[i]);
            assert(ends[i] <= starts[j]);
        }
    }
    lemma_started(starts, t, 0, starts.len() as int);
    let n = started(starts, t, 0, starts.len() as int);
    assert forall|i: int| 0 <= i < starts.len() implies (#[trigger] starts[i] <= t < ends[i] <==> covering(
        starts,
        ends,
        t,
    ) == Some(i as usize)) by {
        if i < n - 1 {
            assert(ends[i] <= starts[n - 1]);
        }
    }
}

/// Index of the sentence covering `t_ms`, if any.
pub fn chunk_at(chunks: &[Chunk], t_ms: u64) -> (r: Option<usize>)
    ensures
        r == covering(chunk_starts(chunks@), chunk_ends(chunks@), t_ms),
        r matches Some(i) ==> i < chunks@.len(),
{
    let ghost starts = chunk_starts(chunks@);
    let mut lo: usize = 0;
    let mut hi: usize = chunks.len();
    while lo < hi
        invariant
            starts == chunk_starts(chunks@),
            lo <= hi <= chunks.len(),
            started(starts, t_ms, lo as int, hi as int) == started(
                starts,
                t_ms,
                0,
                starts.len() as int,
            ),
        decreases hi - lo,
    {
        let mid: usize = lo + (hi - lo) / 2;
        if chunks[mid].start_ms <= t_ms {
            lo = mid + 1;
        } else {
            hi = mid;
        }
    }
    if lo > 0 && t_ms < chunks[lo - 1].end_ms {
        Some(lo - 1)
    } else {
        None
    }
}

/// Index of the cue covering `t_ms`, if any (cues are sorted, non-overlapping).
pub fn current_cue(cues: &[BiCue], t_ms: u64) -> (r: Option<usize>)
    ensures
        r == covering(cue_starts(bicue_views(cues@)), cue_ends(bicue_views(cues@)), t_ms),
        r matches Some(i) ==> i < cues@.len(),
{
    let ghost starts = cue_starts(bicue_views(cues@));
    let mut lo: usize = 0;
    let mut hi: usize = cues.len();
    while lo < hi
        invariant
            starts == cue_starts(bicue_views(cues@)),
            lo <= hi <= cues.len(),
            started(starts, t_ms, lo as int, hi as int) == started(
                starts,
                t_ms,
                0,
                starts.len() as int,
            ),
        decreases hi - lo,
    {
        let mid: usize = lo + (hi - lo) / 2;
        if cues[mid].start_ms <= t_ms {
            lo = mid + 1;
        } else {
            hi = mid;
        }
    }
    if lo > 0 && t_ms < cues[lo - 1].end_ms {
        Some(lo - 1)
    } else {
        None
    }
}

// ---- The bar's position --------------------------------------------------------------------

/// Bar position in screen pixels: distance from the left edge (`None` keeps
/// it centred) and from the bottom edge.
#[derive(Debug, Clone, Copy, PartialEq, Eq)]
pub struct Position {
    pub left: Option<i32>,
    pub bottom: i32,
}

/// Where the bar sits unless it is told otherwise: centred, 40 pixels up.
pub open spec fn default_position() -> Position {
    Position { left: None, bottom: 40 }
}

/// What stands in front of and behind the first `=` of a line.
pub open spec fn setting(line: Seq<char>) -> Option<(Seq<char>, Seq<char>)> {
    let l = trimmed(line);
    match find(l, seq!['=']) {
        Some(i) => Some((l.take(i), l.skip(i + 1))),
        None => None,
    }
}

/// A position with one more line read: a blank line sets nothing, and what is neither blank nor a
/// setting with an integer is garbage.
pub open spec fn with_setting(p: Position, line: Seq<char>) -> Option<Position> {
    if trimmed(line).len() == 0 {
        Some(p)
    } else {
        match setting(line) {
            Some((key, v)) => match read_i32(trimmed(v)) {
                Some(n) => if key == "left"@ {
                    Some(Position { left: Some(n), bottom: p.bottom })
                } else if key == "bottom"@ {
                    Some(Position { left: p.left, bottom: n })
                } else {
                    None
                },
                None => None,
            },
            None => None,
        }
    }
}

/// Whether a line is blank or sets the left or the bottom edge to an integer.
pub open spec fn readable(line: Seq<char>) -> bool {
    trimmed(line).len() == 0 || (setting(line) matches Some((key, v)) && (key == "left"@ || key
        == "bottom"@) && read_i32(trimmed(v)) is Some)
}

/// The position that lines set, from the default on.
pub open spec fn position_of(ls: Seq<Seq<char>>) -> Option<Position>
    decreases ls.len(),
{
    if ls.len() == 0 {
        Some(default_position())
    } else {
        match position_of(ls.drop_last()) {
            Some(p) => with_setting(p, ls.last()),
            None => None,
        }
    }
}

/// What `save` writes.
pub open spec fn saved_position(p: Position) -> Seq<char> {
    let bottom = "bottom="@ + signed_decimal(p.bottom as int) + seq!['\n'];
    match p.left {
        Some(l) => bottom + "left="@ + signed_decimal(l as int) + seq!['\n'],
        None => bottom,
    }
}

/// Once garbage stands in a line, nothing is read.
proof fn lemma_position_stays(ls: Seq<Seq<char>>, i: int)
    requires
        0 <= i <= ls.len(),
        position_of(ls.take(i)) is None,
    ensures
        position_of(ls) is None,
    decreases ls.len() - i,
{
    if i < ls.len() {
        assert(ls.take(i + 1).drop_last() =~= ls.take(i));
        lemma_position_stays(ls, i + 1);
    } else {
        assert(ls.take(i) =~= ls);
    }
}

/// Reads one more line.
fn read_setting(p: Position, line: &[char]) -> (r: Option<Position>)
    ensures
        r == with_setting(p, line@),
{
    let equals: Vec<char> = vec!['='];
    assert(equals@ =~= seq!['=']);
    let l = trim(line);
    if l.len() == 0 {
        return Some(p);
    }
    proof {
        crate::text::lemma_find(l@, seq!['=']);
    }
    match position(l, equals.as_slice()) {
        Some(i) => {
            assert(i + 1 <= l.len());
            let key = slice_subrange(l, 0, i);
            let value = slice_subrange(l, i + 1, l.len());
            assert(key@ =~= l@.take(i as int));
            assert(value@ =~= l@.skip(i + 1));
            match parse_i32(trim(value)) {
                Some(n) => if same(key, chars_of("left").as_slice()) {
                    Some(Position { left: Some(n), bottom: p.bottom })
                } else if same(key, chars_of("bottom").as_slice()) {
                    Some(Position { left: p.left, bottom: n })
                } else {
                    None
                },
                None => None,
            }
        },
        None => None,
    }
}

impl Default for Position {
    /// Centred, 40 pixels up.
    fn default() -> (r: Position)
        ensures
            r == default_position(),
    {
        Position { left: None, bottom: 40 }
    }
}

impl Position {
    /// Parse the saved `left=<px>` / `bottom=<px>` lines; garbage yields `None`.
    pub fn load(text: &str) -> (r: Option<Position>)
        ensures
            r == position_of(lines(text@)),
    {
        let ls = split_lines(chars_of(text).as_slice());
        let ghost all = texts(ls@);
        let mut pos = Position::default();
        for i in 0..ls.len()
            invariant
                all == texts(ls@),
                all == lines(text@),
                position_of(all.take(i as int)) == Some(pos),
        {
            assert(all.take(i + 1).drop_last() =~= all.take(i as int));
            assert(all.take(i + 1).last() == ls@[i as int]@);
            match read_setting(pos, ls[i].as_slice()) {
                Some(p) => {
                    pos = p;
                },
                None => {
                    proof {
                        lemma_position_stays(all, i + 1);
                    }
                    return None;
                },
            }
        }
        assert(all.take(all.len() as int) =~= all);
        Some(pos)
    }

    /// The lines that `load` reads back.
    pub fn save(&self) -> (r: String)
        ensures
            r@ == saved_position(*self),
    {
        let mut out: Vec<char> = chars_of("bottom=");
        push_signed(&mut out, self.bottom as i64);
        out.push('\n');
        assert(out@ =~= "bottom="@ + signed_decimal(self.bottom as int) + seq!['\n']);
        if let Some(l) = self.left {
            push_str(&mut out, "left=");
            push_signed(&mut out, l as i64);
            out.push('\n');
        }
        assert(out@ =~= saved_position(*self));
        string_of(out.as_slice())
    }
}

/// A distance that was given, but not below zero, or another where none was.
pub open spec fn given_or(v: Option<i32>, other: i32) -> i32 {
    match v {
        Some(n) => if n < 0 {
            0
        } else {
            n
        },
        None => other,
    }
}

/// Where the bar starts: as it was told, else where it was last dragged to, else at the default.
pub open spec fn starting_position(saved: Option<Position>, reset: bool, left: Option<i32>, bottom: Option<i32>) -> Position {
    let base = match saved {
        Some(p) if !reset => p,
        _ => default_position(),
    };
    Position {
        left: match left {
            Some(_) => Some(given_or(left, 0)),
            None => base.left,
        },
        bottom: given_or(bottom, base.bottom),
    }
}

/// Where the bar starts: `left` and `bottom` where they are given, else the saved position, else
/// the default; `reset` forgets the saved one.
pub fn start_position(saved: Option<Position>, reset: bool, left: Option<i32>, bottom: Option<i32>) -> (r: Position)
    ensures
        r == starting_position(saved, reset, left, bottom),
{
    let base = match saved {
        Some(p) => if reset {
            Position::default()
        } else {
            p
        },
        None => Position::default(),
    };
    let left = match left {
        Some(n) => Some(
            if n < 0 {
                0
            } else {
                n
            },
        ),
        None => base.left,
    };
    let bottom: i32 = match bottom {
        Some(n) => if n < 0 {
            0
        } else {
            n
        },
        None => base.bottom,
    };
    Position { left, bottom }
}

/// A written integer is one word without line ends.
proof fn lemma_signed_solid(i: int)
    ensures
        signed_decimal(i).len() > 0,
        solid(signed_decimal(i)),
{
    let s = signed_decimal(i);
    let d = decimal(if i < 0 {
        (-i) as nat
    } else {
        i as nat
    });
    lemma_decimal(if i < 0 {
        (-i) as nat
    } else {
        i as nat
    });
    assert forall|k: int| 0 <= k < s.len() implies !crate::text::is_white(#[trigger] s[k]) by {
        if i < 0 {
            if k > 0 {
                assert(s[k] == d[k - 1]);
                assert(is_digit(d[k - 1]));
            }
        } else {
            assert(is_digit(d[k]));
        }
    }
}

/// A setting as it was written.
pub proof fn lemma_setting(key: Seq<char>, i: int)
    requires
        solid(key),
        key.len() > 0,
        lacks(key, '='),
        i32::MIN <= i <= i32::MAX,
    ensures
        setting(key + seq!['='] + signed_decimal(i)) == Some((key, signed_decimal(i))),
        read_i32(trimmed(signed_decimal(i))) == Some(i as i32),
        lacks(key + seq!['='] + signed_decimal(i), '\n'),
        lacks(key + seq!['='] + signed_decimal(i), '\r'),
{
    let v = signed_decimal(i);
    let line = key + seq!['='] + v;
    lemma_signed_solid(i);
    assert forall|k: int| 0 <= k < line.len() implies !crate::text::is_white(#[trigger] line[k]) by {
        if k < key.len() {
            assert(line[k] == key[k]);
        } else if k > key.len() {
            assert(line[k] == v[k - key.len() - 1]);
        }
    }
    assert forall|k: int| 0 <= k < line.len() implies #[trigger] line[k] != '\n' && line[k] != '\r' by {
        assert(!crate::text::is_white(line[k]));
    }
    lemma_trim_solid(line, ' ');
    lemma_trim_solid(v, ' ');
    lemma_split_first(key, '=', v);
    assert(line.take(key.len() as int) =~= key);
    assert(line.skip(key.len() as int + 1) =~= v);
    lemma_integer_signed(i);
}

/// The first line of a text.
proof fn lemma_lines_first(a: Seq<char>, b: Seq<char>)
    requires
        lacks(a, '\n'),
        lacks(a, '\r'),
    ensures
        lines(a + seq!['\n'] + b) == seq![a] + lines(b),
{
    let s = a + seq!['\n'] + b;
    lemma_split_first(a, '\n', b);
    assert(s.take(a.len() as int) =~= a);
    assert(s.skip(a.len() as int + 1) =~= b);
}

/// Law: garbage in any line, and nothing else, keeps a position from being loaded.
pub proof fn law_garbage_is_refused(ls: Seq<Seq<char>>)
    ensures
        position_of(ls) is None <==> exists|i: int| 0 <= i < ls.len() && !readable(#[trigger] ls[i]),
    decreases ls.len(),
{
    if ls.len() > 0 {
        let front = ls.drop_last();
        law_garbage_is_refused(front);
        assert forall|i: int| 0 <= i < front.len() implies #[trigger] front[i] == ls[i] by {}
        if position_of(ls) is None {
            if position_of(front) is None {
                let i = choose|i: int| 0 <= i < front.len() && !readable(#[trigger] front[i]);
                assert(!readable(ls[i]));
            } else {
                assert(!readable(ls[ls.len() - 1]));
            }
        } else {
            assert forall|i: int| 0 <= i < ls.len() implies readable(#[trigger] ls[i]) by {
                if i < front.len() {
                    assert(readable(front[i]));
                }
            }
        }
    }
}

/// Law: a saved position is loaded as it was.
pub proof fn law_position_reads_back(p: Position)
    ensures
        position_of(lines(saved_position(p))) == Some(p),
{
    reveal_strlit("bottom=");
    reveal_strlit("left=");
    reveal_strlit("bottom");
    reveal_strlit("left");
    let none = Seq::<char>::empty();
    let b = "bottom"@ + seq!['='] + signed_decimal(p.bottom as int);
    assert("bottom="@ =~= "bottom"@ + seq!['=']);
    assert("left="@ =~= "left"@ + seq!['=']);
    lemma_setting("bottom"@, p.bottom as int);
    assert("bottom"@[0] != "left"@[0]);
    let first = Position { left: None, bottom: p.bottom };
    assert(with_setting(default_position(), b) == Some(first));
    match p.left {
        Some(l) => {
            let c = "left"@ + seq!['='] + signed_decimal(l as int);
            lemma_setting("left"@, l as int);
            lemma_lines_first(b, c + seq!['\n'] + none);
            lemma_lines_first(c, none);
            assert(saved_position(p) =~= b + seq!['\n'] + (c + seq!['\n'] + none));
            let ls = lines(saved_position(p));
            assert(ls =~= seq![b, c]);
            assert(ls.drop_last() =~= seq![b]);
            assert(seq![b].drop_last() =~= Seq::<Seq<char>>::empty());
            assert(position_of(seq![b].drop_last()) == Some(default_position()));
            assert(position_of(seq![b]) == Some(first));
        },
        None => {
            lemma_lines_first(b, none);
            assert(saved_position(p) =~= b + seq!['\n'] + none);
            let ls = lines(saved_position(p));
            assert(ls =~= seq![b]);
            assert(ls.drop_last() =~= Seq::<Seq<char>>::empty());
            assert(position_of(ls.drop_last()) == Some(default_position()));
        },
    }
}

// ---- The player's state --------------------------------------------------------------------

/// A volume: a number that is the same for equal volumes only, and the percentage as text.
#[derive(Debug, Clone, PartialEq, Eq)]
pub struct Volume {
    pub key: u64,
    pub percent: String,
}

/// How long a new volume is shown, in nanoseconds.
pub const VOLUME_SHOWN: u64 = 1_500_000_000;

/// Player state mirrored from mpv property-change events. Times on the clock are in nanoseconds.
#[derive(Debug, Clone, PartialEq, Eq)]
pub struct Shared {
    pub time_ms: Option<u64>,
    pub paused: bool,
    pub volume: Option<Volume>,
    /// Show the volume readout until this time (set on volume changes).
    pub volume_until: Option<u64>,
    /// False once mpv closed the socket.
    pub alive: bool,
}

/// What mpv reports.
#[derive(Debug, Clone, PartialEq, Eq)]
pub enum Event {
    Time(Option<u64>),
    Pause(bool),
    Volume(Option<Volume>),
    Closed,
}

/// Whether two volumes, either of which may be missing, are equal.
pub open spec fn same_volume(a: Option<Volume>, b: Option<Volume>) -> bool {
    match (a, b) {
        (Some(x), Some(y)) => x.key == y.key,
        (None, None) => true,
        _ => false,
    }
}

/// A time on the clock `d` after `now`.
pub open spec fn after(now: u64, d: u64) -> u64 {
    if now + d <= u64::MAX {
        (now + d) as u64
    } else {
        u64::MAX
    }
}

/// The state after a report that came in at the time `now`. A volume is shown for a while where
/// it takes the place of a different one.
pub open spec fn reported(s: Shared, e: Event, now: u64) -> Shared {
    match e {
        Event::Time(t) => Shared { time_ms: t, ..s },
        Event::Pause(b) => Shared { paused: b, ..s },
        Event::Volume(v) => Shared {
            volume: v,
            volume_until: if s.volume is Some && !same_volume(v, s.volume) {
                Some(after(now, VOLUME_SHOWN))
            } else {
                s.volume_until
            },
            ..s
        },
        Event::Closed => Shared { alive: false, ..s },
    }
}

impl Shared {
    /// The state before anything is reported.
    pub fn new() -> (r: Shared)
        ensures
            r.time_ms is None,
            !r.paused,
            r.volume is None,
            r.volume_until is None,
            r.alive,
    {
        Shared { time_ms: None, paused: false, volume: None, volume_until: None, alive: true }
    }

    /// Takes in a report.
    pub fn report(&mut self, e: Event, now: u64)
        ensures
            *final(self) == reported(*old(self), e, now),
    {
        match e {
            Event::Time(t) => {
                self.time_ms = t;
            },
            Event::Pause(b) => {
                self.paused = b;
            },
            Event::Volume(v) => {
                let differs = match (&v, &self.volume) {
                    (Some(x), Some(y)) => x.key != y.key,
                    (None, Some(_)) => true,
                    _ => false,
                };
                if differs {
                    self.volume_until = Some(now.saturating_add(VOLUME_SHOWN));
                }
                self.volume = v;
            },
            Event::Closed => {
                self.alive = false;
            },
        }
    }
}

// ---- Shadowing -----------------------------------------------------------------------------

/// A pause in progress: for which sentence, until when, and whether mpv has confirmed it.
#[derive(Debug, Clone, Copy, PartialEq, Eq)]
pub struct Pausing {
    pub chunk: usize,
    pub until: u64,
    pub confirmed: bool,
}

/// Shadowing state: the sentence the playhead was last inside, the one that was already paused
/// for, and the pause in progress.
#[derive(Debug, Clone, Copy, PartialEq, Eq)]
pub struct Shadowing {
    pub seen: Option<usize>,
    pub shadowed: Option<usize>,
    pub pausing: Option<Pausing>,
}

/// Whether every sentence that the state speaks of is one of `n`.
pub open spec fn shadowing_wf(s: Shadowing, n: nat) -> bool {
    &&& s.seen matches Some(k) ==> k < n
    &&& s.shadowed matches Some(k) ==> k < n
    &&& s.pausing matches Some(p) ==> p.chunk < n
}

/// One step of shadowing: the new state, whether mpv is told to pause or to go on, and the
/// sentence to repeat with the time that is left for it.
#[verifier::ext_equal]
pub struct ShadowStep {
    pub state: Shadowing,
    pub pause: Option<bool>,
    pub repeat: Option<(usize, u64)>,
}

/// A step while a pause is in progress. It ends when the countdown is over or the listener goes
/// on early, both only once mpv has confirmed it.
pub open spec fn pausing_step(s: Shadowing, p: Pausing, paused: bool, now: u64) -> ShadowStep {
    let confirmed = p.confirmed || paused;
    if confirmed && (!paused || now >= p.until) {
        ShadowStep {
            state: Shadowing { seen: s.seen, shadowed: Some(p.chunk), pausing: None },
            pause: if paused {
                Some(false)
            } else {
                None
            },
            repeat: None,
        }
    } else {
        ShadowStep {
            state: Shadowing {
                seen: s.seen,
                shadowed: s.shadowed,
                pausing: Some(Pausing { chunk: p.chunk, until: p.until, confirmed }),
            },
            pause: None,
            repeat: Some((p.chunk, excess(p.until, now))),
        }
    }
}

/// The sentence that was paused for, unless playback was sought back to before it.
pub open spec fn still_shadowed(s: Shadowing, chunks: Seq<Chunk>, t: u64) -> Option<usize> {
    match s.shadowed {
        Some(k) if t < chunks[k as int].start_ms => None,
        other => other,
    }
}

/// Whether the time `t` is about where a sentence ends.
pub open spec fn at_end(c: Chunk, t: u64) -> bool {
    t + 30 >= c.end_ms && t < c.end_ms + 500
}

/// The sentence to pause for: the last one that was seen, at its end, while playing, once.
pub open spec fn due(s: Shadowing, chunks: Seq<Chunk>, t: u64, paused: bool) -> Option<usize> {
    match s.seen {
        Some(k) if still_shadowed(s, chunks, t) != Some(k) && !paused && at_end(chunks[k as int], t) => Some(
            k,
        ),
        _ => None,
    }
}

/// A step while no pause is in progress.
pub open spec fn playing_step(s: Shadowing, chunks: Seq<Chunk>, pauses: Seq<u64>, t: u64, paused: bool, now: u64) -> ShadowStep {
    let seen = match covering(chunk_starts(chunks), chunk_ends(chunks), t) {
        Some(k) => Some(k),
        None => s.seen,
    };
    match due(s, chunks, t, paused) {
        Some(k) => ShadowStep {
            state: Shadowing {
                seen,
                shadowed: still_shadowed(s, chunks, t),
                pausing: Some(
                    Pausing { chunk: k, until: after(now, pauses[k as int]), confirmed: false },
                ),
            },
            pause: Some(true),
            repeat: None,
        },
        None => ShadowStep {
            state: Shadowing { seen, shadowed: still_shadowed(s, chunks, t), pausing: None },
            pause: None,
            repeat: None,
        },
    }
}

/// One step of shadowing at the playback time `t`.
pub open spec fn shadow_step(s: Shadowing, chunks: Seq<Chunk>, pauses: Seq<u64>, t: u64, paused: bool, now: u64) -> ShadowStep {
    match s.pausing {
        Some(p) => pausing_step(s, p, paused, now),
        None => playing_step(s, chunks, pauses, t, paused, now),
    }
}

impl Shadowing {
    /// The state before playback.
    pub fn new() -> (r: Shadowing)
        ensures
            r == (Shadowing { seen: None, shadowed: None, pausing: None }),
    {
        Shadowing { seen: None, shadowed: None, pausing: None }
    }

    /// Pause at the end of each sentence, resume after the countdown: takes one step at the
    /// playback time `t`, and returns whether to tell mpv to pause or to go on, and the sentence
    /// to repeat with the time left for it. `pauses` holds how long to pause for each sentence.
    pub fn step(&mut self, chunks: &[Chunk], pauses: &[u64], t: u64, paused: bool, now: u64) -> (r: (Option<bool>, Option<(usize, u64)>))
        requires
            shadowing_wf(*old(self), chunks@.len()),
            pauses@.len() == chunks@.len(),
        ensures
            *final(self) == shadow_step(*old(self), chunks@, pauses@, t, paused, now).state,
            r.0 == shadow_step(*old(self), chunks@, pauses@, t, paused, now).pause,
            r.1 == shadow_step(*old(self), chunks@, pauses@, t, paused, now).repeat,
            shadowing_wf(*final(self), chunks@.len()),
            r.1 matches Some((k, _)) ==> k < chunks@.len(),
    {
        match self.pausing {
            Some(p) => {
                let confirmed = p.confirmed || paused;
                if confirmed && (!paused || now >= p.until) {
                    self.pausing = None;
                    self.shadowed = Some(p.chunk);
                    if paused {
                        (Some(false), None)
                    } else {
                        (None, None)
                    }
                } else {
                    self.pausing = Some(Pausing { chunk: p.chunk, until: p.until, confirmed });
                    (None, Some((p.chunk, p.until.saturating_sub(now))))
                }
            },
            None => {
                let cur = chunk_at(chunks, t);
                if let Some(k) = self.shadowed {
                    if t < chunks[k].start_ms {
                        // Sought back: this sentence may be practised again.
                        self.shadowed = None;
                    }
                }
                let mut pause: Option<bool> = None;
                if let Some(k) = self.seen {
                    let again = match self.shadowed {
                        Some(j) => j == k,
                        None => false,
                    };
                    let end = chunks[k].end_ms;
                    if !again && !paused && end.saturating_sub(t) <= 30 && t.saturating_sub(end) < 500 {
                        pause = Some(true);
                        self.pausing = Some(
                            Pausing {
                                chunk: k,
                                until: now.saturating_add(pauses[k]),
                                confirmed: false,
                            },
                        );
                    }
                }
                if cur.is_some() {
                    self.seen = cur;
                }
                (pause, None)
            },
        }
    }
}

/// Law: a sentence that was paused for is not paused for again until playback is sought back to
/// before it.
pub proof fn law_pauses_once(s: Shadowing, chunks: Seq<Chunk>, pauses: Seq<u64>, t: u64, paused: bool, now: u64, k: usize)
    requires
        shadowing_wf(s, chunks.len()),
        s.pausing is None,
        s.shadowed == Some(k),
        t >= chunks[k as int].start_ms,
    ensures
        ({
            let next = shadow_step(s, chunks, pauses, t, paused, now);
            &&& next.state.shadowed == Some(k)
            &&& next.state.pausing matches Some(p) ==> p.chunk != k
        }),
{
}

/// Law: the sentence that was last seen is paused for when playback reaches its end, unless it
/// was already paused for.
pub proof fn law_pauses_at_end(s: Shadowing, chunks: Seq<Chunk>, pauses: Seq<u64>, t: u64, now: u64, k: usize)
    requires
        shadowing_wf(s, chunks.len()),
        s.pausing is None,
        s.seen == Some(k),
        s.shadowed != Some(k) || t < chunks[k as int].start_ms,
        at_end(chunks[k as int], t),
    ensures
        ({
            let next = shadow_step(s, chunks, pauses, t, false, now);
            &&& next.pause == Some(true)
            &&& next.state.pausing == Some(
                Pausing { chunk: k, until: after(now, pauses[k as int]), confirmed: false },
            )
        }),
{
}

/// Law: a pause that mpv has confirmed ends when its time is over, and mpv is told to go on; the
/// sentence then counts as practised.
pub proof fn law_resumes(s: Shadowing, chunks: Seq<Chunk>, pauses: Seq<u64>, t: u64, now: u64, p: Pausing)
    requires
        s.pausing == Some(p),
        now >= p.until,
    ensures
        ({
            let next = shadow_step(s, chunks, pauses, t, true, now);
            &&& next.pause == Some(false)
            &&& next.state.pausing is None
            &&& next.state.shadowed == Some(p.chunk)
        }),
{
}

// ---- What the bar shows --------------------------------------------------------------------

/// The small line below the subtitles.
#[derive(Debug, Clone, PartialEq, Eq)]
pub enum Status {
    Nothing,
    Paused,
    /// The volume in percent.
    Volume(String),
    /// Time to repeat the sentence, in nanoseconds.
    Repeat(u64),
}

/// What the bar shows.
#[derive(Debug, Clone, PartialEq, Eq)]
pub struct Frame {
    pub en: String,
    pub zh: String,
    pub status: Status,
}

/// What a `Status` says.
pub enum StatusView {
    Nothing,
    Paused,
    Volume(Seq<char>),
    Repeat(u64),
}

/// What a `Frame` holds.
#[verifier::ext_equal]
pub struct FrameView {
    pub en: Seq<char>,
    pub zh: Seq<char>,
    pub status: StatusView,
}

impl View for Status {
    type V = StatusView;

    open spec fn view(&self) -> StatusView {
        match self {
            Status::Nothing => StatusView::Nothing,
            Status::Paused => StatusView::Paused,
            Status::Volume(s) => StatusView::Volume(s@),
            Status::Repeat(n) => StatusView::Repeat(*n),
        }
    }
}

impl View for Frame {
    type V = FrameView;

    open spec fn view(&self) -> FrameView {
        FrameView { en: self.en@, zh: self.zh@, status: self.status@ }
    }
}

/// The English of a sentence on one line.
pub open spec fn sentence_en(s: Seq<BiCueView>, c: Chunk) -> Seq<char> {
    joined(
        Seq::new(
            (c.last - c.first + 1) as nat,
            |i: int| replaced(s[c.first + i].en, seq!['\n'], seq![' ']),
        ),
        seq![' '],
    )
}

/// The Chinese of a sentence on one line.
pub open spec fn sentence_zh(s: Seq<BiCueView>, c: Chunk) -> Seq<char> {
    flattened(
        joined(
            Seq::new((c.last - c.first + 1) as nat, |i: int| s[c.first + i].zh),
            seq!['\n'],
        ),
    )
}

/// The status line outside of a shadowing pause.
pub open spec fn plain_status(player: Shared, now: u64) -> StatusView {
    if player.paused {
        StatusView::Paused
    } else {
        match (player.volume_until, player.volume) {
            (Some(until), Some(v)) if now < until => StatusView::Volume(v.percent@),
            _ => StatusView::Nothing,
        }
    }
}

/// The cue at the playback time.
pub open spec fn cue_now(player: Shared, s: Seq<BiCueView>) -> Option<usize> {
    match player.time_ms {
        Some(t) => covering(cue_starts(s), cue_ends(s), t),
        None => None,
    }
}

/// What the bar shows: the sentence to repeat, else the cue at the playback time.
pub open spec fn frame_of(player: Shared, s: Seq<BiCueView>, chunks: Seq<Chunk>, repeat: Option<(usize, u64)>, now: u64) -> FrameView {
    match repeat {
        Some((k, left)) => FrameView {
            en: sentence_en(s, chunks[k as int]),
            zh: sentence_zh(s, chunks[k as int]),
            status: StatusView::Repeat(left),
        },
        None => match cue_now(player, s) {
            Some(i) => FrameView {
                en: s[i as int].en,
                zh: s[i as int].zh,
                status: plain_status(player, now),
            },
            None => FrameView {
                en: Seq::empty(),
                zh: Seq::empty(),
                status: plain_status(player, now),
            },
        },
    }
}

/// Whether a sentence is made of these cues.
pub open spec fn chunk_wf(c: Chunk, n: nat) -> bool {
    c.first <= c.last < n
}

/// The English of a sentence.
fn join_en(cues: &[BiCue], c: Chunk) -> (r: String)
    requires
        chunk_wf(c, cues@.len()),
    ensures
        r@ == sentence_en(bicue_views(cues@), c),
{
    let newline: Vec<char> = vec!['\n'];
    let space: Vec<char> = vec![' '];
    assert(newline@ =~= seq!['\n']);
    assert(space@ =~= seq![' ']);
    let ghost s = bicue_views(cues@);
    assert(c.last < cues.len());
    let mut parts: Vec<Vec<char>> = Vec::new();
    for i in c.first..c.last + 1
        invariant
            s == bicue_views(cues@),
            chunk_wf(c, cues@.len()),
            newline@ == seq!['\n'],
            space@ == seq![' '],
            parts@.len() == i - c.first,
            forall|j: int|
                0 <= j < parts@.len() ==> (#[trigger] parts@[j])@ == replaced(
                    s[c.first + j].en,
                    seq!['\n'],
                    seq![' '],
                ),
    {
        let text = chars_of(cues[i].en.as_str());
        parts.push(replace(text.as_slice(), newline.as_slice(), space.as_slice()));
    }
    assert(texts(parts@) =~= Seq::new(
        (c.last - c.first + 1) as nat,
        |i: int| replaced(s[c.first + i].en, seq!['\n'], seq![' ']),
    ));
    string_of(join(parts.as_slice(), space.as_slice()).as_slice())
}

/// The Chinese of a sentence.
fn join_zh(cues: &[BiCue], c: Chunk) -> (r: String)
    requires
        chunk_wf(c, cues@.len()),
    ensures
        r@ == sentence_zh(bicue_views(cues@), c),
{
    let newline: Vec<char> = vec!['\n'];
    assert(newline@ =~= seq!['\n']);
    let ghost s = bicue_views(cues@);
    assert(c.last < cues.len());
    let mut parts: Vec<Vec<char>> = Vec::new();
    for i in c.first..c.last + 1
        invariant
            s == bicue_views(cues@),
            chunk_wf(c, cues@.len()),
            parts@.len() == i - c.first,
            forall|j: int|
                0 <= j < parts@.len() ==> (#[trigger] parts@[j])@ == s[c.first + j].zh,
    {
        parts.push(chars_of(cues[i].zh.as_str()));
    }
    assert(texts(parts@) =~= Seq::new(
        (c.last - c.first + 1) as nat,
        |i: int| s[c.first + i].zh,
    ));
    let all = join(parts.as_slice(), newline.as_slice());
    flatten_zh(string_of(all.as_slice()).as_str())
}

/// What the bar shows of a player's state.
fn build_frame(player: &Shared, cues: &[BiCue], chunks: &[Chunk], repeat: Option<(usize, u64)>, now: u64) -> (r: Frame)
    requires
        repeat matches Some((k, _)) ==> k < chunks@.len() && chunk_wf(chunks@[k as int], cues@.len()),
    ensures
        r@ == frame_of(*player, bicue_views(cues@), chunks@, repeat, now),
{
    match repeat {
        Some((k, left)) => Frame {
            en: join_en(cues, chunks[k]),
            zh: join_zh(cues, chunks[k]),
            status: Status::Repeat(left),
        },
        None => {
            let status = if player.paused {
                Status::Paused
            } else {
                match (player.volume_until, &player.volume) {
                    (Some(until), Some(v)) => if now < until {
                        Status::Volume(v.percent.clone())
                    } else {
                        Status::Nothing
                    },
                    _ => Status::Nothing,
                }
            };
            let idx = match player.time_ms {
                Some(t) => current_cue(cues, t),
                None => None,
            };
            match idx {
                Some(i) => Frame { en: cues[i].en.clone(), zh: cues[i].zh.clone(), status },
                None => {
                    let f = Frame { en: String::new(), zh: String::new(), status };
                    assert(f@.en =~= Seq::<char>::empty());
                    assert(f@.zh =~= Seq::<char>::empty());
                    f
                },
            }
        },
    }
}

/// What a refresh does: whether to tell mpv to pause or to go on, and what the bar shows.
#[derive(Debug, Clone, PartialEq, Eq)]
pub struct Refresh {
    pub pause: Option<bool>,
    pub frame: Frame,
}

/// The step of shadowing in a refresh; without shadowing, or before mpv has told the time, there
/// is none.
pub open spec fn refresh_step(s: Shadowing, player: Shared, chunks: Seq<Chunk>, pauses: Option<Seq<u64>>, now: u64) -> ShadowStep {
    match (pauses, player.time_ms) {
        (Some(pauses), Some(t)) => shadow_step(s, chunks, pauses, t, player.paused, now),
        _ => ShadowStep { state: s, pause: None, repeat: None },
    }
}

/// What a list that may be missing holds.
pub open spec fn pauses_view(pauses: Option<&[u64]>) -> Option<Seq<u64>> {
    match pauses {
        Some(p) => Some(p@),
        None => None,
    }
}

/// Refresh from the mirrored player state; `None` when mpv is gone. `pauses` holds how long to
/// pause after each sentence, where shadowing is on.
pub fn refresh(state: &mut Shadowing, player: &Shared, cues: &[BiCue], chunks: &[Chunk], pauses: Option<&[u64]>, now: u64) -> (r: Option<Refresh>)
    requires
        shadowing_wf(*old(state), chunks@.len()),
        pauses matches Some(p) ==> p@.len() == chunks@.len(),
        forall|k: int| 0 <= k < chunks@.len() ==> chunk_wf(#[trigger] chunks@[k], cues@.len()),
    ensures
        shadowing_wf(*final(state), chunks@.len()),
        player.alive <==> r is Some,
        !player.alive ==> *final(state) == *old(state),
        player.alive ==> {
            let step = refresh_step(*old(state), *player, chunks@, pauses_view(pauses), now);
            &&& *final(state) == step.state
            &&& r->0.pause == step.pause
            &&& r->0.frame@ == frame_of(*player, bicue_views(cues@), chunks@, step.repeat, now)
        },
{
    if !player.alive {
        return None;
    }
    let (pause, repeat) = match (pauses, player.time_ms) {
        (Some(p), Some(t)) => state.step(chunks, p, t, player.paused, now),
        _ => (None, None),
    };
    Some(Refresh { pause, frame: build_frame(player, cues, chunks, repeat, now) })
}

/// Whether the bar shows anything.
pub open spec fn shows(f: FrameView) -> bool {
    f.en.len() > 0 || f.zh.len() > 0 || f.status !is Nothing
}

impl Frame {
    /// Whether the bar shows anything.
    pub fn is_visible(&self) -> (r: bool)
        ensures
            r == shows(self@),
    {
        !self.en.as_str().is_empty() || !self.zh.as_str().is_empty() || !matches!(self.status, Status::Nothing)
    }
}

// ---- Where the bar sits --------------------------------------------------------------------

/// `v`, kept between `0` and `high`, and `0` where `high` is below it.
pub open spec fn within(v: int, high: int) -> int {
    if v < 0 || high < 0 {
        0
    } else if v > high {
        high
    } else {
        v
    }
}

/// The smaller of a number and the largest `i32`.
pub open spec fn fitting(v: int) -> int {
    if v > i32::MAX {
        i32::MAX as int
    } else {
        v
    }
}

/// The bar's left edge on a screen of this width: centred where the position does not say.
pub open spec fn left_edge(pos: Position, screen: int, width: int) -> int {
    let room = screen - width;
    within(
        match pos.left {
            Some(l) => l as int,
            None => room / 2,
        },
        room,
    )
}

/// The bar's top edge on a screen of this height.
pub open spec fn top_edge(pos: Position, screen: int, height: int) -> int {
    let y = screen - pos.bottom - height;
    if y < 0 {
        0
    } else {
        fitting(y)
    }
}

/// Where a drag that began at `start` takes the bar.
pub open spec fn dragged_to(start: Position, ox: i32, oy: i32, screen: (i32, i32), bar: (i32, i32)) -> Position {
    let left = match start.left {
        Some(l) => l as int,
        None => 0,
    };
    Position {
        left: Some(within(left + ox, fitting(screen.0 - bar.0)) as i32),
        bottom: within(start.bottom - oy, fitting(screen.1 - bar.1)) as i32,
    }
}

/// Keeps a number between `0` and `high`.
fn keep_within(v: i64, high: i64) -> (r: i64)
    ensures
        r == within(v as int, high as int),
{
    if v < 0 || high < 0 {
        0
    } else if v > high {
        high
    } else {
        v
    }
}

/// The smaller of a number and the largest `i32`.
fn fit(v: i64) -> (r: i64)
    ensures
        r == fitting(v as int),
{
    if v > 0x7fff_ffff {
        0x7fff_ffff
    } else {
        v
    }
}

/// Where the bar was last placed, to skip redundant calls.
#[derive(Debug, Clone, Copy, PartialEq, Eq)]
pub struct Placement {
    pub x: i32,
    pub y: i32,
    pub w: i32,
    pub h: i32,
    pub visible: bool,
}

/// Places the bar inside the monitor-sized surface.
#[derive(Debug, Clone, Copy, PartialEq, Eq)]
pub struct Layout {
    pub width: i32,
    pub last: Option<Placement>,
}

/// Where the bar belongs.
pub open spec fn placement(pos: Position, screen: (i32, i32), bar: (i32, i32), visible: bool) -> Placement {
    Placement {
        x: left_edge(pos, screen.0 as int, bar.0 as int) as i32,
        y: top_edge(pos, screen.1 as int, bar.1 as int) as i32,
        w: bar.0,
        h: bar.1,
        visible,
    }
}

impl Layout {
    /// The bar's left edge for `pos` (centred when `pos.left` is `None`).
    pub fn left_of(&self, pos: Position, screen: i32) -> (r: i32)
        ensures
            r == left_edge(pos, screen as int, self.width as int),
    {
        let room: i64 = screen as i64 - self.width as i64;
        let left: i64 = match pos.left {
            Some(l) => l as i64,
            None => if room >= 0 {
                room / 2
            } else {
                0
            },
        };
        keep_within(left, room) as i32
    }

    /// Where to put a bar of this height; `None` where it is already there.
    pub fn place(&mut self, pos: Position, screen: (i32, i32), height: i32, visible: bool) -> (r: Option<Placement>)
        ensures
            final(self).width == old(self).width,
            ({
                let p = placement(pos, screen, (old(self).width, height), visible);
                &&& final(self).last == Some(p)
                &&& r == if old(self).last == Some(p) {
                    None
                } else {
                    Some(p)
                }
            }),
    {
        let y: i64 = screen.1 as i64 - pos.bottom as i64 - height as i64;
        let top: i64 = if y < 0 {
            0
        } else {
            fit(y)
        };
        let p = Placement {
            x: self.left_of(pos, screen.0),
            y: top as i32,
            w: self.width,
            h: height,
            visible,
        };
        let there = match self.last {
            Some(q) => q.x == p.x && q.y == p.y && q.w == p.w && q.h == p.h && q.visible == p.visible,
            None => false,
        };
        self.last = Some(p);
        if there {
            None
        } else {
            Some(p)
        }
    }
}

/// Law: a bar that is no wider than the screen and no higher than the room above its bottom edge
/// lies on the screen as a whole.
pub proof fn law_bar_on_screen(pos: Position, screen: (i32, i32), bar: (i32, i32), visible: bool)
    requires
        0 <= bar.0 <= screen.0,
        0 <= bar.1,
        0 <= pos.bottom,
        pos.bottom + bar.1 <= screen.1,
    ensures
        ({
            let p = placement(pos, screen, bar, visible);
            &&& 0 <= p.x
            &&& p.x + p.w <= screen.0
            &&& 0 <= p.y
            &&& p.y + p.h + pos.bottom == screen.1
        }),
{
}

/// Law: a bar that fits the screen is dragged to places on it only.
pub proof fn law_drag_on_screen(start: Position, ox: i32, oy: i32, screen: (i32, i32), bar: (i32, i32))
    requires
        0 <= bar.0 <= screen.0,
        0 <= bar.1 <= screen.1,
    ensures
        ({
            let p = dragged_to(start, ox, oy, screen, bar);
            &&& p.left matches Some(l) && 0 <= l && l + bar.0 <= screen.0
            &&& 0 <= p.bottom
            &&& p.bottom + bar.1 <= screen.1
        }),
{
}

/// A drag of the bar: where the bar was when it began, and whether it has moved since.
#[derive(Debug, Clone, Copy, PartialEq, Eq)]
pub struct Drag {
    pub start: Position,
    pub dragged: bool,
}

impl Drag {
    /// A drag begins.
    pub fn begin(layout: &Layout, pos: Position, screen: i32) -> (r: Drag)
        ensures
            r.start.left == Some(left_edge(pos, screen as int, layout.width as int) as i32),
            r.start.bottom == pos.bottom,
            !r.dragged,
    {
        Drag {
            start: Position { left: Some(layout.left_of(pos, screen)), bottom: pos.bottom },
            dragged: false,
        }
    }

    /// Whether letting go of the button pauses or resumes: where the bar has not moved.
    pub fn clicks(&self) -> (r: bool)
        ensures
            r == !self.dragged,
    {
        !self.dragged
    }

    /// The pointer is at an offset from where the drag began; `far` tells whether that is far
    /// enough to be meant. Returns the bar's new position where it differs from `pos`.
    pub fn update(&mut self, far: bool, ox: i32, oy: i32, pos: Position, screen: (i32, i32), bar: (i32, i32)) -> (r: Option<Position>)
        ensures
            final(self).start == old(self).start,
            final(self).dragged == (old(self).dragged || far),
            ({
                let next = dragged_to(old(self).start, ox, oy, screen, bar);
                r == if (old(self).dragged || far) && next != pos {
                    Some(next)
                } else {
                    None
                }
            }),
    {
        if !self.dragged && !far {
            return None;
        }
        self.dragged = true;
        let left: i64 = match self.start.left {
            Some(l) => l as i64,
            None => 0,
        };
        let room_x: i64 = fit(screen.0 as i64 - bar.0 as i64);
        let room_y: i64 = fit(screen.1 as i64 - bar.1 as i64);
        let x: i64 = keep_within(left + ox as i64, room_x);
        let b: i64 = keep_within(self.start.bottom as i64 - oy as i64, room_y);
        let next = Position { left: Some(x as i32), bottom: b as i32 };
        let stays = match pos.left {
            Some(l) => l == x as i32 && pos.bottom == b as i32,
            None => false,
        };
        if stays {
            None
        } else {
            Some(next)
        }
    }
}

/// How much the wheel changes the volume, in percent.
pub fn wheel(up: bool) -> (step: i64)
    ensures
        step == if up {
            5int
        } else {
            -5int
        },
{
    if up {
        5
    } else {
        -5
    }
}

// ---- How the bar looks ---------------------------------------------------------------------

/// How the overlay is set up.
#[derive(Debug, Clone)]
pub struct OverlayOpts {
    pub width: i32,
    pub font_size: i32,
    pub font_en: String,
    pub font_zh: String,
    pub order: Order,
    /// Where the bar sits; dragging it updates this.
    pub position: Position,
    /// Shadowing: the longest sentence to build from consecutive cues, in ms.
    pub chunk_ms: Option<u64>,
}

/// Nine tenths as a binary fraction with 24 significant digits, in units of `2` to the power
/// `-24`.
pub const NINE_TENTHS: u32 = 15_099_494;

/// One half in the same units.
pub const HALF: u32 = 8_388_608;

/// A font size scaled by a binary fraction and rounded.
pub open spec fn scaled_size(v: i32, mantissa: nat) -> i32 {
    if v >= 0 {
        fitting(scaled(v as u32, mantissa, 24) as int) as i32
    } else {
        (-fitting(scaled((-v) as u32, mantissa, 24) as int)) as i32
    }
}

/// The size of the Chinese: nine tenths of the English.
pub open spec fn zh_size(font_size: i32) -> i32 {
    scaled_size(font_size, NINE_TENTHS as nat)
}

/// The size of the status line: half of the English, but at least 12.
pub open spec fn status_size(font_size: i32) -> i32 {
    if scaled_size(font_size, HALF as nat) < 12 {
        12
    } else {
        scaled_size(font_size, HALF as nat)
    }
}

/// The style sheet of the bar.
pub open spec fn style_text(font_en: Seq<char>, font_zh: Seq<char>, font_size: i32) -> Seq<char> {
    "window { background-color: transparent; }\n"@
        + ".bar { background-color: rgba(0, 0, 0, 0.62); border-radius: 14px; padding: 10px 28px; }\n"@
        + ".en { color: #ffffff; font-family: \""@ + font_en + "\"; font-size: "@ + signed_decimal(
        font_size as int,
    ) + "px; text-shadow: 0 0 3px #000000; }\n"@ + ".zh { color: #ffe696; font-family: \""@ + font_zh
        + "\"; font-size: "@ + signed_decimal(zh_size(font_size) as int)
        + "px; text-shadow: 0 0 3px #000000; }\n"@ + ".status { color: #bbbbbb; font-size: "@
        + signed_decimal(status_size(font_size) as int) + "px; }\n"@
}

/// Scales a font size.
fn scale_size(v: i32, mantissa: u32) -> (r: i32)
    requires
        mantissa < 0x100_0000,
    ensures
        r == scaled_size(v, mantissa as nat),
{
    if v >= 0 {
        fit(scale(v as u32, mantissa, 24) as i64) as i32
    } else {
        (-fit(scale((-(v as i64)) as u32, mantissa, 24) as i64)) as i32
    }
}

/// The size of the Chinese in pixels.
pub fn chinese_size(font_size: i32) -> (r: i32)
    ensures
        r == zh_size(font_size),
{
    scale_size(font_size, NINE_TENTHS)
}

/// The style sheet of the bar.
pub fn stylesheet(o: &OverlayOpts) -> (r: String)
    ensures
        r@ == style_text(o.font_en@, o.font_zh@, o.font_size),
{
    let half = scale_size(o.font_size, HALF);
    let small: i32 = if half < 12 {
        12
    } else {
        half
    };
    let mut out: Vec<char> = chars_of("window { background-color: transparent; }\n");
    push_str(&mut out, ".bar { background-color: rgba(0, 0, 0, 0.62); border-radius: 14px; padding: 10px 28px; }\n");
    push_str(&mut out, ".en { color: #ffffff; font-family: \"");
    push_str(&mut out, o.font_en.as_str());
    push_str(&mut out, "\"; font-size: ");
    push_signed(&mut out, o.font_size as i64);
    push_str(&mut out, "px; text-shadow: 0 0 3px #000000; }\n");
    push_str(&mut out, ".zh { color: #ffe696; font-family: \"");
    push_str(&mut out, o.font_zh.as_str());
    push_str(&mut out, "\"; font-size: ");
    push_signed(&mut out, chinese_size(o.font_size) as i64);
    push_str(&mut out, "px; text-shadow: 0 0 3px #000000; }\n");
    push_str(&mut out, ".status { color: #bbbbbb; font-size: ");
    push_signed(&mut out, small as i64);
    push_str(&mut out, "px; }\n");
    string_of(out.as_slice())
}

} // verus!
