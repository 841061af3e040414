//! Caption parsing: YouTube `json3` (preferred) and WebVTT/SRT (fallback).

use crate::json::{all_of, describes, json_document, json_of, milliseconds, part, unsigned, Json};
use crate::json::{find_part, is_record, number_text, parse_milliseconds, parse_unsigned, read_document};
use crate::float::{parse_seconds, read_seconds};
use crate::number::{parse_u64, read_u64, IntegerError};
use crate::text::{chars_of, join, position, replace, same, same_str, split_lines, split_text, split_words, string_of, trim};
use crate::text::{contains_text, find, joined, lines, replaced, split, texts, trimmed, words};
use crate::text_lemmas::lemma_split_some;
use vstd::prelude::*;

verus! {

/// One subtitle cue. `text` holds one or more lines joined with `'\n'`.
#[derive(Debug, Clone, PartialEq, Eq)]
pub struct Cue {
    pub start_ms: u64,
    pub end_ms: u64,
    pub text: String,
}

/// What a cue holds.
#[verifier::ext_equal]
pub struct CueView {
    pub start_ms: u64,
    pub end_ms: u64,
    pub text: Seq<char>,
}

impl View for Cue {
    type V = CueView;

    open spec fn view(&self) -> CueView {
        CueView { start_ms: self.start_ms, end_ms: self.end_ms, text: self.text@ }
    }
}

/// What the cues hold.
pub open spec fn cue_views(s: Seq<Cue>) -> Seq<CueView> {
    Seq::new(s.len(), |i: int| s[i]@)
}

/// Why captions cannot be parsed.
#[derive(Debug, Clone)]
pub enum CaptionError {
    /// The document is not valid `json3`.
    InvalidJson3,
    /// Hours or minutes of a timestamp are no integer.
    Integer(IntegerError),
    /// The seconds of a timestamp are no number.
    Seconds,
    /// A timestamp has neither two nor three parts.
    Timestamp(String),
    /// A time does not fit the range of milliseconds.
    TooLate,
    /// No parser for this container type.
    Unsupported(String),
}

/// What a caption error holds.
#[verifier::ext_equal]
pub enum CaptionFault {
    InvalidJson3,
    Integer(IntegerError),
    Seconds,
    Timestamp(Seq<char>),
    TooLate,
    Unsupported(Seq<char>),
}

impl View for CaptionError {
    type V = CaptionFault;

    open spec fn view(&self) -> CaptionFault {
        match self {
            CaptionError::InvalidJson3 => CaptionFault::InvalidJson3,
            CaptionError::Integer(e) => CaptionFault::Integer(*e),
            CaptionError::Seconds => CaptionFault::Seconds,
            CaptionError::Timestamp(t) => CaptionFault::Timestamp(t@),
            CaptionError::TooLate => CaptionFault::TooLate,
            CaptionError::Unsupported(t) => CaptionFault::Unsupported(t@),
        }
    }
}

/// What a parser's result holds.
pub open spec fn outcome(r: Result<Vec<Cue>, CaptionError>) -> Result<Seq<CueView>, CaptionFault> {
    match r {
        Ok(v) => Ok(cue_views(v@)),
        Err(e) => Err(e@),
    }
}

// ---- Text cleaning -------------------------------------------------------------------------

/// `s` with HTML entities replaced and zero-width spaces removed.
pub open spec fn unescaped(s: Seq<char>) -> Seq<char> {
    let s = replaced(s, seq!['\u{200b}'], Seq::empty());
    let s = replaced(s, "&lt;"@, "<"@);
    let s = replaced(s, "&gt;"@, ">"@);
    let s = replaced(s, "&quot;"@, "\""@);
    let s = replaced(s, "&#39;"@, "'"@);
    let s = replaced(s, "&#x27;"@, "'"@);
    let s = replaced(s, "&nbsp;"@, " "@);
    replaced(s, "&amp;"@, "&"@)
}

/// Replaces one entity.
fn replace_entity(s: Vec<char>, entity: &str, with: &str) -> (r: Vec<char>)
    requires
        entity@.len() > 0,
    ensures
        r@ == replaced(s@, entity@, with@),
{
    replace(s.as_slice(), chars_of(entity).as_slice(), chars_of(with).as_slice())
}

/// Replaces HTML entities and removes zero-width spaces.
fn html_unescape(s: &[char]) -> (r: Vec<char>)
    ensures
        r@ == unescaped(s@),
{
    proof {
        reveal_strlit("&lt;");
        reveal_strlit("&gt;");
        reveal_strlit("&quot;");
        reveal_strlit("&#39;");
        reveal_strlit("&#x27;");
        reveal_strlit("&nbsp;");
        reveal_strlit("&amp;");
    }
    let zero_width: Vec<char> = vec!['\u{200b}'];
    let nothing: Vec<char> = Vec::new();
    assert(zero_width@ =~= seq!['\u{200b}']);
    let s = replace(s, zero_width.as_slice(), nothing.as_slice());
    let s = replace_entity(s, "&lt;", "<");
    let s = replace_entity(s, "&gt;", ">");
    let s = replace_entity(s, "&quot;", "\"");
    let s = replace_entity(s, "&#39;", "'");
    let s = replace_entity(s, "&#x27;", "'");
    let s = replace_entity(s, "&nbsp;", " ");
    replace_entity(s, "&amp;", "&")
}

/// `s` with every run of white space in it made one space, and none at its ends.
pub open spec fn collapsed(s: Seq<char>) -> Seq<char> {
    joined(words(s), seq![' '])
}

/// Collapses white space.
pub(crate) fn collapse(s: &[char]) -> (r: Vec<char>)
    ensures
        r@ == collapsed(s@),
{
    let space: Vec<char> = vec![' '];
    assert(space@ =~= seq![' ']);
    join(split_words(s).as_slice(), space.as_slice())
}

/// The lines with their white space collapsed, without those that are then empty.
pub open spec fn tidy_lines(ls: Seq<Seq<char>>) -> Seq<Seq<char>>
    decreases ls.len(),
{
    if ls.len() == 0 {
        Seq::empty()
    } else {
        let rest = tidy_lines(ls.drop_last());
        let line = collapsed(ls.last());
        if line.len() == 0 {
            rest
        } else {
            rest.push(line)
        }
    }
}

/// What `clean_text` makes of `s`.
pub open spec fn cleaned(s: Seq<char>) -> Seq<char> {
    joined(tidy_lines(split(unescaped(s), seq!['\n'])), seq!['\n'])
}

/// Cleans characters.
fn clean(raw: &[char]) -> (r: Vec<char>)
    ensures
        r@ == cleaned(raw@),
{
    let newline: Vec<char> = vec!['\n'];
    assert(newline@ =~= seq!['\n']);
    let text = html_unescape(raw);
    let ls = split_text(text.as_slice(), newline.as_slice());
    let mut kept: Vec<Vec<char>> = Vec::new();
    assert(texts(kept@) =~= tidy_lines(texts(ls@).take(0)));
    for i in 0..ls.len()
        invariant
            texts(kept@) == tidy_lines(texts(ls@).take(i as int)),
    {
        let line = collapse(ls[i].as_slice());
        let ghost before = texts(kept@);
        assert(texts(ls@).take(i + 1).drop_last() =~= texts(ls@).take(i as int));
        if line.len() > 0 {
            kept.push(line);
            assert(texts(kept@) =~= before.push(line@));
        }
    }
    assert(texts(ls@).take(ls@.len() as int) =~= texts(ls@));
    join(kept.as_slice(), newline.as_slice())
}

/// Unescape HTML entities, collapse whitespace per line, drop empty lines.
pub fn clean_text(raw: &str) -> (r: String)
    ensures
        r@ == cleaned(raw@),
{
    string_of(clean(chars_of(raw).as_slice()).as_slice())
}

/// `s` without its tags: what stands between `<` and the next `>`. `in_tag` tells whether `s`
/// begins inside of one.
pub open spec fn untagged(s: Seq<char>, in_tag: bool) -> Seq<char>
    decreases s.len(),
{
    if s.len() == 0 {
        Seq::empty()
    } else if s[0] == '<' {
        untagged(s.drop_first(), true)
    } else if in_tag {
        untagged(s.drop_first(), s[0] != '>')
    } else {
        seq![s[0]] + untagged(s.drop_first(), false)
    }
}

/// Removes tags.
fn strip_tags(s: &[char]) -> (r: Vec<char>)
    ensures
        r@ == untagged(s@, false),
{
    let mut out: Vec<char> = Vec::new();
    let mut in_tag = false;
    assert(s@.skip(0) =~= s@);
    assert(out@ + untagged(s@, false) =~= untagged(s@, false));
    for i in 0..s.len()
        invariant
            out@ + untagged(s@.skip(i as int), in_tag) == untagged(s@, false),
    {
        let ch = s[i];
        let ghost before = out@;
        assert(s@.skip(i as int).drop_first() =~= s@.skip(i + 1));
        if ch == '<' {
            in_tag = true;
        } else if in_tag {
            in_tag = ch != '>';
        } else {
            out.push(ch);
            assert(before.push(ch) + untagged(s@.skip(i + 1), false) =~= before + (seq![ch]
                + untagged(s@.skip(i + 1), false)));
        }
    }
    assert(s@.skip(s@.len() as int) =~= Seq::<char>::empty());
    assert(out@ + Seq::<char>::empty() =~= out@);
    out
}

// ---- Timestamps ----------------------------------------------------------------------------

/// A time of day in milliseconds.
pub open spec fn clock(hours: u64, minutes: u64, ms: u64) -> Result<u64, CaptionFault> {
    let total = hours * 3_600_000 + minutes * 60_000 + ms;
    if total <= u64::MAX {
        Ok(total as u64)
    } else {
        Err(CaptionFault::TooLate)
    }
}

/// What a timestamp means, in milliseconds: `HH:MM:SS.mmm` or `MM:SS.mmm`, with a point or a
/// comma.
pub open spec fn timestamp(s: Seq<char>) -> Result<u64, CaptionFault> {
    let t = replaced(s, seq![','], seq!['.']);
    let parts = split(t, seq![':']);
    if parts.len() == 3 {
        match (read_u64(parts[0]), read_u64(parts[1]), read_seconds(parts[2], true)) {
            (Err(e), _, _) => Err(CaptionFault::Integer(e)),
            (Ok(_), Err(e), _) => Err(CaptionFault::Integer(e)),
            (Ok(_), Ok(_), None) => Err(CaptionFault::Seconds),
            (Ok(h), Ok(m), Some(ms)) => clock(h, m, ms),
        }
    } else if parts.len() == 2 {
        match (read_u64(parts[0]), read_seconds(parts[1], true)) {
            (Err(e), _) => Err(CaptionFault::Integer(e)),
            (Ok(_), None) => Err(CaptionFault::Seconds),
            (Ok(m), Some(ms)) => clock(0, m, ms),
        }
    } else {
        Err(CaptionFault::Timestamp(t))
    }
}

/// Adds up a time of day.
fn clock_ms(hours: u64, minutes: u64, ms: u64) -> (r: Result<u64, CaptionError>)
    ensures
        match r {
            Ok(t) => clock(hours, minutes, ms) == Ok::<u64, CaptionFault>(t),
            Err(e) => clock(hours, minutes, ms) == Err::<u64, CaptionFault>(e@),
        },
{
    let total: u128 = hours as u128 * 3_600_000 + minutes as u128 * 60_000 + ms as u128;
    if total <= 0xffff_ffff_ffff_ffff {
        Ok(total as u64)
    } else {
        Err(CaptionError::TooLate)
    }
}

/// Reads a time from characters.
fn read_timestamp(s: &[char]) -> (r: Result<u64, CaptionError>)
    ensures
        match r {
            Ok(t) => timestamp(s@) == Ok::<u64, CaptionFault>(t),
            Err(e) => timestamp(s@) == Err::<u64, CaptionFault>(e@),
        },
{
    let comma: Vec<char> = vec![','];
    let point: Vec<char> = vec!['.'];
    let colon: Vec<char> = vec![':'];
    assert(comma@ =~= seq![',']);
    assert(point@ =~= seq!['.']);
    assert(colon@ =~= seq![':']);
    let t = replace(s, comma.as_slice(), point.as_slice());
    let parts = split_text(t.as_slice(), colon.as_slice());
    let ghost views = texts(parts@);
    assert(views == split(t@, colon@));
    if parts.len() == 3 {
        assert(views[0] == parts@[0]@ && views[1] == parts@[1]@ && views[2] == parts@[2]@);
        let h = match parse_u64(parts[0].as_slice()) {
            Ok(h) => h,
            Err(e) => {
                return Err(CaptionError::Integer(e));
            },
        };
        let m = match parse_u64(parts[1].as_slice()) {
            Ok(m) => m,
            Err(e) => {
                return Err(CaptionError::Integer(e));
            },
        };
        match parse_seconds(parts[2].as_slice(), true) {
            Some(ms) => clock_ms(h, m, ms),
            None => Err(CaptionError::Seconds),
        }
    } else if parts.len() == 2 {
        assert(views[0] == parts@[0]@ && views[1] == parts@[1]@);
        let m = match parse_u64(parts[0].as_slice()) {
            Ok(m) => m,
            Err(e) => {
                return Err(CaptionError::Integer(e));
            },
        };
        match parse_seconds(parts[1].as_slice(), true) {
            Some(ms) => clock_ms(0, m, ms),
            None => Err(CaptionError::Seconds),
        }
    } else {
        Err(CaptionError::Timestamp(string_of(t.as_slice())))
    }
}

/// `HH:MM:SS.mmm`, `MM:SS.mmm`, or the SRT comma variant.
pub fn parse_timestamp(s: &str) -> (r: Result<u64, CaptionError>)
    ensures
        match r {
            Ok(t) => timestamp(s@) == Ok::<u64, CaptionFault>(t),
            Err(e) => timestamp(s@) == Err::<u64, CaptionFault>(e@),
        },
{
    read_timestamp(chars_of(s).as_slice())
}

// ---- Normalisation -------------------------------------------------------------------------

/// The cues that have text.
pub open spec fn with_text(s: Seq<CueView>) -> Seq<CueView> {
    s.filter(|c: CueView| c.text.len() > 0)
}

/// The cues that last for some time.
pub open spec fn lasting(s: Seq<CueView>) -> Seq<CueView> {
    s.filter(|c: CueView| c.end_ms > c.start_ms)
}

/// `c` put into a list ordered by start, behind those that start no later.
pub open spec fn put_in(s: Seq<CueView>, c: CueView) -> Seq<CueView>
    decreases s.len(),
{
    if s.len() > 0 && s.last().start_ms > c.start_ms {
        put_in(s.drop_last(), c).push(s.last())
    } else {
        s.push(c)
    }
}

/// The cues ordered by start; those that start together stay in their order.
pub open spec fn in_order(s: Seq<CueView>) -> Seq<CueView>
    decreases s.len(),
{
    if s.len() == 0 {
        Seq::empty()
    } else {
        put_in(in_order(s.drop_last()), s.last())
    }
}

/// The larger of two times.
pub open spec fn later(a: u64, b: u64) -> u64 {
    if a >= b {
        a
    } else {
        b
    }
}

/// The smaller of two times.
pub open spec fn earlier(a: u64, b: u64) -> u64 {
    if a <= b {
        a
    } else {
        b
    }
}

/// `last` and a cue that starts with it as one cue.
pub open spec fn merge(last: CueView, c: CueView) -> CueView {
    CueView {
        start_ms: last.start_ms,
        end_ms: later(last.end_ms, c.end_ms),
        text: if last.text == c.text {
            last.text
        } else {
            last.text + seq!['\n'] + c.text
        },
    }
}

/// `last`, ending no later than a cue that starts at `t`.
pub open spec fn cut(last: CueView, t: u64) -> CueView {
    CueView { start_ms: last.start_ms, end_ms: earlier(last.end_ms, t), text: last.text }
}

/// The list with `c` behind it: merged with a last cue that starts no earlier, else after a
/// last cue that ends where `c` starts at the latest.
pub open spec fn follow(out: Seq<CueView>, c: CueView) -> Seq<CueView> {
    if out.len() == 0 {
        seq![c]
    } else if c.start_ms <= out.last().start_ms {
        out.drop_last().push(merge(out.last(), c))
    } else {
        out.drop_last().push(cut(out.last(), c.start_ms)).push(c)
    }
}

/// The cues one behind the other.
pub open spec fn chained(s: Seq<CueView>) -> Seq<CueView>
    decreases s.len(),
{
    if s.len() == 0 {
        Seq::empty()
    } else {
        follow(chained(s.drop_last()), s.last())
    }
}

/// What `normalize` makes of the cues.
pub open spec fn normalized(s: Seq<CueView>) -> Seq<CueView> {
    lasting(chained(in_order(with_text(s))))
}

/// Where `put_in` puts a cue.
proof fn lemma_put_in(s: Seq<CueView>, c: CueView, j: int)
    requires
        0 <= j <= s.len(),
        j > 0 ==> s[j - 1].start_ms <= c.start_ms,
        forall|i: int| j <= i < s.len() ==> s[i].start_ms > c.start_ms,
    ensures
        put_in(s, c) == s.insert(j, c),
    decreases s.len(),
{
    if j < s.len() {
        lemma_put_in(s.drop_last(), c, j);
        assert(s.drop_last().insert(j, c).push(s.last()) =~= s.insert(j, c));
    } else {
        assert(s.push(c) =~= s.insert(j, c));
    }
}

/// A copy of a cue.
fn copy_cue(c: &Cue) -> (r: Cue)
    ensures
        r@ == c@,
{
    Cue { start_ms: c.start_ms, end_ms: c.end_ms, text: c.text.clone() }
}

/// Keeps the cues that have text, ordered by start.
fn sort_cues(cues: &Vec<Cue>) -> (r: Vec<Cue>)
    ensures
        cue_views(r@) == in_order(with_text(cue_views(cues@))),
{
    let mut out: Vec<Cue> = Vec::new();
    let ghost all = cue_views(cues@);
    proof {
        reveal(Seq::filter);
        assert(with_text(all.take(0)) =~= Seq::<CueView>::empty());
        assert(cue_views(out@) =~= in_order(with_text(all.take(0))));
    }
    for i in 0..cues.len()
        invariant
            all == cue_views(cues@),
            cue_views(out@) == in_order(with_text(all.take(i as int))),
    {
        let ghost before = cue_views(out@);
        proof {
            reveal(Seq::filter);
            assert(all.take(i + 1).drop_last() =~= all.take(i as int));
            assert(all.take(i + 1).last() == cues@[i as int]@);
        }
        if !cues[i].text.as_str().is_empty() {
            let c = copy_cue(&cues[i]);
            let mut j: usize = out.len();
            while j > 0 && out[j - 1].start_ms > c.start_ms
                invariant
                    j <= out@.len(),
                    before == cue_views(out@),
                    forall|k: int| j <= k < before.len() ==> before[k].start_ms > c.start_ms,
                decreases j,
            {
                assert(before[j - 1].start_ms == out@[j - 1].start_ms);
                j -= 1;
            }
            proof {
                lemma_put_in(before, c@, j as int);
                let prev = with_text(all.take(i as int));
                assert(with_text(all.take(i + 1)) == prev.push(c@));
                assert(prev.push(c@).drop_last() =~= prev);
            }
            out.insert(j, c);
            assert(cue_views(out@) =~= before.insert(j as int, c@));
        }
    }
    assert(all.take(all.len() as int) =~= all);
    out
}

/// Merges and cuts cues that are ordered by start.
fn chain_cues(cues: Vec<Cue>) -> (r: Vec<Cue>)
    ensures
        cue_views(r@) == chained(cue_views(cues@)),
{
    let mut out: Vec<Cue> = Vec::new();
    let ghost all = cue_views(cues@);
    assert(cue_views(out@) =~= chained(all.take(0)));
    for i in 0..cues.len()
        invariant
            all == cue_views(cues@),
            cue_views(out@) == chained(all.take(i as int)),
    {
        let ghost before = cue_views(out@);
        assert(all.take(i + 1).drop_last() =~= all.take(i as int));
        let c = copy_cue(&cues[i]);
        assert(all.take(i + 1).last() == c@);
        match out.pop() {
            Some(mut last) => {
                let ghost lv = last@;
                assert(lv == before.last());
                assert(cue_views(out@) =~= before.drop_last());
                if c.start_ms <= last.start_ms {
                    if !(last.text == c.text) {
                        last.text.push('\n');
                        last.text.append(c.text.as_str());
                        assert(last.text@ =~= lv.text + seq!['\n'] + c.text@);
                    }
                    if last.end_ms < c.end_ms {
                        last.end_ms = c.end_ms;
                    }
                    assert(last@ =~= merge(lv, c@));
                    out.push(last);
                    assert(cue_views(out@) =~= before.drop_last().push(merge(lv, c@)));
                } else {
                    if last.end_ms > c.start_ms {
                        last.end_ms = c.start_ms;
                    }
                    assert(last@ =~= cut(lv, c.start_ms));
                    out.push(last);
                    out.push(c);
                    assert(cue_views(out@) =~= before.drop_last().push(cut(lv, c.start_ms)).push(
                        c@,
                    ));
                }
            },
            None => {
                out.push(c);
                assert(cue_views(out@) =~= seq![c@]);
            },
        }
    }
    assert(all.take(all.len() as int) =~= all);
    out
}

/// Sort by start, merge cues that share a start time, and clamp every cue so it
/// ends no later than the next one starts (YouTube ASR lines overlap by design).
pub fn normalize(cues: Vec<Cue>) -> (r: Vec<Cue>)
    ensures
        cue_views(r@) == normalized(cue_views(cues@)),
{
    let chain = chain_cues(sort_cues(&cues));
    let ghost all = cue_views(chain@);
    let mut out: Vec<Cue> = Vec::new();
    proof {
        reveal(Seq::filter);
        assert(cue_views(out@) =~= lasting(all.take(0)));
    }
    for i in 0..chain.len()
        invariant
            all == cue_views(chain@),
            cue_views(out@) == lasting(all.take(i as int)),
    {
        let ghost before = cue_views(out@);
        proof {
            reveal(Seq::filter);
            assert(all.take(i + 1).drop_last() =~= all.take(i as int));
            assert(all.take(i + 1).last() == chain@[i as int]@);
        }
        if chain[i].end_ms > chain[i].start_ms {
            let c = copy_cue(&chain[i]);
            out.push(c);
            assert(cue_views(out@) =~= before.push(c@));
        }
    }
    assert(all.take(all.len() as int) =~= all);
    out
}

// ---- WebVTT and SRT ------------------------------------------------------------------------

/// The first line that holds an arrow.
pub open spec fn timing_line(ls: Seq<Seq<char>>) -> Option<int>
    decreases ls.len(),
{
    if ls.len() == 0 {
        None
    } else if contains_text(ls[0], "-->"@) {
        Some(0)
    } else {
        match timing_line(ls.drop_first()) {
            Some(i) => Some(i + 1),
            None => None,
        }
    }
}

/// The first of the words, or nothing.
pub open spec fn first_word(s: Seq<char>) -> Seq<char> {
    if words(s).len() > 0 {
        words(s)[0]
    } else {
        Seq::empty()
    }
}

/// The cue that a timing line and the lines below it write; none where no text is left.
pub open spec fn timed_cue(timing: Seq<char>, body: Seq<Seq<char>>) -> Result<
    Option<CueView>,
    CaptionFault,
> {
    let arrow = find(timing, "-->"@)->0;
    let text = cleaned(untagged(joined(body, seq!['\n']), false));
    match (timestamp(trimmed(timing.take(arrow))), timestamp(first_word(timing.skip(arrow + 3)))) {
        (Err(e), _) => Err(e),
        (Ok(_), Err(e)) => Err(e),
        (Ok(start_ms), Ok(end_ms)) => if text.len() == 0 {
            Ok(None)
        } else {
            Ok(Some(CueView { start_ms, end_ms, text }))
        },
    }
}

/// The cue that a block of lines writes; none where it has no timing line or no text.
pub open spec fn block_cue(block: Seq<char>) -> Result<Option<CueView>, CaptionFault> {
    let ls = lines(block);
    match timing_line(ls) {
        Some(i) => timed_cue(ls[i], ls.skip(i + 1)),
        None => Ok(None),
    }
}

/// The lines of a cue's text that are new: with `rolling`, a first line that the cue before it
/// ended with is dropped.
pub open spec fn new_lines(text: Seq<char>, last: Option<Seq<char>>, rolling: bool) -> Seq<Seq<char>> {
    let ls = split(text, seq!['\n']);
    if rolling && last == Some(ls[0]) {
        ls.drop_first()
    } else {
        ls
    }
}

/// The cues that blocks write, and the last line among them.
pub open spec fn block_cues(blocks: Seq<Seq<char>>, rolling: bool) -> Result<
    (Seq<CueView>, Option<Seq<char>>),
    CaptionFault,
>
    decreases blocks.len(),
{
    if blocks.len() == 0 {
        Ok((Seq::empty(), None))
    } else {
        match (block_cues(blocks.drop_last(), rolling), block_cue(blocks.last())) {
            (Err(e), _) => Err(e),
            (Ok(_), Err(e)) => Err(e),
            (Ok(before), Ok(None)) => Ok(before),
            (Ok((cues, last)), Ok(Some(c))) => {
                let ls = new_lines(c.text, last, rolling);
                if ls.len() == 0 {
                    Ok((cues, last))
                } else {
                    let cue = CueView {
                        start_ms: c.start_ms,
                        end_ms: c.end_ms,
                        text: joined(ls, seq!['\n']),
                    };
                    Ok((cues.push(cue), Some(ls.last())))
                }
            },
        }
    }
}

/// `s` without byte-order marks in front.
pub open spec fn without_marks(s: Seq<char>) -> Seq<char>
    decreases s.len(),
{
    if s.len() > 0 && s[0] == '\u{feff}' {
        without_marks(s.drop_first())
    } else {
        s
    }
}

/// The blocks of a WebVTT or SRT document: they are parted by empty lines.
pub open spec fn blocks(s: Seq<char>) -> Seq<Seq<char>> {
    split(replaced(without_marks(s), seq!['\r', '\n'], seq!['\n']), seq!['\n', '\n'])
}

/// The cues of a WebVTT or SRT document.
pub open spec fn block_captions(s: Seq<char>, rolling: bool) -> Result<Seq<CueView>, CaptionFault> {
    match block_cues(blocks(s), rolling) {
        Ok((cues, _)) => Ok(normalized(cues)),
        Err(e) => Err(e),
    }
}

/// A fault in a block is the fault of the whole.
proof fn lemma_fault_stays(bs: Seq<Seq<char>>, i: int, rolling: bool)
    requires
        0 <= i <= bs.len(),
        block_cues(bs.take(i), rolling) is Err,
    ensures
        block_cues(bs, rolling) == block_cues(bs.take(i), rolling),
    decreases bs.len() - i,
{
    if i < bs.len() {
        assert(bs.take(i + 1).drop_last() =~= bs.take(i));
        lemma_fault_stays(bs, i + 1, rolling);
    } else {
        assert(bs.take(i) =~= bs);
    }
}

/// Finds the first line that holds an arrow.
fn find_timing(ls: &Vec<Vec<char>>) -> (r: Option<usize>)
    ensures
        match timing_line(texts(ls@)) {
            Some(i) => r is Some && r->0 == i && i < ls@.len() && contains_text(ls@[i]@, "-->"@),
            None => r is None,
        },
{
    let arrow = chars_of("-->");
    let ghost all = texts(ls@);
    assert(all.skip(0) =~= all);
    for i in 0..ls.len()
        invariant
            arrow@ == "-->"@,
            all == texts(ls@),
            match timing_line(all.skip(i as int)) {
                Some(k) => timing_line(all) == Some(k + i),
                None => timing_line(all) is None,
            },
    {
        assert(all.skip(i as int).drop_first() =~= all.skip(i + 1));
        assert(all.skip(i as int)[0] == ls@[i as int]@);
        if position(ls[i].as_slice(), arrow.as_slice()).is_some() {
            return Some(i);
        }
    }
    assert(all.skip(all.len() as int) =~= Seq::<Seq<char>>::empty());
    None
}

/// Reads the cue of one block.
fn parse_block(block: &[char]) -> (r: Result<Option<(u64, u64, Vec<char>)>, CaptionError>)
    ensures
        match r {
            Ok(Some((start_ms, end_ms, text))) => block_cue(block@) == Ok::<
                Option<CueView>,
                CaptionFault,
            >(Some(CueView { start_ms, end_ms, text: text@ })),
            Ok(None) => block_cue(block@) == Ok::<Option<CueView>, CaptionFault>(None),
            Err(e) => block_cue(block@) == Err::<Option<CueView>, CaptionFault>(e@),
        },
{
    let ls = split_lines(block);
    let ghost views = texts(ls@);
    let at = match find_timing(&ls) {
        Some(i) => i,
        None => {
            return Ok(None);
        },
    };
    let timing = ls[at].as_slice();
    assert(timing@ == views[at as int]);
    let arrow = chars_of("-->");
    let newline: Vec<char> = vec!['\n'];
    assert(newline@ =~= seq!['\n']);
    proof {
        reveal_strlit("-->");
        crate::text::lemma_find(timing@, "-->"@);
    }
    let split_at = match position(timing, arrow.as_slice()) {
        Some(k) => k,
        None => 0,
    };
    assert(find(timing@, "-->"@) == Some(split_at as int));
    assert(split_at + 3 <= timing.len());
    let before = vstd::slice::slice_subrange(timing, 0, split_at);
    let after = vstd::slice::slice_subrange(timing, split_at + 3, timing.len());
    assert(before@ =~= timing@.take(split_at as int));
    assert(after@ =~= timing@.skip(split_at + 3));
    let start_ms = match read_timestamp(trim(before)) {
        Ok(t) => t,
        Err(e) => {
            return Err(e);
        },
    };
    let tokens = split_words(after);
    let end_token: Vec<char> = if tokens.len() > 0 {
        assert(tokens@[0]@ == texts(tokens@)[0]);
        vstd::slice::slice_to_vec(tokens[0].as_slice())
    } else {
        Vec::new()
    };
    assert(end_token@ =~= first_word(after@));
    let end_ms = match read_timestamp(end_token.as_slice()) {
        Ok(t) => t,
        Err(e) => {
            return Err(e);
        },
    };
    assert(at < ls.len());
    let below = vstd::slice::slice_subrange(ls.as_slice(), at + 1, ls.len());
    assert(texts(below@) =~= views.skip(at + 1));
    let body = join(below, newline.as_slice());
    let text = clean(strip_tags(body.as_slice()).as_slice());
    if text.len() == 0 {
        Ok(None)
    } else {
        Ok(Some((start_ms, end_ms, text)))
    }
}

/// The new lines of a text.
fn fresh_lines(text: &[char], last: &Option<Vec<char>>, rolling: bool) -> (r: Vec<Vec<char>>)
    ensures
        texts(r@) == new_lines(
            text@,
            match *last {
                Some(l) => Some(l@),
                None => None,
            },
            rolling,
        ),
{
    let newline: Vec<char> = vec!['\n'];
    assert(newline@ =~= seq!['\n']);
    let mut ls = split_text(text, newline.as_slice());
    proof {
        lemma_split_some(text@, newline@);
        assert(texts(ls@)[0] == ls@[0]@);
    }
    let ghost all = texts(ls@);
    if rolling {
        if let Some(l) = last {
            if same(l.as_slice(), ls[0].as_slice()) {
                let first = ls.remove(0);
                assert(texts(ls@) =~= all.drop_first());
            }
        }
    }
    ls
}

/// Reads a WebVTT or SRT document.
pub fn parse_blocks(text: &str, rolling: bool) -> (r: Result<Vec<Cue>, CaptionError>)
    ensures
        outcome(r) == block_captions(text@, rolling),
{
    let source = chars_of(text);
    let mut from: usize = 0;
    assert(source@.skip(0) =~= source@);
    while from < source.len() && source[from] == '\u{feff}'
        invariant
            from <= source@.len(),
            without_marks(source@.skip(from as int)) == without_marks(source@),
        decreases source@.len() - from,
    {
        assert(source@.skip(from as int).drop_first() =~= source@.skip(from + 1));
        from += 1;
    }
    let unmarked = vstd::slice::slice_subrange(source.as_slice(), from, source.len());
    assert(unmarked@ =~= source@.skip(from as int));
    assert(unmarked@ == without_marks(text@));
    let crlf: Vec<char> = vec!['\r', '\n'];
    let newline: Vec<char> = vec!['\n'];
    let gap: Vec<char> = vec!['\n', '\n'];
    assert(crlf@ =~= seq!['\r', '\n']);
    assert(newline@ =~= seq!['\n']);
    assert(gap@ =~= seq!['\n', '\n']);
    let plain = replace(unmarked, crlf.as_slice(), newline.as_slice());
    let bs = split_text(plain.as_slice(), gap.as_slice());
    let ghost all = texts(bs@);
    assert(all == blocks(text@));
    let mut cues: Vec<Cue> = Vec::new();
    let mut last: Option<Vec<char>> = None;
    assert(cue_views(cues@) =~= Seq::<CueView>::empty());
    for i in 0..bs.len()
        invariant
            newline@ == seq!['\n'],
            all == texts(bs@),
            all == blocks(text@),
            block_cues(all.take(i as int), rolling) == Ok::<
                (Seq<CueView>, Option<Seq<char>>),
                CaptionFault,
            >(
                (
                    cue_views(cues@),
                    match last {
                        Some(l) => Some(l@),
                        None => None,
                    },
                ),
            ),
    {
        let ghost before = cue_views(cues@);
        assert(all.take(i + 1).drop_last() =~= all.take(i as int));
        assert(all.take(i + 1).last() == bs@[i as int]@);
        match parse_block(bs[i].as_slice()) {
            Err(e) => {
                proof {
                    lemma_fault_stays(all, i + 1, rolling);
                }
                return Err(e);
            },
            Ok(None) => {},
            Ok(Some((start_ms, end_ms, content))) => {
                let ls = fresh_lines(content.as_slice(), &last, rolling);
                if ls.len() > 0 {
                    assert(texts(ls@).last() == ls@[ls@.len() - 1]@);
                    let joined_text = join(ls.as_slice(), newline.as_slice());
                    let cue = Cue { start_ms, end_ms, text: string_of(joined_text.as_slice()) };
                    cues.push(cue);
                    assert(cue_views(cues@) =~= before.push(cue@));
                    last = Some(vstd::slice::slice_to_vec(ls[ls.len() - 1].as_slice()));
                }
            },
        }
    }
    assert(all.take(all.len() as int) =~= all);
    Ok(normalize(cues))
}

/// Parse WebVTT. Handles YouTube's rolling auto-caption VTT, where each cue
/// repeats the previous line, by dropping already-emitted leading lines.
pub fn parse_vtt(text: &str) -> (r: Result<Vec<Cue>, CaptionError>)
    ensures
        outcome(r) == block_captions(text@, true),
{
    parse_blocks(text, true)
}

/// Parse plain SRT (no rolling-line dedupe, so repeated cues survive).
pub fn parse_srt(text: &str) -> (r: Result<Vec<Cue>, CaptionError>)
    ensures
        outcome(r) == block_captions(text@, false),
{
    parse_blocks(text, false)
}

// ---- json3 ---------------------------------------------------------------------------------

/// One event of a `json3` document.
pub struct Json3Event {
    pub start_ms: u64,
    pub duration_ms: u64,
    /// `1` marks a synthetic "\n" event used by the rolling ASR display.
    pub append: u8,
    /// The text pieces of the event.
    pub segs: Vec<Vec<char>>,
}

/// What an event holds.
#[verifier::ext_equal]
pub struct EventView {
    pub start_ms: u64,
    pub duration_ms: u64,
    pub append: u8,
    pub segs: Seq<Seq<char>>,
}

impl View for Json3Event {
    type V = EventView;

    open spec fn view(&self) -> EventView {
        EventView {
            start_ms: self.start_ms,
            duration_ms: self.duration_ms,
            append: self.append,
            segs: texts(self.segs@),
        }
    }
}

/// What the events hold.
pub open spec fn event_views(s: Seq<Json3Event>) -> Seq<EventView> {
    Seq::new(s.len(), |i: int| s[i]@)
}

/// A time in milliseconds, `0` where there is none.
pub open spec fn time_part(j: Option<Json>) -> Option<u64> {
    match j {
        Some(Json::Number(t)) => milliseconds(t),
        Some(_) => None,
        None => Some(0),
    }
}

/// An integer of one byte, `0` where there is none.
pub open spec fn byte_part(j: Option<Json>) -> Option<u8> {
    match j {
        Some(Json::Number(t)) => match unsigned(t) {
            Some(n) if n <= 255 => Some(n as u8),
            _ => None,
        },
        Some(_) => None,
        None => Some(0),
    }
}

/// A text, empty where there is none.
pub open spec fn text_part(j: Option<Json>) -> Option<Seq<char>> {
    match j {
        Some(Json::Text(t)) => Some(t),
        Some(_) => None,
        None => Some(Seq::empty()),
    }
}

/// The elements of a list, none where there is no list.
pub open spec fn list_part(j: Option<Json>) -> Option<Seq<Json>> {
    match j {
        Some(Json::List(s)) => Some(s),
        Some(_) => None,
        None => Some(Seq::empty()),
    }
}

/// The text of one piece.
pub open spec fn seg_text(j: Json) -> Option<Seq<char>> {
    if describes(j, 1) {
        text_part(part(j, "utf8"@, 0))
    } else {
        None
    }
}

/// The texts of the pieces.
pub open spec fn seg_texts(s: Seq<Json>) -> Option<Seq<Seq<char>>> {
    all_of(s, |j: Json| seg_text(j))
}

/// The event that a JSON value describes.
pub open spec fn json3_event(j: Json) -> Option<EventView> {
    if describes(j, 4) {
        match (
            time_part(part(j, "tStartMs"@, 0)),
            time_part(part(j, "dDurationMs"@, 1)),
            byte_part(part(j, "aAppend"@, 2)),
            list_part(part(j, "segs"@, 3)),
        ) {
            (Some(start_ms), Some(duration_ms), Some(append), Some(list)) => match seg_texts(list) {
                Some(segs) => Some(EventView { start_ms, duration_ms, append, segs }),
                None => None,
            },
            _ => None,
        }
    } else {
        None
    }
}

/// The events of a `json3` document.
pub open spec fn json3_events(j: Json) -> Option<Seq<EventView>> {
    if describes(j, 1) {
        match list_part(part(j, "events"@, 0)) {
            Some(list) => all_of(list, |j: Json| json3_event(j)),
            None => None,
        }
    } else {
        None
    }
}

/// The text of an event.
pub open spec fn event_text(ev: EventView) -> Seq<char> {
    cleaned(joined(ev.segs, Seq::empty()))
}

/// Whether an event makes a cue: it is no line break of the rolling display and has text.
pub open spec fn speaks(ev: EventView) -> bool {
    ev.append != 1 && ev.segs.len() > 0 && event_text(ev).len() > 0
}

/// The cues of the events, in their order.
pub open spec fn event_cues(evs: Seq<EventView>) -> Result<Seq<CueView>, CaptionFault>
    decreases evs.len(),
{
    if evs.len() == 0 {
        Ok(Seq::empty())
    } else {
        let ev = evs.last();
        match event_cues(evs.drop_last()) {
            Err(e) => Err(e),
            Ok(cues) => if !speaks(ev) {
                Ok(cues)
            } else if ev.start_ms + ev.duration_ms > u64::MAX {
                Err(CaptionFault::TooLate)
            } else {
                Ok(
                    cues.push(
                        CueView {
                            start_ms: ev.start_ms,
                            end_ms: (ev.start_ms + ev.duration_ms) as u64,
                            text: event_text(ev),
                        },
                    ),
                )
            },
        }
    }
}

/// The cues of a list of events, put in order.
pub open spec fn json3_cues(evs: Seq<EventView>) -> Result<Seq<CueView>, CaptionFault> {
    match event_cues(evs) {
        Ok(cues) => Ok(normalized(cues)),
        Err(e) => Err(e),
    }
}

/// The cues of a `json3` document.
pub open spec fn json3_captions(doc: Option<Json>) -> Result<Seq<CueView>, CaptionFault> {
    match doc {
        Some(j) => match json3_events(j) {
            Some(evs) => json3_cues(evs),
            None => Err(CaptionFault::InvalidJson3),
        },
        None => Err(CaptionFault::InvalidJson3),
    }
}

/// A fault in an event is the fault of the whole.
proof fn lemma_event_fault_stays(evs: Seq<EventView>, i: int)
    requires
        0 <= i <= evs.len(),
        event_cues(evs.take(i)) is Err,
    ensures
        event_cues(evs) == event_cues(evs.take(i)),
    decreases evs.len() - i,
{
    if i < evs.len() {
        assert(evs.take(i + 1).drop_last() =~= evs.take(i));
        lemma_event_fault_stays(evs, i + 1);
    } else {
        assert(evs.take(i) =~= evs);
    }
}

/// The cues of a list of events: those that only break a line of the rolling display or have no
/// text make none.
pub fn cues_of_events(events: &Vec<Json3Event>) -> (r: Result<Vec<Cue>, CaptionError>)
    ensures
        outcome(r) == json3_cues(event_views(events@)),
{
    let nothing: Vec<char> = Vec::new();
    let mut cues: Vec<Cue> = Vec::new();
    let ghost all = event_views(events@);
    assert(cue_views(cues@) =~= Seq::<CueView>::empty());
    for i in 0..events.len()
        invariant
            nothing@ == Seq::<char>::empty(),
            all == event_views(events@),
            event_cues(all.take(i as int)) == Ok::<Seq<CueView>, CaptionFault>(cue_views(cues@)),
    {
        let ev = &events[i];
        let ghost before = cue_views(cues@);
        assert(all.take(i + 1).drop_last() =~= all.take(i as int));
        assert(all.take(i + 1).last() == ev@);
        if ev.append != 1 && ev.segs.len() > 0 {
            let text = clean(join(ev.segs.as_slice(), nothing.as_slice()).as_slice());
            if text.len() > 0 {
                if ev.duration_ms > u64::MAX - ev.start_ms {
                    proof {
                        lemma_event_fault_stays(all, i + 1);
                    }
                    return Err(CaptionError::TooLate);
                }
                let cue = Cue {
                    start_ms: ev.start_ms,
                    end_ms: ev.start_ms + ev.duration_ms,
                    text: string_of(text.as_slice()),
                };
                cues.push(cue);
                assert(cue_views(cues@) =~= before.push(cue@));
            }
        }
    }
    assert(all.take(all.len() as int) =~= all);
    Ok(normalize(cues))
}

/// Reads a time.
fn read_time(v: &serde_json::Value, key: &str, place: usize) -> (r: Option<u64>)
    ensures
        r == time_part(part(json_of(*v), key@, place as nat)),
{
    match find_part(v, key, place) {
        Some(x) => match number_text(x) {
            Some(t) => parse_milliseconds(t.as_str()),
            None => None,
        },
        None => Some(0),
    }
}

/// Reads an integer of one byte.
fn read_byte(v: &serde_json::Value, key: &str, place: usize) -> (r: Option<u8>)
    ensures
        r == byte_part(part(json_of(*v), key@, place as nat)),
{
    match find_part(v, key, place) {
        Some(x) => match number_text(x) {
            Some(t) => match parse_unsigned(t.as_str(), 255) {
                Some(n) => Some(n as u8),
                None => None,
            },
            None => None,
        },
        None => Some(0),
    }
}

/// Reads one piece of an event.
fn read_seg(v: &serde_json::Value) -> (r: Option<Vec<char>>)
    ensures
        match seg_text(json_of(*v)) {
            Some(t) => r is Some && r->0@ == t,
            None => r is None,
        },
{
    if !is_record(v, 1) {
        return None;
    }
    match find_part(v, "utf8", 0) {
        Some(x) => match x.as_str() {
            Some(t) => Some(chars_of(t)),
            None => None,
        },
        None => {
            let none: Vec<char> = Vec::new();
            assert(none@ =~= Seq::<char>::empty());
            Some(none)
        },
    }
}

/// Reads the pieces of an event.
fn read_segs(v: &serde_json::Value) -> (r: Option<Vec<Vec<char>>>)
    ensures
        match list_part(part(json_of(*v), "segs"@, 3)) {
            Some(list) => match seg_texts(list) {
                Some(segs) => r is Some && texts(r->0@) == segs,
                None => r is None,
            },
            None => r is None,
        },
{
    let mut out: Vec<Vec<char>> = Vec::new();
    let list = match find_part(v, "segs", 3) {
        Some(x) => match x.as_array() {
            Some(list) => list,
            None => {
                return None;
            },
        },
        None => {
            assert(texts(out@) =~= seg_texts(Seq::empty())->0);
            return Some(out);
        },
    };
    let ghost js = list_part(part(json_of(*v), "segs"@, 3))->0;
    for i in 0..list.len()
        invariant
            js.len() == list@.len(),
            list_part(part(json_of(*v), "segs"@, 3)) == Some(js),
            forall|k: int| 0 <= k < js.len() ==> json_of(#[trigger] list@[k]) == js[k],
            out@.len() == i,
            forall|k: int|
                0 <= k < i ==> seg_text(js[k]) == Some(#[trigger] out@[k]@),
    {
        let item = &list[i];
        assert(json_of(*item) == js[i as int]);
        let piece = match read_seg(item) {
            Some(t) => t,
            None => {
                assert(seg_text(js[i as int]) is None);
                return None;
            },
        };
        out.push(piece);
    }
    proof {
        assert forall|k: int| 0 <= k < js.len() implies seg_text(#[trigger] js[k]) is Some by {
            assert(seg_text(js[k]) == Some(out@[k]@));
        }
        assert(texts(out@) =~= seg_texts(js)->0);
    }
    Some(out)
}

/// Reads one event.
fn read_event(v: &serde_json::Value) -> (r: Option<Json3Event>)
    ensures
        match json3_event(json_of(*v)) {
            Some(ev) => r is Some && r->0@ == ev,
            None => r is None,
        },
{
    if !is_record(v, 4) {
        return None;
    }
    let start_ms = match read_time(v, "tStartMs", 0) {
        Some(t) => t,
        None => {
            return None;
        },
    };
    let duration_ms = match read_time(v, "dDurationMs", 1) {
        Some(t) => t,
        None => {
            return None;
        },
    };
    let append = match read_byte(v, "aAppend", 2) {
        Some(b) => b,
        None => {
            return None;
        },
    };
    match read_segs(v) {
        Some(segs) => Some(Json3Event { start_ms, duration_ms, append, segs }),
        None => None,
    }
}

/// Reads the events of a document.
fn read_events(v: &serde_json::Value) -> (r: Option<Vec<Json3Event>>)
    ensures
        match json3_events(json_of(*v)) {
            Some(evs) => r is Some && event_views(r->0@) == evs,
            None => r is None,
        },
{
    let mut out: Vec<Json3Event> = Vec::new();
    if !is_record(v, 1) {
        return None;
    }
    let ghost doc = json_of(*v);
    let list = match find_part(v, "events", 0) {
        Some(x) => match x.as_array() {
            Some(list) => list,
            None => {
                return None;
            },
        },
        None => {
            assert(event_views(out@) =~= json3_events(doc)->0);
            return Some(out);
        },
    };
    let ghost js = list_part(part(doc, "events"@, 0))->0;
    for i in 0..list.len()
        invariant
            js.len() == list@.len(),
            doc == json_of(*v),
            describes(doc, 1),
            list_part(part(doc, "events"@, 0)) == Some(js),
            forall|k: int| 0 <= k < js.len() ==> json_of(#[trigger] list@[k]) == js[k],
            out@.len() == i,
            forall|k: int|
                0 <= k < i ==> json3_event(js[k]) == Some(#[trigger] out@[k]@),
    {
        assert(json_of(list@[i as int]) == js[i as int]);
        match read_event(&list[i]) {
            Some(ev) => {
                out.push(ev);
            },
            None => {
                assert(json3_event(js[i as int]) is None);
                assert(json3_events(doc) is None);
                return None;
            },
        }
    }
    proof {
        assert forall|k: int| 0 <= k < js.len() implies json3_event(#[trigger] js[k]) is Some by {
            assert(json3_event(js[k]) == Some(out@[k]@));
        }
        assert(event_views(out@) =~= json3_events(doc)->0);
    }
    Some(out)
}

/// Parse a YouTube timedtext `json3` document. Works for manual subtitles,
/// auto-generated captions and auto-translated captions.
pub fn parse_json3(text: &str) -> (r: Result<Vec<Cue>, CaptionError>)
    ensures
        outcome(r) == json3_captions(json_document(text@)),
{
    match read_document(text) {
        Ok(doc) => match read_events(&doc) {
            Some(events) => cues_of_events(&events),
            None => Err(CaptionError::InvalidJson3),
        },
        Err(_) => Err(CaptionError::InvalidJson3),
    }
}

/// What `parse` makes of a document of container type `ext`.
pub open spec fn captions(ext: Seq<char>, text: Seq<char>) -> Result<Seq<CueView>, CaptionFault> {
    if ext == "json3"@ {
        json3_captions(json_document(text))
    } else if ext == "vtt"@ {
        block_captions(text, true)
    } else if ext == "srt"@ {
        block_captions(text, false)
    } else {
        Err(CaptionFault::Unsupported(ext))
    }
}

/// Parse by container type: `json3`, otherwise VTT/SRT.
pub fn parse(ext: &str, text: &str) -> (r: Result<Vec<Cue>, CaptionError>)
    ensures
        outcome(r) == captions(ext@, text@),
{
    if same_str(ext, "json3") {
        parse_json3(text)
    } else if same_str(ext, "vtt") {
        parse_vtt(text)
    } else if same_str(ext, "srt") {
        parse_srt(text)
    } else {
        Err(CaptionError::Unsupported(string_of(chars_of(ext).as_slice())))
    }
}

} // verus!
