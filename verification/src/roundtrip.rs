//! What reading gives back of what was written.

use crate::align::{flattened, zipped, BiCueView};
use crate::captions::{block_captions, block_cue, block_cues, blocks, cleaned, clock, collapsed, event_cues, first_word, json3_cues, tidy_lines, timed_cue, timestamp, timing_line, unescaped, untagged, with_text, without_marks, CaptionFault, CueView, EventView};
use crate::float::{law_thousandths_exact, read_seconds};
use crate::neat::{all_neat, all_survive, law_blocks_neat, law_events_neat, law_neat_survives, neat, plain, survives};
use crate::normal::{law_normalized_fixed, law_normalized_tidy, tidy};
use crate::number::{all_digits, decimal, decimal_number, digits_value, is_caseless, is_digit, lemma_decimal, lemma_digit_run, lemma_digits_parts, lemma_natural_padded, lemma_padded, mantissa_parts, padded, pow10, read_u64, IntegerError, Real};
use crate::play::{bilingual, paired, text_at, SidecarFault};
use crate::session::{self, advance, ActionView, Options, StageView};
use crate::subs::{srt_document, srt_entries, srt_entry, srt_stamp, zh_cues};
use crate::text::{begins, find, joined, lemma_find, lemma_find_some, lines, replaced, split, stands_at, trimmed, words};
use crate::text_lemmas::{all_lack, compact, evenly_spaced, lacks, lemma_compact, lemma_compact_add, lemma_compact_joined, lemma_find_absent, lemma_find_behind, lemma_join_split, lemma_joined_words, lemma_lacks_add, lemma_lines_split, lemma_replace_absent, lemma_replace_one, lemma_split_first, lemma_split_gap, lemma_split_lacking, lemma_split_lacks, lemma_split_some, lemma_trim_solid, lemma_words, lemma_words_solid, lemma_words_space, solid};
use crate::ytdlp::Info;
use vstd::arithmetic::div_mod::{lemma_div_denominator, lemma_fundamental_div_mod};
use vstd::prelude::*;

verus! {

// ---- Times ---------------------------------------------------------------------------------

/// Digits hold no other character.
pub proof fn lemma_digits_lack(s: Seq<char>, c: char)
    requires
        all_digits(s),
        !is_digit(c),
    ensures
        lacks(s, c),
{
    assert forall|i: int| 0 <= i < s.len() implies #[trigger] s[i] != c by {
        assert(is_digit(s[i]));
    }
}

/// Small numbers have three digits when padded to three.
proof fn lemma_padded_three(n: nat)
    requires
        n < 1000,
    ensures
        padded(n, 3).len() == 3,
{
    reveal_with_fuel(decimal, 4);
}

/// What a fraction of a second means.
proof fn lemma_seconds(s: Seq<char>, f: Seq<char>)
    requires
        all_digits(s),
        s.len() > 0,
        all_digits(f),
        f.len() == 3,
        digits_value(s) * 1000 + digits_value(f) < 60_000,
    ensures
        read_seconds(s + seq!['.'] + f, true) == Some((digits_value(s) * 1000 + digits_value(f)) as u64),
{
    let t = s + seq!['.'] + f;
    let n = s.len() as int;
    assert(is_digit(s[0]) && t[0] == s[0]);
    reveal_strlit("inf");
    reveal_strlit("infinity");
    reveal_strlit("nan");
    assert(!is_caseless(t, "inf"@) && !is_caseless(t, "infinity"@) && !is_caseless(t, "nan"@)) by {
        assert(crate::number::small(t[0]) == t[0]);
    }
    assert forall|j: int| 0 <= j < n implies is_digit(#[trigger] t[j]) by {
        assert(t[j] == s[j]);
    }
    assert(t[n] == '.');
    lemma_digit_run(t, n);
    let rest = t.skip(n);
    assert(t.take(n) =~= s);
    assert(rest[0] == '.');
    assert(rest.drop_first() =~= f);
    lemma_digit_run(f, 3);
    assert(f.take(3) =~= f);
    assert(f.skip(3) =~= Seq::<char>::empty());
    assert(mantissa_parts(t) == (s, f, Seq::<char>::empty()));
    assert(decimal_number(t) == Some(Real::Finite { negative: false, digits: s + f, scale: -3 }));
    let d = s + f;
    lemma_digits_parts(d, n);
    assert(d.take(n) =~= s);
    assert(d.skip(n) =~= f);
    reveal_with_fuel(pow10, 4);
    law_thousandths_exact(digits_value(d));
}

/// The point in place of the comma.
proof fn lemma_stamp_point(h: Seq<char>, m: Seq<char>, s: Seq<char>, f: Seq<char>)
    requires
        all_digits(h),
        all_digits(m),
        all_digits(s),
        all_digits(f),
    ensures
        replaced(h + seq![':'] + m + seq![':'] + s + seq![','] + f, seq![','], seq!['.']) == h
            + seq![':'] + m + seq![':'] + s + seq!['.'] + f,
{
    let a = h + seq![':'] + m + seq![':'] + s;
    assert(lacks(a, ',')) by {
        lemma_digits_lack(h, ',');
        lemma_digits_lack(m, ',');
        lemma_digits_lack(s, ',');
        lemma_lacks_add(h, seq![':'], ',');
        lemma_lacks_add(h + seq![':'], m, ',');
        lemma_lacks_add(h + seq![':'] + m, seq![':'], ',');
        lemma_lacks_add(h + seq![':'] + m + seq![':'], s, ',');
    }
    lemma_digits_lack(f, ',');
    lemma_replace_one(a, ',', f, seq!['.']);
}

/// The parts between the colons.
proof fn lemma_stamp_parts(h: Seq<char>, m: Seq<char>, s: Seq<char>, f: Seq<char>)
    requires
        all_digits(h),
        all_digits(m),
        all_digits(s),
        all_digits(f),
    ensures
        split(h + seq![':'] + m + seq![':'] + s + seq!['.'] + f, seq![':']) == seq![
            h,
            m,
            s + seq!['.'] + f,
        ],
{
    let sec = s + seq!['.'] + f;
    let t = h + seq![':'] + m + seq![':'] + s + seq!['.'] + f;
    assert(t =~= h + seq![':'] + (m + seq![':'] + sec));
    lemma_digits_lack(h, ':');
    lemma_digits_lack(m, ':');
    assert(lacks(sec, ':')) by {
        lemma_digits_lack(s, ':');
        lemma_digits_lack(f, ':');
        lemma_lacks_add(s, seq!['.'], ':');
        lemma_lacks_add(s + seq!['.'], f, ':');
    }
    lemma_split_first(h, ':', m + seq![':'] + sec);
    lemma_split_first(m, ':', sec);
    lemma_split_lacking(sec, ':');
    assert(split(t, seq![':']) =~= seq![h, m, sec]);
}

/// What hours, minutes, seconds and thousandths mean.
proof fn lemma_clock(h: Seq<char>, m: Seq<char>, s: Seq<char>, f: Seq<char>, hours: u64, minutes: u64)
    requires
        all_digits(h),
        all_digits(m),
        all_digits(s),
        all_digits(f),
        s.len() > 0,
        f.len() == 3,
        read_u64(h) == Ok::<u64, IntegerError>(hours),
        read_u64(m) == Ok::<u64, IntegerError>(minutes),
        digits_value(s) * 1000 + digits_value(f) < 60_000,
    ensures
        timestamp(h + seq![':'] + m + seq![':'] + s + seq![','] + f) == clock(
            hours,
            minutes,
            (digits_value(s) * 1000 + digits_value(f)) as u64,
        ),
{
    lemma_stamp_point(h, m, s, f);
    lemma_stamp_parts(h, m, s, f);
    lemma_seconds(s, f);
    let parts = split(h + seq![':'] + m + seq![':'] + s + seq!['.'] + f, seq![':']);
    assert(parts.len() == 3);
    assert(parts[0] == h && parts[1] == m && parts[2] == s + seq!['.'] + f);
}

/// A padded number reads back as itself.
proof fn lemma_read_padded(n: u64, width: nat)
    ensures
        read_u64(padded(n as nat, width)) == Ok::<u64, IntegerError>(n),
{
    lemma_natural_padded(n as nat, width);
    lemma_padded(n as nat, width);
}

/// A time is the sum of its parts.
proof fn lemma_time_parts(ms: u64)
    ensures
        (ms / 3_600_000) * 3_600_000 + ((ms / 60_000) % 60) * 60_000 + (((ms / 1000) % 60) * 1000 + ms
            % 1000) == ms,
        ((ms / 1000) % 60) * 1000 + ms % 1000 < 60_000,
{
    let x = ms as int;
    lemma_div_denominator(x, 1000, 60);
    lemma_div_denominator(x, 60_000, 60);
    lemma_fundamental_div_mod(x, 1000);
    lemma_fundamental_div_mod(x / 1000, 60);
    lemma_fundamental_div_mod(x / 60_000, 60);
}

/// Law: a time that SRT writes reads back as itself.
pub proof fn law_stamp_reads_back(ms: u64)
    ensures
        timestamp(srt_stamp(ms)) == Ok::<u64, CaptionFault>(ms),
{
    let hours = ms / 3_600_000;
    let minutes = (ms / 60_000) % 60;
    let seconds = (ms / 1000) % 60;
    let fraction = ms % 1000;
    let h = padded(hours as nat, 2);
    let m = padded(minutes as nat, 2);
    let s = padded(seconds as nat, 2);
    let f = padded(fraction as nat, 3);
    lemma_time_parts(ms);
    assert(all_digits(h) && all_digits(m) && all_digits(s) && all_digits(f) && s.len() > 0 && f.len()
        == 3 && digits_value(s) == seconds && digits_value(f) == fraction) by {
        lemma_padded(hours as nat, 2);
        lemma_padded(minutes as nat, 2);
        lemma_padded(seconds as nat, 2);
        lemma_padded(fraction as nat, 3);
        lemma_padded_three(fraction as nat);
    }
    lemma_read_padded(hours, 2);
    lemma_read_padded(minutes, 2);
    lemma_clock(h, m, s, f, hours, minutes);
}

// ---- Documents -----------------------------------------------------------------------------

/// A text of even spacing lies on one line.
proof fn lemma_even_compact(s: Seq<char>)
    requires
        evenly_spaced(s),
    ensures
        compact(s),
{
    assert forall|i: int| 0 <= i < s.len() implies #[trigger] s[i] != '\n' && s[i] != '\r' by {
        assert(s[i] == ' ' || !crate::text::is_white(s[i]));
    }
}

/// Tidy lines are compact and not empty.
proof fn lemma_tidy_lines(ls: Seq<Seq<char>>)
    ensures
        forall|i: int|
            0 <= i < tidy_lines(ls).len() ==> compact(#[trigger] tidy_lines(ls)[i])
                && tidy_lines(ls)[i].len() > 0,
    decreases ls.len(),
{
    if ls.len() > 0 {
        lemma_tidy_lines(ls.drop_last());
        lemma_words(ls.last());
        lemma_joined_words(words(ls.last()));
        lemma_even_compact(collapsed(ls.last()));
        let rest = tidy_lines(ls.drop_last());
        let all = tidy_lines(ls);
        assert forall|i: int| 0 <= i < all.len() implies compact(#[trigger] all[i]) && all[i].len()
            > 0 by {
            if i < rest.len() {
                assert(all[i] == rest[i]);
            }
        }
    } else {
        assert(tidy_lines(ls).len() == 0);
    }
}

/// Cleaned text is compact.
proof fn lemma_cleaned_compact(s: Seq<char>)
    ensures
        compact(cleaned(s)),
{
    lemma_tidy_lines(split(unescaped(s), seq!['\n']));
    lemma_compact_joined(tidy_lines(split(unescaped(s), seq!['\n'])));
}

/// A written time holds digits, colons and a comma.
proof fn lemma_stamp_chars(ms: u64)
    ensures
        srt_stamp(ms).len() > 0,
        forall|i: int|
            0 <= i < srt_stamp(ms).len() ==> is_digit(#[trigger] srt_stamp(ms)[i]) || srt_stamp(
                ms,
            )[i] == ':' || srt_stamp(ms)[i] == ',',
{
    let h = padded((ms / 3_600_000) as nat, 2);
    let m = padded(((ms / 60_000) % 60) as nat, 2);
    let s = padded(((ms / 1000) % 60) as nat, 2);
    let f = padded((ms % 1000) as nat, 3);
    lemma_padded((ms / 3_600_000) as nat, 2);
    lemma_padded(((ms / 60_000) % 60) as nat, 2);
    lemma_padded(((ms / 1000) % 60) as nat, 2);
    lemma_padded((ms % 1000) as nat, 3);
    let t = srt_stamp(ms);
    assert forall|i: int| 0 <= i < t.len() implies is_digit(#[trigger] t[i]) || t[i] == ':' || t[i]
        == ',' by {
        let a = h.len() as int;
        let b = a + 1 + m.len();
        let c = b + 1 + s.len();
        if i < a {
            assert(t[i] == h[i]);
        } else if a < i < b {
            assert(t[i] == m[i - a - 1]);
        } else if b < i < c {
            assert(t[i] == s[i - b - 1]);
        } else if c < i {
            assert(t[i] == f[i - c - 1]);
        }
    }
}

/// A written time is one word without dashes or line ends.
proof fn lemma_stamp_solid(ms: u64)
    ensures
        srt_stamp(ms).len() > 0,
        solid(srt_stamp(ms)),
        lacks(srt_stamp(ms), '-'),
        lacks(srt_stamp(ms), '\n'),
        lacks(srt_stamp(ms), '\r'),
{
    lemma_stamp_chars(ms);
    let t = srt_stamp(ms);
    assert forall|i: int| 0 <= i < t.len() implies !crate::text::is_white(#[trigger] t[i]) && t[i]
        != '-' && t[i] != '\n' && t[i] != '\r' by {
        assert(is_digit(t[i]) || t[i] == ':' || t[i] == ',');
    }
}

/// The timing line of a cue.
spec fn timing(c: CueView) -> Seq<char> {
    srt_stamp(c.start_ms) + " --> "@ + srt_stamp(c.end_ms)
}

/// Where the arrow stands between two words, and what stands around it.
proof fn lemma_arrow(a: Seq<char>, b: Seq<char>)
    requires
        lacks(a, '-'),
    ensures
        ({
            let t = a + " --> "@ + b;
            let k = a.len() as int + 1;
            &&& find(t, "-->"@) == Some(k)
            &&& t.take(k) == a + seq![' ']
            &&& t.skip(k + 3) == seq![' '] + b
        }),
{
    reveal_strlit("-->");
    reveal_strlit(" --> ");
    assert(" --> "@ =~= seq![' '] + "-->"@ + seq![' ']);
    let front = a + seq![' '];
    let back = seq![' '] + b;
    let t = a + " --> "@ + b;
    assert(t =~= front + "-->"@ + back);
    lemma_lacks_add(a, seq![' '], '-');
    lemma_find_behind(front, "-->"@, back);
    assert(t.take(front.len() as int) =~= front);
    assert(t.skip(front.len() as int + 3) =~= back);
}

/// A timing line is one line.
proof fn lemma_timing_line(c: CueView)
    ensures
        lacks(timing(c), '\n'),
        lacks(timing(c), '\r'),
        timing(c).len() > 0,
{
    let a = srt_stamp(c.start_ms);
    let b = srt_stamp(c.end_ms);
    lemma_stamp_solid(c.start_ms);
    lemma_stamp_solid(c.end_ms);
    reveal_strlit(" --> ");
    assert(lacks(" --> "@, '\n') && lacks(" --> "@, '\r'));
    lemma_lacks_add(a, " --> "@, '\n');
    lemma_lacks_add(a + " --> "@, b, '\n');
    lemma_lacks_add(a, " --> "@, '\r');
    lemma_lacks_add(a + " --> "@, b, '\r');
}

/// What the timing line of a cue says.
proof fn lemma_timing(c: CueView)
    ensures
        find(timing(c), "-->"@) is Some,
        timestamp(trimmed(timing(c).take(find(timing(c), "-->"@)->0))) == Ok::<u64, CaptionFault>(
            c.start_ms,
        ),
        timestamp(first_word(timing(c).skip(find(timing(c), "-->"@)->0 + 3))) == Ok::<
            u64,
            CaptionFault,
        >(c.end_ms),
{
    let a = srt_stamp(c.start_ms);
    let b = srt_stamp(c.end_ms);
    lemma_stamp_solid(c.start_ms);
    lemma_stamp_solid(c.end_ms);
    lemma_arrow(a, b);
    lemma_trim_solid(a, ' ');
    lemma_words_space(' ', b);
    lemma_words_solid(b);
    assert(first_word(seq![' '] + b) == b);
    law_stamp_reads_back(c.start_ms);
    law_stamp_reads_back(c.end_ms);
}

/// An entry without the empty line behind it.
spec fn block(n: nat, c: CueView) -> Seq<char> {
    decimal(n) + seq!['\n'] + (timing(c) + seq!['\n'] + c.text)
}

/// A line of other characters is compact.
proof fn lemma_line_compact(s: Seq<char>)
    requires
        lacks(s, '\n'),
        lacks(s, '\r'),
    ensures
        compact(s),
{
}

/// The block of a cue whose text survives.
proof fn lemma_block(n: nat, c: CueView)
    requires
        survives(c.text),
    ensures
        block(n, c).len() > 0,
        compact(block(n, c)),
        is_digit(block(n, c)[0]),
        srt_entry(n, c) == block(n, c) + seq!['\n', '\n'],
{
    let d = decimal(n);
    lemma_decimal(n);
    lemma_digits_lack(d, '\n');
    lemma_digits_lack(d, '\r');
    lemma_line_compact(d);
    lemma_timing_line(c);
    lemma_line_compact(timing(c));
    lemma_cleaned_compact(untagged(c.text, false));
    lemma_compact_add(timing(c), c.text);
    lemma_compact_add(d, timing(c) + seq!['\n'] + c.text);
    assert(block(n, c)[0] == d[0]);
    assert(srt_entry(n, c) =~= block(n, c) + seq!['\n', '\n']);
}

/// The lines of a block.
proof fn lemma_block_lines(n: nat, c: CueView)
    requires
        survives(c.text),
    ensures
        lines(block(n, c)) == seq![decimal(n), timing(c)] + split(c.text, seq!['\n']),
{
    let d = decimal(n);
    lemma_block(n, c);
    lemma_lines_split(block(n, c));
    lemma_decimal(n);
    lemma_digits_lack(d, '\n');
    lemma_timing_line(c);
    lemma_split_first(d, '\n', timing(c) + seq!['\n'] + c.text);
    lemma_split_first(timing(c), '\n', c.text);
    assert(lines(block(n, c)) =~= seq![d, timing(c)] + split(c.text, seq!['\n']));
}

/// A block reads back as its cue.
proof fn lemma_block_reads_back(n: nat, c: CueView)
    requires
        survives(c.text),
    ensures
        block_cue(block(n, c)) == Ok::<Option<CueView>, CaptionFault>(Some(c)),
{
    let d = decimal(n);
    let ls = lines(block(n, c));
    lemma_block_lines(n, c);
    lemma_timing(c);
    lemma_decimal(n);
    reveal_strlit("-->");
    lemma_digits_lack(d, '-');
    lemma_find_absent(d, "-->"@, 0);
    assert(ls[0] == d && ls[1] == timing(c));
    let rest = ls.drop_first();
    assert(rest[0] == timing(c));
    assert(timing_line(rest) == Some(0int));
    assert(timing_line(ls) == Some(1int));
    assert(ls.skip(2) =~= split(c.text, seq!['\n']));
    lemma_join_split(c.text, seq!['\n']);
    assert(timed_cue(timing(c), ls.skip(2)) == Ok::<Option<CueView>, CaptionFault>(Some(c)));
}

/// The blocks of entries.
spec fn entry_blocks(s: Seq<CueView>) -> Seq<Seq<char>> {
    Seq::new(s.len(), |i: int| block((i + 1) as nat, s[i]))
}

/// The front of a list whose texts survive.
proof fn lemma_survive_front(s: Seq<CueView>)
    requires
        all_survive(s),
        s.len() > 0,
    ensures
        all_survive(s.drop_last()),
        survives(s.last().text),
{
    let front = s.drop_last();
    assert forall|i: int| 0 <= i < front.len() implies survives((#[trigger] front[i]).text) by {
        assert(front[i] == s[i]);
    }
    assert(s[s.len() - 1] == s.last());
}

/// One more block.
proof fn lemma_one_block(front: Seq<char>, x: Seq<char>, tail: Seq<char>, bs: Seq<Seq<char>>)
    requires
        find(x, seq!['\n', '\n']) is None,
        x.len() > 0,
        x.last() != '\n',
        split(front + (x + seq!['\n', '\n'] + tail), seq!['\n', '\n']) == bs + split(
            x + seq!['\n', '\n'] + tail,
            seq!['\n', '\n'],
        ),
    ensures
        split(front + (x + seq!['\n', '\n']) + tail, seq!['\n', '\n']) == bs.push(x) + split(
            tail,
            seq!['\n', '\n'],
        ),
{
    let gap = seq!['\n', '\n'];
    lemma_split_gap(x, tail);
    assert(front + (x + gap) + tail =~= front + (x + gap + tail));
    assert(bs + (seq![x] + split(tail, gap)) =~= bs.push(x) + split(tail, gap));
}

/// Entries are parted into their blocks.
proof fn lemma_entry_blocks(s: Seq<CueView>, tail: Seq<char>)
    requires
        all_survive(s),
    ensures
        split(srt_entries(s) + tail, seq!['\n', '\n']) == entry_blocks(s) + split(
            tail,
            seq!['\n', '\n'],
        ),
    decreases s.len(),
{
    let gap = seq!['\n', '\n'];
    if s.len() > 0 {
        let front = s.drop_last();
        let x = block(s.len(), s.last());
        lemma_survive_front(s);
        lemma_block(s.len(), s.last());
        lemma_compact(x);
        lemma_entry_blocks(front, x + gap + tail);
        lemma_one_block(srt_entries(front), x, tail, entry_blocks(front));
        lemma_entry_push(s);
    } else {
        assert(srt_entries(s) + tail =~= tail);
        assert(entry_blocks(s) + split(tail, gap) =~= split(tail, gap));
    }
}

/// The blocks of one more entry.
proof fn lemma_entry_push(s: Seq<CueView>)
    requires
        s.len() > 0,
    ensures
        entry_blocks(s) == entry_blocks(s.drop_last()).push(block(s.len(), s.last())),
{
    assert(entry_blocks(s) =~= entry_blocks(s.drop_last()).push(block(s.len(), s.last())));
}

/// Entries hold no carriage return and begin with a digit.
proof fn lemma_entries_chars(s: Seq<CueView>)
    requires
        all_survive(s),
    ensures
        lacks(srt_entries(s), '\r'),
        srt_entries(s).len() > 0 ==> is_digit(srt_entries(s)[0]),
    decreases s.len(),
{
    if s.len() > 0 {
        let front = srt_entries(s.drop_last());
        let last = srt_entry(s.len(), s.last());
        lemma_survive_front(s);
        lemma_entries_chars(s.drop_last());
        lemma_block(s.len(), s.last());
        lemma_lacks_add(block(s.len(), s.last()), seq!['\n', '\n'], '\r');
        lemma_lacks_add(front, last, '\r');
        if front.len() > 0 {
            assert(srt_entries(s)[0] == front[0]);
        } else {
            assert(srt_entries(s)[0] == last[0]);
            assert(last[0] == block(s.len(), s.last())[0]);
        }
    }
}

/// Blocks read back as their cues.
proof fn lemma_blocks_read_back(s: Seq<CueView>)
    requires
        all_survive(s),
    ensures
        block_cues(entry_blocks(s), false) matches Ok((cues, _)) && cues == s,
    decreases s.len(),
{
    if s.len() > 0 {
        let front = s.drop_last();
        let c = s.last();
        lemma_survive_front(s);
        lemma_blocks_read_back(front);
        lemma_block_reads_back(s.len(), c);
        assert(entry_blocks(s).drop_last() =~= entry_blocks(front));
        assert(entry_blocks(s).last() == block(s.len(), c));
        lemma_join_split(c.text, seq!['\n']);
        lemma_split_some(c.text, seq!['\n']);
        assert(front.push(c) =~= s);
    } else {
        assert(block_cues(entry_blocks(s), false) == Ok::<(Seq<CueView>, Option<Seq<char>>), CaptionFault>((Seq::empty(), None)));
        assert(s =~= Seq::empty());
    }
}

/// Law: an SRT document of normalised cues whose texts survive reads back as those cues.
pub proof fn law_srt_reads_back(s: Seq<CueView>)
    requires
        tidy(s),
        all_survive(s),
    ensures
        block_captions(srt_document(s), false) == Ok::<Seq<CueView>, CaptionFault>(s),
{
    let gap = seq!['\n', '\n'];
    let none = Seq::<char>::empty();
    crate::normal::lemma_tidy_texted(s);
    let doc = srt_entries(s);
    assert(srt_document(s) == doc);
    lemma_entries_chars(s);
    assert(without_marks(doc) == doc);
    lemma_find_absent(doc, seq!['\r', '\n'], 0);
    lemma_replace_absent(doc, seq!['\r', '\n'], seq!['\n']);
    lemma_entry_blocks(s, none);
    assert(doc + none =~= doc);
    assert(find(none, gap) is None) by {
        lemma_find_absent(none, gap, 0);
    }
    assert(split(none, gap) == seq![none]);
    assert(blocks(doc) =~= entry_blocks(s).push(none));
    assert(blocks(doc).drop_last() =~= entry_blocks(s));
    lemma_blocks_read_back(s);
    assert(block_cue(none) == Ok::<Option<CueView>, CaptionFault>(None)) by {
        assert(lines(none).len() == 0);
    }
    law_normalized_fixed(s);
}

// ---- Bilingual cues ------------------------------------------------------------------------

/// Whether cues last and do not overlap; they may lack text.
spec fn timed(s: Seq<CueView>) -> bool {
    &&& forall|i: int| 0 <= i < s.len() ==> (#[trigger] s[i]).start_ms < s[i].end_ms
    &&& forall|i: int, j: int|
        0 <= i < j < s.len() ==> (#[trigger] s[i]).end_ms <= (#[trigger] s[j]).start_ms
}

/// The front of such a list.
proof fn lemma_timed_front(s: Seq<CueView>)
    requires
        timed(s),
        s.len() > 0,
    ensures
        timed(s.drop_last()),
        forall|i: int| 0 <= i < s.len() - 1 ==> (#[trigger] s.drop_last()[i]).end_ms <= s.last().start_ms,
{
    let front = s.drop_last();
    assert(s.last() == s[s.len() - 1]);
    assert forall|i: int| 0 <= i < front.len() implies (#[trigger] front[i]).start_ms < front[i].end_ms
        && front[i].end_ms <= s.last().start_ms by {
        assert(front[i] == s[i]);
    }
    assert forall|i: int, j: int| 0 <= i < j < front.len() implies (#[trigger] front[i]).end_ms <= (
    #[trigger] front[j]).start_ms by {
        assert(front[i] == s[i] && front[j] == s[j]);
    }
}

/// Those of them that have text.
proof fn lemma_timed_with_text(s: Seq<CueView>)
    requires
        timed(s),
    ensures
        tidy(with_text(s)),
        forall|i: int| 0 <= i < with_text(s).len() ==> s.contains(#[trigger] with_text(s)[i]),
    decreases s.len(),
{
    reveal(Seq::filter);
    let r = with_text(s);
    if s.len() > 0 {
        let front = s.drop_last();
        let last = s.last();
        lemma_timed_front(s);
        lemma_timed_with_text(front);
        let q = with_text(front);
        assert(s[s.len() - 1] == last);
        assert forall|i: int| 0 <= i < q.len() implies s.contains(#[trigger] q[i]) && q[i].end_ms
            <= last.start_ms by {
            let k = choose|k: int| 0 <= k < front.len() && front[k] == q[i];
            assert(front[k].end_ms <= last.start_ms);
            assert(s[k] == front[k]);
        }
        if last.text.len() > 0 {
            assert(r == q.push(last));
            assert forall|i: int, j: int| 0 <= i < j < r.len() implies (#[trigger] r[i]).end_ms <= (
            #[trigger] r[j]).start_ms by {
                assert(r[i] == q[i]);
                if j < q.len() {
                    assert(r[j] == q[j]);
                }
            }
            assert forall|i: int| 0 <= i < r.len() implies (#[trigger] r[i]).text.len() > 0 && r[i].start_ms
                < r[i].end_ms && s.contains(r[i]) by {
                if i < q.len() {
                    assert(r[i] == q[i]);
                }
            }
        } else {
            assert(r == q);
        }
    } else {
        assert(r.len() == 0);
    }
}

/// No text starts where no cue does.
proof fn lemma_no_text_at(s: Seq<CueView>, t: u64)
    requires
        forall|i: int| 0 <= i < s.len() ==> (#[trigger] s[i]).start_ms != t,
    ensures
        text_at(with_text(s), t) is None,
    decreases s.len(),
{
    reveal(Seq::filter);
    if s.len() > 0 {
        let front = s.drop_last();
        assert forall|i: int| 0 <= i < front.len() implies (#[trigger] front[i]).start_ms != t by {
            assert(front[i] == s[i]);
        }
        lemma_no_text_at(front, t);
        assert(s[s.len() - 1] == s.last());
        assert(with_text(front).push(s.last()).drop_last() =~= with_text(front));
    }
}

/// The text at the start of a cue is that of the cue.
proof fn lemma_text_at(s: Seq<CueView>, i: int)
    requires
        timed(s),
        0 <= i < s.len(),
    ensures
        text_at(with_text(s), s[i].start_ms) == if s[i].text.len() > 0 {
            Some(s[i].text)
        } else {
            None
        },
    decreases s.len(),
{
    reveal(Seq::filter);
    let front = s.drop_last();
    let last = s.last();
    lemma_timed_front(s);
    assert(with_text(front).push(last).drop_last() =~= with_text(front));
    if i < s.len() - 1 {
        lemma_text_at(front, i);
        assert(front[i] == s[i]);
        assert(s[i].start_ms < last.start_ms);
    } else {
        assert forall|j: int| 0 <= j < front.len() implies (#[trigger] front[j]).start_ms
            != last.start_ms by {
            assert(front[j].end_ms <= last.start_ms);
        }
        lemma_no_text_at(front, last.start_ms);
    }
}

/// Whether each translation, on one line, survives or is empty.
pub open spec fn lines_survive(zh: Seq<Seq<char>>) -> bool {
    forall|i: int|
        0 <= i < zh.len() ==> flattened(#[trigger] zh[i]).len() == 0 || survives(flattened(zh[i]))
}

/// Law: the two single-language documents of bilingual cues give back the bilingual cues, those
/// without Chinese among them.
pub proof fn law_bilingual_reads_back(en: Seq<CueView>, zh: Seq<Seq<char>>)
    requires
        tidy(en),
        all_survive(en),
        zh.len() == en.len(),
        lines_survive(zh),
    ensures
        bilingual(srt_document(en), srt_document(zh_cues(zipped(en, zh)))) == Ok::<
            Seq<BiCueView>,
            SidecarFault,
        >(zipped(en, zh)),
{
    let bi = zipped(en, zh);
    let z = zh_cues(bi);
    let w = with_text(z);
    assert forall|i: int| 0 <= i < z.len() implies (#[trigger] z[i]).start_ms < z[i].end_ms by {
        assert(en[i].start_ms < en[i].end_ms);
    }
    assert forall|i: int, j: int| 0 <= i < j < z.len() implies (#[trigger] z[i]).end_ms <= (
    #[trigger] z[j]).start_ms by {
        assert(en[i].end_ms <= en[j].start_ms);
    }
    lemma_timed_with_text(z);
    assert forall|i: int| 0 <= i < w.len() implies survives((#[trigger] w[i]).text) by {
        let k = choose|k: int| 0 <= k < z.len() && z[k] == w[i];
        assert(w[i].text == flattened(zh[k]));
    }
    crate::normal::lemma_tidy_texted(w);
    law_srt_reads_back(en);
    law_srt_reads_back(w);
    let back = paired(en, w);
    assert forall|i: int| 0 <= i < back.len() implies #[trigger] back[i] == bi[i] by {
        lemma_text_at(z, i);
        assert(z[i].start_ms == en[i].start_ms);
        assert(z[i].text == bi[i].zh);
        assert(back[i].zh =~= bi[i].zh);
    }
    assert(back =~= bi);
}

/// Law: the sidecars that a video gets give back its bilingual cues, under the conditions of
/// `law_bilingual_reads_back`.
pub proof fn law_sidecars_read_back(opts: Options, info: Info, cues: Seq<CueView>, lines: Seq<Seq<char>>)
    requires
        tidy(cues),
        all_survive(cues),
        lines.len() == cues.len(),
        lines_survive(lines),
    ensures
        advance(
            opts,
            info,
            StageView::Translating(cues),
            session::EventView::Translations(lines),
        ).1 matches ActionView::Write { en, zh, .. } && bilingual(en, zh) == Ok::<
            Seq<BiCueView>,
            SidecarFault,
        >(zipped(cues, lines)),
{
    law_bilingual_reads_back(cues, lines);
}

/// Law: the cues of a WebVTT or SRT document are kept by writing them as SRT and reading that, where
/// their texts are plain.
pub proof fn law_parsed_reads_back(doc: Seq<char>, rolling: bool, cues: Seq<CueView>)
    requires
        block_captions(doc, rolling) == Ok::<Seq<CueView>, CaptionFault>(cues),
        forall|i: int| 0 <= i < cues.len() ==> plain((#[trigger] cues[i]).text),
    ensures
        block_captions(srt_document(cues), false) == Ok::<Seq<CueView>, CaptionFault>(cues),
{
    law_blocks_neat(doc, rolling);
    lemma_blocks_normalized(doc, rolling);
    lemma_neat_reads_back(cues);
}

/// Cues that a document gave are normalised.
proof fn lemma_blocks_normalized(doc: Seq<char>, rolling: bool)
    ensures
        block_captions(doc, rolling) matches Ok(cues) ==> tidy(cues),
{
    if let Ok((cues, _)) = block_cues(blocks(doc), rolling) {
        law_normalized_tidy(cues);
    }
}

/// Neat, plain and normalised cues are read back.
proof fn lemma_neat_reads_back(cues: Seq<CueView>)
    requires
        tidy(cues),
        all_neat(cues),
        forall|i: int| 0 <= i < cues.len() ==> plain((#[trigger] cues[i]).text),
    ensures
        block_captions(srt_document(cues), false) == Ok::<Seq<CueView>, CaptionFault>(cues),
{
    assert forall|i: int| 0 <= i < cues.len() implies survives((#[trigger] cues[i]).text) by {
        assert(neat(cues[i].text));
        law_neat_survives(cues[i].text);
    }
    law_srt_reads_back(cues);
}

/// Law: the cues of a `json3` document's events are kept by writing them as SRT and reading that,
/// where their texts are plain.
pub proof fn law_events_read_back(evs: Seq<EventView>, cues: Seq<CueView>)
    requires
        json3_cues(evs) == Ok::<Seq<CueView>, CaptionFault>(cues),
        forall|i: int| 0 <= i < cues.len() ==> plain((#[trigger] cues[i]).text),
    ensures
        block_captions(srt_document(cues), false) == Ok::<Seq<CueView>, CaptionFault>(cues),
{
    law_events_neat(evs);
    if let Ok(all) = event_cues(evs) {
        law_normalized_tidy(all);
    }
    lemma_neat_reads_back(cues);
}

// ---- Line ends and marks -------------------------------------------------------------------

/// Replacing line breaks, one character at a time.
proof fn lemma_replace_step(s: Seq<char>, t: Seq<char>)
    requires
        s.len() > 0,
        s[0] != '\n',
    ensures
        replaced(s, seq!['\n'], t) == seq![s[0]] + replaced(s.drop_first(), seq!['\n'], t),
{
    let p = seq!['\n'];
    let rest = s.drop_first();
    if begins(s, p) {
        assert(s.subrange(0, 1)[0] == p[0]);
    }
    lemma_find(s, p);
    lemma_find(rest, p);
    match find(rest, p) {
        Some(i) => {
            let tail = split(rest.skip(i + 1), p);
            assert(s.skip(i + 2) =~= rest.skip(i + 1));
            assert(s.take(i + 1) =~= seq![s[0]] + rest.take(i));
            let a = seq![s.take(i + 1)] + tail;
            let b = seq![rest.take(i)] + tail;
            assert(a.drop_first() =~= tail && b.drop_first() =~= tail);
            lemma_split_some(rest.skip(i + 1), p);
            assert(joined(a, t) =~= seq![s[0]] + joined(b, t));
        },
        None => {
            assert(seq![s[0]] + rest =~= s);
        },
    }
}

/// Marks in front stay in front when line breaks are replaced.
proof fn lemma_marks_replaced(s: Seq<char>, t: Seq<char>)
    requires
        t.len() > 0,
        t[0] != '\u{feff}',
    ensures
        without_marks(replaced(s, seq!['\n'], t)) == replaced(without_marks(s), seq!['\n'], t),
    decreases s.len(),
{
    let p = seq!['\n'];
    let r = replaced(s, p, t);
    if s.len() == 0 {
        lemma_find_absent(s, p, 0);
        lemma_replace_absent(s, p, t);
    } else if s[0] == '\n' {
        assert(s.subrange(0, 1) =~= p);
        assert(begins(s, p));
        let tail = split(s.skip(1), p);
        lemma_split_some(s.skip(1), p);
        assert(split(s, p) =~= seq![s.take(0)] + tail);
        assert((seq![s.take(0)] + tail).drop_first() =~= tail);
        assert(r =~= s.take(0) + t + joined(tail, t));
        assert(r[0] == t[0]);
    } else {
        lemma_replace_step(s, t);
        let rest = s.drop_first();
        assert(r.drop_first() =~= replaced(rest, p, t));
        if s[0] == '\u{feff}' {
            lemma_marks_replaced(rest, t);
        }
    }
}

/// Texts without carriage returns, joined by `\r\n` and split again.
proof fn lemma_split_crlf(ls: Seq<Seq<char>>)
    requires
        ls.len() > 0,
        all_lack(ls, '\r'),
    ensures
        split(joined(ls, seq!['\r', '\n']), seq!['\r', '\n']) == ls,
    decreases ls.len(),
{
    let p = seq!['\r', '\n'];
    let s = joined(ls, p);
    assert(lacks(ls[0], '\r'));
    if ls.len() == 1 {
        lemma_find_absent(s, p, 0);
        assert(ls =~= seq![s]);
    } else {
        let rest = ls.drop_first();
        assert forall|i: int| 0 <= i < rest.len() implies lacks(#[trigger] rest[i], '\r') by {
            assert(rest[i] == ls[i + 1]);
        }
        lemma_split_crlf(rest);
        let n = ls[0].len() as int;
        assert(s.subrange(n, n + 2) =~= p);
        assert forall|j: int| 0 <= j < n implies !stands_at(s, j, p) by {
            if stands_at(s, j, p) {
                assert(s.subrange(j, j + 2)[0] == s[j]);
                assert(s[j] == ls[0][j]);
            }
        }
        lemma_find_some(s, p, n);
        assert(s.take(n) =~= ls[0]);
        assert(s.skip(n + 2) =~= joined(rest, p));
        assert(seq![ls[0]] + rest =~= ls);
    }
}

/// Law: a document with `\r\n` at the ends of its lines says the same as one with `\n` there.
pub proof fn law_line_ends(s: Seq<char>, rolling: bool)
    requires
        lacks(s, '\r'),
    ensures
        block_captions(replaced(s, seq!['\n'], seq!['\r', '\n']), rolling) == block_captions(s, rolling),
{
    let crlf = seq!['\r', '\n'];
    let t = without_marks(s);
    lemma_without_marks_lacks(s, '\r');
    lemma_marks_replaced(s, crlf);
    let ls = split(t, seq!['\n']);
    lemma_split_lacks(t, seq!['\n'], '\r');
    lemma_split_some(t, seq!['\n']);
    lemma_split_crlf(ls);
    lemma_join_split(t, seq!['\n']);
    lemma_find_absent(t, crlf, 0);
    lemma_replace_absent(t, crlf, seq!['\n']);
}

/// Taking marks away brings nothing in.
proof fn lemma_without_marks_lacks(s: Seq<char>, c: char)
    requires
        lacks(s, c),
    ensures
        lacks(without_marks(s), c),
    decreases s.len(),
{
    if s.len() > 0 && s[0] == '\u{feff}' {
        let rest = s.drop_first();
        assert forall|i: int| 0 <= i < rest.len() implies #[trigger] rest[i] != c by {
            assert(rest[i] == s[i + 1]);
        }
        lemma_without_marks_lacks(rest, c);
    }
}

/// Law: a byte-order mark in front of a document changes nothing.
pub proof fn law_leading_mark(s: Seq<char>, rolling: bool)
    ensures
        block_captions(seq!['\u{feff}'] + s, rolling) == block_captions(s, rolling),
{
    let t = seq!['\u{feff}'] + s;
    assert(t.drop_first() =~= s);
}

} // verus!
