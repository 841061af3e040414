//! Which texts a document keeps: those that cleaning leaves as they are.

use crate::captions::{block_captions, block_cue, block_cues, blocks, chained, cleaned, collapsed, cut, event_cues, event_text, in_order, json3_cues, merge, new_lines, normalized, put_in, speaks, tidy_lines, timing_line, unescaped, untagged, with_text, CueView, EventView};
use crate::text::{is_white, joined, lines, split, words};
use crate::text_lemmas::{all_lack, evenly_spaced, lacks, lemma_joined_words, lemma_split_joined, lemma_words, lemma_words_joined};
use vstd::prelude::*;

verus! {

/// Whether reading a cue's text out of a document gives that text: there are no tags or entities
/// in it, and its white space is single spaces inside lines that are not empty.
pub open spec fn survives(text: Seq<char>) -> bool {
    text.len() > 0 && cleaned(untagged(text, false)) == text
}

/// Whether every text survives.
pub open spec fn all_survive(s: Seq<CueView>) -> bool {
    forall|i: int| 0 <= i < s.len() ==> survives((#[trigger] s[i]).text)
}

/// Whether a text holds no tag, no entity and no zero-width space.
pub open spec fn plain(text: Seq<char>) -> bool {
    lacks(text, '<') && unescaped(text) == text
}

/// Whether lines are as collapsing leaves them, and none is empty.
pub open spec fn settled(ls: Seq<Seq<char>>) -> bool {
    forall|i: int|
        0 <= i < ls.len() ==> collapsed(#[trigger] ls[i]) == ls[i] && ls[i].len() > 0 && lacks(
            ls[i],
            '\n',
        )
}

/// Whether a text is made of such lines, at least of one.
pub open spec fn neat(text: Seq<char>) -> bool {
    exists|ls: Seq<Seq<char>>| #[trigger] settled(ls) && ls.len() > 0 && text == joined(ls, seq!['\n'])
}

/// Whether the texts of all cues are neat.
pub open spec fn all_neat(s: Seq<CueView>) -> bool {
    forall|i: int| 0 <= i < s.len() ==> neat((#[trigger] s[i]).text)
}

// ---- Texts ---------------------------------------------------------------------------------

/// A text without `<` has no tags.
proof fn lemma_untagged_plain(s: Seq<char>)
    requires
        lacks(s, '<'),
    ensures
        untagged(s, false) == s,
    decreases s.len(),
{
    if s.len() > 0 {
        let rest = s.drop_first();
        assert forall|k: int| 0 <= k < rest.len() implies #[trigger] rest[k] != '<' by {
            assert(rest[k] == s[k + 1]);
        }
        lemma_untagged_plain(rest);
        assert(seq![s[0]] + rest =~= s);
    }
}

/// Tidy lines are settled.
proof fn lemma_tidy_settled(ls: Seq<Seq<char>>)
    ensures
        settled(tidy_lines(ls)),
    decreases ls.len(),
{
    let all = tidy_lines(ls);
    if ls.len() > 0 {
        let front = ls.drop_last();
        let line = collapsed(ls.last());
        lemma_tidy_settled(front);
        lemma_words(ls.last());
        lemma_words_joined(words(ls.last()));
        lemma_joined_words(words(ls.last()));
        assert(evenly_spaced(line));
        assert forall|i: int| 0 <= i < line.len() implies #[trigger] line[i] != '\n' by {
            assert(line[i] == ' ' || !is_white(line[i]));
        }
        let rest = tidy_lines(front);
        assert forall|i: int| 0 <= i < all.len() implies collapsed(#[trigger] all[i]) == all[i]
            && all[i].len() > 0 && lacks(all[i], '\n') by {
            if i < rest.len() {
                assert(all[i] == rest[i]);
            }
        }
    } else {
        assert(all.len() == 0);
    }
}

/// Settled lines are tidy.
proof fn lemma_settled_tidy(ls: Seq<Seq<char>>)
    requires
        settled(ls),
    ensures
        tidy_lines(ls) == ls,
    decreases ls.len(),
{
    if ls.len() > 0 {
        let front = ls.drop_last();
        assert forall|i: int| 0 <= i < front.len() implies collapsed(#[trigger] front[i]) == front[i]
            && front[i].len() > 0 && lacks(front[i], '\n') by {
            assert(front[i] == ls[i]);
        }
        lemma_settled_tidy(front);
        assert(collapsed(ls[ls.len() - 1]) == ls[ls.len() - 1]);
        assert(front.push(ls.last()) =~= ls);
    } else {
        assert(tidy_lines(ls) =~= ls);
    }
}

/// Settled lines lack line breaks.
proof fn lemma_settled_lack(ls: Seq<Seq<char>>)
    requires
        settled(ls),
    ensures
        all_lack(ls, '\n'),
{
    assert forall|i: int| 0 <= i < ls.len() implies lacks(#[trigger] ls[i], '\n') by {
        assert(collapsed(ls[i]) == ls[i]);
    }
}

/// Neat text is not empty.
proof fn lemma_neat_some(text: Seq<char>)
    requires
        neat(text),
    ensures
        text.len() > 0,
{
    let ls = choose|ls: Seq<Seq<char>>| #[trigger]
        settled(ls) && ls.len() > 0 && text == joined(ls, seq!['\n']);
    assert(collapsed(ls[0]) == ls[0]);
}

/// Law: neat text that is plain survives.
pub proof fn law_neat_survives(text: Seq<char>)
    requires
        neat(text),
        plain(text),
    ensures
        survives(text),
{
    let ls = choose|ls: Seq<Seq<char>>| #[trigger]
        settled(ls) && ls.len() > 0 && text == joined(ls, seq!['\n']);
    lemma_neat_some(text);
    lemma_untagged_plain(text);
    lemma_settled_lack(ls);
    lemma_split_joined(ls);
    lemma_settled_tidy(ls);
}

/// What cleaning leaves is neat, where it leaves anything.
proof fn lemma_cleaned_neat(s: Seq<char>)
    requires
        cleaned(s).len() > 0,
    ensures
        neat(cleaned(s)),
{
    let ls = tidy_lines(split(unescaped(s), seq!['\n']));
    lemma_tidy_settled(split(unescaped(s), seq!['\n']));
    assert(ls.len() > 0) by {
        if ls.len() == 0 {
            assert(joined(ls, seq!['\n']).len() == 0);
        }
    }
    assert(settled(ls));
}

/// Law: what cleaning leaves survives, where it leaves anything and that is plain.
pub proof fn law_cleaned_survives(s: Seq<char>)
    requires
        cleaned(s).len() > 0,
        plain(cleaned(s)),
    ensures
        survives(cleaned(s)),
{
    lemma_cleaned_neat(s);
    law_neat_survives(cleaned(s));
}

/// Joining two lists of lines.
proof fn lemma_joined_add(a: Seq<Seq<char>>, b: Seq<Seq<char>>, sep: Seq<char>)
    requires
        a.len() > 0,
        b.len() > 0,
    ensures
        joined(a + b, sep) == joined(a, sep) + sep + joined(b, sep),
    decreases a.len(),
{
    let all = a + b;
    if a.len() == 1 {
        assert(all.drop_first() =~= b);
        assert(all[0] == a[0]);
    } else {
        let rest = a.drop_first();
        lemma_joined_add(rest, b, sep);
        assert(all.drop_first() =~= rest + b);
        assert(all[0] == a[0]);
        assert(a[0] + sep + (joined(rest, sep) + sep + joined(b, sep)) =~= a[0] + sep + joined(rest, sep)
            + sep + joined(b, sep));
    }
}

/// Two neat texts one below the other are neat.
proof fn lemma_neat_merge(s: Seq<char>, t: Seq<char>)
    requires
        neat(s),
        neat(t),
    ensures
        neat(s + seq!['\n'] + t),
{
    let a = choose|ls: Seq<Seq<char>>| #[trigger]
        settled(ls) && ls.len() > 0 && s == joined(ls, seq!['\n']);
    let b = choose|ls: Seq<Seq<char>>| #[trigger]
        settled(ls) && ls.len() > 0 && t == joined(ls, seq!['\n']);
    lemma_joined_add(a, b, seq!['\n']);
    let all = a + b;
    assert forall|i: int| 0 <= i < all.len() implies collapsed(#[trigger] all[i]) == all[i] && all[i].len()
        > 0 && lacks(all[i], '\n') by {
        if i < a.len() {
            assert(all[i] == a[i]);
        } else {
            assert(all[i] == b[i - a.len()]);
        }
    }
    assert(settled(all));
}

/// The new lines of a neat text are neat, where there are any.
proof fn lemma_neat_new(text: Seq<char>, last: Option<Seq<char>>, rolling: bool)
    requires
        neat(text),
        new_lines(text, last, rolling).len() > 0,
    ensures
        neat(joined(new_lines(text, last, rolling), seq!['\n'])),
{
    let ls = choose|ls: Seq<Seq<char>>| #[trigger]
        settled(ls) && ls.len() > 0 && text == joined(ls, seq!['\n']);
    lemma_settled_lack(ls);
    lemma_split_joined(ls);
    let new = new_lines(text, last, rolling);
    if rolling && last == Some(ls[0]) {
        assert forall|i: int| 0 <= i < new.len() implies collapsed(#[trigger] new[i]) == new[i]
            && new[i].len() > 0 && lacks(new[i], '\n') by {
            assert(new[i] == ls[i + 1]);
        }
    } else {
        assert(new == ls);
    }
    assert(settled(new));
}

// ---- Lists of cues -------------------------------------------------------------------------

/// One more neat cue.
proof fn lemma_neat_push(s: Seq<CueView>, c: CueView)
    requires
        all_neat(s),
        neat(c.text),
    ensures
        all_neat(s.push(c)),
{
    let r = s.push(c);
    assert forall|i: int| 0 <= i < r.len() implies neat((#[trigger] r[i]).text) by {
        if i < s.len() {
            assert(r[i] == s[i]);
        }
    }
}

/// The front of a neat list.
proof fn lemma_neat_front(s: Seq<CueView>)
    requires
        all_neat(s),
        s.len() > 0,
    ensures
        all_neat(s.drop_last()),
        neat(s.last().text),
{
    let front = s.drop_last();
    assert forall|i: int| 0 <= i < front.len() implies neat((#[trigger] front[i]).text) by {
        assert(front[i] == s[i]);
    }
    assert(s[s.len() - 1] == s.last());
}

/// Leaving cues out keeps a list neat.
proof fn lemma_neat_filter(s: Seq<CueView>, keep: spec_fn(CueView) -> bool)
    requires
        all_neat(s),
    ensures
        all_neat(s.filter(keep)),
    decreases s.len(),
{
    reveal(Seq::filter);
    if s.len() > 0 {
        lemma_neat_front(s);
        lemma_neat_filter(s.drop_last(), keep);
        lemma_neat_push(s.drop_last().filter(keep), s.last());
    } else {
        assert(s.filter(keep).len() == 0);
    }
}

/// Putting a neat cue in its place keeps a list neat.
proof fn lemma_neat_put_in(s: Seq<CueView>, c: CueView)
    requires
        all_neat(s),
        neat(c.text),
    ensures
        all_neat(put_in(s, c)),
    decreases s.len(),
{
    if s.len() > 0 && s.last().start_ms > c.start_ms {
        lemma_neat_front(s);
        lemma_neat_put_in(s.drop_last(), c);
        lemma_neat_push(put_in(s.drop_last(), c), s.last());
    } else {
        lemma_neat_push(s, c);
    }
}

/// Ordering keeps a list neat.
proof fn lemma_neat_in_order(s: Seq<CueView>)
    requires
        all_neat(s),
    ensures
        all_neat(in_order(s)),
    decreases s.len(),
{
    if s.len() > 0 {
        lemma_neat_front(s);
        lemma_neat_in_order(s.drop_last());
        lemma_neat_put_in(in_order(s.drop_last()), s.last());
    } else {
        assert(in_order(s).len() == 0);
    }
}

/// Chaining keeps a list neat.
proof fn lemma_neat_chained(s: Seq<CueView>)
    requires
        all_neat(s),
    ensures
        all_neat(chained(s)),
    decreases s.len(),
{
    if s.len() > 0 {
        lemma_neat_front(s);
        lemma_neat_chained(s.drop_last());
        let out = chained(s.drop_last());
        let c = s.last();
        if out.len() == 0 {
            lemma_neat_push(Seq::empty(), c);
            assert(Seq::<CueView>::empty().push(c) =~= seq![c]);
        } else {
            lemma_neat_front(out);
            let front = out.drop_last();
            if c.start_ms <= out.last().start_ms {
                lemma_neat_merge(out.last().text, c.text);
                lemma_neat_push(front, merge(out.last(), c));
            } else {
                let last = cut(out.last(), c.start_ms);
                lemma_neat_push(front, last);
                lemma_neat_push(front.push(last), c);
            }
        }
    } else {
        assert(chained(s).len() == 0);
    }
}

/// Normalising keeps a list neat.
proof fn lemma_neat_normalized(s: Seq<CueView>)
    requires
        all_neat(s),
    ensures
        all_neat(normalized(s)),
{
    lemma_neat_filter(s, |c: CueView| c.text.len() > 0);
    lemma_neat_in_order(with_text(s));
    lemma_neat_chained(in_order(with_text(s)));
    lemma_neat_filter(chained(in_order(with_text(s))), |c: CueView| c.end_ms > c.start_ms);
}

/// The cues of blocks are neat.
proof fn lemma_block_cues_neat(bs: Seq<Seq<char>>, rolling: bool)
    ensures
        block_cues(bs, rolling) matches Ok((cues, _)) ==> all_neat(cues),
    decreases bs.len(),
{
    if bs.len() > 0 {
        lemma_block_cues_neat(bs.drop_last(), rolling);
        if let (Ok((cues, last)), Ok(Some(c))) = (
            block_cues(bs.drop_last(), rolling),
            block_cue(bs.last()),
        ) {
            lemma_block_cue_neat(bs.last());
            let ls = new_lines(c.text, last, rolling);
            if ls.len() > 0 {
                lemma_neat_new(c.text, last, rolling);
                lemma_neat_push(
                    cues,
                    CueView {
                        start_ms: c.start_ms,
                        end_ms: c.end_ms,
                        text: joined(ls, seq!['\n']),
                    },
                );
            }
        }
    }
}

/// The cue of a block is neat.
proof fn lemma_block_cue_neat(block: Seq<char>)
    ensures
        block_cue(block) matches Ok(Some(c)) ==> neat(c.text),
{
    if let Ok(Some(c)) = block_cue(block) {
        let ls = lines(block);
        let i = timing_line(ls)->0;
        let raw = untagged(joined(ls.skip(i + 1), seq!['\n']), false);
        assert(c.text == cleaned(raw));
        lemma_cleaned_neat(raw);
    }
}

/// Law: the texts of a WebVTT or SRT document's cues are neat.
pub proof fn law_blocks_neat(doc: Seq<char>, rolling: bool)
    ensures
        block_captions(doc, rolling) matches Ok(cues) ==> all_neat(cues),
{
    lemma_block_cues_neat(blocks(doc), rolling);
    if let Ok((cues, _)) = block_cues(blocks(doc), rolling) {
        lemma_neat_normalized(cues);
    }
}

/// The cues of events are neat.
proof fn lemma_event_cues_neat(evs: Seq<EventView>)
    ensures
        event_cues(evs) matches Ok(cues) ==> all_neat(cues),
    decreases evs.len(),
{
    if evs.len() > 0 {
        lemma_event_cues_neat(evs.drop_last());
        let ev = evs.last();
        if let Ok(cues) = event_cues(evs.drop_last()) {
            if speaks(ev) && ev.start_ms + ev.duration_ms <= u64::MAX {
                lemma_event_text_neat(ev);
                lemma_neat_push(
                    cues,
                    CueView {
                        start_ms: ev.start_ms,
                        end_ms: (ev.start_ms + ev.duration_ms) as u64,
                        text: event_text(ev),
                    },
                );
            }
        }
    }
}

/// The text of an event that speaks is neat.
proof fn lemma_event_text_neat(ev: EventView)
    requires
        speaks(ev),
    ensures
        neat(event_text(ev)),
{
    lemma_cleaned_neat(joined(ev.segs, Seq::empty()));
}

/// Law: the texts of a `json3` document's cues are neat.
pub proof fn law_events_neat(evs: Seq<EventView>)
    ensures
        json3_cues(evs) matches Ok(cues) ==> all_neat(cues),
{
    lemma_event_cues_neat(evs);
    if let Ok(cues) = event_cues(evs) {
        lemma_neat_normalized(cues);
    }
}

} // verus!
