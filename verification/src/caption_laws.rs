//! What reading captions keeps: which lines a rolling display repeats, and which cues blocks make.

use crate::captions::{block_captions, block_cue, block_cues, blocks, new_lines, normalized, CaptionFault, CueView};
use crate::text::{find, joined, split};
use crate::text_lemmas::{lacks, lemma_find_absent, lemma_join_split, lemma_lacks_add, lemma_replace_absent, lemma_split_at_lacks, lemma_split_gap, lemma_split_joined, lemma_split_some};
use vstd::prelude::*;

verus! {

// ---- Rolling displays ----------------------------------------------------------------------

/// The last line of the last cue, where there is a cue.
pub open spec fn last_line(cues: Seq<CueView>) -> Option<Seq<char>> {
    if cues.len() == 0 {
        None
    } else {
        Some(split(cues.last().text, seq!['\n']).last())
    }
}

/// The first line of a cue.
pub open spec fn first_line(c: CueView) -> Seq<char> {
    split(c.text, seq!['\n'])[0]
}

/// Lines that were split off and joined again are split the same way.
proof fn lemma_lines_again(text: Seq<char>, from: int)
    requires
        0 <= from < split(text, seq!['\n']).len(),
    ensures
        split(joined(split(text, seq!['\n']).skip(from), seq!['\n']), seq!['\n']) == split(
            text,
            seq!['\n'],
        ).skip(from),
{
    let ls = split(text, seq!['\n']);
    let rest = ls.skip(from);
    lemma_split_at_lacks(text, '\n');
    assert forall|i: int| 0 <= i < rest.len() implies lacks(#[trigger] rest[i], '\n') by {
        assert(rest[i] == ls[i + from]);
    }
    lemma_split_joined(rest);
}

/// What is remembered of the cues so far is the last line among them.
proof fn lemma_last_line(bs: Seq<Seq<char>>, rolling: bool)
    ensures
        block_cues(bs, rolling) matches Ok((cues, last)) ==> last == last_line(cues),
    decreases bs.len(),
{
    if bs.len() > 0 {
        lemma_last_line(bs.drop_last(), rolling);
        if let (Ok((cues, last)), Ok(Some(c))) = (
            block_cues(bs.drop_last(), rolling),
            block_cue(bs.last()),
        ) {
            let all = split(c.text, seq!['\n']);
            let ls = new_lines(c.text, last, rolling);
            lemma_split_some(c.text, seq!['\n']);
            if ls.len() > 0 {
                assert(all.skip(0) =~= all);
                assert(all.skip(1) =~= all.drop_first());
                if rolling && last == Some(all[0]) {
                    lemma_lines_again(c.text, 1);
                } else {
                    lemma_lines_again(c.text, 0);
                }
            }
        }
    }
}

/// Law: a block's cue is taken whole, but for a first line that repeats the last line of the cue
/// before it: in a rolling display that one line is left out, and the cue with it where it has no
/// other line.
pub proof fn law_rolling_drops(bs: Seq<Seq<char>>, block: Seq<char>, c: CueView, cues: Seq<CueView>, last: Option<Seq<char>>)
    requires
        block_cues(bs, true) == Ok::<(Seq<CueView>, Option<Seq<char>>), CaptionFault>((cues, last)),
        block_cue(block) == Ok::<Option<CueView>, CaptionFault>(Some(c)),
    ensures
        block_cues(bs.push(block), true) matches Ok((after, _)) && {
            let ls = split(c.text, seq!['\n']);
            if cues.len() > 0 && split(cues.last().text, seq!['\n']).last() == ls[0] {
                if ls.len() == 1 {
                    after == cues
                } else {
                    after == cues.push(
                        CueView {
                            start_ms: c.start_ms,
                            end_ms: c.end_ms,
                            text: joined(ls.skip(1), seq!['\n']),
                        },
                    )
                }
            } else {
                after == cues.push(c)
            }
        },
{
    lemma_last_line(bs, true);
    assert(bs.push(block).drop_last() =~= bs);
    let ls = split(c.text, seq!['\n']);
    lemma_split_some(c.text, seq!['\n']);
    lemma_join_split(c.text, seq!['\n']);
    assert(ls.skip(1) =~= ls.drop_first());
}

/// Law: without a rolling display every block's cue is taken whole, repeated or not.
pub proof fn law_plain_keeps(bs: Seq<Seq<char>>, block: Seq<char>, c: CueView, cues: Seq<CueView>, last: Option<Seq<char>>)
    requires
        block_cues(bs, false) == Ok::<(Seq<CueView>, Option<Seq<char>>), CaptionFault>((cues, last)),
        block_cue(block) == Ok::<Option<CueView>, CaptionFault>(Some(c)),
    ensures
        block_cues(bs.push(block), false) matches Ok((after, _)) && after == cues.push(c),
{
    assert(bs.push(block).drop_last() =~= bs);
    lemma_join_split(c.text, seq!['\n']);
    lemma_split_some(c.text, seq!['\n']);
}

/// Law: a block without a cue adds none, and there are none without blocks.
pub proof fn law_no_cue(bs: Seq<Seq<char>>, block: Seq<char>, rolling: bool)
    requires
        block_cue(block) == Ok::<Option<CueView>, CaptionFault>(None),
        block_cues(bs, rolling) is Ok,
    ensures
        block_cues(bs.push(block), rolling) == block_cues(bs, rolling),
        block_cues(Seq::empty(), rolling) matches Ok((cues, _)) && cues.len() == 0,
{
    assert(bs.push(block).drop_last() =~= bs);
}

/// Law: a block that cannot be read is an error of the whole document, the first one's.
pub proof fn law_first_fault(bs: Seq<Seq<char>>, block: Seq<char>, rolling: bool)
    ensures
        block_cues(bs, rolling) matches Err(e) ==> block_cues(bs.push(block), rolling) == Err::<
            (Seq<CueView>, Option<Seq<char>>),
            CaptionFault,
        >(e),
        block_cues(bs, rolling) is Ok ==> (block_cue(block) matches Err(e) ==> block_cues(
            bs.push(block),
            rolling,
        ) == Err::<(Seq<CueView>, Option<Seq<char>>), CaptionFault>(e)),
{
    assert(bs.push(block).drop_last() =~= bs);
}

/// Where nothing repeats, both ways of reading blocks agree.
proof fn lemma_rolling_same(bs: Seq<Seq<char>>)
    requires
        block_cues(bs, false) matches Ok((cues, _)) && forall|i: int|
            1 <= i < cues.len() ==> first_line(#[trigger] cues[i]) != split(
                cues[i - 1].text,
                seq!['\n'],
            ).last(),
    ensures
        block_cues(bs, true) == block_cues(bs, false),
    decreases bs.len(),
{
    if bs.len() > 0 {
        let front = bs.drop_last();
        let (all, _) = block_cues(bs, false)->Ok_0;
        lemma_last_line(front, false);
        assert(block_cues(front, false) is Ok);
        let (cues, last) = block_cues(front, false)->Ok_0;
        assert(front.push(bs.last()) =~= bs);
        match block_cue(bs.last()) {
            Ok(Some(c)) => {
                law_plain_keeps(front, bs.last(), c, cues, last);
                assert(all == cues.push(c));
                assert forall|i: int| 1 <= i < cues.len() implies first_line(#[trigger] cues[i]) != split(
                    cues[i - 1].text,
                    seq!['\n'],
                ).last() by {
                    assert(cues[i] == all[i] && cues[i - 1] == all[i - 1]);
                }
                lemma_rolling_same(front);
                if cues.len() > 0 {
                    assert(all[cues.len() as int] == c);
                    assert(all[cues.len() - 1] == cues.last());
                    assert(first_line(all[cues.len() as int]) != split(
                        all[cues.len() - 1].text,
                        seq!['\n'],
                    ).last());
                }
            },
            Ok(None) => {
                lemma_rolling_same(front);
            },
            Err(_) => {},
        }
    }
}

/// Law: where no cue begins with the line that the one before it ends with, a document says the
/// same as a rolling display and as a plain one.
pub proof fn law_rolling_same(doc: Seq<char>)
    requires
        block_cues(blocks(doc), false) matches Ok((cues, _)) && forall|i: int|
            1 <= i < cues.len() ==> first_line(#[trigger] cues[i]) != split(
                cues[i - 1].text,
                seq!['\n'],
            ).last(),
    ensures
        block_captions(doc, true) == block_captions(doc, false),
{
    lemma_rolling_same(blocks(doc));
}

/// Law: blocks are parted by an empty line; without one there is one block.
pub proof fn law_blocks(a: Seq<char>, b: Seq<char>)
    requires
        lacks(a, '\r'),
        lacks(b, '\r'),
        a.len() > 0,
        a[0] != '\u{feff}',
        a.last() != '\n',
        find(a, seq!['\n', '\n']) is None,
        b.len() > 0 ==> b[0] != '\u{feff}',
    ensures
        blocks(a) == seq![a],
        blocks(a + seq!['\n', '\n'] + b) == seq![a] + blocks(b),
{
    let p = seq!['\r', '\n'];
    let gap = seq!['\n', '\n'];
    let s = a + gap + b;
    lemma_lacks_add(a, gap, '\r');
    lemma_lacks_add(a + gap, b, '\r');
    lemma_find_absent(a, p, 0);
    lemma_find_absent(b, p, 0);
    lemma_find_absent(s, p, 0);
    lemma_replace_absent(a, p, seq!['\n']);
    lemma_replace_absent(b, p, seq!['\n']);
    lemma_replace_absent(s, p, seq!['\n']);
    assert(s[0] == a[0]);
    lemma_split_gap(a, b);
}

/// Law: the cues of a document are those of its blocks, put in order.
pub proof fn law_document_cues(doc: Seq<char>, rolling: bool)
    ensures
        match block_cues(blocks(doc), rolling) {
            Ok((cues, _)) => block_captions(doc, rolling) == Ok::<Seq<CueView>, CaptionFault>(
                normalized(cues),
            ),
            Err(e) => block_captions(doc, rolling) == Err::<Seq<CueView>, CaptionFault>(e),
        },
{
}

} // verus!
