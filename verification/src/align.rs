//! Pair English cues with their translations into bilingual cues.

use crate::captions::{cue_views, Cue, CueView};
use crate::text::{chars_of, push_all, split_text, string_of, trim};
use crate::text::{is_white, joined, lemma_joined_push, split, string_texts, texts, trim_back, trim_front, trimmed};
use crate::text_lemmas::{all_lack, lacks, lemma_join_split, lemma_lacks_add, lemma_split_at_lacks, lemma_split_lacking};
use vstd::prelude::*;

verus! {

/// One cue in both languages.
#[derive(Debug, Clone, Default, PartialEq, Eq)]
pub struct BiCue {
    pub start_ms: u64,
    pub end_ms: u64,
    pub en: String,
    pub zh: String,
}

/// What a bilingual cue holds.
#[verifier::ext_equal]
pub struct BiCueView {
    pub start_ms: u64,
    pub end_ms: u64,
    pub en: Seq<char>,
    pub zh: Seq<char>,
}

impl View for BiCue {
    type V = BiCueView;

    open spec fn view(&self) -> BiCueView {
        BiCueView { start_ms: self.start_ms, end_ms: self.end_ms, en: self.en@, zh: self.zh@ }
    }
}

/// What bilingual cues hold.
pub open spec fn bicue_views(s: Seq<BiCue>) -> Seq<BiCueView> {
    Seq::new(s.len(), |i: int| s[i]@)
}

/// Whether `c` belongs to a CJK block, where words are not parted by spaces.
pub open spec fn cjk(c: char) -> bool {
    let u = c as u32;
    ||| 0x3000 <= u <= 0x303f
    ||| 0x3040 <= u <= 0x30ff
    ||| 0x3400 <= u <= 0x4dbf
    ||| 0x4e00 <= u <= 0x9fff
    ||| 0xf900 <= u <= 0xfaff
    ||| 0xff00 <= u <= 0xffef
    ||| 0x20000 <= u <= 0x2fa1f
}

fn is_cjk(c: char) -> (r: bool)
    ensures
        r == cjk(c),
{
    let u = c as u32;
    (0x3000 <= u && u <= 0x303f) || (0x3040 <= u && u <= 0x30ff) || (0x3400 <= u && u <= 0x4dbf) || (
    0x4e00 <= u && u <= 0x9fff) || (0xf900 <= u && u <= 0xfaff) || (0xff00 <= u && u <= 0xffef) || (
    0x20000 <= u && u <= 0x2fa1f)
}

/// `acc` with `piece` behind it, and a space between two neighbours that are both not CJK.
pub open spec fn pieced(acc: Seq<char>, piece: Seq<char>) -> Seq<char> {
    if piece.len() == 0 {
        acc
    } else if acc.len() > 0 && !cjk(acc.last()) && !cjk(piece[0]) {
        acc + seq![' '] + piece
    } else {
        acc + piece
    }
}

/// Appends to characters.
fn add_piece(acc: &mut Vec<char>, piece: &[char])
    ensures
        final(acc)@ == pieced(old(acc)@, piece@),
{
    let ghost start = acc@;
    if piece.len() == 0 {
        return;
    }
    if acc.len() > 0 && !is_cjk(acc[acc.len() - 1]) && !is_cjk(piece[0]) {
        acc.push(' ');
        assert(acc@ =~= start + seq![' ']);
    }
    push_all(acc, piece);
}

/// Append `piece`, inserting a space only between non-CJK neighbours.
pub fn join_piece(acc: &mut String, piece: &str)
    ensures
        final(acc)@ == pieced(old(acc)@, piece@),
{
    let mut chars = chars_of(acc.as_str());
    add_piece(&mut chars, chars_of(piece).as_slice());
    *acc = string_of(chars.as_slice());
}

/// The lines pieced together, each without white space at its ends.
pub open spec fn pieced_lines(ls: Seq<Seq<char>>) -> Seq<char>
    decreases ls.len(),
{
    if ls.len() == 0 {
        Seq::empty()
    } else {
        pieced(pieced_lines(ls.drop_last()), trimmed(ls.last()))
    }
}

/// A text on one line.
pub open spec fn flattened(s: Seq<char>) -> Seq<char> {
    pieced_lines(split(s, seq!['\n']))
}

/// Collapse a multi-line Chinese cue into one line.
pub fn flatten_zh(text: &str) -> (r: String)
    ensures
        r@ == flattened(text@),
{
    let newline: Vec<char> = vec!['\n'];
    assert(newline@ =~= seq!['\n']);
    let ls = split_text(chars_of(text).as_slice(), newline.as_slice());
    let ghost all = texts(ls@);
    let mut acc: Vec<char> = Vec::new();
    assert(acc@ =~= pieced_lines(all.take(0)));
    for i in 0..ls.len()
        invariant
            all == texts(ls@),
            acc@ == pieced_lines(all.take(i as int)),
    {
        assert(all.take(i + 1).drop_last() =~= all.take(i as int));
        assert(all.take(i + 1).last() == ls@[i as int]@);
        add_piece(&mut acc, trim(ls[i].as_slice()));
    }
    assert(all.take(all.len() as int) =~= all);
    string_of(acc.as_slice())
}

/// Cues and translations, pair by pair, as far as both go.
pub open spec fn zipped(en: Seq<CueView>, zh: Seq<Seq<char>>) -> Seq<BiCueView> {
    let n = if en.len() <= zh.len() {
        en.len()
    } else {
        zh.len()
    };
    Seq::new(
        n,
        |i: int|
            BiCueView {
                start_ms: en[i].start_ms,
                end_ms: en[i].end_ms,
                en: en[i].text,
                zh: flattened(zh[i]),
            },
    )
}

/// Build bilingual cues from an English list and a 1:1 list of translations.
pub fn zip(en: &[Cue], zh: &[String]) -> (r: Vec<BiCue>)
    ensures
        bicue_views(r@) == zipped(cue_views(en@), string_texts(zh@)),
{
    let mut out: Vec<BiCue> = Vec::new();
    let n: usize = if en.len() <= zh.len() {
        en.len()
    } else {
        zh.len()
    };
    let ghost all = zipped(cue_views(en@), string_texts(zh@));
    assert(bicue_views(out@) =~= all.take(0));
    for i in 0..n
        invariant
            n == all.len(),
            n <= en@.len(),
            n <= zh@.len(),
            all == zipped(cue_views(en@), string_texts(zh@)),
            bicue_views(out@) == all.take(i as int),
    {
        let ghost before = bicue_views(out@);
        let cue = BiCue {
            start_ms: en[i].start_ms,
            end_ms: en[i].end_ms,
            en: en[i].text.clone(),
            zh: flatten_zh(zh[i].as_str()),
        };
        out.push(cue);
        assert(bicue_views(out@) =~= before.push(cue@));
        assert(all.take(i + 1) =~= all.take(i as int).push(all[i as int]));
    }
    assert(all.take(all.len() as int) =~= all);
    out
}

/// Law: with one translation for each cue, every cue keeps its times and its English, and gets the
/// translation at its own position.
pub proof fn law_zipped_one_to_one(en: Seq<CueView>, zh: Seq<Seq<char>>)
    requires
        en.len() == zh.len(),
    ensures
        zipped(en, zh).len() == en.len(),
        forall|i: int|
            0 <= i < en.len() ==> {
                let c = #[trigger] zipped(en, zh)[i];
                &&& c.start_ms == en[i].start_ms
                &&& c.end_ms == en[i].end_ms
                &&& c.en == en[i].text
                &&& c.zh == flattened(zh[i])
            },
{
}

// ---- What flattening keeps -----------------------------------------------------------------

/// The characters that are no white space.
pub open spec fn visible(s: Seq<char>) -> Seq<char> {
    s.filter(|c: char| !is_white(c))
}

/// The visible characters of two texts one behind the other.
proof fn lemma_visible_add(a: Seq<char>, b: Seq<char>)
    ensures
        visible(a + b) == visible(a) + visible(b),
{
    Seq::filter_distributes_over_add(a, b, |c: char| !is_white(c));
}

/// One character.
proof fn lemma_visible_one(c: char)
    ensures
        visible(seq![c]) == if is_white(c) {
            Seq::empty()
        } else {
            seq![c]
        },
{
    reveal(Seq::filter);
    let none = Seq::<char>::empty();
    assert(seq![c].drop_last() =~= none);
    assert(visible(none) =~= none);
    assert(none.push(c) =~= seq![c]);
}

/// Trimming takes nothing visible away and leaves no white space at the ends.
proof fn lemma_trim_front(s: Seq<char>)
    ensures
        visible(trim_front(s)) == visible(s),
        trim_front(s).len() > 0 ==> !is_white(trim_front(s)[0]),
        forall|c: char| lacks(s, c) ==> #[trigger] lacks(trim_front(s), c),
    decreases s.len(),
{
    if s.len() > 0 && is_white(s[0]) {
        let rest = s.drop_first();
        lemma_trim_front(rest);
        lemma_visible_one(s[0]);
        lemma_visible_add(seq![s[0]], rest);
        assert(seq![s[0]] + rest =~= s);
        assert(Seq::<char>::empty() + visible(rest) =~= visible(rest));
        assert forall|c: char| lacks(s, c) implies #[trigger] lacks(trim_front(s), c) by {
            assert forall|i: int| 0 <= i < rest.len() implies #[trigger] rest[i] != c by {
                assert(rest[i] == s[i + 1]);
            }
            assert(lacks(rest, c));
        }
    }
}

/// `lemma_trim_front` for the other end.
proof fn lemma_trim_back(s: Seq<char>)
    ensures
        visible(trim_back(s)) == visible(s),
        trim_back(s).len() > 0 ==> !is_white(trim_back(s).last()) && trim_back(s)[0] == s[0],
        forall|c: char| lacks(s, c) ==> #[trigger] lacks(trim_back(s), c),
    decreases s.len(),
{
    if s.len() > 0 && is_white(s.last()) {
        let front = s.drop_last();
        lemma_trim_back(front);
        lemma_visible_one(s.last());
        lemma_visible_add(front, seq![s.last()]);
        assert(front + seq![s.last()] =~= s);
        assert(visible(front) + Seq::<char>::empty() =~= visible(front));
        assert forall|c: char| lacks(s, c) implies #[trigger] lacks(trim_back(s), c) by {
            assert forall|i: int| 0 <= i < front.len() implies #[trigger] front[i] != c by {
                assert(front[i] == s[i]);
            }
            assert(lacks(front, c));
        }
    }
}

/// Whether there is no white space at the ends.
spec fn bare(s: Seq<char>) -> bool {
    s.len() > 0 ==> !is_white(s[0]) && !is_white(s.last())
}

/// What trimming gives.
proof fn lemma_trimmed(s: Seq<char>)
    ensures
        bare(trimmed(s)),
        visible(trimmed(s)) == visible(s),
        lacks(s, '\n') ==> lacks(trimmed(s), '\n'),
        bare(s) ==> trimmed(s) == s,
{
    lemma_trim_front(s);
    lemma_trim_back(trim_front(s));
}

/// No characters.
proof fn lemma_visible_none()
    ensures
        visible(Seq::empty()) == Seq::<char>::empty(),
{
    reveal(Seq::filter);
}

/// White space between two texts does not show.
proof fn lemma_visible_between(a: Seq<char>, c: char, b: Seq<char>)
    requires
        is_white(c),
    ensures
        visible(a + seq![c] + b) == visible(a) + visible(b),
{
    lemma_visible_add(a + seq![c], b);
    lemma_visible_add(a, seq![c]);
    lemma_visible_one(c);
    assert(visible(a) + Seq::<char>::empty() =~= visible(a));
}

/// A piece behind another.
proof fn lemma_pieced(acc: Seq<char>, piece: Seq<char>)
    requires
        bare(acc),
        bare(piece),
        lacks(acc, '\n'),
        lacks(piece, '\n'),
    ensures
        bare(pieced(acc, piece)),
        lacks(pieced(acc, piece), '\n'),
        visible(pieced(acc, piece)) == visible(acc) + visible(piece),
{
    if piece.len() == 0 {
        lemma_visible_none();
        assert(piece =~= Seq::<char>::empty());
        assert(visible(acc) + Seq::<char>::empty() =~= visible(acc));
    } else {
        lemma_visible_add(acc, piece);
        lemma_visible_between(acc, ' ', piece);
        lemma_lacks_add(acc, piece, '\n');
        lemma_lacks_add(acc, seq![' '], '\n');
        lemma_lacks_add(acc + seq![' '], piece, '\n');
    }
}

/// Lines pieced together.
proof fn lemma_pieced_lines(ls: Seq<Seq<char>>)
    requires
        all_lack(ls, '\n'),
    ensures
        bare(pieced_lines(ls)),
        lacks(pieced_lines(ls), '\n'),
        visible(pieced_lines(ls)) == visible(joined(ls, seq!['\n'])),
    decreases ls.len(),
{
    let none = Seq::<char>::empty();
    lemma_visible_none();
    if ls.len() > 0 {
        let front = ls.drop_last();
        let last = ls.last();
        assert forall|i: int| 0 <= i < front.len() implies lacks(#[trigger] front[i], '\n') by {
            assert(front[i] == ls[i]);
        }
        lemma_pieced_lines(front);
        assert(lacks(ls[ls.len() - 1], '\n'));
        lemma_trimmed(last);
        lemma_pieced(pieced_lines(front), trimmed(last));
        if front.len() == 0 {
            assert(pieced_lines(front) == none);
            assert(none + visible(last) =~= visible(last));
        } else {
            lemma_joined_push(front, last, seq!['\n']);
            assert(front.push(last) =~= ls);
            lemma_visible_between(joined(front, seq!['\n']), '\n', last);
        }
    }
}

/// Law: flattening gives one line, keeps every visible character in its order, and changes nothing
/// the second time.
pub proof fn law_flattened(s: Seq<char>)
    ensures
        lacks(flattened(s), '\n'),
        visible(flattened(s)) == visible(s),
        flattened(flattened(s)) == flattened(s),
{
    let ls = split(s, seq!['\n']);
    lemma_split_at_lacks(s, '\n');
    lemma_join_split(s, seq!['\n']);
    lemma_pieced_lines(ls);
    let f = flattened(s);
    lemma_split_lacking(f, '\n');
    lemma_trimmed(f);
    assert(seq![f].drop_last() =~= Seq::<Seq<char>>::empty());
    assert(pieced_lines(seq![f].drop_last()) =~= Seq::<char>::empty());
    assert(Seq::<char>::empty() + f =~= f);
}

} // verus!
