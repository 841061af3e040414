//! Facts about splitting, joining and cleaning text.

use crate::text::{find, is_white, joined, lemma_find, lemma_find_none, lemma_find_some, lemma_word_len, lines, replaced, split, stands_at, trim_back, trim_front, trimmed, without_cr, word_len, words};
use vstd::prelude::*;

verus! {

/// Whether `c` stands nowhere in `s`.
pub open spec fn lacks(s: Seq<char>, c: char) -> bool {
    forall|i: int| 0 <= i < s.len() ==> #[trigger] s[i] != c
}

/// `lacks` of a concatenation.
pub proof fn lemma_lacks_add(a: Seq<char>, b: Seq<char>, c: char)
    requires
        lacks(a, c),
        lacks(b, c),
    ensures
        lacks(a + b, c),
{
    let s = a + b;
    assert forall|i: int| 0 <= i < s.len() implies #[trigger] s[i] != c by {
        if i < a.len() {
            assert(s[i] == a[i]);
        } else {
            assert(s[i] == b[i - a.len()]);
        }
    }
}

/// A text that lacks a character of `p` does not hold `p`.
pub proof fn lemma_find_absent(s: Seq<char>, p: Seq<char>, k: int)
    requires
        0 <= k < p.len(),
        lacks(s, p[k]),
    ensures
        find(s, p) is None,
{
    assert forall|j: int| 0 <= j <= s.len() implies !stands_at(s, j, p) by {
        if stands_at(s, j, p) {
            assert(s.subrange(j, j + p.len())[k] == s[j + k]);
        }
    }
    lemma_find_none(s, p);
}

/// A text that is split has at least one piece.
pub proof fn lemma_split_some(s: Seq<char>, p: Seq<char>)
    ensures
        split(s, p).len() > 0,
{
}

/// A text without `c` is not split at `c`.
pub proof fn lemma_split_lacking(s: Seq<char>, c: char)
    requires
        lacks(s, c),
    ensures
        split(s, seq![c]) == seq![s],
{
    lemma_find_absent(s, seq![c], 0);
}

/// The first piece of a text split at `c`.
pub proof fn lemma_split_first(a: Seq<char>, c: char, b: Seq<char>)
    requires
        lacks(a, c),
    ensures
        find(a + seq![c] + b, seq![c]) == Some(a.len() as int),
        split(a + seq![c] + b, seq![c]) == seq![a] + split(b, seq![c]),
{
    let s = a + seq![c] + b;
    let p = seq![c];
    let n = a.len() as int;
    assert(s.subrange(n, n + 1) =~= p);
    assert forall|j: int| 0 <= j < n implies !stands_at(s, j, p) by {
        if stands_at(s, j, p) {
            assert(s.subrange(j, j + 1)[0] == s[j]);
            assert(s[j] == a[j]);
        }
    }
    lemma_find_some(s, p, n);
    assert(s.take(n) =~= a);
    assert(s.skip(n + 1) =~= b);
}

/// What stands between `"\n\n"` and the next one.
pub proof fn lemma_split_gap(a: Seq<char>, b: Seq<char>)
    requires
        find(a, seq!['\n', '\n']) is None,
        a.len() > 0,
        a.last() != '\n',
    ensures
        split(a + seq!['\n', '\n'] + b, seq!['\n', '\n']) == seq![a] + split(b, seq!['\n', '\n']),
{
    let p = seq!['\n', '\n'];
    let s = a + p + b;
    let n = a.len() as int;
    assert(s.subrange(n, n + 2) =~= p);
    lemma_find(a, p);
    assert forall|j: int| 0 <= j < n implies !stands_at(s, j, p) by {
        if stands_at(s, j, p) {
            assert(s.subrange(j, j + 2)[0] == s[j]);
            assert(s[j] == '\n');
            if j == n - 1 {
                assert(s[j] == a.last());
            } else {
                assert(a.subrange(j, j + 2) =~= s.subrange(j, j + 2));
                assert(stands_at(a, j, p));
            }
        }
    }
    lemma_find_some(s, p, n);
    assert(s.take(n) =~= a);
    assert(s.skip(n + 2) =~= b);
}

/// Joining what was split gives the text back.
pub proof fn lemma_join_split(s: Seq<char>, p: Seq<char>)
    requires
        p.len() > 0,
    ensures
        joined(split(s, p), p) == s,
    decreases s.len(),
{
    lemma_find(s, p);
    match find(s, p) {
        Some(i) => {
            let rest = s.skip(i + p.len());
            lemma_join_split(rest, p);
            let parts = split(s, p);
            assert(parts.drop_first() =~= split(rest, p));
            assert(parts.len() > 1);
            assert(s.take(i) + p + rest =~= s) by {
                assert(s.subrange(i, i + p.len()) == p);
            }
        },
        None => {},
    }
}

/// A text without `p` is not changed by replacing `p`.
pub proof fn lemma_replace_absent(s: Seq<char>, p: Seq<char>, t: Seq<char>)
    requires
        find(s, p) is None,
    ensures
        replaced(s, p, t) == s,
{
    assert(split(s, p) == seq![s]);
}

/// Replacing the only place where `c` stands.
pub proof fn lemma_replace_one(a: Seq<char>, c: char, b: Seq<char>, t: Seq<char>)
    requires
        lacks(a, c),
        lacks(b, c),
    ensures
        replaced(a + seq![c] + b, seq![c], t) == a + t + b,
{
    lemma_split_first(a, c, b);
    lemma_split_lacking(b, c);
    let parts = seq![a] + seq![b];
    assert(parts.drop_first() =~= seq![b]);
    assert(joined(seq![b], t) == b);
    assert(joined(parts, t) == a + t + b);
}

/// Where there are no carriage returns and the last line has no ending, lines are what stands
/// between line breaks.
pub proof fn lemma_lines_split(s: Seq<char>)
    requires
        lacks(s, '\r'),
        s.len() > 0,
        s.last() != '\n',
    ensures
        lines(s) == split(s, seq!['\n']),
    decreases s.len(),
{
    let p = seq!['\n'];
    lemma_find(s, p);
    if let Some(i) = find(s, p) {
        assert(s.subrange(i, i + 1)[0] == s[i]);
        assert(i < s.len() - 1);
        let rest = s.skip(i + 1);
        assert(rest.last() == s.last());
        assert forall|k: int| 0 <= k < rest.len() implies #[trigger] rest[k] != '\r' by {
            assert(rest[k] == s[i + 1 + k]);
        }
        lemma_lines_split(rest);
        let first = s.take(i);
        if first.len() > 0 {
            assert(first.last() == s[i - 1]);
        }
        assert(without_cr(first) == first);
    }
}

/// Whether no character is white space.
pub open spec fn solid(s: Seq<char>) -> bool {
    forall|i: int| 0 <= i < s.len() ==> !is_white(#[trigger] s[i])
}

/// A text of no white space is one word.
pub proof fn lemma_words_solid(s: Seq<char>)
    requires
        solid(s),
        s.len() > 0,
    ensures
        words(s) == seq![s],
{
    lemma_word_len(s, s.len() as int);
    assert(s.take(s.len() as int) =~= s);
    assert(s.skip(s.len() as int) =~= Seq::<char>::empty());
    assert(words(Seq::<char>::empty()) =~= Seq::<Seq<char>>::empty());
    assert(seq![s] + Seq::<Seq<char>>::empty() =~= seq![s]);
}

/// White space in front does not matter.
pub proof fn lemma_words_space(c: char, s: Seq<char>)
    requires
        is_white(c),
    ensures
        words(seq![c] + s) == words(s),
{
    assert((seq![c] + s).drop_first() =~= s);
}

/// Trimming a text of no white space with a space behind it.
pub proof fn lemma_trim_solid(s: Seq<char>, c: char)
    requires
        solid(s),
        s.len() > 0,
        is_white(c),
    ensures
        trimmed(s + seq![c]) == s,
        trimmed(s) == s,
{
    let t = s + seq![c];
    assert(!is_white(s[0]));
    assert(t[0] == s[0]);
    assert(trim_front(t) == t);
    assert(t.last() == c);
    assert(t.drop_last() =~= s);
    assert(!is_white(s[s.len() - 1]));
    assert(trim_back(s) == s);
}

/// Words are not empty and hold no white space.
pub proof fn lemma_words(s: Seq<char>)
    ensures
        forall|i: int| 0 <= i < words(s).len() ==> solid(#[trigger] words(s)[i]) && words(s)[i].len()
            > 0,
    decreases s.len(),
{
    if s.len() > 0 {
        lemma_word_len_solid(s);
        let n = word_len(s) as int;
        if is_white(s[0]) {
            lemma_words(s.drop_first());
            assert(words(s) == words(s.drop_first()));
        } else {
            let first = s.take(n);
            let rest = words(s.skip(n));
            lemma_words(s.skip(n));
            assert(words(s) == seq![first] + rest);
            assert forall|i: int| 0 <= i < words(s).len() implies solid(#[trigger] words(s)[i])
                && words(s)[i].len() > 0 by {
                if i > 0 {
                    assert(words(s)[i] == rest[i - 1]);
                } else {
                    assert(words(s)[i] == first);
                }
            }
        }
    } else {
        assert(words(s).len() == 0);
    }
}

/// The run that `word_len` counts holds no white space.
proof fn lemma_word_len_solid(s: Seq<char>)
    ensures
        word_len(s) <= s.len(),
        solid(s.take(word_len(s) as int)),
    decreases s.len(),
{
    if s.len() > 0 && !is_white(s[0]) {
        let t = s.drop_first();
        lemma_word_len_solid(t);
        let run = s.take(word_len(s) as int);
        let rest = t.take(word_len(t) as int);
        assert forall|i: int| 0 <= i < run.len() implies !is_white(#[trigger] run[i]) by {
            if i > 0 {
                assert(run[i] == rest[i - 1]);
            }
        }
    }
}

/// Whether every character is the space or no white space.
pub open spec fn evenly_spaced(s: Seq<char>) -> bool {
    forall|i: int| 0 <= i < s.len() ==> (#[trigger] s[i] == ' ' || !is_white(s[i]))
}

/// Joining words with spaces leaves no other white space, and none at the ends.
pub proof fn lemma_joined_words(ws: Seq<Seq<char>>)
    requires
        forall|i: int| 0 <= i < ws.len() ==> solid(#[trigger] ws[i]) && ws[i].len() > 0,
    ensures
        evenly_spaced(joined(ws, seq![' '])),
        ws.len() > 0 ==> joined(ws, seq![' ']).len() > 0,
        ws.len() > 0 ==> !is_white(joined(ws, seq![' '])[0]),
        ws.len() > 0 ==> !is_white(joined(ws, seq![' ']).last()),
    decreases ws.len(),
{
    let s = joined(ws, seq![' ']);
    if ws.len() == 1 {
        assert(solid(ws[0]));
        assert forall|i: int| 0 <= i < s.len() implies (#[trigger] s[i] == ' ' || !is_white(s[i])) by {
            assert(!is_white(ws[0][i]));
        }
    } else if ws.len() > 1 {
        let rest = ws.drop_first();
        assert forall|i: int| 0 <= i < rest.len() implies solid(#[trigger] rest[i]) && rest[i].len()
            > 0 by {
            assert(rest[i] == ws[i + 1]);
        }
        lemma_joined_words(rest);
        let t = joined(rest, seq![' ']);
        assert(solid(ws[0]));
        assert forall|i: int| 0 <= i < s.len() implies (#[trigger] s[i] == ' ' || !is_white(s[i])) by {
            let n = ws[0].len() as int;
            if i < n {
                assert(s[i] == ws[0][i]);
            } else if i > n {
                assert(s[i] == t[i - n - 1]);
            }
        }
        assert(s[0] == ws[0][0]);
        assert(s.last() == t.last());
    }
}

/// Where a text without the first character of `p` stands in front of `p`.
pub proof fn lemma_find_behind(a: Seq<char>, p: Seq<char>, b: Seq<char>)
    requires
        p.len() > 0,
        lacks(a, p[0]),
    ensures
        find(a + p + b, p) == Some(a.len() as int),
{
    let s = a + p + b;
    let n = a.len() as int;
    assert(s.subrange(n, n + p.len()) =~= p);
    assert forall|j: int| 0 <= j < n implies !stands_at(s, j, p) by {
        if stands_at(s, j, p) {
            assert(s.subrange(j, j + p.len())[0] == s[j]);
            assert(s[j] == a[j]);
        }
    }
    lemma_find_some(s, p, n);
}

/// Whether no two line breaks follow each other.
pub open spec fn close_lines(s: Seq<char>) -> bool {
    forall|i: int| 0 <= i < s.len() - 1 && #[trigger] s[i] == '\n' ==> s[i + 1] != '\n'
}

/// Whether a text neither begins nor ends with a line break, nor has two that follow each
/// other, nor a carriage return.
pub open spec fn compact(s: Seq<char>) -> bool {
    &&& close_lines(s)
    &&& lacks(s, '\r')
    &&& s.len() > 0 ==> s[0] != '\n' && s.last() != '\n'
}

/// A compact text holds no empty line.
pub proof fn lemma_compact(s: Seq<char>)
    requires
        close_lines(s),
    ensures
        find(s, seq!['\n', '\n']) is None,
{
    let p = seq!['\n', '\n'];
    assert forall|j: int| 0 <= j <= s.len() implies !stands_at(s, j, p) by {
        if stands_at(s, j, p) {
            assert(s.subrange(j, j + 2)[0] == s[j]);
            assert(s.subrange(j, j + 2)[1] == s[j + 1]);
        }
    }
    lemma_find_none(s, p);
}

/// Two compact texts on lines of their own.
pub proof fn lemma_compact_add(a: Seq<char>, b: Seq<char>)
    requires
        compact(a),
        compact(b),
        a.len() > 0,
        b.len() > 0,
    ensures
        compact(a + seq!['\n'] + b),
{
    let s = a + seq!['\n'] + b;
    let n = a.len() as int;
    assert forall|i: int| 0 <= i < s.len() - 1 && #[trigger] s[i] == '\n' implies s[i + 1] != '\n' by {
        if i < n {
            assert(s[i] == a[i]);
            assert(i < n - 1);
            assert(s[i + 1] == a[i + 1]);
        } else if i == n {
            assert(s[i + 1] == b[0]);
        } else {
            assert(s[i] == b[i - n - 1]);
            assert(s[i + 1] == b[i - n]);
        }
    }
    lemma_lacks_add(a, seq!['\n'], '\r');
    lemma_lacks_add(a + seq!['\n'], b, '\r');
    assert(s[0] == a[0]);
    assert(s.last() == b.last());
}

/// Lines that are compact and not empty make a compact text.
pub proof fn lemma_compact_joined(ls: Seq<Seq<char>>)
    requires
        forall|i: int| 0 <= i < ls.len() ==> compact(#[trigger] ls[i]) && ls[i].len() > 0,
    ensures
        compact(joined(ls, seq!['\n'])),
        ls.len() > 0 ==> joined(ls, seq!['\n']).len() > 0,
    decreases ls.len(),
{
    if ls.len() > 0 {
        assert(compact(ls[0]));
    }
    if ls.len() > 1 {
        let rest = ls.drop_first();
        assert forall|i: int| 0 <= i < rest.len() implies compact(#[trigger] rest[i]) && rest[i].len()
            > 0 by {
            assert(rest[i] == ls[i + 1]);
        }
        lemma_compact_joined(rest);
        lemma_compact_add(ls[0], joined(rest, seq!['\n']));
    }
}

/// Whether no text of the list holds `c`.
pub open spec fn all_lack(ls: Seq<Seq<char>>, c: char) -> bool {
    forall|i: int| 0 <= i < ls.len() ==> lacks(#[trigger] ls[i], c)
}

/// The pieces of a text hold no character that the text does not hold.
pub proof fn lemma_split_lacks(s: Seq<char>, p: Seq<char>, c: char)
    requires
        p.len() > 0,
        lacks(s, c),
    ensures
        all_lack(split(s, p), c),
    decreases s.len(),
{
    lemma_find(s, p);
    if let Some(i) = find(s, p) {
        let rest = s.skip(i + p.len());
        let first = s.take(i);
        assert forall|k: int| 0 <= k < rest.len() implies #[trigger] rest[k] != c by {
            assert(rest[k] == s[i + p.len() + k]);
        }
        assert forall|k: int| 0 <= k < first.len() implies #[trigger] first[k] != c by {
            assert(first[k] == s[k]);
        }
        lemma_split_lacks(rest, p, c);
        let parts = split(s, p);
        assert forall|k: int| 0 <= k < parts.len() implies lacks(#[trigger] parts[k], c) by {
            if k > 0 {
                assert(parts[k] == split(rest, p)[k - 1]);
            }
        }
    }
}

/// The pieces between `c` do not hold it.
pub proof fn lemma_split_at_lacks(s: Seq<char>, c: char)
    ensures
        all_lack(split(s, seq![c]), c),
    decreases s.len(),
{
    let p = seq![c];
    lemma_find(s, p);
    match find(s, p) {
        Some(i) => {
            let rest = s.skip(i + 1);
            let first = s.take(i);
            lemma_split_at_lacks(rest, c);
            assert forall|k: int| 0 <= k < first.len() implies #[trigger] first[k] != c by {
                if first[k] == c {
                    assert(s.subrange(k, k + 1) =~= p);
                    assert(stands_at(s, k, p));
                }
            }
            let parts = split(s, p);
            assert forall|k: int| 0 <= k < parts.len() implies lacks(#[trigger] parts[k], c) by {
                if k > 0 {
                    assert(parts[k] == split(rest, p)[k - 1]);
                }
            }
        },
        None => {
            assert forall|k: int| 0 <= k < s.len() implies #[trigger] s[k] != c by {
                if s[k] == c {
                    assert(s.subrange(k, k + 1) =~= p);
                    assert(stands_at(s, k, p));
                }
            }
        },
    }
}

/// Joining adds no character.
pub proof fn lemma_joined_lacks(ls: Seq<Seq<char>>, sep: Seq<char>, c: char)
    requires
        all_lack(ls, c),
        lacks(sep, c),
    ensures
        lacks(joined(ls, sep), c),
    decreases ls.len(),
{
    if ls.len() > 0 {
        assert(lacks(ls[0], c));
    }
    if ls.len() > 1 {
        let rest = ls.drop_first();
        assert forall|i: int| 0 <= i < rest.len() implies lacks(#[trigger] rest[i], c) by {
            assert(rest[i] == ls[i + 1]);
        }
        lemma_joined_lacks(rest, sep, c);
        lemma_lacks_add(ls[0], sep, c);
        lemma_lacks_add(ls[0] + sep, joined(rest, sep), c);
    }
}

/// Replacing adds no character.
pub proof fn lemma_replaced_lacks(s: Seq<char>, p: Seq<char>, t: Seq<char>, c: char)
    requires
        p.len() > 0,
        lacks(s, c),
        lacks(t, c),
    ensures
        lacks(replaced(s, p, t), c),
{
    lemma_split_lacks(s, p, c);
    lemma_joined_lacks(split(s, p), t, c);
}

/// Words hold no character that the text does not hold.
pub proof fn lemma_words_lack(s: Seq<char>, c: char)
    requires
        lacks(s, c),
    ensures
        all_lack(words(s), c),
    decreases s.len(),
{
    if s.len() > 0 {
        lemma_word_len_solid(s);
        let n = word_len(s) as int;
        if is_white(s[0]) {
            let rest = s.drop_first();
            assert forall|k: int| 0 <= k < rest.len() implies #[trigger] rest[k] != c by {
                assert(rest[k] == s[k + 1]);
            }
            lemma_words_lack(rest, c);
            assert(words(s) == words(rest));
        } else {
            let first = s.take(n);
            let rest = s.skip(n);
            assert forall|k: int| 0 <= k < first.len() implies #[trigger] first[k] != c by {
                assert(first[k] == s[k]);
            }
            assert forall|k: int| 0 <= k < rest.len() implies #[trigger] rest[k] != c by {
                assert(rest[k] == s[n + k]);
            }
            lemma_words_lack(rest, c);
            assert(words(s) == seq![first] + words(rest));
            assert forall|i: int| 0 <= i < words(s).len() implies lacks(#[trigger] words(s)[i], c) by {
                if i > 0 {
                    assert(words(s)[i] == words(rest)[i - 1]);
                } else {
                    assert(words(s)[i] == first);
                }
            }
        }
    } else {
        assert(words(s).len() == 0);
    }
}

/// The first of the words.
pub proof fn lemma_words_first(w: Seq<char>, r: Seq<char>)
    requires
        solid(w),
        w.len() > 0,
        r.len() > 0 ==> is_white(r[0]),
    ensures
        words(w + r) == seq![w] + words(r),
{
    let s = w + r;
    let n = w.len() as int;
    assert forall|j: int| 0 <= j < n implies !is_white(#[trigger] s[j]) by {
        assert(s[j] == w[j]);
    }
    if n < s.len() {
        assert(s[n] == r[0]);
    }
    lemma_word_len(s, n);
    assert(s.take(n) =~= w);
    assert(s.skip(n) =~= r);
    assert(!is_white(s[0]));
}

/// Words that are joined with spaces are the words again.
pub proof fn lemma_words_joined(ws: Seq<Seq<char>>)
    requires
        forall|i: int| 0 <= i < ws.len() ==> solid(#[trigger] ws[i]) && ws[i].len() > 0,
    ensures
        words(joined(ws, seq![' '])) == ws,
    decreases ws.len(),
{
    if ws.len() == 0 {
        assert(words(joined(ws, seq![' '])) =~= ws);
    } else if ws.len() == 1 {
        assert(solid(ws[0]));
        lemma_words_solid(ws[0]);
        assert(seq![ws[0]] =~= ws);
    } else {
        let rest = ws.drop_first();
        assert forall|i: int| 0 <= i < rest.len() implies solid(#[trigger] rest[i]) && rest[i].len()
            > 0 by {
            assert(rest[i] == ws[i + 1]);
        }
        lemma_words_joined(rest);
        let t = joined(rest, seq![' ']);
        let r = seq![' '] + t;
        assert(solid(ws[0]));
        lemma_words_first(ws[0], r);
        lemma_words_space(' ', t);
        assert(ws[0] + seq![' '] + t =~= ws[0] + r);
        assert(seq![ws[0]] + rest =~= ws);
    }
}

/// Lines that are joined with line breaks are the lines again.
pub proof fn lemma_split_joined(ls: Seq<Seq<char>>)
    requires
        ls.len() > 0,
        all_lack(ls, '\n'),
    ensures
        split(joined(ls, seq!['\n']), seq!['\n']) == ls,
    decreases ls.len(),
{
    assert(lacks(ls[0], '\n'));
    if ls.len() == 1 {
        lemma_split_lacking(ls[0], '\n');
        assert(seq![ls[0]] =~= ls);
    } else {
        let rest = ls.drop_first();
        assert forall|i: int| 0 <= i < rest.len() implies lacks(#[trigger] rest[i], '\n') by {
            assert(rest[i] == ls[i + 1]);
        }
        lemma_split_joined(rest);
        lemma_split_first(ls[0], '\n', joined(rest, seq!['\n']));
        assert(seq![ls[0]] + rest =~= ls);
    }
}

} // verus!
