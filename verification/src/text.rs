//! Character-level text operations and the mathematical functions that describe them.
//!
//! Contracts speak of text as `Seq<char>`; executable code works on `&[char]` and `Vec<char>`
//! and converts at the boundary to `&str` and `String`.

use vstd::prelude::*;

verus! {

/// `String::push` appends one character.
pub assume_specification[ String::push ](s: &mut String, ch: char)
    ensures
        final(s)@ == old(s)@.push(ch),
;

/// Characters with the Unicode property `White_Space`.
pub open spec fn is_white(c: char) -> bool {
    ||| 0x9 <= c as u32 <= 0xd
    ||| c as u32 == 0x20
    ||| c as u32 == 0x85
    ||| c as u32 == 0xa0
    ||| c as u32 == 0x1680
    ||| 0x2000 <= c as u32 <= 0x200a
    ||| c as u32 == 0x2028
    ||| c as u32 == 0x2029
    ||| c as u32 == 0x202f
    ||| c as u32 == 0x205f
    ||| c as u32 == 0x3000
}

/// Tests for the Unicode property `White_Space`.
pub fn is_whitespace(c: char) -> (r: bool)
    ensures
        r == is_white(c),
{
    let u = c as u32;
    (0x9 <= u && u <= 0xd) || u == 0x20 || u == 0x85 || u == 0xa0 || u == 0x1680 || (0x2000 <= u && u
        <= 0x200a) || u == 0x2028 || u == 0x2029 || u == 0x202f || u == 0x205f || u == 0x3000
}

/// The texts held by a sequence of character vectors.
pub open spec fn texts(v: Seq<Vec<char>>) -> Seq<Seq<char>> {
    Seq::new(v.len(), |i: int| v[i]@)
}

/// The texts held by a sequence of strings.
pub open spec fn string_texts(v: Seq<String>) -> Seq<Seq<char>> {
    Seq::new(v.len(), |i: int| v[i]@)
}

/// The characters of `s`.
pub fn chars_of(s: &str) -> (r: Vec<char>)
    ensures
        r@ == s@,
{
    let mut out: Vec<char> = Vec::new();
    for c in it: s.chars()
        invariant
            out@ == it.seq().take(it.index()),
            it.seq() == s@,
    {
        out.push(c);
    }
    out
}

/// The string made of `s`.
pub fn string_of(s: &[char]) -> (r: String)
    ensures
        r@ == s@,
{
    let mut out = String::new();
    for i in 0..s.len()
        invariant
            out@ == s@.take(i as int),
    {
        out.push(s[i]);
    }
    out
}

/// Whether two texts are the same.
pub fn same(a: &[char], b: &[char]) -> (r: bool)
    ensures
        r == (a@ == b@),
{
    if a.len() != b.len() {
        return false;
    }
    for i in 0..a.len()
        invariant
            a@.len() == b@.len(),
            a@.take(i as int) == b@.take(i as int),
    {
        if a[i] != b[i] {
            return false;
        }
        assert(a@.take(i + 1) == a@.take(i as int).push(a@[i as int]));
        assert(b@.take(i + 1) == b@.take(i as int).push(b@[i as int]));
    }
    assert(a@.take(a@.len() as int) == a@);
    assert(b@.take(b@.len() as int) == b@);
    true
}

/// Whether `s` is the text `t`.
pub fn same_str(s: &str, t: &str) -> (r: bool)
    ensures
        r == (s@ == t@),
{
    same(chars_of(s).as_slice(), chars_of(t).as_slice())
}

/// Whether `p` stands in `s` at position `i`.
pub open spec fn stands_at(s: Seq<char>, i: int, p: Seq<char>) -> bool {
    &&& 0 <= i
    &&& i + p.len() <= s.len()
    &&& s.subrange(i, i + p.len()) == p
}

/// Tests whether `p` stands in `s` at position `i`.
pub fn at(s: &[char], i: usize, p: &[char]) -> (r: bool)
    requires
        i <= s@.len(),
    ensures
        r == stands_at(s@, i as int, p@),
{
    if p.len() > s.len() - i {
        return false;
    }
    for k in 0..p.len()
        invariant
            i + p.len() <= s.len(),
            forall|j: int| 0 <= j < k ==> s@[i + j] == p@[j],
    {
        if s[i + k] != p[k] {
            assert(s@.subrange(i as int, i + p@.len())[k as int] != p@[k as int]);
            return false;
        }
    }
    assert(s@.subrange(i as int, i + p@.len()) =~= p@);
    true
}

/// Whether `s` begins with `p`.
pub open spec fn begins(s: Seq<char>, p: Seq<char>) -> bool {
    stands_at(s, 0, p)
}

/// Whether `s` ends with `p`.
pub open spec fn ends(s: Seq<char>, p: Seq<char>) -> bool {
    stands_at(s, s.len() - p.len(), p)
}

/// Tests whether `s` begins with `p`.
pub fn starts_with(s: &[char], p: &[char]) -> (r: bool)
    ensures
        r == begins(s@, p@),
{
    at(s, 0, p)
}

/// Tests whether `s` ends with `p`.
pub fn ends_with(s: &[char], p: &[char]) -> (r: bool)
    ensures
        r == ends(s@, p@),
{
    if p.len() > s.len() {
        false
    } else {
        at(s, s.len() - p.len(), p)
    }
}

/// The first position at which `p` stands in `s`.
pub open spec fn find(s: Seq<char>, p: Seq<char>) -> Option<int>
    decreases s.len(),
{
    if begins(s, p) {
        Some(0)
    } else if s.len() == 0 {
        None
    } else {
        match find(s.drop_first(), p) {
            Some(i) => Some(i + 1),
            None => None,
        }
    }
}

/// Whether `p` stands anywhere in `s`.
pub open spec fn contains_text(s: Seq<char>, p: Seq<char>) -> bool {
    find(s, p) is Some
}

/// `p` stands at `i` and nowhere before it, so `i` is what `find` returns.
pub proof fn lemma_find_some(s: Seq<char>, p: Seq<char>, i: int)
    requires
        stands_at(s, i, p),
        forall|j: int| 0 <= j < i ==> !stands_at(s, j, p),
    ensures
        find(s, p) == Some(i),
    decreases s.len(),
{
    if i > 0 {
        assert(!stands_at(s, 0, p));
        let t = s.drop_first();
        assert(t.subrange(i - 1, i - 1 + p.len()) =~= s.subrange(i, i + p.len()));
        assert forall|j: int| 0 <= j < i - 1 implies !stands_at(t, j, p) by {
            assert(!stands_at(s, j + 1, p));
            if stands_at(t, j, p) {
                assert(t.subrange(j, j + p.len()) =~= s.subrange(j + 1, j + 1 + p.len()));
            }
        }
        lemma_find_some(t, p, i - 1);
    }
}

/// `p` stands nowhere in `s`, so `find` returns nothing.
pub proof fn lemma_find_none(s: Seq<char>, p: Seq<char>)
    requires
        forall|j: int| 0 <= j <= s.len() ==> !stands_at(s, j, p),
    ensures
        find(s, p) is None,
    decreases s.len(),
{
    assert(!stands_at(s, 0, p));
    if s.len() > 0 {
        let t = s.drop_first();
        assert forall|j: int| 0 <= j <= t.len() implies !stands_at(t, j, p) by {
            assert(!stands_at(s, j + 1, p));
            if stands_at(t, j, p) {
                assert(t.subrange(j, j + p.len()) =~= s.subrange(j + 1, j + 1 + p.len()));
            }
        }
        lemma_find_none(t, p);
    }
}

/// What `find` returns is the first position at which `p` stands in `s`.
pub proof fn lemma_find(s: Seq<char>, p: Seq<char>)
    ensures
        match find(s, p) {
            Some(i) => stands_at(s, i, p) && forall|j: int| 0 <= j < i ==> !stands_at(s, j, p),
            None => forall|j: int| !stands_at(s, j, p),
        },
    decreases s.len(),
{
    if !begins(s, p) && s.len() > 0 {
        let t = s.drop_first();
        lemma_find(t, p);
        assert forall|j: int| 1 <= j && stands_at(s, j, p) implies stands_at(t, j - 1, p) by {
            assert(t.subrange(j - 1, j - 1 + p.len()) =~= s.subrange(j, j + p.len()));
        }
        if let Some(i) = find(t, p) {
            assert(t.subrange(i, i + p.len()) =~= s.subrange(i + 1, i + 1 + p.len()));
        }
    }
}

/// The first position at which `p` stands in `s`.
pub fn position(s: &[char], p: &[char]) -> (r: Option<usize>)
    ensures
        r is Some <==> find(s@, p@) is Some,
        r matches Some(i) ==> find(s@, p@) == Some(i as int),
{
    let mut i: usize = 0;
    while i < s.len()
        invariant
            i <= s@.len(),
            forall|j: int| 0 <= j < i ==> !stands_at(s@, j, p@),
        decreases s@.len() - i,
    {
        if at(s, i, p) {
            proof {
                lemma_find_some(s@, p@, i as int);
            }
            return Some(i);
        }
        i += 1;
    }
    if p.len() == 0 {
        proof {
            assert(s@.subrange(i as int, i as int) =~= p@);
            lemma_find_some(s@, p@, i as int);
        }
        Some(i)
    } else {
        proof {
            lemma_find_none(s@, p@);
        }
        None
    }
}

/// The pieces of `s` between the places where `p` stands, from left to right.
pub open spec fn split(s: Seq<char>, p: Seq<char>) -> Seq<Seq<char>>
    decreases s.len(),
{
    match find(s, p) {
        Some(i) if p.len() > 0 && 0 <= i && i + p.len() <= s.len() => {
            seq![s.take(i)] + split(s.skip(i + p.len()), p)
        },
        _ => seq![s],
    }
}

/// Splits `s` at every place where `p` stands.
pub fn split_text(s: &[char], p: &[char]) -> (r: Vec<Vec<char>>)
    requires
        p@.len() > 0,
    ensures
        texts(r@) == split(s@, p@),
{
    let mut out: Vec<Vec<char>> = Vec::new();
    let mut pos: usize = 0;
    assert(s@.skip(0) =~= s@);
    assert(texts(out@) + split(s@, p@) =~= split(s@, p@));
    loop
        invariant_except_break
            texts(out@) + split(s@.skip(pos as int), p@) == split(s@, p@),
        invariant
            p@.len() > 0,
            pos <= s@.len(),
        ensures
            texts(out@) == split(s@, p@),
        decreases s@.len() - pos,
    {
        let rest = vstd::slice::slice_subrange(s, pos, s.len());
        assert(rest@ =~= s@.skip(pos as int));
        let ghost before = texts(out@);
        match position(rest, p) {
            Some(i) => {
                proof {
                    lemma_find(rest@, p@);
                }
                let piece = vstd::slice::slice_to_vec(vstd::slice::slice_subrange(rest, 0, i));
                assert(piece@ =~= rest@.take(i as int));
                out.push(piece);
                assert(texts(out@) =~= before.push(piece@));
                assert(rest@.skip(i + p@.len()) =~= s@.skip(pos + i + p@.len()));
                pos = pos + i + p.len();
                assert(texts(out@) + split(s@.skip(pos as int), p@) =~= before + (seq![piece@]
                    + split(s@.skip(pos as int), p@)));
            },
            None => {
                let piece = vstd::slice::slice_to_vec(rest);
                out.push(piece);
                assert(texts(out@) =~= before + seq![piece@]);
                break;
            },
        }
    }
    out
}

/// The texts in `parts` with `sep` between neighbours.
pub open spec fn joined(parts: Seq<Seq<char>>, sep: Seq<char>) -> Seq<char>
    decreases parts.len(),
{
    if parts.len() == 0 {
        Seq::empty()
    } else if parts.len() == 1 {
        parts[0]
    } else {
        parts[0] + sep + joined(parts.drop_first(), sep)
    }
}

/// `joined`, built from the other end.
pub proof fn lemma_joined_push(parts: Seq<Seq<char>>, last: Seq<char>, sep: Seq<char>)
    requires
        parts.len() > 0,
    ensures
        joined(parts.push(last), sep) == joined(parts, sep) + sep + last,
    decreases parts.len(),
{
    let all = parts.push(last);
    assert(all.drop_first() =~= parts.drop_first().push(last));
    if parts.len() == 1 {
        assert(parts.drop_first().push(last) =~= seq![last]);
        assert(joined(seq![last], sep) == last);
        assert(joined(all, sep) =~= parts[0] + sep + last);
    } else {
        lemma_joined_push(parts.drop_first(), last, sep);
        assert(joined(all, sep) =~= joined(parts, sep) + sep + last);
    }
}

/// Appends `s` to `out`.
pub fn push_all(out: &mut Vec<char>, s: &[char])
    ensures
        final(out)@ == old(out)@ + s@,
{
    let ghost start = out@;
    for i in 0..s.len()
        invariant
            out@ == start + s@.take(i as int),
    {
        out.push(s[i]);
        assert(start + s@.take(i + 1) =~= (start + s@.take(i as int)).push(s@[i as int]));
    }
    assert(s@.take(s@.len() as int) =~= s@);
}

/// Joins `parts` with `sep` between neighbours.
pub fn join(parts: &[Vec<char>], sep: &[char]) -> (r: Vec<char>)
    ensures
        r@ == joined(texts(parts@), sep@),
{
    let mut out: Vec<char> = Vec::new();
    for i in 0..parts.len()
        invariant
            out@ == joined(texts(parts@).take(i as int), sep@),
    {
        let ghost all = texts(parts@);
        assert(all.take(i + 1) =~= all.take(i as int).push(all[i as int]));
        if i > 0 {
            proof {
                lemma_joined_push(all.take(i as int), all[i as int], sep@);
            }
            push_all(&mut out, sep);
        } else {
            assert(out@ =~= Seq::<char>::empty());
            assert(all.take(1) =~= seq![all[0]]);
            assert(Seq::<char>::empty() + all[0] =~= all[0]);
        }
        push_all(&mut out, parts[i].as_slice());
    }
    assert(texts(parts@).take(parts@.len() as int) =~= texts(parts@));
    out
}

/// `s` with `t` in every place where `p` stands.
pub open spec fn replaced(s: Seq<char>, p: Seq<char>, t: Seq<char>) -> Seq<char> {
    joined(split(s, p), t)
}

/// Replaces `p` by `t` throughout `s`.
pub fn replace(s: &[char], p: &[char], t: &[char]) -> (r: Vec<char>)
    requires
        p@.len() > 0,
    ensures
        r@ == replaced(s@, p@, t@),
{
    join(split_text(s, p).as_slice(), t)
}

/// The length of the run of characters at the front of `s` that are not white space.
pub open spec fn word_len(s: Seq<char>) -> nat
    decreases s.len(),
{
    if s.len() == 0 || is_white(s[0]) {
        0
    } else {
        1 + word_len(s.drop_first())
    }
}

/// The maximal runs of characters that are not white space.
pub open spec fn words(s: Seq<char>) -> Seq<Seq<char>>
    decreases s.len(),
{
    if s.len() == 0 {
        Seq::empty()
    } else if is_white(s[0]) || word_len(s) == 0 || word_len(s) > s.len() {
        words(s.drop_first())
    } else {
        seq![s.take(word_len(s) as int)] + words(s.skip(word_len(s) as int))
    }
}

/// `word_len` from what holds of each character.
pub proof fn lemma_word_len(s: Seq<char>, n: int)
    requires
        0 <= n <= s.len(),
        forall|j: int| 0 <= j < n ==> !is_white(#[trigger] s[j]),
        n < s.len() ==> is_white(s[n]),
    ensures
        word_len(s) == n,
    decreases n,
{
    if n > 0 {
        let t = s.drop_first();
        assert(!is_white(s[0]));
        assert forall|j: int| 0 <= j < n - 1 implies !is_white(#[trigger] t[j]) by {
            assert(t[j] == s[j + 1]);
        }
        lemma_word_len(t, n - 1);
    }
}

/// Splits `s` at white space.
pub fn split_words(s: &[char]) -> (r: Vec<Vec<char>>)
    ensures
        texts(r@) == words(s@),
{
    let mut out: Vec<Vec<char>> = Vec::new();
    let mut pos: usize = 0;
    assert(s@.skip(0) =~= s@);
    assert(texts(out@) + words(s@) =~= words(s@));
    while pos < s.len()
        invariant
            pos <= s@.len(),
            texts(out@) + words(s@.skip(pos as int)) == words(s@),
        decreases s@.len() - pos,
    {
        let ghost rest = s@.skip(pos as int);
        if is_whitespace(s[pos]) {
            assert(rest.drop_first() =~= s@.skip(pos + 1));
            pos += 1;
        } else {
            let mut end: usize = pos;
            while end < s.len() && !is_whitespace(s[end])
                invariant
                    pos <= end <= s@.len(),
                    forall|j: int| pos <= j < end ==> !is_white(#[trigger] s@[j]),
                decreases s@.len() - end,
            {
                end += 1;
            }
            let piece = vstd::slice::slice_to_vec(vstd::slice::slice_subrange(s, pos, end));
            proof {
                assert forall|j: int| 0 <= j < end - pos implies !is_white(#[trigger] rest[j]) by {
                    assert(rest[j] == s@[pos + j]);
                }
                lemma_word_len(rest, end - pos);
                assert(piece@ =~= rest.take(end - pos));
                assert(rest.skip(end - pos) =~= s@.skip(end as int));
            }
            let ghost before = texts(out@);
            out.push(piece);
            assert(texts(out@) =~= before.push(piece@));
            assert(before.push(piece@) + words(s@.skip(end as int)) =~= before + (seq![piece@] + words(
                s@.skip(end as int),
            )));
            pos = end;
        }
    }
    assert(s@.skip(pos as int) =~= Seq::<char>::empty());
    assert(texts(out@) + Seq::<Seq<char>>::empty() =~= texts(out@));
    out
}

/// `s` with the white space at its front removed.
pub open spec fn trim_front(s: Seq<char>) -> Seq<char>
    decreases s.len(),
{
    if s.len() > 0 && is_white(s[0]) {
        trim_front(s.drop_first())
    } else {
        s
    }
}

/// `s` with the white space at its end removed.
pub open spec fn trim_back(s: Seq<char>) -> Seq<char>
    decreases s.len(),
{
    if s.len() > 0 && is_white(s.last()) {
        trim_back(s.drop_last())
    } else {
        s
    }
}

/// `s` with the white space at both ends removed.
pub open spec fn trimmed(s: Seq<char>) -> Seq<char> {
    trim_back(trim_front(s))
}

/// Removes the white space at the end of `s`.
pub fn trim_end<'a>(s: &'a [char]) -> (r: &'a [char])
    ensures
        r@ == trim_back(s@),
{
    let mut n: usize = s.len();
    assert(s@.take(n as int) =~= s@);
    while n > 0 && is_whitespace(s[n - 1])
        invariant
            n <= s@.len(),
            trim_back(s@.take(n as int)) == trim_back(s@),
        decreases n,
    {
        assert(s@.take(n as int).drop_last() =~= s@.take(n - 1));
        n -= 1;
    }
    vstd::slice::slice_subrange(s, 0, n)
}

/// Removes the white space at both ends of `s`.
pub fn trim<'a>(s: &'a [char]) -> (r: &'a [char])
    ensures
        r@ == trimmed(s@),
{
    let mut i: usize = 0;
    assert(s@.skip(0) =~= s@);
    while i < s.len() && is_whitespace(s[i])
        invariant
            i <= s@.len(),
            trim_front(s@.skip(i as int)) == trim_front(s@),
        decreases s@.len() - i,
    {
        assert(s@.skip(i as int).drop_first() =~= s@.skip(i + 1));
        i += 1;
    }
    assert(s@.skip(i as int) =~= s@.subrange(i as int, s@.len() as int));
    trim_end(vstd::slice::slice_subrange(s, i, s.len()))
}

/// `s` without one carriage return at its end.
pub open spec fn without_cr(s: Seq<char>) -> Seq<char> {
    if s.len() > 0 && s.last() == '\r' {
        s.drop_last()
    } else {
        s
    }
}

/// The lines of `s`: each ends at `"\n"` or `"\r\n"`, and the last one may lack its ending.
pub open spec fn lines(s: Seq<char>) -> Seq<Seq<char>>
    decreases s.len(),
{
    if s.len() == 0 {
        Seq::empty()
    } else {
        match find(s, seq!['\n']) {
            Some(i) if 0 <= i < s.len() => seq![without_cr(s.take(i))] + lines(s.skip(i + 1)),
            _ => seq![s],
        }
    }
}

/// Splits `s` into lines.
pub fn split_lines(s: &[char]) -> (r: Vec<Vec<char>>)
    ensures
        texts(r@) == lines(s@),
{
    let mut out: Vec<Vec<char>> = Vec::new();
    let mut pos: usize = 0;
    let nl: Vec<char> = vec!['\n'];
    assert(nl@ =~= seq!['\n']);
    assert(s@.skip(0) =~= s@);
    assert(texts(out@) + lines(s@) =~= lines(s@));
    while pos < s.len()
        invariant
            nl@ == seq!['\n'],
            pos <= s@.len(),
            texts(out@) + lines(s@.skip(pos as int)) == lines(s@),
        decreases s@.len() - pos,
    {
        let rest = vstd::slice::slice_subrange(s, pos, s.len());
        assert(rest@ =~= s@.skip(pos as int));
        let ghost before = texts(out@);
        match position(rest, nl.as_slice()) {
            Some(i) => {
                proof {
                    lemma_find(rest@, nl@);
                }
                let n: usize = if i > 0 && rest[i - 1] == '\r' {
                    i - 1
                } else {
                    i
                };
                let piece = vstd::slice::slice_to_vec(vstd::slice::slice_subrange(rest, 0, n));
                assert(piece@ =~= without_cr(rest@.take(i as int)));
                out.push(piece);
                assert(texts(out@) =~= before.push(piece@));
                assert(rest@.skip(i + 1) =~= s@.skip(pos + i + 1));
                pos = pos + i + 1;
                assert(texts(out@) + lines(s@.skip(pos as int)) =~= before + (seq![piece@] + lines(
                    s@.skip(pos as int),
                )));
            },
            None => {
                let piece = vstd::slice::slice_to_vec(rest);
                out.push(piece);
                assert(texts(out@) =~= before + seq![piece@]);
                pos = s.len();
                assert(s@.skip(pos as int) =~= Seq::<char>::empty());
                assert(texts(out@) + Seq::<Seq<char>>::empty() =~= texts(out@));
            },
        }
    }
    assert(s@.skip(pos as int) =~= Seq::<char>::empty());
    assert(texts(out@) + Seq::<Seq<char>>::empty() =~= texts(out@));
    out
}

/// Appends the characters of `s` to `out`.
pub fn push_str(out: &mut Vec<char>, s: &str)
    ensures
        final(out)@ == old(out)@ + s@,
{
    push_all(out, chars_of(s).as_slice());
}

/// Tests whether `c` stands in `s`.
pub fn has_char(s: &[char], c: char) -> (r: bool)
    ensures
        r == s@.contains(c),
{
    for i in 0..s.len()
        invariant
            forall|j: int| 0 <= j < i ==> s@[j] != c,
    {
        if s[i] == c {
            assert(s@[i as int] == c);
            return true;
        }
    }
    false
}

/// Whether `a` comes before `b` in the order of code points, which is that of UTF-8 bytes.
pub open spec fn before(a: Seq<char>, b: Seq<char>) -> bool
    decreases a.len(),
{
    if b.len() == 0 {
        false
    } else if a.len() == 0 {
        true
    } else if a[0] != b[0] {
        a[0] < b[0]
    } else {
        before(a.drop_first(), b.drop_first())
    }
}

/// Tests whether `a` comes before `b`.
pub fn is_before(a: &[char], b: &[char]) -> (r: bool)
    ensures
        r == before(a@, b@),
{
    let mut i: usize = 0;
    assert(a@.skip(0) =~= a@);
    assert(b@.skip(0) =~= b@);
    while i < a.len() && i < b.len() && a[i] == b[i]
        invariant
            i <= a.len(),
            i <= b.len(),
            before(a@, b@) == before(a@.skip(i as int), b@.skip(i as int)),
        decreases a.len() - i,
    {
        assert(a@.skip(i as int).drop_first() =~= a@.skip(i + 1));
        assert(b@.skip(i as int).drop_first() =~= b@.skip(i + 1));
        i = i + 1;
    }
    if i < b.len() {
        i == a.len() || a[i] < b[i]
    } else {
        false
    }
}

/// No text comes before itself.
pub proof fn lemma_before_irreflexive(a: Seq<char>)
    ensures
        !before(a, a),
    decreases a.len(),
{
    if a.len() > 0 {
        lemma_before_irreflexive(a.drop_first());
    }
}

/// The order is transitive.
pub proof fn lemma_before_transitive(a: Seq<char>, b: Seq<char>, c: Seq<char>)
    requires
        before(a, b),
        before(b, c),
    ensures
        before(a, c),
    decreases a.len(),
{
    if a.len() > 0 && a[0] == b[0] && b[0] == c[0] {
        lemma_before_transitive(a.drop_first(), b.drop_first(), c.drop_first());
    }
}

/// Of two different texts one comes before the other.
pub proof fn lemma_before_total(a: Seq<char>, b: Seq<char>)
    ensures
        before(a, b) || before(b, a) || a == b,
    decreases a.len(),
{
    if a.len() > 0 && b.len() > 0 {
        if a[0] == b[0] {
            lemma_before_total(a.drop_first(), b.drop_first());
            if a.drop_first() == b.drop_first() {
                assert(a =~= seq![a[0]] + a.drop_first());
                assert(b =~= seq![b[0]] + b.drop_first());
            }
        }
    } else if a.len() == 0 && b.len() == 0 {
        assert(a =~= b);
    }
}

} // verus!
