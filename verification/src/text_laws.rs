//! How cleaning treats text: entities, tags, white space and lines, each wherever it stands.

use crate::captions::{cleaned, collapsed, tidy_lines, unescaped, untagged};
use crate::text::{before, begins, find, is_white, joined, lines, lemma_find, replaced, split, stands_at, trim_back, trim_front, trimmed, word_len, words};
use crate::text_lemmas::{lacks, lemma_find_absent, lemma_lacks_add, lemma_replace_absent, lemma_split_first, lemma_split_lacking, lemma_split_some, lemma_words_first, lemma_words_solid, solid};
use vstd::prelude::*;

verus! {

// ---- Replacing -----------------------------------------------------------------------------

/// Law: where a text does not begin with what is replaced, its first character stays and the rest
/// is treated alike; where it does, the replacement stands there and the rest is treated alike.
pub proof fn law_replaced(s: Seq<char>, p: Seq<char>, t: Seq<char>)
    requires
        p.len() > 0,
    ensures
        s.len() == 0 ==> replaced(s, p, t) == s,
        s.len() >= p.len() && s.take(p.len() as int) == p ==> replaced(s, p, t) == t + replaced(
            s.skip(p.len() as int),
            p,
            t,
        ),
        s.len() > 0 && !(s.len() >= p.len() && s.take(p.len() as int) == p) ==> replaced(s, p, t)
            == seq![s[0]] + replaced(s.drop_first(), p, t),
{
    lemma_find(s, p);
    assert(s.len() >= p.len() ==> s.take(p.len() as int) =~= s.subrange(0, p.len() as int));
    if s.len() == 0 {
        assert(split(s, p) =~= seq![s]);
    } else if stands_at(s, 0, p) {
        let tail = split(s.skip(p.len() as int), p);
        lemma_split_some(s.skip(p.len() as int), p);
        let parts = seq![s.take(0)] + tail;
        assert(split(s, p) =~= parts);
        assert(parts.drop_first() =~= tail);
        assert(joined(parts, t) =~= t + joined(tail, t));
    } else {
        let rest = s.drop_first();
        lemma_find(rest, p);
        assert(!begins(s, p));
        match find(rest, p) {
            Some(i) => {
                let tail = split(rest.skip(i + p.len()), p);
                lemma_split_some(rest.skip(i + p.len()), p);
                assert(s.skip(i + 1 + p.len()) =~= rest.skip(i + p.len()));
                assert(s.take(i + 1) =~= seq![s[0]] + rest.take(i));
                let a = seq![s.take(i + 1)] + tail;
                let b = seq![rest.take(i)] + tail;
                assert(a.drop_first() =~= tail && b.drop_first() =~= tail);
                assert(joined(a, t) =~= seq![s[0]] + joined(b, t));
            },
            None => {
                assert(seq![s[0]] + rest =~= s);
            },
        }
    }
}

/// Text without the first character of what is replaced stays in front.
proof fn lemma_replaced_front(a: Seq<char>, b: Seq<char>, p: Seq<char>, t: Seq<char>)
    requires
        p.len() > 0,
        lacks(a, p[0]),
    ensures
        replaced(a + b, p, t) == a + replaced(b, p, t),
    decreases a.len(),
{
    let s = a + b;
    if a.len() == 0 {
        assert(s =~= b);
        assert(a + replaced(b, p, t) =~= replaced(b, p, t));
    } else {
        let rest = a.drop_first();
        law_replaced(s, p, t);
        if s.len() >= p.len() {
            assert(s.take(p.len() as int)[0] == a[0]);
        }
        assert(s.drop_first() =~= rest + b);
        assert forall|i: int| 0 <= i < rest.len() implies #[trigger] rest[i] != p[0] by {
            assert(rest[i] == a[i + 1]);
        }
        lemma_replaced_front(rest, b, p, t);
        assert(seq![a[0]] + (rest + replaced(b, p, t)) =~= a + replaced(b, p, t));
    }
}

/// Something else that begins alike stays.
proof fn lemma_replaced_other(e: Seq<char>, b: Seq<char>, p: Seq<char>, t: Seq<char>, k: int)
    requires
        0 < k < p.len(),
        k < e.len(),
        e[k] != p[k],
        lacks(e.drop_first(), p[0]),
    ensures
        replaced(e + b, p, t) == e + replaced(b, p, t),
{
    let s = e + b;
    law_replaced(s, p, t);
    if s.len() >= p.len() {
        assert(s.take(p.len() as int)[k] == e[k]);
    }
    assert(s.drop_first() =~= e.drop_first() + b);
    lemma_replaced_front(e.drop_first(), b, p, t);
    assert(seq![e[0]] + (e.drop_first() + replaced(b, p, t)) =~= e + replaced(b, p, t));
}

/// Texts on both sides of a character that is not replaced are treated on their own.
proof fn lemma_replaced_parts(a: Seq<char>, c: char, b: Seq<char>, p: Seq<char>, t: Seq<char>)
    requires
        p.len() > 0,
        lacks(p, c),
    ensures
        replaced(a + seq![c] + b, p, t) == replaced(a, p, t) + seq![c] + replaced(b, p, t),
    decreases a.len(),
{
    let s = a + seq![c] + b;
    let n = p.len() as int;
    law_replaced(s, p, t);
    law_replaced(a, p, t);
    if a.len() == 0 {
        if s.len() >= n && s.take(n) == p {
            assert(s.take(n)[0] == c);
            assert(p[0] == c);
        }
        assert(s.drop_first() =~= b);
        assert(seq![c] + replaced(b, p, t) =~= a + seq![c] + replaced(b, p, t));
    } else {
        if s.len() >= n && s.take(n) == p {
            if a.len() < n {
                assert(s.take(n)[a.len() as int] == c);
                assert(p[a.len() as int] == c);
            }
            assert(a.take(n) =~= p);
            assert(s.skip(n) =~= a.skip(n) + seq![c] + b);
            lemma_replaced_parts(a.skip(n), c, b, p, t);
            assert(t + (replaced(a.skip(n), p, t) + seq![c] + replaced(b, p, t)) =~= t + replaced(
                a.skip(n),
                p,
                t,
            ) + seq![c] + replaced(b, p, t));
        } else {
            if a.len() >= n && a.take(n) == p {
                assert(s.take(n) =~= a.take(n));
            }
            assert(s.drop_first() =~= a.drop_first() + seq![c] + b);
            lemma_replaced_parts(a.drop_first(), c, b, p, t);
            assert(seq![a[0]] + (replaced(a.drop_first(), p, t) + seq![c] + replaced(b, p, t))
                =~= seq![a[0]] + replaced(a.drop_first(), p, t) + seq![c] + replaced(b, p, t));
        }
    }
}

// ---- Entities ------------------------------------------------------------------------------

/// The entities that captions use, with what they stand for.
pub open spec fn entity(k: int) -> (Seq<char>, Seq<char>) {
    if k == 0 {
        ("&lt;"@, seq!['<'])
    } else if k == 1 {
        ("&gt;"@, seq!['>'])
    } else if k == 2 {
        ("&quot;"@, seq!['"'])
    } else if k == 3 {
        ("&#39;"@, seq!['\''])
    } else if k == 4 {
        ("&#x27;"@, seq!['\''])
    } else if k == 5 {
        ("&nbsp;"@, seq![' '])
    } else {
        ("&amp;"@, seq!['&'])
    }
}

/// Whether a text can hold no entity and no zero-width space.
pub open spec fn bland(s: Seq<char>) -> bool {
    lacks(s, '&') && lacks(s, '\u{200b}')
}

/// The entities as characters.
proof fn lemma_entities()
    ensures
        forall|k: int|
            0 <= k < 7 ==> (#[trigger] entity(k)).0.len() >= 4 && entity(k).0[0] == '&' && lacks(
                entity(k).0.drop_first(),
                '&',
            ) && lacks(entity(k).0, '\u{200b}'),
        forall|j: int, k: int|
            0 <= j < 7 && 0 <= k < 7 && j != k ==> ((#[trigger] entity(j)).0[1] != (#[trigger] entity(
                k,
            )).0[1] || entity(j).0[2] != entity(k).0[2]),
        entity(0).1 == "<"@,
        entity(1).1 == ">"@,
        entity(2).1 == "\""@,
        entity(3).1 == "'"@,
        entity(4).1 == "'"@,
        entity(5).1 == " "@,
        entity(6).1 == "&"@,
{
    reveal_strlit("&lt;");
    reveal_strlit("&gt;");
    reveal_strlit("&quot;");
    reveal_strlit("&#39;");
    reveal_strlit("&#x27;");
    reveal_strlit("&nbsp;");
    reveal_strlit("&amp;");
    reveal_strlit("<");
    reveal_strlit(">");
    reveal_strlit("\"");
    reveal_strlit("'");
    reveal_strlit(" ");
    reveal_strlit("&");
    assert(entity(0).1 =~= "<"@ && entity(1).1 =~= ">"@ && entity(2).1 =~= "\""@);
    assert(entity(3).1 =~= "'"@ && entity(5).1 =~= " "@ && entity(6).1 =~= "&"@);
}

/// One of the replacements, in the order in which they are made.
spec fn step(s: Seq<char>, k: int) -> Seq<char> {
    replaced(s, entity(k).0, entity(k).1)
}

/// The replacements in their order.
proof fn lemma_unescaped_steps(s: Seq<char>)
    ensures
        unescaped(s) == step(
            step(
                step(
                    step(
                        step(step(step(replaced(s, seq!['\u{200b}'], Seq::empty()), 0), 1), 2),
                        3,
                    ),
                    4,
                ),
                5,
            ),
            6,
        ),
{
    lemma_entities();
}

/// One replacement on a text with an entity behind bland text.
proof fn lemma_step(a: Seq<char>, j: int, b: Seq<char>, k: int)
    requires
        bland(a),
        0 <= j < 7,
        0 <= k < 7,
    ensures
        j == k ==> step(a + entity(j).0 + b, k) == a + entity(j).1 + step(b, k),
        j != k ==> step(a + entity(j).0 + b, k) == a + entity(j).0 + step(b, k),
{
    lemma_entities();
    let (e, r) = entity(j);
    let (p, t) = entity(k);
    assert(a + e + b =~= a + (e + b));
    lemma_replaced_front(a, e + b, p, t);
    if j == k {
        law_replaced(e + b, p, t);
        assert((e + b).take(p.len() as int) =~= p);
        assert((e + b).skip(p.len() as int) =~= b);
        assert(a + (r + step(b, k)) =~= a + r + step(b, k));
    } else {
        let d: int = if e[1] != p[1] { 1 } else { 2 };
        lemma_replaced_other(e, b, p, t, d);
        assert(a + (e + step(b, k)) =~= a + e + step(b, k));
    }
}

/// One replacement on bland text with a bland text behind it.
proof fn lemma_step_bland(a: Seq<char>, b: Seq<char>, k: int)
    requires
        bland(a),
        0 <= k < 7,
    ensures
        step(a + b, k) == a + step(b, k),
{
    lemma_entities();
    lemma_replaced_front(a, b, entity(k).0, entity(k).1);
}

/// The replacements from the `k`th on.
spec fn steps_from(s: Seq<char>, k: int) -> Seq<char>
    decreases 7 - k,
{
    if k >= 7 || k < 0 {
        s
    } else {
        steps_from(step(s, k), k + 1)
    }
}

/// Replacements leave bland text in front alone.
proof fn lemma_steps_bland(a: Seq<char>, b: Seq<char>, k: int)
    requires
        bland(a),
        0 <= k <= 7,
    ensures
        steps_from(a + b, k) == a + steps_from(b, k),
    decreases 7 - k,
{
    if k < 7 {
        lemma_step_bland(a, b, k);
        lemma_steps_bland(a, step(b, k), k + 1);
    }
}

/// Replacements of an entity behind bland text.
proof fn lemma_steps_entity(a: Seq<char>, j: int, b: Seq<char>, k: int)
    requires
        bland(a),
        0 <= k <= j < 7,
    ensures
        steps_from(a + entity(j).0 + b, k) == a + entity(j).1 + steps_from(b, k),
    decreases 7 - k,
{
    lemma_entities();
    lemma_step(a, j, b, k);
    if j == k {
        if j < 6 {
            lemma_lacks_add(a, entity(j).1, '&');
            lemma_lacks_add(a, entity(j).1, '\u{200b}');
            lemma_steps_bland(a + entity(j).1, step(b, k), k + 1);
        } else {
            assert(steps_from(step(a + entity(j).0 + b, k), 7) == step(a + entity(j).0 + b, k));
            assert(steps_from(step(b, k), 7) == step(b, k));
        }
    } else {
        lemma_steps_entity(a, j, step(b, k), k + 1);
    }
}

/// Law: an entity becomes the character that it stands for, wherever it stands; what stands in
/// front of the first one stays as it is, and what follows is treated alike. So an escaped `&`
/// does not make another entity.
pub proof fn law_entity(a: Seq<char>, k: int, b: Seq<char>)
    requires
        bland(a),
        0 <= k < 7,
    ensures
        unescaped(a + entity(k).0 + b) == a + entity(k).1 + unescaped(b),
{
    let z = seq!['\u{200b}'];
    let none = Seq::<char>::empty();
    let e = entity(k).0;
    lemma_entities();
    lemma_lacks_add(a, e, '\u{200b}');
    lemma_replaced_front(a + e, b, z, none);
    lemma_unescaped_steps(a + e + b);
    lemma_unescaped_steps(b);
    lemma_steps_entity(a, k, replaced(b, z, none), 0);
    reveal_with_fuel(steps_from, 8);
}

/// Law: a zero-width space is left out, and text without any of these stays as it is.
pub proof fn law_zero_width(a: Seq<char>, b: Seq<char>)
    requires
        bland(a),
    ensures
        unescaped(a + seq!['\u{200b}'] + b) == a + unescaped(b),
        unescaped(a + b) == a + unescaped(b),
        unescaped(a) == a,
{
    let z = seq!['\u{200b}'];
    let none = Seq::<char>::empty();
    reveal_with_fuel(steps_from, 8);
    lemma_unescaped_steps(a + z + b);
    lemma_unescaped_steps(a + b);
    lemma_unescaped_steps(b);
    lemma_unescaped_steps(a);
    lemma_unescaped_steps(none);
    assert(a + z + b =~= a + (z + b));
    lemma_replaced_front(a, z + b, z, none);
    law_replaced(z + b, z, none);
    assert((z + b).take(1) =~= z);
    assert((z + b).skip(1) =~= b);
    assert(none + replaced(b, z, none) =~= replaced(b, z, none));
    lemma_replaced_front(a, b, z, none);
    lemma_steps_bland(a, replaced(b, z, none), 0);
    lemma_replaced_front(a, none, z, none);
    law_replaced(none, z, none);
    assert(a + none =~= a);
    lemma_steps_bland(a, none, 0);
    lemma_steps_none(0);
}

/// Whether an entity stands at the front of a text.
pub open spec fn led_by(s: Seq<char>, k: int) -> bool {
    let e = entity(k).0;
    s.len() >= e.len() && s.take(e.len() as int) == e
}

/// Whether a character is none that an entity stands for.
spec fn unmade(c: char) -> bool {
    c != '<' && c != '>' && c != '"' && c != '\'' && c != ' ' && c != '&'
}

/// The names of entities hold nothing that an entity stands for.
proof fn lemma_unmade(k: int)
    requires
        0 <= k < 7,
    ensures
        entity(k).0.len() > 1,
        entity(k).0[0] == '&',
        forall|i: int| 1 <= i < entity(k).0.len() ==> unmade(#[trigger] entity(k).0[i]),
        entity(k).1.len() == 1,
        !unmade(entity(k).1[0]),
{
    reveal_strlit("&lt;");
    reveal_strlit("&gt;");
    reveal_strlit("&quot;");
    reveal_strlit("&#39;");
    reveal_strlit("&#x27;");
    reveal_strlit("&nbsp;");
    reveal_strlit("&amp;");
}

/// A replacement does not make the beginning of a name.
proof fn lemma_front_unmade(x: Seq<char>, k: int, n: int)
    requires
        0 <= k < 7,
        0 <= n <= step(x, k).len(),
        forall|i: int| 0 <= i < n ==> unmade(#[trigger] step(x, k)[i]),
    ensures
        n <= x.len(),
        x.take(n) == step(x, k).take(n),
    decreases n,
{
    let (p, t) = entity(k);
    let y = step(x, k);
    lemma_unmade(k);
    law_replaced(x, p, t);
    if n > 0 {
        assert(unmade(y[0]));
        if x.len() == 0 {
            assert(y.len() == 0);
        } else if x.len() >= p.len() && x.take(p.len() as int) == p {
            assert(y[0] == t[0]);
        } else {
            let r = x.drop_first();
            let z = step(r, k);
            assert(y =~= seq![x[0]] + z);
            assert forall|i: int| 0 <= i < n - 1 implies unmade(#[trigger] z[i]) by {
                assert(z[i] == y[i + 1]);
            }
            lemma_front_unmade(r, k, n - 1);
            assert forall|i: int| 0 <= i < n implies x.take(n)[i] == y.take(n)[i] by {
                if i > 0 {
                    assert(r.take(n - 1)[i - 1] == z.take(n - 1)[i - 1]);
                }
            }
            assert(x.take(n) =~= y.take(n));
        }
    } else {
        assert(x.take(0) =~= y.take(0));
    }
}

/// Replacements leave a `&` alone that begins no entity.
proof fn lemma_steps_lone(x: Seq<char>, k: int)
    requires
        0 <= k <= 7,
        forall|j: int| k <= j < 7 ==> !#[trigger] led_by(seq!['&'] + x, j),
    ensures
        steps_from(seq!['&'] + x, k) == seq!['&'] + steps_from(x, k),
    decreases 7 - k,
{
    if k < 7 {
        let s = seq!['&'] + x;
        let (p, t) = entity(k);
        lemma_unmade(k);
        assert(!led_by(s, k));
        law_replaced(s, p, t);
        assert(s.drop_first() =~= x);
        let y = step(x, k);
        assert(step(s, k) == seq!['&'] + y);
        assert forall|j: int| k + 1 <= j < 7 implies !#[trigger] led_by(seq!['&'] + y, j) by {
            if led_by(seq!['&'] + y, j) {
                let e = entity(j).0;
                let n = e.len() - 1;
                let u = seq!['&'] + y;
                lemma_unmade(j);
                assert forall|i: int| 0 <= i < n implies unmade(#[trigger] y[i]) by {
                    assert(y[i] == u.take(e.len() as int)[i + 1]);
                    assert(unmade(e[i + 1]));
                }
                lemma_front_unmade(x, k, n);
                assert forall|i: int| 0 <= i < e.len() implies s.take(e.len() as int)[i] == e[i] by {
                    if i > 0 {
                        assert(x.take(n)[i - 1] == y.take(n)[i - 1]);
                        assert(u.take(e.len() as int)[i] == y[i - 1]);
                    }
                }
                assert(s.take(e.len() as int) =~= e);
                assert(led_by(s, j));
            }
        }
        lemma_steps_lone(y, k + 1);
    }
}

/// Law: a `&` that begins none of the entities stays, and what follows is treated alike.
pub proof fn law_lone_ampersand(x: Seq<char>)
    requires
        lacks(x, '\u{200b}'),
        forall|k: int| 0 <= k < 7 ==> !#[trigger] led_by(seq!['&'] + x, k),
    ensures
        unescaped(seq!['&'] + x) == seq!['&'] + unescaped(x),
{
    let z = seq!['\u{200b}'];
    let none = Seq::<char>::empty();
    let s = seq!['&'] + x;
    lemma_lacks_add(seq!['&'], x, '\u{200b}');
    lemma_find_absent(x, z, 0);
    lemma_find_absent(s, z, 0);
    lemma_replace_absent(x, z, none);
    lemma_replace_absent(s, z, none);
    lemma_unescaped_steps(s);
    lemma_unescaped_steps(x);
    reveal_with_fuel(steps_from, 8);
    lemma_steps_lone(x, 0);
}

/// Nothing stays nothing.
proof fn lemma_steps_none(k: int)
    requires
        0 <= k <= 7,
    ensures
        steps_from(Seq::empty(), k) == Seq::<char>::empty(),
    decreases 7 - k,
{
    if k < 7 {
        lemma_entities();
        law_replaced(Seq::empty(), entity(k).0, entity(k).1);
        lemma_steps_none(k + 1);
    }
}

/// Replacing entities does not reach across a line break.
proof fn lemma_unescaped_parts(a: Seq<char>, b: Seq<char>)
    ensures
        unescaped(a + seq!['\n'] + b) == unescaped(a) + seq!['\n'] + unescaped(b),
{
    let z = seq!['\u{200b}'];
    let none = Seq::<char>::empty();
    lemma_unescaped_steps(a + seq!['\n'] + b);
    lemma_unescaped_steps(a);
    lemma_unescaped_steps(b);
    lemma_replaced_parts(a, '\n', b, z, none);
    reveal_with_fuel(steps_from, 8);
    lemma_steps_parts(replaced(a, z, none), replaced(b, z, none), 0);
}

/// `lemma_unescaped_parts` for the replacements from the `k`th on.
proof fn lemma_steps_parts(a: Seq<char>, b: Seq<char>, k: int)
    requires
        0 <= k <= 7,
    ensures
        steps_from(a + seq!['\n'] + b, k) == steps_from(a, k) + seq!['\n'] + steps_from(b, k),
    decreases 7 - k,
{
    if k < 7 {
        lemma_entity_lacks_newline(k);
        lemma_replaced_parts(a, '\n', b, entity(k).0, entity(k).1);
        lemma_steps_parts(step(a, k), step(b, k), k + 1);
    }
}

/// An entity is on one line.
proof fn lemma_entity_lacks_newline(k: int)
    requires
        0 <= k < 7,
    ensures
        entity(k).0.len() > 0,
        lacks(entity(k).0, '\n'),
{
    reveal_strlit("&lt;");
    reveal_strlit("&gt;");
    reveal_strlit("&quot;");
    reveal_strlit("&#39;");
    reveal_strlit("&#x27;");
    reveal_strlit("&nbsp;");
    reveal_strlit("&amp;");
}

// ---- Tags ----------------------------------------------------------------------------------

/// Text in front of a tag stays.
proof fn lemma_untagged_front(a: Seq<char>, b: Seq<char>)
    requires
        lacks(a, '<'),
    ensures
        untagged(a + b, false) == a + untagged(b, false),
    decreases a.len(),
{
    if a.len() == 0 {
        assert(a + b =~= b);
        assert(a + untagged(b, false) =~= untagged(b, false));
    } else {
        let rest = a.drop_first();
        assert forall|i: int| 0 <= i < rest.len() implies #[trigger] rest[i] != '<' by {
            assert(rest[i] == a[i + 1]);
        }
        lemma_untagged_front(rest, b);
        assert((a + b).drop_first() =~= rest + b);
        assert(seq![a[0]] + (rest + untagged(b, false)) =~= a + untagged(b, false));
    }
}

/// The inside of a tag goes.
proof fn lemma_untagged_inside(t: Seq<char>, b: Seq<char>)
    requires
        lacks(t, '>'),
    ensures
        untagged(t + seq!['>'] + b, true) == untagged(b, false),
        untagged(t, true) == Seq::<char>::empty(),
    decreases t.len(),
{
    let s = t + seq!['>'] + b;
    if t.len() == 0 {
        assert(s.drop_first() =~= b);
    } else {
        let rest = t.drop_first();
        assert forall|i: int| 0 <= i < rest.len() implies #[trigger] rest[i] != '>' by {
            assert(rest[i] == t[i + 1]);
        }
        lemma_untagged_inside(rest, b);
        assert(s.drop_first() =~= rest + seq!['>'] + b);
        assert(t[0] != '>');
    }
}

/// Law: a tag, from `<` to the next `>`, is left out wherever it stands, and so is one that is
/// never closed; all other text stays.
pub proof fn law_tags(a: Seq<char>, t: Seq<char>, b: Seq<char>)
    requires
        lacks(a, '<'),
        lacks(t, '>'),
    ensures
        untagged(a + seq!['<'] + t + seq!['>'] + b, false) == a + untagged(b, false),
        untagged(a + seq!['<'] + t, false) == a,
        untagged(a, false) == a,
{
    let inner = t + seq!['>'] + b;
    let none = Seq::<char>::empty();
    assert(a + seq!['<'] + t + seq!['>'] + b =~= a + (seq!['<'] + inner));
    assert(a + seq!['<'] + t =~= a + (seq!['<'] + t));
    lemma_untagged_front(a, seq!['<'] + inner);
    lemma_untagged_front(a, seq!['<'] + t);
    lemma_untagged_front(a, none);
    assert(a + none =~= a);
    assert((seq!['<'] + inner).drop_first() =~= inner);
    assert((seq!['<'] + t).drop_first() =~= t);
    lemma_untagged_inside(t, b);
}

// ---- White space ---------------------------------------------------------------------------

/// The words of two texts that white space parts.
pub proof fn lemma_words_add(a: Seq<char>, r: Seq<char>)
    requires
        r.len() > 0 ==> is_white(r[0]),
    ensures
        words(a + r) == words(a) + words(r),
    decreases a.len(),
{
    let s = a + r;
    let none = Seq::<Seq<char>>::empty();
    if a.len() == 0 {
        assert(s =~= r);
        assert(none + words(r) =~= words(r));
    } else if is_white(a[0]) {
        assert(s.drop_first() =~= a.drop_first() + r);
        lemma_words_add(a.drop_first(), r);
    } else {
        let n = word_len(a) as int;
        lemma_run(a);
        let w = a.take(n);
        let rest = a.skip(n);
        assert(a =~= w + rest);
        lemma_words_first(w, rest);
        assert(s =~= w + (rest + r));
        if rest.len() == 0 {
            assert(rest + r =~= r);
        }
        lemma_words_first(w, rest + r);
        lemma_words_add(rest, r);
        assert(seq![w] + (words(rest) + words(r)) =~= seq![w] + words(rest) + words(r));
    }
}

/// The run at the front of a text.
proof fn lemma_run(s: Seq<char>)
    ensures
        word_len(s) <= s.len(),
        solid(s.take(word_len(s) as int)),
        s.len() > 0 && !is_white(s[0]) ==> word_len(s) > 0,
        word_len(s) < s.len() ==> is_white(s[word_len(s) as int]),
    decreases s.len(),
{
    if s.len() > 0 && !is_white(s[0]) {
        let t = s.drop_first();
        lemma_run(t);
        let run = s.take(word_len(s) as int);
        let rest = t.take(word_len(t) as int);
        assert forall|i: int| 0 <= i < run.len() implies !is_white(#[trigger] run[i]) by {
            if i > 0 {
                assert(run[i] == rest[i - 1]);
            }
        }
    }
}

/// White space has no words.
proof fn lemma_words_white(w: Seq<char>)
    requires
        forall|i: int| 0 <= i < w.len() ==> is_white(#[trigger] w[i]),
    ensures
        words(w) == Seq::<Seq<char>>::empty(),
    decreases w.len(),
{
    if w.len() > 0 {
        let rest = w.drop_first();
        assert forall|i: int| 0 <= i < rest.len() implies is_white(#[trigger] rest[i]) by {
            assert(rest[i] == w[i + 1]);
        }
        assert(is_white(w[0]));
        lemma_words_white(rest);
    }
}

/// Lists of words one behind the other.
proof fn lemma_joined_two(a: Seq<Seq<char>>, b: Seq<Seq<char>>, sep: Seq<char>)
    requires
        a.len() > 0,
        b.len() > 0,
    ensures
        joined(a + b, sep) == joined(a, sep) + sep + joined(b, sep),
    decreases a.len(),
{
    let all = a + b;
    if a.len() == 1 {
        assert(all.drop_first() =~= b);
    } else {
        let rest = a.drop_first();
        lemma_joined_two(rest, b, sep);
        assert(all.drop_first() =~= rest + b);
        assert(a[0] + sep + (joined(rest, sep) + sep + joined(b, sep)) =~= a[0] + sep + joined(rest, sep)
            + sep + joined(b, sep));
    }
}

/// Law: white space between two words becomes one space, white space at the ends goes, and text
/// without any stays.
pub proof fn law_collapsed(a: Seq<char>, w: Seq<char>, b: Seq<char>)
    requires
        forall|i: int| 0 <= i < w.len() ==> is_white(#[trigger] w[i]),
        w.len() > 0,
        a.len() > 0 && !is_white(a.last()),
        b.len() > 0 && !is_white(b[0]),
    ensures
        collapsed(a + w + b) == collapsed(a) + seq![' '] + collapsed(b),
        collapsed(a + w) == collapsed(a),
        collapsed(w + b) == collapsed(b),
        collapsed(w).len() == 0,
        solid(a) ==> collapsed(a) == a,
{
    let none = Seq::<Seq<char>>::empty();
    assert(is_white(w[0]));
    lemma_words_white(w);
    lemma_words_add(a, w);
    lemma_words_add(a, w + b);
    assert(a + w + b =~= a + (w + b));
    lemma_words_led(w, b);
    assert(words(a) + none =~= words(a));
    assert(words(b).len() > 0) by {
        lemma_run(b);
    }
    lemma_words_some(a);
    lemma_joined_two(words(a), words(b), seq![' ']);
    if solid(a) {
        lemma_words_solid(a);
    }
}

/// White space in front of a text does not matter.
proof fn lemma_words_led(w: Seq<char>, b: Seq<char>)
    requires
        forall|i: int| 0 <= i < w.len() ==> is_white(#[trigger] w[i]),
    ensures
        words(w + b) == words(b),
    decreases w.len(),
{
    if w.len() == 0 {
        assert(w + b =~= b);
    } else {
        let rest = w.drop_first();
        assert forall|i: int| 0 <= i < rest.len() implies is_white(#[trigger] rest[i]) by {
            assert(rest[i] == w[i + 1]);
        }
        assert(is_white(w[0]));
        assert((w + b).drop_first() =~= rest + b);
        lemma_words_led(rest, b);
    }
}

/// A text that is not all white space has words.
proof fn lemma_words_some(a: Seq<char>)
    requires
        a.len() > 0,
        !is_white(a.last()),
    ensures
        words(a).len() > 0,
    decreases a.len(),
{
    if is_white(a[0]) {
        assert(a.drop_first().last() == a.last());
        lemma_words_some(a.drop_first());
    } else {
        lemma_run(a);
    }
}

/// Law: trimming takes white space away at both ends, all of it and nothing else.
pub proof fn law_trimmed(w: Seq<char>, s: Seq<char>, v: Seq<char>)
    requires
        forall|i: int| 0 <= i < w.len() ==> is_white(#[trigger] w[i]),
        forall|i: int| 0 <= i < v.len() ==> is_white(#[trigger] v[i]),
        s.len() > 0 ==> !is_white(s[0]) && !is_white(s.last()),
    ensures
        trimmed(w + s + v) == s,
{
    assert(w + s + v =~= w + (s + v));
    if s.len() == 0 {
        assert(s + v =~= v);
        lemma_front_led(w, v);
        lemma_front_white(v);
    } else {
        lemma_front_led(w, s + v);
        assert((s + v)[0] == s[0]);
        lemma_back_led(s, v);
    }
}

proof fn lemma_front_led(w: Seq<char>, b: Seq<char>)
    requires
        forall|i: int| 0 <= i < w.len() ==> is_white(#[trigger] w[i]),
    ensures
        trim_front(w + b) == trim_front(b),
    decreases w.len(),
{
    if w.len() == 0 {
        assert(w + b =~= b);
    } else {
        let rest = w.drop_first();
        assert forall|i: int| 0 <= i < rest.len() implies is_white(#[trigger] rest[i]) by {
            assert(rest[i] == w[i + 1]);
        }
        assert(is_white(w[0]));
        assert((w + b).drop_first() =~= rest + b);
        lemma_front_led(rest, b);
    }
}

proof fn lemma_front_white(v: Seq<char>)
    requires
        forall|i: int| 0 <= i < v.len() ==> is_white(#[trigger] v[i]),
    ensures
        trim_front(v) == Seq::<char>::empty(),
        trim_back(Seq::<char>::empty()) == Seq::<char>::empty(),
    decreases v.len(),
{
    if v.len() > 0 {
        let rest = v.drop_first();
        assert forall|i: int| 0 <= i < rest.len() implies is_white(#[trigger] rest[i]) by {
            assert(rest[i] == v[i + 1]);
        }
        assert(is_white(v[0]));
        lemma_front_white(rest);
    }
}

proof fn lemma_back_led(s: Seq<char>, v: Seq<char>)
    requires
        s.len() > 0,
        !is_white(s.last()),
        forall|i: int| 0 <= i < v.len() ==> is_white(#[trigger] v[i]),
    ensures
        trim_back(s + v) == s,
    decreases v.len(),
{
    if v.len() == 0 {
        assert(s + v =~= s);
    } else {
        let front = v.drop_last();
        assert forall|i: int| 0 <= i < front.len() implies is_white(#[trigger] front[i]) by {
            assert(front[i] == v[i]);
        }
        assert(is_white(v[v.len() - 1]));
        assert((s + v).drop_last() =~= s + front);
        lemma_back_led(s, front);
    }
}

// ---- Lines ---------------------------------------------------------------------------------

/// Splitting at line breaks takes both sides of one on their own.
pub proof fn lemma_split_two(a: Seq<char>, b: Seq<char>)
    ensures
        split(a + seq!['\n'] + b, seq!['\n']) == split(a, seq!['\n']) + split(b, seq!['\n']),
    decreases a.len(),
{
    let p = seq!['\n'];
    let s = a + p + b;
    lemma_find(a, p);
    match find(a, p) {
        Some(i) => {
            let rest = a.skip(i + 1);
            assert(s.subrange(i, i + 1) =~= a.subrange(i, i + 1));
            assert forall|j: int| 0 <= j < i implies !stands_at(s, j, p) by {
                if stands_at(s, j, p) {
                    assert(a.subrange(j, j + 1) =~= s.subrange(j, j + 1));
                    assert(stands_at(a, j, p));
                }
            }
            crate::text::lemma_find_some(s, p, i);
            assert(s.take(i) =~= a.take(i));
            assert(s.skip(i + 1) =~= rest + p + b);
            lemma_split_two(rest, b);
            assert(seq![a.take(i)] + (split(rest, p) + split(b, p)) =~= seq![a.take(i)] + split(
                rest,
                p,
            ) + split(b, p));
        },
        None => {
            let n = a.len() as int;
            assert(s.subrange(n, n + 1) =~= p);
            assert forall|j: int| 0 <= j < n implies !stands_at(s, j, p) by {
                if stands_at(s, j, p) {
                    assert(a.subrange(j, j + 1) =~= s.subrange(j, j + 1));
                    assert(stands_at(a, j, p));
                }
            }
            crate::text::lemma_find_some(s, p, n);
            assert(s.take(n) =~= a);
            assert(s.skip(n + 1) =~= b);
        },
    }
}

proof fn lemma_tidy_two(a: Seq<Seq<char>>, b: Seq<Seq<char>>)
    ensures
        tidy_lines(a + b) == tidy_lines(a) + tidy_lines(b),
    decreases b.len(),
{
    let none = Seq::<Seq<char>>::empty();
    if b.len() == 0 {
        assert(a + b =~= a);
        assert(tidy_lines(a) + none =~= tidy_lines(a));
    } else {
        lemma_tidy_two(a, b.drop_last());
        assert((a + b).drop_last() =~= a + b.drop_last());
        assert((a + b).last() == b.last());
        let line = collapsed(b.last());
        assert((tidy_lines(a) + tidy_lines(b.drop_last())).push(line) =~= tidy_lines(a) + tidy_lines(
            b.drop_last(),
        ).push(line));
    }
}

/// Tidy lines are not empty.
proof fn lemma_tidy_some(ls: Seq<Seq<char>>)
    ensures
        forall|i: int| 0 <= i < tidy_lines(ls).len() ==> (#[trigger] tidy_lines(ls)[i]).len() > 0,
    decreases ls.len(),
{
    if ls.len() > 0 {
        lemma_tidy_some(ls.drop_last());
        let rest = tidy_lines(ls.drop_last());
        let all = tidy_lines(ls);
        assert forall|i: int| 0 <= i < all.len() implies (#[trigger] all[i]).len() > 0 by {
            if i < rest.len() {
                assert(all[i] == rest[i]);
            }
        }
    } else {
        assert(tidy_lines(ls).len() == 0);
    }
}

/// Law: cleaning treats every line on its own: a line is unescaped and its white space collapsed,
/// and lines that are then empty go.
pub proof fn law_cleaned_lines(a: Seq<char>, b: Seq<char>)
    ensures
        cleaned(a + seq!['\n'] + b) == if cleaned(a).len() == 0 {
            cleaned(b)
        } else if cleaned(b).len() == 0 {
            cleaned(a)
        } else {
            cleaned(a) + seq!['\n'] + cleaned(b)
        },
        lacks(a, '\n') ==> cleaned(a) == collapsed(unescaped(a)),
{
    let p = seq!['\n'];
    lemma_unescaped_parts(a, b);
    lemma_split_two(unescaped(a), unescaped(b));
    let x = tidy_lines(split(unescaped(a), p));
    let y = tidy_lines(split(unescaped(b), p));
    lemma_tidy_two(split(unescaped(a), p), split(unescaped(b), p));
    lemma_tidy_some(split(unescaped(a), p));
    lemma_tidy_some(split(unescaped(b), p));
    lemma_joined_some(x, p);
    lemma_joined_some(y, p);
    if x.len() == 0 {
        assert(x + y =~= y);
    } else if y.len() == 0 {
        assert(x + y =~= x);
    } else {
        lemma_joined_two(x, y, p);
    }
    if lacks(a, '\n') {
        lemma_unescaped_lacks(a);
        lemma_split_lacking(unescaped(a), '\n');
        let ls = seq![unescaped(a)];
        assert(ls.drop_last() =~= Seq::<Seq<char>>::empty());
        assert(tidy_lines(ls.drop_last()) =~= Seq::<Seq<char>>::empty());
        let line = collapsed(unescaped(a));
        assert(Seq::<Seq<char>>::empty().push(line) =~= seq![line]);
        if line.len() == 0 {
            assert(joined(Seq::<Seq<char>>::empty(), p) =~= line);
        }
    }
}

proof fn lemma_joined_some(ls: Seq<Seq<char>>, sep: Seq<char>)
    requires
        forall|i: int| 0 <= i < ls.len() ==> (#[trigger] ls[i]).len() > 0,
    ensures
        joined(ls, sep).len() == 0 <==> ls.len() == 0,
{
    if ls.len() > 0 {
        assert(ls[0].len() > 0);
    }
}

/// Unescaping makes no line breaks.
proof fn lemma_unescaped_lacks(a: Seq<char>)
    requires
        lacks(a, '\n'),
    ensures
        lacks(unescaped(a), '\n'),
{
    lemma_unescaped_steps(a);
    crate::text_lemmas::lemma_replaced_lacks(a, seq!['\u{200b}'], Seq::empty(), '\n');
    reveal_with_fuel(steps_from, 8);
    lemma_steps_lack(replaced(a, seq!['\u{200b}'], Seq::empty()), 0);
}

proof fn lemma_steps_lack(s: Seq<char>, k: int)
    requires
        0 <= k <= 7,
        lacks(s, '\n'),
    ensures
        lacks(steps_from(s, k), '\n'),
    decreases 7 - k,
{
    if k < 7 {
        lemma_entity_lacks_newline(k);
        lemma_entities();
        crate::text_lemmas::lemma_replaced_lacks(s, entity(k).0, entity(k).1, '\n');
        lemma_steps_lack(step(s, k), k + 1);
    }
}

// ---- Lines and order -----------------------------------------------------------------------

/// Law: a line ends at a line break, with a carriage return in front of it or without; a last line
/// needs none, and nothing behind the last line break is no line.
pub proof fn law_lines(l: Seq<char>, b: Seq<char>)
    requires
        lacks(l, '\n'),
        lacks(l, '\r'),
    ensures
        lines(l + seq!['\n'] + b) == seq![l] + lines(b),
        lines(l + seq!['\r', '\n'] + b) == seq![l] + lines(b),
        l.len() > 0 ==> lines(l) == seq![l],
        lines(Seq::empty()).len() == 0,
{
    let s = l + seq!['\n'] + b;
    lemma_split_first(l, '\n', b);
    assert(s.take(l.len() as int) =~= l);
    assert(s.skip(l.len() as int + 1) =~= b);
    if l.len() > 0 {
        assert(l.last() != '\r');
    }
    let r = l + seq!['\r'];
    let t = r + seq!['\n'] + b;
    lemma_lacks_add(l, seq!['\r'], '\n');
    lemma_split_first(r, '\n', b);
    assert(t =~= l + seq!['\r', '\n'] + b);
    assert(t.take(r.len() as int) =~= r);
    assert(t.skip(r.len() as int + 1) =~= b);
    assert(r.drop_last() =~= l);
    lemma_find_absent(l, seq!['\n'], 0);
}

/// Law: texts are ordered by the first character in which they differ, and a text comes before a
/// longer one that begins with it.
pub proof fn law_before(p: Seq<char>, x: char, a: Seq<char>, y: char, b: Seq<char>)
    ensures
        x != y ==> before(p + seq![x] + a, p + seq![y] + b) == (x < y),
        before(p, p + seq![x] + a),
        !before(p + seq![x] + a, p),
        !before(p, p),
    decreases p.len(),
{
    let s = p + seq![x] + a;
    let t = p + seq![y] + b;
    if p.len() > 0 {
        let r = p.drop_first();
        law_before(r, x, a, y, b);
        assert(s.drop_first() =~= r + seq![x] + a);
        assert(t.drop_first() =~= r + seq![y] + b);
        assert(s[0] == p[0] && t[0] == p[0]);
    } else {
        assert(s[0] == x && t[0] == y);
    }
}

} // verus!
