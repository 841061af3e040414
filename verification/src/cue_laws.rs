//! What normalisation makes of cues, in terms of their times and texts.

use crate::captions::{chained, in_order, lasting, normalized, put_in, with_text, CueView};
use crate::normal::{by_start, law_in_order, law_in_order_stable, starting_at};
use vstd::prelude::*;

verus! {

/// The larger of two times.
spec fn max(a: u64, b: u64) -> u64 {
    if a < b {
        b
    } else {
        a
    }
}

/// A list of one cue where it lasts for some time, else none.
pub open spec fn if_lasting(c: CueView) -> Seq<CueView> {
    if c.start_ms < c.end_ms {
        seq![c]
    } else {
        Seq::empty()
    }
}

// ---- Two cues ------------------------------------------------------------------------------

/// What filtering leaves of two cues.
proof fn lemma_filter_two(a: CueView, b: CueView)
    ensures
        lasting(seq![a, b]) == if_lasting(a) + if_lasting(b),
        lasting(seq![a]) == if_lasting(a),
        a.text.len() > 0 && b.text.len() > 0 ==> with_text(seq![a, b]) == seq![a, b],
{
    reveal(Seq::filter);
    let none = Seq::<CueView>::empty();
    assert(seq![a].drop_last() =~= none);
    assert(seq![a, b].drop_last() =~= seq![a]);
    assert(lasting(none) =~= none);
    assert(with_text(none) =~= none);
    assert(lasting(seq![a]) =~= if_lasting(a));
    assert(lasting(seq![a, b]) =~= if_lasting(a) + if_lasting(b));
    if a.text.len() > 0 && b.text.len() > 0 {
        assert(with_text(seq![a]) =~= seq![a]);
        assert(with_text(seq![a, b]) =~= seq![a, b]);
    }
}

/// The order of two cues.
proof fn lemma_order_two(a: CueView, b: CueView)
    ensures
        in_order(seq![a, b]) == if b.start_ms < a.start_ms {
            seq![b, a]
        } else {
            seq![a, b]
        },
{
    let none = Seq::<CueView>::empty();
    assert(seq![a].drop_last() =~= none);
    assert(seq![a, b].drop_last() =~= seq![a]);
    assert(in_order(none) =~= none);
    assert(in_order(seq![a]) =~= seq![a]);
    assert(put_in(none, b) =~= seq![b]);
    assert(in_order(seq![a, b]) =~= if b.start_ms < a.start_ms {
        seq![b, a]
    } else {
        seq![a, b]
    });
}

/// Two cues in order, one behind the other.
proof fn lemma_chain_two(a: CueView, b: CueView)
    requires
        a.start_ms <= b.start_ms,
    ensures
        chained(seq![a, b]) == if a.start_ms == b.start_ms {
            seq![
                CueView {
                    start_ms: a.start_ms,
                    end_ms: max(a.end_ms, b.end_ms),
                    text: if a.text == b.text {
                        a.text
                    } else {
                        a.text + seq!['\n'] + b.text
                    },
                },
            ]
        } else {
            seq![
                CueView {
                    end_ms: if b.start_ms < a.end_ms {
                        b.start_ms
                    } else {
                        a.end_ms
                    },
                    ..a
                },
                b,
            ]
        },
{
    let none = Seq::<CueView>::empty();
    assert(seq![a].drop_last() =~= none);
    assert(seq![a, b].drop_last() =~= seq![a]);
    assert(chained(none) =~= none);
    assert(chained(seq![a]) =~= seq![a]);
    assert(chained(seq![a, b]) =~= if a.start_ms == b.start_ms {
        seq![
            CueView {
                start_ms: a.start_ms,
                end_ms: max(a.end_ms, b.end_ms),
                text: if a.text == b.text {
                    a.text
                } else {
                    a.text + seq!['\n'] + b.text
                },
            },
        ]
    } else {
        seq![
            CueView {
                end_ms: if b.start_ms < a.end_ms {
                    b.start_ms
                } else {
                    a.end_ms
                },
                ..a
            },
            b,
        ]
    });
}

/// Law: of two cues with text that start together one is made, which lasts until the later end and
/// holds both texts one below the other, or the one that they have in common. Of two that start
/// apart the earlier ends where the later starts at the latest. What does not last is left out.
pub proof fn law_two_cues(a: CueView, b: CueView)
    requires
        a.text.len() > 0,
        b.text.len() > 0,
    ensures
        a.start_ms == b.start_ms && a.text == b.text ==> normalized(seq![a, b]) == if_lasting(
            (CueView {
                end_ms: if a.end_ms < b.end_ms {
                    b.end_ms
                } else {
                    a.end_ms
                },
                ..a
            }),
        ),
        a.start_ms == b.start_ms && a.text != b.text ==> normalized(seq![a, b]) == if_lasting(
            (CueView {
                start_ms: a.start_ms,
                end_ms: if a.end_ms < b.end_ms {
                    b.end_ms
                } else {
                    a.end_ms
                },
                text: a.text + seq!['\n'] + b.text,
            }),
        ),
        a.start_ms < b.start_ms ==> normalized(seq![a, b]) == if_lasting(
            (CueView {
                end_ms: if b.start_ms < a.end_ms {
                    b.start_ms
                } else {
                    a.end_ms
                },
                ..a
            }),
        ) + if_lasting(b),
        b.start_ms < a.start_ms ==> normalized(seq![a, b]) == if_lasting(
            (CueView {
                end_ms: if a.start_ms < b.end_ms {
                    a.start_ms
                } else {
                    b.end_ms
                },
                ..b
            }),
        ) + if_lasting(a),
{
    lemma_filter_two(a, b);
    lemma_order_two(a, b);
    let (x, y) = if b.start_ms < a.start_ms {
        (b, a)
    } else {
        (a, b)
    };
    lemma_chain_two(x, y);
    let c = chained(seq![x, y]);
    if c.len() == 1 {
        lemma_filter_two(c[0], c[0]);
        assert(c =~= seq![c[0]]);
    } else {
        lemma_filter_two(c[0], c[1]);
        assert(c =~= seq![c[0], c[1]]);
    }
}

// ---- Many cues -----------------------------------------------------------------------------

/// Whether cues start one behind the other and all have text.
pub open spec fn apart(s: Seq<CueView>) -> bool {
    &&& forall|i: int| 0 <= i < s.len() ==> (#[trigger] s[i]).text.len() > 0
    &&& forall|i: int, j: int|
        0 <= i < j < s.len() ==> (#[trigger] s[i]).start_ms < (#[trigger] s[j]).start_ms
}

/// A cue of a list, ending where the next one starts at the latest.
pub open spec fn clipped(s: Seq<CueView>, i: int) -> CueView {
    CueView {
        end_ms: if i + 1 < s.len() && s[i + 1].start_ms < s[i].end_ms {
            s[i + 1].start_ms
        } else {
            s[i].end_ms
        },
        ..s[i]
    }
}

/// Cues that start apart, one behind the other.
proof fn lemma_chain_apart(s: Seq<CueView>)
    requires
        apart(s),
    ensures
        with_text(s) == s,
        in_order(s) == s,
        chained(s) == Seq::new(s.len(), |i: int| clipped(s, i)),
    decreases s.len(),
{
    reveal(Seq::filter);
    let all = Seq::new(s.len(), |i: int| clipped(s, i));
    if s.len() == 0 {
        assert(s =~= Seq::empty());
        assert(all =~= Seq::empty());
    } else {
        let front = s.drop_last();
        assert forall|i: int| 0 <= i < front.len() implies (#[trigger] front[i]).text.len() > 0 by {
            assert(front[i] == s[i]);
        }
        assert forall|i: int, j: int| 0 <= i < j < front.len() implies (#[trigger] front[i]).start_ms < (
        #[trigger] front[j]).start_ms by {
            assert(front[i] == s[i] && front[j] == s[j]);
        }
        lemma_chain_apart(front);
        assert(front.push(s.last()) =~= s);
        assert(s[s.len() - 1].text.len() > 0);
        let some = Seq::new(front.len(), |i: int| clipped(front, i));
        if front.len() > 0 {
            assert(s[s.len() - 2] == front.last());
            assert(s[s.len() - 2].start_ms < s[s.len() - 1].start_ms);
            assert(some.last() == clipped(front, front.len() - 1));
            assert(some.last() == front.last());
            assert forall|i: int| 0 <= i < front.len() - 1 implies clipped(front, i) == #[trigger] clipped(
                s,
                i,
            ) by {
                assert(front[i] == s[i] && front[i + 1] == s[i + 1]);
            }
            assert(chained(s) =~= all);
        } else {
            assert(chained(s) =~= all);
        }
    }
}

/// Law: cues that start apart keep their starts and their texts, and end where the next one starts
/// at the latest; only those that then do not last are left out.
pub proof fn law_cues_apart(s: Seq<CueView>)
    requires
        apart(s),
    ensures
        normalized(s) == Seq::new(s.len(), |i: int| clipped(s, i)).filter(
            |c: CueView| c.end_ms > c.start_ms,
        ),
{
    lemma_chain_apart(s);
}

/// Cues that start together are one.
proof fn lemma_chain_together(s: Seq<CueView>, t: u64)
    requires
        s.len() > 0,
        forall|i: int| 0 <= i < s.len() ==> (#[trigger] s[i]).text.len() > 0 && s[i].start_ms == t,
    ensures
        with_text(s) == s,
        in_order(s) == s,
        chained(s).len() == 1,
        chained(s)[0].start_ms == t,
    decreases s.len(),
{
    reveal(Seq::filter);
    let front = s.drop_last();
    assert(front.push(s.last()) =~= s);
    assert(s[s.len() - 1].text.len() > 0);
    if front.len() > 0 {
        assert forall|i: int| 0 <= i < front.len() implies (#[trigger] front[i]).text.len() > 0
            && front[i].start_ms == t by {
            assert(front[i] == s[i]);
        }
        lemma_chain_together(front, t);
        assert(s[s.len() - 2] == front.last());
    } else {
        assert(front =~= Seq::empty());
        assert(in_order(front) =~= front);
        assert(in_order(s) =~= s);
    }
}

/// Law: one more cue that starts with the others is added to what is made of them: the text below
/// theirs, unless it is the same, and the end where it is later.
pub proof fn law_one_more_together(s: Seq<CueView>, c: CueView, p: CueView)
    requires
        s.len() > 0,
        c.text.len() > 0,
        forall|i: int|
            0 <= i < s.len() ==> (#[trigger] s[i]).text.len() > 0 && s[i].start_ms == c.start_ms,
        normalized(s) == seq![p],
    ensures
        p.start_ms == c.start_ms,
        normalized(s.push(c)).len() == 1,
        normalized(s.push(c))[0].start_ms == c.start_ms,
        normalized(s.push(c))[0].end_ms == if p.end_ms < c.end_ms {
            c.end_ms
        } else {
            p.end_ms
        },
        normalized(s.push(c))[0].text == if p.text == c.text {
            p.text
        } else {
            p.text + seq!['\n'] + c.text
        },
{
    let t = c.start_ms;
    lemma_chain_together(s, t);
    let q = chained(s)[0];
    lemma_filter_two(q, q);
    assert(chained(s) =~= seq![q]);
    assert(if_lasting(q).len() > 0);
    assert(if_lasting(q)[0] == seq![p][0]);
    let all = s.push(c);
    assert(all.drop_last() =~= s);
    assert forall|i: int| 0 <= i < all.len() implies (#[trigger] all[i]).text.len() > 0
        && all[i].start_ms == t by {
        if i < s.len() {
            assert(all[i] == s[i]);
        }
    }
    lemma_chain_together(all, t);
    let r = chained(all)[0];
    assert(chained(all) =~= seq![r]);
    lemma_filter_two(r, r);
}

// ---- What does not matter ------------------------------------------------------------------

/// Law: a cue without text makes no difference, wherever it stands.
pub proof fn law_empty_cue(a: Seq<CueView>, c: CueView, b: Seq<CueView>)
    requires
        c.text.len() == 0,
    ensures
        normalized(a + seq![c] + b) == normalized(a + b),
{
    let keep = |x: CueView| x.text.len() > 0;
    let none = Seq::<CueView>::empty();
    Seq::filter_distributes_over_add(a + seq![c], b, keep);
    Seq::filter_distributes_over_add(a, seq![c], keep);
    Seq::filter_distributes_over_add(a, b, keep);
    assert(seq![c].filter(keep) =~= none) by {
        reveal(Seq::filter);
        assert(seq![c].drop_last() =~= none);
        assert(none.filter(keep) =~= none);
    }
    assert(a.filter(keep) + none =~= a.filter(keep));
}

/// Cues that start apart can be put in either way round.
proof fn lemma_put_in_swap(s: Seq<CueView>, x: CueView, y: CueView)
    requires
        x.start_ms < y.start_ms,
    ensures
        put_in(put_in(s, x), y) == put_in(put_in(s, y), x),
    decreases s.len(),
{
    if s.len() > 0 && s.last().start_ms > y.start_ms {
        let front = s.drop_last();
        lemma_put_in_swap(front, x, y);
        let px = put_in(front, x);
        let py = put_in(front, y);
        assert(px.push(s.last()).drop_last() =~= px);
        assert(py.push(s.last()).drop_last() =~= py);
    } else {
        assert(s.push(y).drop_last() =~= s);
        assert(put_in(s.push(y), x) == put_in(s, x).push(y));
        if s.len() > 0 && s.last().start_ms > x.start_ms {
            assert(put_in(s, x).last() == s.last());
        } else {
            assert(put_in(s, x).last() == x);
        }
    }
}

/// The same in front of other cues.
proof fn lemma_order_swap(a: Seq<CueView>, x: CueView, y: CueView, b: Seq<CueView>)
    requires
        x.start_ms != y.start_ms,
    ensures
        in_order(a + seq![x, y] + b) == in_order(a + seq![y, x] + b),
    decreases b.len(),
{
    let s = a + seq![x, y] + b;
    let t = a + seq![y, x] + b;
    if b.len() == 0 {
        reveal_with_fuel(in_order, 3);
        assert(s.drop_last().drop_last() =~= a);
        assert(t.drop_last().drop_last() =~= a);
        if x.start_ms < y.start_ms {
            lemma_put_in_swap(in_order(a), x, y);
        } else {
            lemma_put_in_swap(in_order(a), y, x);
        }
    } else {
        lemma_order_swap(a, x, y, b.drop_last());
        assert(s.drop_last() =~= a + seq![x, y] + b.drop_last());
        assert(t.drop_last() =~= a + seq![y, x] + b.drop_last());
    }
}

/// Law: the order in which cues come makes no difference, but for those that start together.
pub proof fn law_order_free(a: Seq<CueView>, x: CueView, y: CueView, b: Seq<CueView>)
    requires
        x.start_ms != y.start_ms,
    ensures
        normalized(a + seq![x, y] + b) == normalized(a + seq![y, x] + b),
{
    if x.text.len() == 0 {
        law_empty_cue(a, x, seq![y] + b);
        law_empty_cue(a + seq![y], x, b);
        assert(a + seq![x, y] + b =~= a + seq![x] + (seq![y] + b));
        assert(a + seq![y, x] + b =~= a + seq![y] + seq![x] + b);
        assert(a + (seq![y] + b) =~= a + seq![y] + b);
    } else if y.text.len() == 0 {
        law_empty_cue(a + seq![x], y, b);
        law_empty_cue(a, y, seq![x] + b);
        assert(a + seq![x, y] + b =~= a + seq![x] + seq![y] + b);
        assert(a + seq![y, x] + b =~= a + seq![y] + (seq![x] + b));
        assert(a + (seq![x] + b) =~= a + seq![x] + b);
    } else {
        let keep = |c: CueView| c.text.len() > 0;
        lemma_filter_two(x, y);
        lemma_filter_two(y, x);
        Seq::filter_distributes_over_add(a + seq![x, y], b, keep);
        Seq::filter_distributes_over_add(a, seq![x, y], keep);
        Seq::filter_distributes_over_add(a + seq![y, x], b, keep);
        Seq::filter_distributes_over_add(a, seq![y, x], keep);
        lemma_order_swap(with_text(a), x, y, with_text(b));
    }
}

// ---- One cue for every start ---------------------------------------------------------------

/// Whether a time is the smaller of `end` and the next start behind `t`.
pub open spec fn ends_in_time(e: u64, end: u64, s: Seq<CueView>, t: u64) -> bool {
    &&& e <= end
    &&& forall|j: int| 0 <= j < s.len() && (#[trigger] s[j]).start_ms > t ==> e <= s[j].start_ms
    &&& e == end || exists|j: int|
        0 <= j < s.len() && (#[trigger] s[j]).start_ms > t && e == s[j].start_ms
}

/// Whether a list holds what becomes of the cues that start at `t`.
spec fn made_at(made: Seq<CueView>, k: int, s: Seq<CueView>, t: u64) -> bool {
    let q = chained(starting_at(s, t))[0];
    &&& 0 <= k < made.len()
    &&& made[k].start_ms == t
    &&& made[k].text == q.text
    &&& ends_in_time(made[k].end_ms, q.end_ms, s, t)
}

/// The cues that start at a time, with one more cue.
proof fn lemma_starting_push(s: Seq<CueView>, c: CueView, t: u64)
    ensures
        starting_at(s.push(c), t) == if c.start_ms == t {
            starting_at(s, t).push(c)
        } else {
            starting_at(s, t)
        },
{
    reveal(Seq::filter);
    assert(s.push(c).drop_last() =~= s);
}

/// The cues that start at a time do.
proof fn lemma_starting(s: Seq<CueView>, t: u64)
    requires
        forall|i: int| 0 <= i < s.len() ==> (#[trigger] s[i]).text.len() > 0,
    ensures
        forall|i: int|
            0 <= i < starting_at(s, t).len() ==> (#[trigger] starting_at(s, t)[i]).start_ms == t
                && starting_at(s, t)[i].text.len() > 0,
        starting_at(s, t).len() > 0 <==> exists|j: int| 0 <= j < s.len() && (#[trigger] s[j]).start_ms == t,
    decreases s.len(),
{
    reveal(Seq::filter);
    if s.len() > 0 {
        let front = s.drop_last();
        assert forall|i: int| 0 <= i < front.len() implies (#[trigger] front[i]).text.len() > 0 by {
            assert(front[i] == s[i]);
        }
        lemma_starting(front, t);
        lemma_starting_push(front, s.last(), t);
        assert(front.push(s.last()) =~= s);
        let (g, h) = (starting_at(s, t), starting_at(front, t));
        assert(s[s.len() - 1].text.len() > 0);
        assert forall|i: int| 0 <= i < g.len() implies (#[trigger] g[i]).start_ms == t && g[i].text.len()
            > 0 by {
            if i < h.len() {
                assert(g[i] == h[i]);
            }
        }
        if h.len() > 0 {
            let j = choose|j: int| 0 <= j < front.len() && (#[trigger] front[j]).start_ms == t;
            assert(s[j].start_ms == t);
        }
        if s.last().start_ms == t {
            assert(s[s.len() - 1].start_ms == t);
        }
        if exists|j: int| 0 <= j < s.len() && (#[trigger] s[j]).start_ms == t {
            let j = choose|j: int| 0 <= j < s.len() && (#[trigger] s[j]).start_ms == t;
            if j < front.len() {
                assert(front[j].start_ms == t);
            }
        }
    }
}

/// What is made of ordered cues: one cue for every start.
proof fn lemma_groups(s: Seq<CueView>, t: u64)
    requires
        by_start(s),
        forall|i: int| 0 <= i < s.len() ==> (#[trigger] s[i]).text.len() > 0,
    ensures
        (exists|j: int| 0 <= j < s.len() && (#[trigger] s[j]).start_ms == t) ==> exists|k: int|
            #[trigger] made_at(chained(s), k, s, t),
        s.len() > 0 ==> chained(s).len() > 0 && chained(s).last().start_ms == s.last().start_ms
            && chained(s).last() == chained(starting_at(s, s.last().start_ms))[0],
        forall|k: int|
            0 <= k < chained(s).len() ==> exists|j: int|
                0 <= j < s.len() && (#[trigger] s[j]).start_ms == (#[trigger] chained(s)[k]).start_ms,
    decreases s.len(),
{
    if s.len() > 0 {
        let front = s.drop_last();
        let c = s.last();
        let ch = chained(s);
        let old = chained(front);
        assert(front.push(c) =~= s);
        assert(s[s.len() - 1] == c);
        assert forall|i: int| 0 <= i < front.len() implies (#[trigger] front[i]).text.len() > 0 by {
            assert(front[i] == s[i]);
        }
        assert forall|i: int, j: int| 0 <= i <= j < front.len() implies (#[trigger] front[i]).start_ms <= (
        #[trigger] front[j]).start_ms by {
            assert(front[i] == s[i] && front[j] == s[j]);
        }
        lemma_groups(front, t);
        lemma_starting(front, t);
        lemma_starting(front, c.start_ms);
        lemma_starting(s, t);
        lemma_starting_push(front, c, t);
        lemma_starting_push(front, c, c.start_ms);
        let h = starting_at(front, c.start_ms);
        assert(h.push(c).drop_last() =~= h);
        assert forall|k: int| 0 <= k < ch.len() implies exists|j: int|
            0 <= j < s.len() && (#[trigger] s[j]).start_ms == (#[trigger] ch[k]).start_ms by {
            if k < old.len() && ch[k].start_ms == old[k].start_ms {
                let j = choose|j: int|
                    0 <= j < front.len() && (#[trigger] front[j]).start_ms == old[k].start_ms;
                assert(s[j] == front[j]);
            } else {
                assert(s[s.len() - 1].start_ms == ch[k].start_ms);
            }
        }
        if front.len() == 0 {
            assert(front =~= Seq::empty());
            assert(h.len() == 0);
            assert(h =~= Seq::empty());
            assert(old =~= Seq::empty());
            assert(ch =~= seq![c]);
            assert(chained(h) =~= Seq::empty());
            assert(chained(h.push(c)) =~= seq![c]);
            if c.start_ms == t {
                assert(made_at(ch, 0, s, t));
            }
        } else {
            assert(s[s.len() - 2] == front.last());
            assert(front[front.len() - 1] == front.last());
            let last = front.last().start_ms;
            assert(last <= c.start_ms);
            if last == c.start_ms {
                assert(h.len() > 0);
                lemma_chain_together(h, last);
                assert(chained(h.push(c)) == chained(h).drop_last().push(ch.last()));
                if t == last {
                    assert(made_at(ch, ch.len() - 1, s, t));
                }
            } else {
                if h.len() > 0 {
                    let j = choose|j: int|
                        0 <= j < front.len() && (#[trigger] front[j]).start_ms == c.start_ms;
                    assert(front[j].start_ms <= front[front.len() - 1].start_ms);
                }
                assert(h =~= Seq::empty());
                assert(chained(h) =~= Seq::empty());
                assert(chained(h.push(c)) =~= seq![c]);
                if t == c.start_ms {
                    assert(made_at(ch, ch.len() - 1, s, t));
                }
                if t == last {
                    let k = ch.len() - 2;
                    assert(ch[k].text == old.last().text);
                    if ch[k].end_ms != old.last().end_ms {
                        assert(s[s.len() - 1].start_ms == ch[k].end_ms);
                    }
                    assert forall|j: int| 0 <= j < s.len() && (#[trigger] s[j]).start_ms > t implies ch[k].end_ms
                        <= s[j].start_ms by {
                        if j < front.len() {
                            assert(s[j] == front[j]);
                            assert(front[j].start_ms <= front[front.len() - 1].start_ms);
                        }
                    }
                    assert(made_at(ch, k, s, t));
                }
            }
            if t != last && t != c.start_ms && (exists|j: int|
                0 <= j < s.len() && (#[trigger] s[j]).start_ms == t) {
                let i = choose|i: int| 0 <= i < s.len() && (#[trigger] s[i]).start_ms == t;
                assert(front[i].start_ms == t);
                let k = choose|k: int| #[trigger] made_at(old, k, front, t);
                assert(k < old.len() - 1);
                assert(ch[k] == old[k]);
                assert(front[i].start_ms <= front[front.len() - 1].start_ms);
                let e = ch[k].end_ms;
                assert(e <= front[front.len() - 1].start_ms);
                assert forall|j: int| 0 <= j < s.len() && (#[trigger] s[j]).start_ms > t implies e
                    <= s[j].start_ms by {
                    if j < front.len() {
                        assert(s[j] == front[j]);
                    }
                }
                let q = chained(starting_at(front, t))[0];
                if e != q.end_ms {
                    let j = choose|j: int|
                        0 <= j < front.len() && (#[trigger] front[j]).start_ms > t && e == front[j].start_ms;
                    assert(s[j] == front[j]);
                }
                assert(made_at(ch, k, s, t));
            }
        }
    }
}

/// The cues with text are those with text.
proof fn lemma_with_text_holds(s: Seq<CueView>)
    ensures
        forall|i: int| 0 <= i < with_text(s).len() ==> (#[trigger] with_text(s)[i]).text.len() > 0,
{
    let keep = |c: CueView| c.text.len() > 0;
    assert forall|i: int| 0 <= i < with_text(s).len() implies (#[trigger] with_text(s)[i]).text.len() > 0 by {
        s.lemma_filter_pred(keep, i);
    }
}

/// Ordering keeps the cues.
proof fn lemma_same_cues(s: Seq<CueView>, c: CueView)
    ensures
        in_order(s).contains(c) <==> s.contains(c),
{
    broadcast use vstd::seq_lib::group_to_multiset_ensures;

    law_in_order(s);
    assert(in_order(s).to_multiset().contains(c) == s.to_multiset().contains(c));
}

/// The next start behind a time does not depend on the order of the cues.
proof fn lemma_time_order(e: u64, end: u64, s: Seq<CueView>, t: u64)
    requires
        ends_in_time(e, end, in_order(s), t),
    ensures
        ends_in_time(e, end, s, t),
{
    let r = in_order(s);
    assert forall|j: int| 0 <= j < s.len() && (#[trigger] s[j]).start_ms > t implies e <= s[j].start_ms by {
        lemma_same_cues(s, s[j]);
        assert(s.contains(s[j]));
        let i = choose|i: int| 0 <= i < r.len() && r[i] == s[j];
        assert(r[i].start_ms > t);
    }
    if e != end {
        let i = choose|i: int| 0 <= i < r.len() && (#[trigger] r[i]).start_ms > t && e == r[i].start_ms;
        lemma_same_cues(s, r[i]);
        assert(r.contains(r[i]));
        let j = choose|j: int| 0 <= j < s.len() && s[j] == r[i];
        assert(s[j].start_ms > t);
    }
}

/// Law: for every time at which cues with text start, there is one cue. It has the text that those
/// cues make on their own, and ends where they do, but where the next cue with text starts at the
/// latest.
pub proof fn law_one_cue_per_start(s: Seq<CueView>, t: u64, p: CueView)
    requires
        normalized(
            s.filter(|c: CueView| c.text.len() > 0).filter(|c: CueView| c.start_ms == t),
        ) == seq![p],
    ensures
        p.start_ms == t,
        exists|k: int|
            0 <= k < normalized(s).len() && (#[trigger] normalized(s)[k]).start_ms == t && normalized(
                s,
            )[k].text == p.text && ends_in_time(
                normalized(s)[k].end_ms,
                p.end_ms,
                s.filter(|c: CueView| c.text.len() > 0),
                t,
            ),
{
    let kept = with_text(s);
    let g = starting_at(kept, t);
    let r = in_order(kept);
    lemma_with_text_holds(s);
    lemma_starting(kept, t);
    law_in_order(kept);
    law_in_order_stable(kept, t);
    assert forall|i: int| 0 <= i < r.len() implies (#[trigger] r[i]).text.len() > 0 by {
        lemma_same_cues(kept, r[i]);
        assert(r.contains(r[i]));
        let j = choose|j: int| 0 <= j < kept.len() && kept[j] == r[i];
    }
    if g.len() == 0 {
        reveal(Seq::filter);
        assert(g =~= Seq::empty());
        assert(normalized(g).len() == 0);
    }
    lemma_chain_together(g, t);
    let q = chained(g)[0];
    assert(chained(g) =~= seq![q]);
    lemma_filter_two(q, q);
    assert(if_lasting(q).len() > 0);
    assert(if_lasting(q)[0] == seq![p][0]);
    lemma_groups(r, t);
    lemma_starting(r, t);
    let ch = chained(r);
    let k = choose|k: int| #[trigger] made_at(ch, k, r, t);
    let c = ch[k];
    lemma_time_order(c.end_ms, p.end_ms, kept, t);
    assert(c.end_ms > t);
    let lasts = |x: CueView| x.end_ms > x.start_ms;
    ch.lemma_filter_contains(lasts, k);
    let n = normalized(s);
    assert(n.contains(c));
    let i = choose|i: int| 0 <= i < n.len() && n[i] == c;
    assert(n[i].start_ms == t);
}

/// Law: no cue starts where no cue with text did.
pub proof fn law_no_new_start(s: Seq<CueView>, k: int)
    requires
        0 <= k < normalized(s).len(),
    ensures
        exists|j: int|
            0 <= j < s.len() && (#[trigger] s[j]).text.len() > 0 && s[j].start_ms == normalized(
                s,
            )[k].start_ms,
{
    let kept = with_text(s);
    let r = in_order(kept);
    let ch = chained(r);
    lemma_with_text_holds(s);
    law_in_order(kept);
    assert forall|i: int| 0 <= i < r.len() implies (#[trigger] r[i]).text.len() > 0 by {
        lemma_same_cues(kept, r[i]);
        assert(r.contains(r[i]));
        let j = choose|j: int| 0 <= j < kept.len() && kept[j] == r[i];
    }
    let n = normalized(s);
    lemma_filter_from(ch, |x: CueView| x.end_ms > x.start_ms, k);
    let a = choose|a: int| 0 <= a < ch.len() && ch[a] == n[k];
    lemma_groups(r, ch[a].start_ms);
    let b = choose|b: int| 0 <= b < r.len() && (#[trigger] r[b]).start_ms == ch[a].start_ms;
    lemma_same_cues(kept, r[b]);
    assert(r.contains(r[b]));
    let d = choose|d: int| 0 <= d < kept.len() && kept[d] == r[b];
    lemma_filter_from(s, |x: CueView| x.text.len() > 0, d);
    let j = choose|j: int| 0 <= j < s.len() && s[j] == kept[d];
    assert(s[j].text.len() > 0);
}

/// What filtering leaves was there before.
proof fn lemma_filter_from(s: Seq<CueView>, keep: spec_fn(CueView) -> bool, k: int)
    requires
        0 <= k < s.filter(keep).len(),
    ensures
        s.contains(s.filter(keep)[k]),
    decreases s.len(),
{
    reveal(Seq::filter);
    if s.len() > 0 {
        let front = s.drop_last();
        let f = front.filter(keep);
        if k < f.len() {
            lemma_filter_from(front, keep, k);
            let j = choose|j: int| 0 <= j < front.len() && front[j] == f[k];
            assert(s[j] == f[k]);
        } else {
            assert(s[s.len() - 1] == s.filter(keep)[k]);
        }
    }
}

} // verus!
