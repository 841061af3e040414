//! What normalisation promises of a list of cues.

use crate::captions::{chained, cut, follow, in_order, lasting, normalized, put_in, with_text, CueView};
use vstd::prelude::*;

verus! {

/// Whether every cue has text and lasts for some time, and no cue starts before an earlier one
/// has ended.
pub open spec fn tidy(s: Seq<CueView>) -> bool {
    &&& forall|i: int| 0 <= i < s.len() ==> (#[trigger] s[i]).text.len() > 0 && s[i].start_ms < s[i].end_ms
    &&& forall|i: int, j: int|
        0 <= i < j < s.len() ==> (#[trigger] s[i]).end_ms <= (#[trigger] s[j]).start_ms
}

/// Whether no cue starts before an earlier one of the list.
pub open spec fn by_start(s: Seq<CueView>) -> bool {
    forall|i: int, j: int|
        0 <= i <= j < s.len() ==> (#[trigger] s[i]).start_ms <= (#[trigger] s[j]).start_ms
}

/// Whether all cues have text.
spec fn texted(s: Seq<CueView>) -> bool {
    forall|i: int| 0 <= i < s.len() ==> (#[trigger] s[i]).text.len() > 0
}

/// Whether starts grow and no cue but the last ends behind the next start.
spec fn stepped(s: Seq<CueView>) -> bool {
    forall|i: int, j: int|
        0 <= i < j < s.len() ==> (#[trigger] s[i]).start_ms < (#[trigger] s[j]).start_ms
            && s[i].end_ms <= s[j].start_ms
}

/// Putting in a cue keeps the order.
proof fn lemma_put_in_order(s: Seq<CueView>, c: CueView)
    requires
        by_start(s),
    ensures
        by_start(put_in(s, c)),
        forall|i: int|
            0 <= i < put_in(s, c).len() ==> (#[trigger] put_in(s, c)[i]) == c || s.contains(
                put_in(s, c)[i],
            ),
        put_in(s, c).to_multiset() =~= s.to_multiset().insert(c),
    decreases s.len(),
{
    broadcast use vstd::seq_lib::group_to_multiset_ensures;

    let r = put_in(s, c);
    if s.len() > 0 && s.last().start_ms > c.start_ms {
        let front = s.drop_last();
        lemma_put_in_order(front, c);
        let q = put_in(front, c);
        assert forall|i: int| 0 <= i < r.len() implies (#[trigger] r[i]) == c || s.contains(r[i]) by {
            if i < q.len() {
                assert(r[i] == q[i]);
                if q[i] != c {
                    let k = choose|k: int| 0 <= k < front.len() && front[k] == q[i];
                    assert(s[k] == q[i]);
                }
            } else {
                assert(s[s.len() - 1] == r[i]);
            }
        }
        assert forall|i: int, j: int| 0 <= i <= j < r.len() implies (#[trigger] r[i]).start_ms <= (
        #[trigger] r[j]).start_ms by {
            if j < q.len() {
                assert(r[i] == q[i] && r[j] == q[j]);
            } else if i < q.len() {
                assert(r[i] == q[i]);
                if q[i] != c {
                    let k = choose|k: int| 0 <= k < front.len() && front[k] == q[i];
                    assert(s[k] == q[i]);
                    assert(s[s.len() - 1].start_ms >= s[k].start_ms);
                }
            }
        }
        assert(s =~= front.push(s.last()));
    } else {
        assert forall|i: int| 0 <= i < r.len() implies (#[trigger] r[i]) == c || s.contains(r[i]) by {
            if i < s.len() {
                assert(s[i] == r[i]);
            }
        }
        assert forall|i: int, j: int| 0 <= i <= j < r.len() implies (#[trigger] r[i]).start_ms <= (
        #[trigger] r[j]).start_ms by {
            if i < s.len() {
                assert(s[i].start_ms <= s[s.len() - 1].start_ms);
            }
        }
    }
}

/// Law: ordering cues gives the same cues, ordered by start.
pub proof fn law_in_order(s: Seq<CueView>)
    ensures
        by_start(in_order(s)),
        in_order(s).to_multiset() =~= s.to_multiset(),
    decreases s.len(),
{
    broadcast use vstd::seq_lib::group_to_multiset_ensures;

    if s.len() > 0 {
        law_in_order(s.drop_last());
        lemma_put_in_order(in_order(s.drop_last()), s.last());
        assert(s =~= s.drop_last().push(s.last()));
    } else {
        assert(s =~= Seq::empty());
    }
}

/// The cues that start at `t`.
pub open spec fn starting_at(s: Seq<CueView>, t: u64) -> Seq<CueView> {
    s.filter(|c: CueView| c.start_ms == t)
}

proof fn lemma_put_in_stable(s: Seq<CueView>, c: CueView, t: u64)
    requires
        by_start(s),
    ensures
        starting_at(put_in(s, c), t) == starting_at(s.push(c), t),
    decreases s.len(),
{
    reveal(Seq::filter);
    if s.len() > 0 && s.last().start_ms > c.start_ms {
        let front = s.drop_last();
        lemma_put_in_stable(front, c, t);
        assert(put_in(s, c).drop_last() =~= put_in(front, c));
        assert(front.push(c).drop_last() =~= front);
        assert(s.push(c).drop_last() =~= s);
        let one = starting_at(front, t);
        assert(starting_at(front.push(c), t) == if c.start_ms == t {
            one.push(c)
        } else {
            one
        });
        assert(starting_at(s, t) == if s.last().start_ms == t {
            one.push(s.last())
        } else {
            one
        });
        assert(put_in(s, c).last() == s.last());
    }
}

/// Law: cues that start together keep the order they had.
pub proof fn law_in_order_stable(s: Seq<CueView>, t: u64)
    ensures
        starting_at(in_order(s), t) == starting_at(s, t),
    decreases s.len(),
{
    reveal(Seq::filter);
    if s.len() > 0 {
        let front = s.drop_last();
        law_in_order(front);
        law_in_order_stable(front, t);
        lemma_put_in_stable(in_order(front), s.last(), t);
        assert(in_order(front).push(s.last()).drop_last() =~= in_order(front));
    }
}

proof fn lemma_chained(s: Seq<CueView>)
    requires
        by_start(s),
        texted(s),
    ensures
        stepped(chained(s)),
        texted(chained(s)),
        s.len() > 0 ==> chained(s).len() > 0 && chained(s).last().start_ms == s.last().start_ms,
    decreases s.len(),
{
    if s.len() > 0 {
        let front = s.drop_last();
        let c = s.last();
        lemma_chained(front);
        let out = chained(front);
        let r = chained(s);
        assert(r == follow(out, c));
        if out.len() > 0 {
            assert(out.last().start_ms == front.last().start_ms);
            assert(s[s.len() - 2].start_ms <= s[s.len() - 1].start_ms);
            if c.start_ms <= out.last().start_ms {
                assert forall|i: int, j: int| 0 <= i < j < r.len() implies (#[trigger] r[i]).start_ms < (
                #[trigger] r[j]).start_ms && r[i].end_ms <= r[j].start_ms by {
                    assert(r[i] == out[i]);
                    assert(r[j].start_ms == out[j].start_ms);
                }
            } else {
                let n = out.len() as int;
                assert forall|i: int, j: int| 0 <= i < j < r.len() implies (#[trigger] r[i]).start_ms < (
                #[trigger] r[j]).start_ms && r[i].end_ms <= r[j].start_ms by {
                    if j < n {
                        assert(r[i] == out[i]);
                        assert(r[j].start_ms == out[j].start_ms);
                    } else if i < n - 1 {
                        assert(r[i] == out[i]);
                        assert(out[n - 1].start_ms < c.start_ms);
                        assert(out[i].end_ms <= out[n - 1].start_ms);
                    } else {
                        assert(r[i] == cut(out.last(), c.start_ms));
                    }
                }
            }
            assert forall|i: int| 0 <= i < r.len() implies (#[trigger] r[i]).text.len() > 0 by {
                if i < out.len() {
                    assert(out[i].text.len() > 0);
                }
                assert(s[s.len() - 1].text.len() > 0);
            }
        }
    }
}

proof fn lemma_lasting(s: Seq<CueView>)
    requires
        stepped(s),
        texted(s),
    ensures
        tidy(lasting(s)),
        forall|i: int| 0 <= i < lasting(s).len() ==> s.contains(#[trigger] lasting(s)[i]),
    decreases s.len(),
{
    reveal(Seq::filter);
    if s.len() > 0 {
        let front = s.drop_last();
        lemma_lasting(front);
        let q = lasting(front);
        let r = lasting(s);
        let last = s.last();
        assert(s[s.len() - 1] == last);
        assert forall|i: int| 0 <= i < q.len() implies s.contains(#[trigger] q[i]) && q[i].end_ms
            <= last.start_ms by {
            let k = choose|k: int| 0 <= k < front.len() && front[k] == q[i];
            assert(front[k] == s[k]);
        }
        assert forall|i: int| 0 <= i < r.len() implies s.contains(#[trigger] r[i]) by {
            if i < q.len() {
                assert(r[i] == q[i]);
            }
        }
        if last.end_ms > last.start_ms {
            assert(r == q.push(last));
            assert forall|i: int, j: int| 0 <= i < j < r.len() implies (#[trigger] r[i]).end_ms <= (
            #[trigger] r[j]).start_ms by {
                assert(r[i] == q[i]);
                if j < q.len() {
                    assert(r[j] == q[j]);
                }
            }
            assert forall|i: int| 0 <= i < r.len() implies (#[trigger] r[i]).text.len() > 0 && r[i].start_ms
                < r[i].end_ms by {
                if i < q.len() {
                    assert(r[i] == q[i]);
                }
            }
        }
    }
}

proof fn lemma_in_order_texted(s: Seq<CueView>)
    requires
        texted(s),
    ensures
        texted(in_order(s)),
    decreases s.len(),
{
    if s.len() > 0 {
        let front = s.drop_last();
        assert forall|i: int| 0 <= i < front.len() implies (#[trigger] front[i]).text.len() > 0 by {
            assert(front[i] == s[i]);
        }
        lemma_in_order_texted(front);
        law_in_order(front);
        let q = in_order(front);
        lemma_put_in_order(q, s.last());
        let r = put_in(q, s.last());
        assert(s[s.len() - 1].text.len() > 0);
        assert forall|i: int| 0 <= i < r.len() implies (#[trigger] r[i]).text.len() > 0 by {
            if r[i] != s.last() {
                let k = choose|k: int| 0 <= k < q.len() && q[k] == r[i];
                assert(q[k].text.len() > 0);
            }
        }
    }
}

proof fn lemma_with_text(s: Seq<CueView>)
    ensures
        texted(with_text(s)),
    decreases s.len(),
{
    reveal(Seq::filter);
    if s.len() > 0 {
        lemma_with_text(s.drop_last());
        let q = with_text(s.drop_last());
        let r = with_text(s);
        assert forall|i: int| 0 <= i < r.len() implies (#[trigger] r[i]).text.len() > 0 by {
            if i < q.len() {
                assert(r[i] == q[i]);
            }
        }
    }
}

/// Law: normalised cues have text, last for some time and do not overlap.
pub proof fn law_normalized_tidy(s: Seq<CueView>)
    ensures
        tidy(normalized(s)),
{
    lemma_with_text(s);
    lemma_in_order_texted(with_text(s));
    law_in_order(with_text(s));
    lemma_chained(in_order(with_text(s)));
    lemma_lasting(chained(in_order(with_text(s))));
}

proof fn lemma_tidy_front(s: Seq<CueView>)
    requires
        tidy(s),
        s.len() > 0,
    ensures
        tidy(s.drop_last()),
{
    let front = s.drop_last();
    assert forall|i: int| 0 <= i < front.len() implies (#[trigger] front[i]).text.len() > 0
        && front[i].start_ms < front[i].end_ms by {
        assert(front[i] == s[i]);
    }
    assert forall|i: int, j: int| 0 <= i < j < front.len() implies (#[trigger] front[i]).end_ms <= (
    #[trigger] front[j]).start_ms by {
        assert(front[i] == s[i] && front[j] == s[j]);
    }
}

proof fn lemma_tidy_steps(s: Seq<CueView>)
    requires
        tidy(s),
    ensures
        with_text(s) == s,
        in_order(s) == s,
        chained(s) == s,
        lasting(s) == s,
    decreases s.len(),
{
    reveal(Seq::filter);
    if s.len() > 0 {
        let front = s.drop_last();
        lemma_tidy_front(s);
        lemma_tidy_steps(front);
        assert(s[s.len() - 1] == s.last());
        assert(s =~= front.push(s.last()));
        if front.len() > 0 {
            assert(s[s.len() - 2] == front.last());
            assert(front.last().end_ms <= s.last().start_ms);
            assert(front.last().start_ms < front.last().end_ms);
            assert(cut(front.last(), s.last().start_ms) == front.last());
            assert(front.drop_last().push(front.last()) =~= front);
        }
    } else {
        assert(s =~= Seq::empty());
    }
}

/// Tidy cues all have text.
pub proof fn lemma_tidy_texted(s: Seq<CueView>)
    requires
        tidy(s),
    ensures
        with_text(s) == s,
{
    lemma_tidy_steps(s);
}

/// Law: normalisation leaves cues as they are that have text, last and do not overlap.
pub proof fn law_normalized_fixed(s: Seq<CueView>)
    requires
        tidy(s),
    ensures
        normalized(s) == s,
{
    lemma_tidy_steps(s);
}

/// Law: normalising twice is normalising once.
pub proof fn law_normalized_twice(s: Seq<CueView>)
    ensures
        normalized(normalized(s)) == normalized(s),
{
    law_normalized_tidy(s);
    law_normalized_fixed(normalized(s));
}

} // verus!
