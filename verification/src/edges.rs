//! Edges between entries of a node table, before they are given names.
//!
//! The candidates are the connections of the table whose two ends are both
//! positioned. Pairing takes them one by one and joins each with a candidate
//! that runs the opposite way, where there is one left.

use vstd::prelude::*;
use crate::logic::{lemma_positioned_below, positioned, positioned_indices, LogicNodeView};

verus! {

/// A connection of the table that can be drawn: where it starts and where it
/// ends, both as table indices.
pub type Candidate = (usize, usize);

/// What one or two candidates are drawn as.
pub struct Edge {
    pub start: usize,
    pub end: usize,
    /// `false` when a candidate from `end` to `start` was joined with this one.
    pub unidirectional: bool,
}

/// The candidates among the first `k` connections of the entry `start`.
pub open spec fn candidates_of<P>(table: Seq<LogicNodeView<P>>, start: usize, k: nat) -> Seq<
    Candidate,
>
    decreases k,
{
    if k == 0 {
        Seq::empty()
    } else {
        let before = candidates_of(table, start, (k - 1) as nat);
        let end = table[start as int].targets[k - 1];
        if positioned(table, end as int) {
            before.push((start, end))
        } else {
            before
        }
    }
}

/// The candidates that start at one of the first `n` selected entries. Only
/// anchors have any.
pub open spec fn candidates_below<P>(
    table: Seq<LogicNodeView<P>>,
    selected: Seq<usize>,
    n: nat,
) -> Seq<Candidate>
    decreases n,
{
    if n == 0 {
        Seq::empty()
    } else {
        let before = candidates_below(table, selected, (n - 1) as nat);
        let start = selected[n - 1];
        if start < table.len() && table[start as int].anchor {
            before + candidates_of(table, start, table[start as int].targets.len())
        } else {
            before
        }
    }
}

/// All candidates that start at a selected entry, in the order of the
/// selection and, for one entry, of its connections.
pub open spec fn candidates<P>(table: Seq<LogicNodeView<P>>, selected: Seq<usize>) -> Seq<
    Candidate,
> {
    candidates_below(table, selected, selected.len())
}

/// The least index at which `needle` stands in `s`, or the length of `s` if it
/// stands nowhere.
pub open spec fn first_index(s: Seq<Candidate>, needle: Candidate) -> int
    decreases s.len(),
{
    if s.len() == 0 {
        0
    } else {
        let i = first_index(s.drop_last(), needle);
        if i < s.len() - 1 {
            i
        } else if s.last() == needle {
            s.len() - 1
        } else {
            s.len() as int
        }
    }
}

/// The candidate that runs the opposite way.
pub open spec fn reversed(c: Candidate) -> Candidate {
    (c.1, c.0)
}

/// Among the candidates before the last, one runs opposite to the last.
pub open spec fn has_partner(c: Seq<Candidate>) -> bool {
    0 <= first_index(c.drop_last(), reversed(c.last())) < c.len() - 1
}

/// What taking the last candidate leaves: the candidates before it, without
/// the first of them that runs opposite to it.
pub open spec fn remaining(c: Seq<Candidate>) -> Seq<Candidate> {
    if has_partner(c) {
        c.drop_last().remove(first_index(c.drop_last(), reversed(c.last())))
    } else {
        c.drop_last()
    }
}

/// The edge that the last candidate is drawn as.
pub open spec fn taken(c: Seq<Candidate>) -> Edge {
    Edge { start: c.last().0, end: c.last().1, unidirectional: !has_partner(c) }
}

/// Pairs the candidates up. The last candidate is taken first; the first
/// candidate left that runs the opposite way, if any, is taken with it.
pub open spec fn paired(c: Seq<Candidate>) -> Seq<Edge>
    decreases c.len(),
{
    if c.len() == 0 {
        Seq::empty()
    } else {
        seq![taken(c)] + paired(remaining(c))
    }
}

/// The edges that a table is drawn with.
pub open spec fn derived_edges<P>(table: Seq<LogicNodeView<P>>) -> Seq<Edge> {
    paired(candidates(table, positioned_indices(table)))
}

/// `first_index` is in range, finds the needle, and nothing before it is the
/// needle.
pub proof fn lemma_first_index(s: Seq<Candidate>, needle: Candidate)
    ensures
        0 <= first_index(s, needle) <= s.len(),
        first_index(s, needle) < s.len() ==> s[first_index(s, needle)] == needle,
        forall|i: int| 0 <= i < first_index(s, needle) ==> s[i] != needle,
    decreases s.len(),
{
    if s.len() > 0 {
        let front = s.drop_last();
        lemma_first_index(front, needle);
        assert forall|i: int| 0 <= i < first_index(s, needle) implies s[i] != needle by {
            if i < front.len() {
                assert(front[i] == s[i]);
            }
        }
    }
}

/// An index that holds the needle, with nothing before it that does, is the
/// first index.
pub proof fn lemma_first_index_is(s: Seq<Candidate>, needle: Candidate, j: int)
    requires
        0 <= j <= s.len(),
        j < s.len() ==> s[j] == needle,
        forall|i: int| 0 <= i < j ==> s[i] != needle,
    ensures
        first_index(s, needle) == j,
{
    lemma_first_index(s, needle);
}

/// The candidate stands at one index of `c` at most.
pub open spec fn at_most_once(c: Seq<Candidate>, x: Candidate) -> bool {
    forall|i: int, j: int| 0 <= i < c.len() && 0 <= j < c.len() && c[i] == x && c[j] == x ==> i == j
}

/// The edge runs between `a` and `b`, one way or the other.
pub open spec fn joins(edge: Edge, a: usize, b: usize) -> bool {
    (edge.start == a && edge.end == b) || (edge.start == b && edge.end == a)
}

/// The edge at index `k` runs between `a` and `b`, and no other edge does.
pub open spec fn only_edge_between(edges: Seq<Edge>, k: int, a: usize, b: usize) -> bool {
    0 <= k < edges.len() && joins(edges[k], a, b) && forall|j: int|
        0 <= j < edges.len() && joins(#[trigger] edges[j], a, b) ==> j == k
}

/// What taking the last candidate leaves, seen from one candidate `x`.
pub proof fn lemma_remaining(c: Seq<Candidate>, x: Candidate)
    requires
        c.len() > 0,
    ensures
        remaining(c).len() < c.len(),
        has_partner(c) <==> c.drop_last().contains(reversed(c.last())),
        remaining(c).contains(x) ==> c.drop_last().contains(x),
        x != reversed(c.last()) && c.drop_last().contains(x) ==> remaining(c).contains(x),
        at_most_once(c, x) ==> at_most_once(remaining(c), x),
        at_most_once(c, x) && x == c.last() ==> !remaining(c).contains(x),
        at_most_once(c, x) && x == reversed(c.last()) ==> !remaining(c).contains(x),
{
    let rest = c.drop_last();
    let back = reversed(c.last());
    let j = first_index(rest, back);
    let left = remaining(c);
    lemma_first_index(rest, back);
    if rest.contains(back) {
        let i = choose|i: int| 0 <= i < rest.len() && rest[i] == back;
        assert(j <= i);
    }
    if has_partner(c) {
        assert(left.len() == rest.len() - 1);
        assert forall|i: int| 0 <= i < left.len() implies left[i] == rest[if i < j {
            i
        } else {
            i + 1
        }] by {}
        if left.contains(x) {
            let i = choose|i: int| 0 <= i < left.len() && left[i] == x;
            let from = if i < j {
                i
            } else {
                i + 1
            };
            assert(rest[from] == x);
        }
        if x != back && rest.contains(x) {
            let i = choose|i: int| 0 <= i < rest.len() && rest[i] == x;
            let to = if i < j {
                i
            } else {
                i - 1
            };
            assert(left[to] == x);
        }
        if at_most_once(c, x) {
            assert forall|i: int, k: int|
                0 <= i < left.len() && 0 <= k < left.len() && left[i] == x && left[k]
                    == x implies i == k by {
                let from_i = if i < j {
                    i
                } else {
                    i + 1
                };
                let from_k = if k < j {
                    k
                } else {
                    k + 1
                };
                assert(c[from_i] == x && c[from_k] == x);
            }
            if left.contains(x) {
                let i = choose|i: int| 0 <= i < left.len() && left[i] == x;
                let from = if i < j {
                    i
                } else {
                    i + 1
                };
                assert(c[from] == x);
                assert(c[j] == back);
                assert(c[c.len() - 1] == c.last());
            }
        }
    } else {
        if x != back && rest.contains(x) {
            let i = choose|i: int| 0 <= i < rest.len() && rest[i] == x;
            assert(left[i] == x);
        }
        if at_most_once(c, x) {
            assert forall|i: int, k: int|
                0 <= i < left.len() && 0 <= k < left.len() && left[i] == x && left[k]
                    == x implies i == k by {
                assert(c[i] == x && c[k] == x);
            }
            if left.contains(x) {
                let i = choose|i: int| 0 <= i < left.len() && left[i] == x;
                assert(c[i] == x);
                assert(c[c.len() - 1] == c.last());
            }
        }
    }
}

/// Every edge was a candidate, and an edge that goes both ways was a candidate
/// in both directions.
pub proof fn lemma_paired_from_candidates(c: Seq<Candidate>)
    ensures
        paired(c).len() <= c.len(),
        forall|k: int|
            0 <= k < paired(c).len() ==> c.contains(
                ((#[trigger] paired(c)[k]).start, paired(c)[k].end),
            ) && (!paired(c)[k].unidirectional ==> c.contains(
                (paired(c)[k].end, paired(c)[k].start),
            )),
    decreases c.len(),
{
    if c.len() > 0 {
        let left = remaining(c);
        let back = reversed(c.last());
        lemma_remaining(c, back);
        lemma_paired_from_candidates(left);
        assert(c[c.len() - 1] == c.last());
        assert forall|k: int| 0 <= k < paired(c).len() implies c.contains(
            ((#[trigger] paired(c)[k]).start, paired(c)[k].end),
        ) && (!paired(c)[k].unidirectional ==> c.contains(
            (paired(c)[k].end, paired(c)[k].start),
        )) by {
            if k == 0 {
                if has_partner(c) {
                    let i = choose|i: int| 0 <= i < c.drop_last().len() && c.drop_last()[i] == back;
                    assert(c[i] == back);
                }
            } else {
                let edge = paired(left)[k - 1];
                assert(paired(c)[k] == edge);
                let there = (edge.start, edge.end);
                lemma_remaining(c, there);
                let i = choose|i: int| 0 <= i < c.drop_last().len() && c.drop_last()[i] == there;
                assert(c[i] == there);
                if !edge.unidirectional {
                    let back_there = (edge.end, edge.start);
                    lemma_remaining(c, back_there);
                    let i2 = choose|i: int|
                        0 <= i < c.drop_last().len() && c.drop_last()[i] == back_there;
                    assert(c[i2] == back_there);
                }
            }
        }
    }
}

/// Where a candidate from `a` to `b` stands once, and a candidate from `b` to
/// `a` once at most, exactly one edge runs between `a` and `b`. It goes both
/// ways if and only if `a` and `b` differ and the opposite candidate is there
/// too; if it goes one way only, it goes from `a` to `b`.
pub proof fn lemma_paired_between(c: Seq<Candidate>, a: usize, b: usize)
    requires
        c.contains((a, b)),
        at_most_once(c, (a, b)),
        at_most_once(c, (b, a)),
    ensures
        exists|k: int|
            #[trigger] only_edge_between(paired(c), k, a, b) && (paired(c)[k].unidirectional <==> a
                == b || !c.contains((b, a))) && (paired(c)[k].unidirectional ==> paired(c)[k].start
                == a && paired(c)[k].end == b),
    decreases c.len(),
{
    let there = (a, b);
    let back = (b, a);
    let rest = c.drop_last();
    let left = remaining(c);
    let edges = paired(c);
    assert(c.len() > 0);
    assert(c[c.len() - 1] == c.last());
    lemma_remaining(c, there);
    lemma_remaining(c, back);
    lemma_paired_from_candidates(left);
    if joins(taken(c), a, b) {
        assert(!left.contains(there) && !left.contains(back));
        assert forall|j: int| 0 <= j < edges.len() && joins(#[trigger] edges[j], a, b) implies j
            == 0 by {
            if j > 0 {
                assert(edges[j] == paired(left)[j - 1]);
            }
        }
        if c.last() == there {
            if a != b && c.contains(back) {
                let i = choose|i: int| 0 <= i < c.len() && c[i] == back;
                assert(rest[i] == back);
            }
            if rest.contains(back) {
                let i = choose|i: int| 0 <= i < rest.len() && rest[i] == back;
                assert(c[i] == back);
            }
        } else {
            let i = choose|i: int| 0 <= i < c.len() && c[i] == there;
            assert(rest[i] == there);
        }
        assert(only_edge_between(edges, 0, a, b));
    } else {
        let i = choose|i: int| 0 <= i < c.len() && c[i] == there;
        assert(rest[i] == there);
        lemma_paired_between(left, a, b);
        let k = choose|k: int|
            #[trigger] only_edge_between(paired(left), k, a, b) && (paired(left)[k].unidirectional
                <==> a == b || !left.contains(back)) && (paired(left)[k].unidirectional ==> paired(
                left,
            )[k].start == a && paired(left)[k].end == b);
        assert(edges[k + 1] == paired(left)[k]);
        if c.contains(back) {
            let i2 = choose|i: int| 0 <= i < c.len() && c[i] == back;
            assert(rest[i2] == back);
        }
        if left.contains(back) {
            let i3 = choose|i: int| 0 <= i < rest.len() && rest[i] == back;
            assert(c[i3] == back);
        }
        assert forall|j: int| 0 <= j < edges.len() && joins(#[trigger] edges[j], a, b) implies j
            == k + 1 by {
            if j > 0 {
                assert(edges[j] == paired(left)[j - 1]);
            }
        }
        assert(only_edge_between(edges, k + 1, a, b));
    }
}

/// The entry `a` names `b` at one place of its connections at most.
pub open spec fn names_at_most_once<P>(table: Seq<LogicNodeView<P>>, a: usize, b: usize) -> bool {
    forall|s: int, t: int|
        0 <= s < table[a as int].targets.len() && 0 <= t < table[a as int].targets.len()
            && table[a as int].targets[s] == b && table[a as int].targets[t] == b ==> s == t
}

/// The table holds a connection from `a` to `b` that can be drawn: `a` is an
/// anchor, it names `b` among its connections, and both have a position.
pub open spec fn has_edge<P>(table: Seq<LogicNodeView<P>>, a: usize, b: usize) -> bool {
    positioned(table, a as int) && table[a as int].anchor && positioned(table, b as int)
        && table[a as int].targets.contains(b)
}

/// The candidates of one entry: each starts there, `b` is the end of one if
/// and only if it is positioned and named among the first `k` connections, and
/// a target that is named once is the end of one candidate at most.
pub proof fn lemma_candidates_of<P>(table: Seq<LogicNodeView<P>>, start: usize, k: nat, b: usize)
    requires
        k <= table[start as int].targets.len(),
    ensures
        forall|i: int|
            0 <= i < candidates_of(table, start, k).len() ==> (#[trigger] candidates_of(
                table,
                start,
                k,
            )[i]).0 == start,
        candidates_of(table, start, k).contains((start, b)) <==> positioned(table, b as int)
            && table[start as int].targets.take(k as int).contains(b),
        names_at_most_once(table, start, b) ==> at_most_once(
            candidates_of(table, start, k),
            (start, b),
        ),
    decreases k,
{
    let targets = table[start as int].targets;
    let now = candidates_of(table, start, k);
    if k == 0 {
        assert(!targets.take(0).contains(b));
    } else {
        let before = candidates_of(table, start, (k - 1) as nat);
        let end = targets[k - 1];
        lemma_candidates_of(table, start, (k - 1) as nat, b);
        let front = targets.take(k - 1);
        let upto = targets.take(k as int);
        assert(upto[k - 1] == end);
        if front.contains(b) {
            let t = choose|t: int| 0 <= t < front.len() && front[t] == b;
            assert(upto[t] == b);
        }
        if upto.contains(b) {
            let t = choose|t: int| 0 <= t < upto.len() && upto[t] == b;
            if t < k - 1 {
                assert(front[t] == b);
            }
        }
        if positioned(table, end as int) {
            assert(now == before.push((start, end)));
            assert(now[now.len() - 1] == (start, end));
            if before.contains((start, b)) {
                let i = choose|i: int| 0 <= i < before.len() && before[i] == (start, b);
                assert(now[i] == (start, b));
            }
            if now.contains((start, b)) {
                let i = choose|i: int| 0 <= i < now.len() && now[i] == (start, b);
                if i < before.len() {
                    assert(before[i] == (start, b));
                }
            }
            if names_at_most_once(table, start, b) {
                assert forall|i: int, j: int|
                    0 <= i < now.len() && 0 <= j < now.len() && now[i] == (start, b) && now[j] == (
                        start,
                        b,
                    ) implies i == j by {
                    if i < before.len() && j < before.len() {
                        assert(before[i] == now[i] && before[j] == now[j]);
                    } else {
                        assert(end == b);
                        if before.contains((start, b)) {
                            let t = choose|t: int| 0 <= t < front.len() && front[t] == b;
                            assert(targets[t] == b && targets[k - 1] == b);
                        }
                        if i < before.len() {
                            assert(before[i] == (start, b));
                        }
                        if j < before.len() {
                            assert(before[j] == (start, b));
                        }
                    }
                }
            }
        }
    }
}

/// The candidates of a selection that rises strictly: a candidate runs from
/// `a` to `b` if and only if `a` is a selected anchor that names the positioned
/// entry `b`, and it does so once at most where `a` names `b` once at most.
pub proof fn lemma_candidates_below<P>(
    table: Seq<LogicNodeView<P>>,
    selected: Seq<usize>,
    n: nat,
    a: usize,
    b: usize,
)
    requires
        n <= selected.len(),
        forall|i: int, j: int| 0 <= i < j < selected.len() ==> selected[i] < selected[j],
    ensures
        candidates_below(table, selected, n).contains((a, b)) <==> selected.take(n as int).contains(
            a,
        ) && a < table.len() && table[a as int].anchor && positioned(table, b as int)
            && table[a as int].targets.contains(b),
        names_at_most_once(table, a, b) ==> at_most_once(
            candidates_below(table, selected, n),
            (a, b),
        ),
    decreases n,
{
    let now = candidates_below(table, selected, n);
    if n == 0 {
        assert(!selected.take(0).contains(a));
    } else {
        let before = candidates_below(table, selected, (n - 1) as nat);
        let start = selected[n - 1];
        lemma_candidates_below(table, selected, (n - 1) as nat, a, b);
        let front = selected.take(n - 1);
        let upto = selected.take(n as int);
        if front.contains(a) {
            let m = choose|m: int| 0 <= m < front.len() && front[m] == a;
            assert(upto[m] == a);
            assert(selected[m] < selected[n - 1]);
        }
        if upto.contains(a) {
            let m = choose|m: int| 0 <= m < upto.len() && upto[m] == a;
            if m < n - 1 {
                assert(front[m] == a);
            }
        }
        if start == a {
            assert(upto[n - 1] == a);
        }
        if start < table.len() && table[start as int].anchor {
            let targets = table[start as int].targets;
            let added = candidates_of(table, start, targets.len());
            lemma_candidates_of(table, start, targets.len(), b);
            assert(targets.take(targets.len() as int) =~= targets);
            assert(now == before + added);
            if before.contains((a, b)) {
                let i = choose|i: int| 0 <= i < before.len() && before[i] == (a, b);
                assert(now[i] == (a, b));
            }
            if added.contains((a, b)) {
                let i = choose|i: int| 0 <= i < added.len() && added[i] == (a, b);
                assert(now[before.len() + i] == (a, b));
            }
            if now.contains((a, b)) {
                let i = choose|i: int| 0 <= i < now.len() && now[i] == (a, b);
                if i < before.len() {
                    assert(before[i] == (a, b));
                } else {
                    assert(added[i - before.len()] == (a, b));
                }
            }
            if names_at_most_once(table, a, b) {
                assert forall|i: int, j: int|
                    0 <= i < now.len() && 0 <= j < now.len() && now[i] == (a, b) && now[j] == (
                        a,
                        b,
                    ) implies i == j by {
                    if i < before.len() {
                        assert(before[i] == (a, b));
                    } else {
                        assert(added[i - before.len()] == (a, b));
                    }
                    if j < before.len() {
                        assert(before[j] == (a, b));
                    } else {
                        assert(added[j - before.len()] == (a, b));
                    }
                }
            }
        }
    }
}

/// The candidates of a whole table are its connections that can be drawn, and
/// a connection that the table names once is a candidate once.
pub proof fn lemma_candidates<P>(table: Seq<LogicNodeView<P>>, a: usize, b: usize)
    requires
        table.len() <= usize::MAX,
    ensures
        candidates(table, positioned_indices(table)).contains((a, b)) <==> has_edge(table, a, b),
        names_at_most_once(table, a, b) ==> at_most_once(
            candidates(table, positioned_indices(table)),
            (a, b),
        ),
{
    let selected = positioned_indices(table);
    lemma_positioned_below(table, table.len());
    lemma_candidates_below(table, selected, selected.len(), a, b);
    assert(selected.take(selected.len() as int) =~= selected);
    if selected.contains(a) {
        let k = choose|k: int| 0 <= k < selected.len() && selected[k] == a;
        assert(positioned(table, selected[k] as int));
    }
    if positioned(table, a as int) {
        let k = choose|k: int| 0 <= k < selected.len() && #[trigger] selected[k] == a as int;
        assert(selected[k] == a);
    }
}

} // verus!
