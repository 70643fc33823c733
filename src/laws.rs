use vstd::prelude::*;
use crate::node::NodeView;
use crate::tree::{
    spec_previous, spec_next, prev_scan, next_scan, starts, removed, spec_descendant, desc_end,
    lemma_run_end, child_route, ids_ok, child_plan, placed, prettied, pretty_node, pretty_doc, lead_tails,
    first_element, stripped, pad, repeat, spec_children, lemma_children_same, lemma_next_same,
    lemma_first_element, run_end, pick, heal, first_child_tail, lemma_pick_bounds, spec_parent, find_back, span,
};
use crate::text::{all_white, trimmed, lemma_trim_twice, lemma_trim_append_white, lemma_trim_white};

verus! {

proof fn lemma_prev_then_next(s: Seq<NodeView>, r: Seq<usize>, j: int, p: int)
    requires
        s.len() <= usize::MAX,
        0 <= p < s.len(),
        s[p].route == r,
        -1 <= j < p,
        forall|k: int| j < k < p ==> s[k].route != r && starts(s[k].route, r),
        prev_scan(s, r, j) is Some,
    ensures
        next_scan(s, r, prev_scan(s, r, j).unwrap() + 1) == Some(p as usize),
    decreases j + 1,
{
    if j >= 0 && s[j].route != r {
        lemma_prev_then_next(s, r, j - 1, p);
    } else if j >= 0 {
        lemma_scan_to(s, r, j + 1, p);
    }
}

proof fn lemma_scan_to(s: Seq<NodeView>, r: Seq<usize>, k: int, p: int)
    requires
        s.len() <= usize::MAX,
        0 <= k <= p < s.len(),
        s[p].route == r,
        forall|i: int| k <= i < p ==> s[i].route != r && starts(s[i].route, r),
    ensures
        next_scan(s, r, k) == Some(p as usize),
    decreases p - k,
{
    if k < p {
        lemma_scan_to(s, r, k + 1, p);
    }
}

proof fn lemma_next_then_prev(s: Seq<NodeView>, r: Seq<usize>, j: int, p: int)
    requires
        s.len() <= usize::MAX,
        0 <= p < j <= s.len(),
        s[p].route == r,
        forall|k: int| p < k < j ==> s[k].route != r && starts(s[k].route, r),
        next_scan(s, r, j) is Some,
    ensures
        prev_scan(s, r, next_scan(s, r, j).unwrap() - 1) == Some(p as usize),
    decreases s.len() - j,
{
    if j < s.len() && s[j].route != r {
        lemma_next_then_prev(s, r, j + 1, p);
    } else if j < s.len() {
        lemma_back_to(s, r, j - 1, p);
    }
}

proof fn lemma_back_to(s: Seq<NodeView>, r: Seq<usize>, k: int, p: int)
    requires
        s.len() <= usize::MAX,
        0 <= p <= k < s.len(),
        s[p].route == r,
        forall|i: int| p < i <= k ==> s[i].route != r && starts(s[i].route, r),
    ensures
        prev_scan(s, r, k) == Some(p as usize),
    decreases k - p,
{
    if k > p {
        lemma_back_to(s, r, k - 1, p);
    }
}

/// Sibling navigation is consistent: the next sibling of a node's previous
/// sibling is the node itself, and the previous sibling of its next sibling
/// is the node itself.
pub proof fn lemma_sibling_round_trip(s: Seq<NodeView>, p: int)
    requires
        s.len() <= usize::MAX,
        0 <= p < s.len(),
    ensures
        spec_previous(s, p) matches Some(q) ==> spec_next(s, q as int) == Some(p as usize),
        spec_next(s, p) matches Some(q) ==> spec_previous(s, q as int) == Some(p as usize),
{
    if spec_previous(s, p) is Some {
        lemma_prev_then_next(s, s[p].route, p - 1, p);
        crate::tree::lemma_prev_in(s, p);
    }
    if spec_next(s, p) is Some {
        lemma_next_then_prev(s, s[p].route, p + 1, p);
        crate::tree::lemma_next_in(s, p);
    }
}

/// Removing the node at `p` shortens the document by one plus the number of
/// its descendants, and no node with the id of a removed node is left.
pub proof fn lemma_remove_counts(s: Seq<NodeView>, p: int, indent: Seq<char>, count: usize)
    requires
        s.len() <= usize::MAX,
        0 <= p < s.len(),
        ids_ok(s, count),
    ensures
        removed(s, p, indent).len() == s.len() - 1 - spec_descendant(s, p).len(),
        forall|k: int, i: int|
            p <= k < desc_end(s, p) && 0 <= i < removed(s, p, indent).len() ==> #[trigger] removed(s, p, indent)[i].idx
                != #[trigger] s[k].idx,
{
    lemma_run_end(s, child_route(s, p), p + 1);
    crate::tree::lemma_remove_heal_ids(s, p, indent);
    let e = desc_end(s, p);
    let r = removed(s, p, indent);
    assert forall|k: int, i: int| p <= k < e && 0 <= i < r.len() implies #[trigger] r[i].idx != #[trigger] s[k].idx by {
        let i2 = if i < p { i } else { i + (e - p) };
        assert(r[i].idx == s[i2].idx);
    }
}

/// A node appended as last child of `p` lands at the returned position with
/// the given id and the route of a child of `p`.
pub proof fn lemma_child_placed(s: Seq<NodeView>, p: int, indent: Seq<char>, crlf: Seq<char>, n: NodeView, id: usize)
    requires
        s.len() <= usize::MAX,
        child_plan(s, p, indent, crlf) is Some,
    ensures
        ({
            let (s2, pl) = child_plan(s, p, indent, crlf).unwrap();
            &&& placed(s2, pl, n, id)[pl.0].route == child_route(s, p)
            &&& placed(s2, pl, n, id)[pl.0].idx == id
            &&& placed(s2, pl, n, id).len() == s.len() + 1
        }),
{
    lemma_run_end(s, child_route(s, p), p + 1);
}

proof fn lemma_repeat_white(x: Seq<char>, n: nat)
    requires
        all_white(x),
    ensures
        all_white(repeat(x, n)),
    decreases n,
{
    if n > 0 {
        lemma_repeat_white(x, (n - 1) as nat);
        let a = repeat(x, (n - 1) as nat);
        assert forall|i: int| 0 <= i < repeat(x, n).len() implies crate::text::white_space(#[trigger] repeat(x, n)[i]) by {
            if i < a.len() {
                assert(repeat(x, n)[i] == a[i]);
            } else {
                assert(repeat(x, n)[i] == x[i - a.len()]);
            }
        }
    }
}

proof fn lemma_pad_white(crlf: Seq<char>, indent: Seq<char>, n: int)
    requires
        all_white(crlf),
        all_white(indent),
    ensures
        all_white(pad(crlf, indent, n)),
{
    lemma_repeat_white(indent, n as nat);
    let r = repeat(indent, n as nat);
    assert forall|i: int| 0 <= i < pad(crlf, indent, n).len() implies crate::text::white_space(#[trigger] pad(crlf, indent, n)[i]) by {
        if i < crlf.len() {
            assert(pad(crlf, indent, n)[i] == crlf[i]);
        } else {
            assert(pad(crlf, indent, n)[i] == r[i - crlf.len()]);
        }
    }
}

/// Laying out nodes changes tails and texts only.
proof fn lemma_prettied_frame(s: Seq<NodeView>, p: int, level: int, crlf: Seq<char>, indent: Seq<char>)
    requires
        s.len() <= usize::MAX,
        0 <= p < s.len(),
    ensures
        prettied(s, p, level, crlf, indent).len() == s.len(),
        forall|k: int| 0 <= k < s.len() ==> {
            let q = #[trigger] prettied(s, p, level, crlf, indent)[k];
            q.route == s[k].route && q.idx == s[k].idx && q.localname == s[k].localname
        },
{
}

/// Laying out a subtree a second time, with the same white-space line
/// terminator and indent unit, changes nothing.
pub proof fn lemma_pretty_twice(s: Seq<NodeView>, p: int, level: int, crlf: Seq<char>, indent: Seq<char>)
    requires
        s.len() <= usize::MAX,
        0 <= p < s.len(),
        all_white(crlf),
        all_white(indent),
    ensures
        prettied(prettied(s, p, level, crlf, indent), p, level, crlf, indent) == prettied(s, p, level, crlf, indent),
{
    let q = prettied(s, p, level, crlf, indent);
    lemma_prettied_frame(s, p, level, crlf, indent);
    lemma_children_same(s, q, p);
    let e = desc_end(s, p);
    assert forall|k: int| 0 <= k < s.len() implies #[trigger] prettied(q, p, level, crlf, indent)[k] == q[k] by {
        if p <= k < e {
            lemma_children_same(s, q, k);
            lemma_next_same(s, q, k);
            let l = level + (s[k].route.len() - s[p].route.len());
            let a = pretty_node(q, p, k, level, crlf, indent);
            let b = pretty_node(s, p, k, level, crlf, indent);
            assert(q[k] == b);
            if spec_children(s, k).len() > 0 {
                lemma_pad_white(crlf, indent, l + 1);
                lemma_trim_append_white(s[k].text_or_empty(), pad(crlf, indent, l + 1));
            } else if !s[k].is_meta() {
                match s[k].text {
                    Some(t) => lemma_trim_twice(t),
                    None => {},
                }
            }
            assert(a.text == b.text);
            assert(a == b);
        }
    }
    assert(prettied(q, p, level, crlf, indent) =~= q);
}

/// Laying a document out a second time with the same white-space line
/// terminator and indent unit changes nothing.
pub proof fn lemma_pretty_doc_twice(s: Seq<NodeView>, crlf: Seq<char>, indent: Seq<char>)
    requires
        s.len() <= usize::MAX,
        all_white(crlf),
        all_white(indent),
    ensures
        pretty_doc(pretty_doc(s, crlf, indent), crlf, indent) == pretty_doc(s, crlf, indent),
{
    let s1 = lead_tails(s, crlf);
    let r = first_element(s, 0);
    lemma_first_element(s, 0);
    let d = pretty_doc(s, crlf, indent);
    lemma_first_element_same(s, s1, 0);
    if r < s1.len() {
        lemma_prettied_frame(s1, r, 0, crlf, indent);
        lemma_first_element_same(s1, d, 0);
        assert(lead_tails(d, crlf) =~= d) by {
            assert forall|k: int| 0 <= k < d.len() && k < r implies #[trigger] d[k].tail == crlf by {
                assert(d[k] == s1[k]);
            }
        }
        lemma_pretty_twice(s1, r, 0, crlf, indent);
    } else {
        lemma_first_element_same(s1, d, 0);
        assert(lead_tails(d, crlf) =~= d);
    }
}

proof fn lemma_first_element_same(a: Seq<NodeView>, b: Seq<NodeView>, i: int)
    requires
        a.len() == b.len(),
        forall|k: int| 0 <= k < a.len() ==> #[trigger] a[k].localname == b[k].localname,
    ensures
        first_element(a, i) == first_element(b, i),
    decreases a.len() - i,
{
    if 0 <= i < a.len() && a[i].is_meta() {
        lemma_first_element_same(a, b, i + 1);
    }
}

/// Dropping the layout right after laying a subtree out leaves no white
/// space between its tags: its tails are empty, and each text is what
/// trimming the text it had before gives.
pub proof fn lemma_noindent_after_pretty(s: Seq<NodeView>, p: int, level: int, crlf: Seq<char>, indent: Seq<char>)
    requires
        s.len() <= usize::MAX,
        0 <= p < s.len(),
        all_white(crlf),
        all_white(indent),
    ensures
        forall|k: int| p <= k < desc_end(s, p) ==> (#[trigger] stripped(prettied(s, p, level, crlf, indent))[k]).tail.len() == 0,
        forall|k: int| 0 <= k < s.len() && s[k].text is Some ==> (#[trigger] stripped(prettied(s, p, level, crlf, indent))[k]).text
            == stripped(s)[k].text,
{
    let q = prettied(s, p, level, crlf, indent);
    lemma_prettied_frame(s, p, level, crlf, indent);
    lemma_run_end(s, child_route(s, p), p + 1);
    let e = desc_end(s, p);
    assert forall|k: int| p <= k < e implies (#[trigger] stripped(q)[k]).tail.len() == 0 by {
        let l = level + (s[k].route.len() - s[p].route.len());
        lemma_pad_white(crlf, indent, l);
        lemma_pad_white(crlf, indent, l - 1);
        lemma_trim_white(q[k].tail);
    }
    assert forall|k: int| 0 <= k < s.len() && s[k].text is Some implies (#[trigger] stripped(q)[k]).text == stripped(s)[k].text by {
        if p <= k < e {
            let l = level + (s[k].route.len() - s[p].route.len());
            if spec_children(s, k).len() > 0 {
                lemma_pad_white(crlf, indent, l + 1);
                lemma_trim_append_white(s[k].text_or_empty(), pad(crlf, indent, l + 1));
            } else if !s[k].is_meta() {
                lemma_trim_twice(s[k].text.unwrap());
            }
        }
    }
}

proof fn lemma_run_end_at(t: Seq<NodeView>, r: Seq<usize>, i: int, j: int)
    requires
        0 <= i <= j <= t.len(),
        forall|k: int| i <= k < j ==> starts(#[trigger] t[k].route, r),
        j == t.len() || !starts(t[j].route, r),
    ensures
        run_end(t, r, i) == j,
    decreases j - i,
{
    if i < j {
        lemma_run_end_at(t, r, i + 1, j);
    }
}

proof fn lemma_pick_agree(s: Seq<NodeView>, t: Seq<NodeView>, r: Seq<usize>, lo: int, hi: int)
    requires
        0 <= lo,
        hi <= s.len(),
        hi <= t.len(),
        forall|k: int| lo <= k < hi ==> #[trigger] t[k].route == s[k].route,
    ensures
        pick(t, r, lo, hi) == pick(s, r, lo, hi),
    decreases hi - lo,
{
    if hi > lo {
        lemma_pick_agree(s, t, r, lo, hi - 1);
    }
}

/// No position of `[m, hi)` has route `r`, so they add nothing.
proof fn lemma_pick_none(t: Seq<NodeView>, r: Seq<usize>, lo: int, m: int, hi: int)
    requires
        lo <= m <= hi <= t.len(),
        forall|k: int| m <= k < hi ==> #[trigger] t[k].route != r,
    ensures
        pick(t, r, lo, hi) == pick(t, r, lo, m),
    decreases hi - m,
{
    if hi > m {
        lemma_pick_none(t, r, lo, m, hi - 1);
    }
}

/// An empty pick means no position in the range has the route.
proof fn lemma_pick_empty(s: Seq<NodeView>, r: Seq<usize>, lo: int, hi: int)
    requires
        0 <= lo,
        hi <= s.len(),
        pick(s, r, lo, hi).len() == 0,
    ensures
        forall|k: int| lo <= k < hi ==> #[trigger] s[k].route != r,
    decreases hi - lo,
{
    if hi > lo {
        if s[hi - 1].route == r {
            assert(pick(s, r, lo, hi).len() > 0);
        }
        lemma_pick_empty(s, r, lo, hi - 1);
    }
}

/// After a node is appended as last child of `p`, the children of `p` are
/// the former children followed by the new position.
pub proof fn lemma_child_appended(s: Seq<NodeView>, p: int, indent: Seq<char>, crlf: Seq<char>, n: NodeView, id: usize)
    requires
        s.len() < usize::MAX,
        child_plan(s, p, indent, crlf) is Some,
    ensures
        ({
            let (s2, pl) = child_plan(s, p, indent, crlf).unwrap();
            spec_children(placed(s2, pl, n, id), p) == spec_children(s, p).push(pl.0 as usize)
        }),
{
    let (s2, pl) = child_plan(s, p, indent, crlf).unwrap();
    let cr = child_route(s, p);
    let e = desc_end(s, p);
    lemma_run_end(s, cr, p + 1);
    crate::tree::lemma_children_bounds(s, p);
    let ch = spec_children(s, p);
    if ch.len() > 0 {
        crate::tree::lemma_prev_in(s, ch.last() as int);
        crate::tree::lemma_parent_in(s, ch.last() as int);
        lemma_pick_bounds(s, cr, p + 1, e);
    } else {
        crate::tree::lemma_prev_in(s, p);
        crate::tree::lemma_parent_in(s, p);
    }
    assert(s2.len() == s.len());
    assert(forall|k: int| 0 <= k < s.len() ==> #[trigger] s2[k].route == s[k].route && s2[k].idx == s[k].idx);
    let a = pl.0;
    let t = placed(s2, pl, n, id);
    assert(t.len() == s.len() + 1);
    assert(t[a].route == cr);
    assert(forall|k: int| 0 <= k < a ==> #[trigger] t[k] == s2[k]);
    assert(forall|k: int| a < k < t.len() ==> #[trigger] t[k] == s2[k - 1]);
    assert(child_route(t, p) == cr);
    if ch.len() > 0 {
        assert(a == e);
        assert forall|k: int| p + 1 <= k < e + 1 implies starts(#[trigger] t[k].route, cr) by {
            if k < e {
                assert(t[k].route == s[k].route);
            } else {
                assert(cr.subrange(0, cr.len() as int) =~= cr);
            }
        }
        if e + 1 < t.len() {
            assert(t[e + 1].route == s[e].route);
        }
        lemma_run_end_at(t, cr, p + 1, e + 1);
        lemma_pick_agree(s, t, cr, p + 1, e);
    } else {
        assert(a == p + 1);
        assert forall|k: int| p + 1 <= k < e + 1 implies starts(#[trigger] t[k].route, cr) by {
            if k > p + 1 {
                assert(t[k].route == s[k - 1].route);
            } else {
                assert(cr.subrange(0, cr.len() as int) =~= cr);
            }
        }
        if e + 1 < t.len() {
            assert(t[e + 1].route == s[e].route);
        }
        lemma_run_end_at(t, cr, p + 1, e + 1);
        lemma_pick_empty(s, cr, p + 1, e);
        assert forall|k: int| p + 2 <= k < e + 1 implies #[trigger] t[k].route != cr by {
            assert(t[k].route == s[k - 1].route);
        }
        lemma_pick_none(t, cr, p + 1, p + 2, e + 1);
        assert(pick(t, cr, p + 1, p + 1) == Seq::<usize>::empty());
        assert(pick(t, cr, p + 1, p + 2) =~= seq![(p + 1) as usize]);
        assert(ch.push(a as usize) =~= seq![(p + 1) as usize]);
    }
}

/// The `m`-th id in the route of `i` names an earlier node whose route is
/// the part before it, and every node from that one on up to `i` lies
/// inside it.
pub open spec fn encloses(s: Seq<NodeView>, i: int, m: int) -> bool {
    exists|j: int|
        #![trigger s[j]]
        0 <= j < i && s[j].route == s[i].route.subrange(0, m) && s[j].idx == s[i].route[m] && forall|k: int|
            j < k <= i ==> starts(#[trigger] s[k].route, s[i].route.subrange(0, m + 1))
}

/// Pre-order nesting: every id in every route is enclosing in that sense.
pub open spec fn nested(s: Seq<NodeView>) -> bool {
    forall|i: int, m: int| 0 <= i < s.len() && 0 <= m < s[i].route.len() ==> #[trigger] encloses(s, i, m)
}

proof fn lemma_find_back_at(s: Seq<NodeView>, r: Seq<usize>, j: int, q: int)
    requires
        s.len() <= usize::MAX,
        0 <= q <= j < s.len(),
        s[q].route == r,
        forall|k: int| q < k <= j ==> #[trigger] s[k].route != r,
    ensures
        find_back(s, r, j) == Some(q as usize),
    decreases j - q,
{
    if j > q {
        lemma_find_back_at(s, r, j - 1, q);
    }
}

proof fn lemma_pick_has(s: Seq<NodeView>, r: Seq<usize>, lo: int, hi: int, k: int)
    requires
        0 <= lo <= k < hi <= s.len(),
        hi <= usize::MAX,
        s[k].route == r,
    ensures
        pick(s, r, lo, hi).contains(k as usize),
    decreases hi - lo,
{
    if k == hi - 1 {
        assert(pick(s, r, lo, hi).last() == k as usize);
    } else {
        lemma_pick_has(s, r, lo, hi - 1, k);
        let q = pick(s, r, lo, hi - 1);
        let i = choose|i: int| 0 <= i < q.len() && q[i] == k as usize;
        if s[hi - 1].route == r {
            assert(pick(s, r, lo, hi)[i] == k as usize);
        } else {
            assert(pick(s, r, lo, hi)[i] == k as usize);
        }
    }
}

/// In a nested document, every node that has a parent is among that
/// parent's children.
pub proof fn lemma_parent_has_child(s: Seq<NodeView>, p: int)
    requires
        s.len() <= usize::MAX,
        0 <= p < s.len(),
        nested(s),
        spec_parent(s, p) is Some,
    ensures
        spec_children(s, spec_parent(s, p).unwrap() as int).contains(p as usize),
{
    let r = s[p].route;
    let m = r.len() - 1;
    let up = r.drop_last();
    assert(up =~= r.subrange(0, m));
    assert(0 <= m < s[p].route.len());
    assert(encloses(s, p, m));
    let j = choose|j: int|
        #![trigger s[j]]
        0 <= j < p && s[j].route == s[p].route.subrange(0, m) && s[j].idx == s[p].route[m] && forall|k: int|
            j < k <= p ==> starts(#[trigger] s[k].route, s[p].route.subrange(0, m + 1));
    assert(r.subrange(0, m + 1) =~= r);
    assert(child_route(s, j) =~= r);
    assert forall|k: int| j < k <= p - 1 implies #[trigger] s[k].route != up by {
        assert(starts(s[k].route, r));
    }
    lemma_find_back_at(s, up, p - 1, j);
    assert(spec_parent(s, p) == Some(j as usize));
    lemma_run_end(s, r, j + 1);
    assert forall|k: int| j + 1 <= k <= p implies starts(#[trigger] s[k].route, r) by {}
    lemma_run_end_past(s, r, j + 1, p);
    lemma_pick_has(s, r, j + 1, desc_end(s, j), p);
}

proof fn lemma_run_end_past(s: Seq<NodeView>, r: Seq<usize>, i: int, p: int)
    requires
        0 <= i <= p < s.len(),
        forall|k: int| i <= k <= p ==> starts(#[trigger] s[k].route, r),
    ensures
        run_end(s, r, i) > p,
    decreases p - i,
{
    if i < p {
        lemma_run_end_past(s, r, i + 1, p);
    } else {
        lemma_run_end(s, r, p + 1);
    }
}

proof fn lemma_span_has(lo: int, hi: int, k: int)
    requires
        0 <= lo <= k < hi <= usize::MAX,
    ensures
        span(lo, hi).contains(k as usize),
{
    assert(span(lo, hi)[k - lo] == k as usize);
}

/// In a nested document, the descendants of a node are its children and
/// the descendants of its children.
pub proof fn lemma_descendants_split(s: Seq<NodeView>, p: int, k: usize)
    requires
        s.len() <= usize::MAX,
        0 <= p < s.len(),
        nested(s),
    ensures
        spec_descendant(s, p).contains(k) <==> (spec_children(s, p).contains(k) || exists|c: usize|
            spec_children(s, p).contains(c) && #[trigger] spec_descendant(s, c as int).contains(k)),
{
    let cr = child_route(s, p);
    let e = desc_end(s, p);
    lemma_run_end(s, cr, p + 1);
    lemma_pick_bounds(s, cr, p + 1, e);
    let ch = spec_children(s, p);
    if spec_descendant(s, p).contains(k) {
        let x = choose|x: int| 0 <= x < spec_descendant(s, p).len() && spec_descendant(s, p)[x] == k;
        let ki = k as int;
        assert(p < ki < e);
        assert(starts(s[ki].route, cr));
        if s[ki].route == cr {
            lemma_pick_has(s, cr, p + 1, e, ki);
        } else {
            let m = cr.len() as int;
            if s[ki].route.len() == m {
                assert(s[ki].route =~= s[ki].route.subrange(0, m));
            }
            assert(m < s[ki].route.len());
            assert(s[ki].route.subrange(0, m) =~= cr);
            assert(encloses(s, ki, m));
            let j = choose|j: int|
                #![trigger s[j]]
                0 <= j < ki && s[j].route == s[ki].route.subrange(0, m) && s[j].idx == s[ki].route[m] && forall|q: int|
                    j < q <= ki ==> starts(#[trigger] s[q].route, s[ki].route.subrange(0, m + 1));
            if j <= p {
                assert(starts(s[p].route, s[ki].route.subrange(0, m + 1)) || j == p);
                if j == p {
                    assert(s[p].route == cr);
                }
            }
            assert(j > p);
            lemma_pick_has(s, cr, p + 1, e, j);
            let cj = child_route(s, j);
            assert(s[ki].route.subrange(0, m + 1) =~= cj);
            lemma_run_end(s, cj, j + 1);
            lemma_run_end_past(s, cj, j + 1, ki);
            lemma_span_has(j + 1, desc_end(s, j), ki);
            assert(spec_descendant(s, j as usize as int).contains(k));
        }
    }
    if ch.contains(k) {
        let x = choose|x: int| 0 <= x < ch.len() && ch[x] == k;
        lemma_span_has(p + 1, e, k as int);
    }
    if exists|c: usize| ch.contains(c) && #[trigger] spec_descendant(s, c as int).contains(k) {
        let c = choose|c: usize| ch.contains(c) && #[trigger] spec_descendant(s, c as int).contains(k);
        let y = choose|y: int| 0 <= y < ch.len() && ch[y] == c;
        let ci = c as int;
        assert(p < ci < e && s[ci].route == cr);
        let cc = child_route(s, ci);
        lemma_run_end(s, cc, ci + 1);
        let x = choose|x: int| 0 <= x < spec_descendant(s, ci).len() && spec_descendant(s, ci)[x] == k;
        let ki = k as int;
        assert(ci < ki < desc_end(s, ci));
        assert forall|q: int| p + 1 <= q <= ki implies starts(#[trigger] s[q].route, cr) by {
            if q > ci {
                assert(starts(s[q].route, cc));
                assert(cc.subrange(0, cr.len() as int) =~= cr);
                assert(s[q].route.subrange(0, cr.len() as int) =~= s[q].route.subrange(0, cc.len() as int).subrange(0, cr.len() as int));
            }
        }
        lemma_run_end_past(s, cr, p + 1, ki);
        lemma_span_has(p + 1, e, ki);
    }
}

/// The line terminators and the usual indent characters are white space,
/// so the layout laws hold for indents made of spaces and tabs.
pub proof fn lemma_layout_white(indent: Seq<char>)
    requires
        forall|i: int| 0 <= i < indent.len() ==> indent[i] == ' ' || indent[i] == '\t',
    ensures
        all_white(seq!['\n']),
        all_white(seq!['\r', '\n']),
        all_white(indent),
{
}

/// Dropping the layout right after laying a whole document out leaves no
/// white space between the tags of the meta nodes before the root and of
/// the root's subtree: their tails are empty; and every text is what
/// trimming the text it had before gives.
pub proof fn lemma_noindent_after_pretty_doc(s: Seq<NodeView>, crlf: Seq<char>, indent: Seq<char>)
    requires
        s.len() <= usize::MAX,
        all_white(crlf),
        all_white(indent),
    ensures
        forall|k: int|
            0 <= k < s.len() && (k < first_element(s, 0) || (first_element(s, 0) < s.len() && k < desc_end(
                s,
                first_element(s, 0),
            ))) ==> (#[trigger] stripped(pretty_doc(s, crlf, indent))[k]).tail.len() == 0,
        forall|k: int| 0 <= k < s.len() && s[k].text is Some ==> (#[trigger] stripped(pretty_doc(s, crlf, indent))[k]).text
            == stripped(s)[k].text,
{
    let s1 = lead_tails(s, crlf);
    let r = first_element(s, 0);
    lemma_first_element(s, 0);
    lemma_trim_white(crlf);
    let d = pretty_doc(s, crlf, indent);
    if r < s.len() {
        lemma_noindent_after_pretty(s1, r, 0, crlf, indent);
        assert(forall|k: int| 0 <= k < s.len() ==> #[trigger] s1[k].route == s[k].route && s1[k].idx == s[k].idx);
        lemma_children_same(s, s1, r);
        lemma_run_end(s, child_route(s, r), r + 1);
        lemma_prettied_frame(s1, r, 0, crlf, indent);
        assert forall|k: int| 0 <= k < s.len() && k < r implies (#[trigger] stripped(d)[k]).tail.len() == 0 by {
            assert(d[k] == s1[k]);
        }
        assert forall|k: int| 0 <= k < s.len() && s[k].text is Some implies (#[trigger] stripped(d)[k]).text
            == stripped(s)[k].text by {
            assert(s1[k].text == s[k].text);
            assert(stripped(s1)[k].text == stripped(s)[k].text);
        }
    } else {
        assert forall|k: int| 0 <= k < s.len() && k < r implies (#[trigger] stripped(d)[k]).tail.len() == 0 by {
            assert(d[k] == s1[k]);
        }
    }
}

/// Each child of `cs` followed by its descendants, in order.
pub open spec fn child_blocks(s: Seq<NodeView>, cs: Seq<usize>) -> Seq<usize>
    decreases cs.len(),
{
    if cs.len() == 0 {
        Seq::empty()
    } else {
        seq![cs[0]] + spec_descendant(s, cs[0] as int) + child_blocks(s, cs.drop_first())
    }
}

/// In a nested document, a node at `q` whose route is `cr` (a child of the
/// node whose children get `cr`) ends where the next such node, or the end
/// of the run of `cr`, starts.
proof fn lemma_block_end(s: Seq<NodeView>, cr: Seq<usize>, q: int, e: int)
    requires
        s.len() <= usize::MAX,
        nested(s),
        0 <= q < e <= s.len(),
        s[q].route == cr,
        forall|k: int| q <= k < e ==> starts(#[trigger] s[k].route, cr),
        e == s.len() || !starts(s[e].route, cr),
    ensures
        q < desc_end(s, q) <= e,
        desc_end(s, q) < e ==> s[desc_end(s, q)].route == cr,
        forall|k: int| q < k < desc_end(s, q) ==> #[trigger] s[k].route != cr,
{
    let cq = child_route(s, q);
    lemma_run_end(s, cq, q + 1);
    let d = desc_end(s, q);
    assert forall|k: int| q < k < d implies #[trigger] s[k].route != cr by {
        assert(starts(s[k].route, cq));
    }
    if d > e {
        assert(e < s.len());
        assert(starts(s[e].route, cq));
        assert(s[e].route.subrange(0, cr.len() as int) =~= s[e].route.subrange(0, cq.len() as int).subrange(0, cr.len() as int));
        assert(cq.subrange(0, cr.len() as int) =~= cr);
    }
    if d < e {
        let x = s[d].route;
        assert(starts(x, cr));
        if x != cr {
            let m = cr.len() as int;
            if x.len() == m {
                assert(x =~= x.subrange(0, m));
            }
            assert(encloses(s, d, m));
            let j = choose|j: int|
                #![trigger s[j]]
                0 <= j < d && s[j].route == x.subrange(0, m) && s[j].idx == x[m] && forall|k: int|
                    j < k <= d ==> starts(#[trigger] s[k].route, x.subrange(0, m + 1));
            assert(x.subrange(0, m) =~= cr);
            if j == q {
                assert(x.subrange(0, m + 1) =~= cq);
            } else if j < q {
                assert(starts(s[q].route, x.subrange(0, m + 1)));
            } else {
                assert(starts(s[j].route, cq));
            }
        }
    }
}

proof fn lemma_blocks_from(s: Seq<NodeView>, cr: Seq<usize>, lo: int, q: int, e: int)
    requires
        s.len() <= usize::MAX,
        nested(s),
        0 <= lo <= q <= e <= s.len(),
        forall|k: int| lo <= k < e ==> starts(#[trigger] s[k].route, cr),
        e == s.len() || !starts(s[e].route, cr),
        q == e || s[q].route == cr,
    ensures
        span(q, e) == child_blocks(s, pick(s, cr, q, e)),
    decreases e - q,
{
    if q == e {
        assert(span(q, e) =~= Seq::<usize>::empty());
        assert(pick(s, cr, q, e) == Seq::<usize>::empty());
    } else {
        lemma_block_end(s, cr, q, e);
        let d = desc_end(s, q);
        lemma_blocks_from(s, cr, lo, d, e);
        lemma_pick_split(s, cr, q, d, e);
        let ps = pick(s, cr, q, e);
        assert(ps[0] == q as usize);
        assert(ps.drop_first() =~= pick(s, cr, d, e));
        assert(spec_descendant(s, q) == span(q + 1, d));
        assert(span(q, e) =~= seq![q as usize] + span(q + 1, d) + span(d, e));
    }
}

/// The positions with route `cr` in `[q, e)`: `q` itself, then those in
/// `[d, e)` when none lies in `(q, d)`.
proof fn lemma_pick_split(s: Seq<NodeView>, cr: Seq<usize>, q: int, d: int, e: int)
    requires
        s.len() <= usize::MAX,
        0 <= q < d <= e <= s.len(),
        s[q].route == cr,
        forall|k: int| q < k < d ==> #[trigger] s[k].route != cr,
    ensures
        pick(s, cr, q, e) == seq![q as usize] + pick(s, cr, d, e),
    decreases e - d,
{
    if e > d {
        lemma_pick_split(s, cr, q, d, e - 1);
        if s[e - 1].route == cr {
            assert(pick(s, cr, q, e) =~= seq![q as usize] + pick(s, cr, d, e));
        }
    } else {
        lemma_pick_front(s, cr, q, d);
        assert(pick(s, cr, d, d) == Seq::<usize>::empty());
        assert(seq![q as usize] + Seq::<usize>::empty() =~= seq![q as usize]);
    }
}

proof fn lemma_pick_front(s: Seq<NodeView>, cr: Seq<usize>, q: int, d: int)
    requires
        s.len() <= usize::MAX,
        0 <= q < d <= s.len(),
        s[q].route == cr,
        forall|k: int| q < k < d ==> #[trigger] s[k].route != cr,
    ensures
        pick(s, cr, q, d) == seq![q as usize],
    decreases d - q,
{
    if d > q + 1 {
        lemma_pick_front(s, cr, q, d - 1);
    } else {
        assert(pick(s, cr, q, q) == Seq::<usize>::empty());
        assert(Seq::<usize>::empty().push(q as usize) =~= seq![q as usize]);
    }
}

/// In a nested document, the descendants of a node are, in order, each of
/// its children followed by that child's descendants.
pub proof fn lemma_descendants_in_order(s: Seq<NodeView>, p: int)
    requires
        s.len() <= usize::MAX,
        nested(s),
        0 <= p < s.len(),
    ensures
        spec_descendant(s, p) == child_blocks(s, spec_children(s, p)),
{
    let cr = child_route(s, p);
    let e = desc_end(s, p);
    lemma_run_end(s, cr, p + 1);
    if p + 1 < e {
        let x = s[p + 1].route;
        assert(starts(x, cr));
        if x != cr {
            let m = cr.len() as int;
            if x.len() == m {
                assert(x =~= x.subrange(0, m));
            }
            assert(encloses(s, p + 1, m));
            let j = choose|j: int|
                #![trigger s[j]]
                0 <= j < p + 1 && s[j].route == x.subrange(0, m) && s[j].idx == x[m] && forall|k: int|
                    j < k <= p + 1 ==> starts(#[trigger] s[k].route, x.subrange(0, m + 1));
            assert(x.subrange(0, m) =~= cr);
            if j < p {
                assert(starts(s[p].route, x.subrange(0, m + 1)));
            }
        }
    }
    lemma_blocks_from(s, cr, p + 1, p + 1, e);
}

} // verus!
