use vstd::prelude::*;
use vstd::string::*;
use std::collections::HashMap;
use crate::node::{ETreeNode, NodeView, opt_view, copy_ids, copy_string_opt};
use crate::text::{same_str, is_suffix_of, ends_with, trim, trimmed};

verus! {

broadcast use vstd::std_specs::hash::group_hash_axioms;

/// Whether sequence `p` is a prefix of `s`.
pub open spec fn starts(s: Seq<usize>, p: Seq<usize>) -> bool {
    p.len() <= s.len() && s.subrange(0, p.len() as int) == p
}

/// Route given to the children of the node at `p`.
pub open spec fn child_route(s: Seq<NodeView>, p: int) -> Seq<usize> {
    s[p].route.push(s[p].idx)
}

/// End of the run of positions from `i` whose routes start with `r`.
pub open spec fn run_end(s: Seq<NodeView>, r: Seq<usize>, i: int) -> int
    decreases s.len() - i,
{
    if 0 <= i < s.len() && starts(s[i].route, r) {
        run_end(s, r, i + 1)
    } else {
        i
    }
}

/// One past the last descendant of `p` (its descendants are contiguous).
pub open spec fn desc_end(s: Seq<NodeView>, p: int) -> int {
    run_end(s, child_route(s, p), p + 1)
}

/// Positions in `[lo, hi)` whose route is exactly `r`, in order.
pub open spec fn pick(s: Seq<NodeView>, r: Seq<usize>, lo: int, hi: int) -> Seq<usize>
    decreases hi - lo,
{
    if hi <= lo {
        Seq::empty()
    } else if s[hi - 1].route == r {
        pick(s, r, lo, hi - 1).push((hi - 1) as usize)
    } else {
        pick(s, r, lo, hi - 1)
    }
}

/// The consecutive positions `[lo, hi)`.
pub open spec fn span(lo: int, hi: int) -> Seq<usize> {
    Seq::new((hi - lo) as nat, |k: int| (lo + k) as usize)
}

pub open spec fn spec_children(s: Seq<NodeView>, p: int) -> Seq<usize> {
    if 0 <= p < s.len() {
        pick(s, child_route(s, p), p + 1, desc_end(s, p))
    } else {
        Seq::empty()
    }
}

pub open spec fn spec_descendant(s: Seq<NodeView>, p: int) -> Seq<usize> {
    if 0 <= p < s.len() {
        span(p + 1, desc_end(s, p))
    } else {
        Seq::empty()
    }
}

/// Scans backwards from `j` for a position with route `r`, giving up at the
/// first route that does not start with `r`.
pub open spec fn prev_scan(s: Seq<NodeView>, r: Seq<usize>, j: int) -> Option<usize>
    decreases j + 1,
{
    if j < 0 || j >= s.len() {
        None
    } else if s[j].route == r {
        Some(j as usize)
    } else if !starts(s[j].route, r) {
        None
    } else {
        prev_scan(s, r, j - 1)
    }
}

/// Scans forwards from `j` for a position with route `r`, giving up at the
/// first route that does not start with `r`.
pub open spec fn next_scan(s: Seq<NodeView>, r: Seq<usize>, j: int) -> Option<usize>
    decreases s.len() - j,
{
    if j < 0 || j >= s.len() {
        None
    } else if s[j].route == r {
        Some(j as usize)
    } else if !starts(s[j].route, r) {
        None
    } else {
        next_scan(s, r, j + 1)
    }
}

/// Scans backwards from `j` for a position with route `r`.
pub open spec fn find_back(s: Seq<NodeView>, r: Seq<usize>, j: int) -> Option<usize>
    decreases j + 1,
{
    if j < 0 || j >= s.len() {
        None
    } else if s[j].route == r {
        Some(j as usize)
    } else {
        find_back(s, r, j - 1)
    }
}

pub open spec fn spec_previous(s: Seq<NodeView>, p: int) -> Option<usize> {
    if p <= 0 || p >= s.len() {
        None
    } else {
        prev_scan(s, s[p].route, p - 1)
    }
}

pub open spec fn spec_next(s: Seq<NodeView>, p: int) -> Option<usize> {
    if p < 0 || p + 1 >= s.len() {
        None
    } else {
        next_scan(s, s[p].route, p + 1)
    }
}

pub open spec fn spec_parent(s: Seq<NodeView>, p: int) -> Option<usize> {
    if p <= 0 || p >= s.len() || s[p].route.len() == 0 {
        None
    } else {
        find_back(s, s[p].route.drop_last(), p - 1)
    }
}

/// First position at or after `i` that is not a meta node.
pub open spec fn first_element(s: Seq<NodeView>, i: int) -> int
    decreases s.len() - i,
{
    if 0 <= i < s.len() && s[i].is_meta() {
        first_element(s, i + 1)
    } else {
        i
    }
}

/// First position at or after `i` whose node has id `id`.
pub open spec fn id_from(s: Seq<NodeView>, id: usize, i: int) -> Option<usize>
    decreases s.len() - i,
{
    if i < 0 || i >= s.len() {
        None
    } else if s[i].idx == id {
        Some(i as usize)
    } else {
        id_from(s, id, i + 1)
    }
}

/// Positions among `c` whose node has qualified name `name`, in order.
pub open spec fn named(s: Seq<NodeView>, c: Seq<usize>, name: Seq<char>) -> Seq<usize>
    decreases c.len(),
{
    if c.len() == 0 {
        Seq::empty()
    } else if s[c.last() as int].name() == name {
        named(s, c.drop_last(), name).push(c.last())
    } else {
        named(s, c.drop_last(), name)
    }
}

pub open spec fn view_nodes(d: Seq<ETreeNode>) -> Seq<NodeView> {
    d.map_values(|n: ETreeNode| n@)
}

/// Ids are unique and below the counter.
pub open spec fn ids_ok(s: Seq<NodeView>, count: usize) -> bool {
    &&& forall|i: int, j: int| 0 <= i < j < s.len() ==> s[i].idx != s[j].idx
    &&& forall|i: int| 0 <= i < s.len() ==> s[i].idx < count
}

pub proof fn lemma_run_end(s: Seq<NodeView>, r: Seq<usize>, i: int)
    requires
        0 <= i <= s.len(),
    ensures
        i <= run_end(s, r, i) <= s.len(),
        forall|k: int| i <= k < run_end(s, r, i) ==> starts(#[trigger] s[k].route, r),
        run_end(s, r, i) < s.len() ==> !starts(s[run_end(s, r, i)].route, r),
    decreases s.len() - i,
{
    if i < s.len() && starts(s[i].route, r) {
        lemma_run_end(s, r, i + 1);
    }
}

pub proof fn lemma_pick_bounds(s: Seq<NodeView>, r: Seq<usize>, lo: int, hi: int)
    requires
        0 <= lo,
        hi <= s.len(),
        hi <= usize::MAX,
    ensures
        forall|k: int| 0 <= k < pick(s, r, lo, hi).len() ==> lo <= #[trigger] pick(s, r, lo, hi)[k] < hi,
        forall|k: int| 0 <= k < pick(s, r, lo, hi).len() ==> s[#[trigger] pick(s, r, lo, hi)[k] as int].route == r,
        pick(s, r, lo, hi).len() <= if hi < lo { 0 } else { hi - lo },
    decreases hi - lo,
{
    if hi > lo {
        lemma_pick_bounds(s, r, lo, hi - 1);
        assert(((hi - 1) as usize) as int == hi - 1);
    }
}

/// The tail that `p` takes when a node is inserted right after it: what
/// preceded `p`, its previous sibling's tail or else its parent's text.
pub open spec fn healed_tail(s: Seq<NodeView>, p: int) -> Option<Seq<char>> {
    match spec_previous(s, p) {
        Some(j) => Some(s[j as int].tail),
        None => match spec_parent(s, p) {
            Some(q) => Some(s[q as int].text_or_empty()),
            None => None,
        },
    }
}

/// `s` with the tail of `p` rewritten to what preceded `p`.
pub open spec fn heal(s: Seq<NodeView>, p: int) -> Seq<NodeView> {
    match healed_tail(s, p) {
        Some(t) => s.update(p, NodeView { tail: t, ..s[p] }),
        None => s,
    }
}

/// Where a new node goes: its position, its route and its tail.
pub type Place = (int, Seq<usize>, Seq<char>);

/// The nodes after preparing an insert right after `p`, and the place.
pub open spec fn next_plan(s: Seq<NodeView>, p: int) -> Option<(Seq<NodeView>, Place)> {
    if 0 <= p < s.len() {
        Some((heal(s, p), (desc_end(s, p), s[p].route, s[p].tail)))
    } else {
        None
    }
}

/// The nodes after preparing an insert right before `p`, and the place.
pub open spec fn previous_plan(s: Seq<NodeView>, p: int) -> Option<(Seq<NodeView>, Place)> {
    if 0 <= p < s.len() {
        match spec_previous(s, p) {
            Some(j) => next_plan(s, j as int),
            None => match spec_parent(s, p) {
                Some(q) => Some(
                    (s, (q + 1, child_route(s, q as int), s[q as int].text_or_empty())),
                ),
                None => None,
            },
        }
    } else {
        None
    }
}

/// The tail a first child of `p` gets.
pub open spec fn first_child_tail(s: Seq<NodeView>, p: int, crlf: Seq<char>) -> Seq<char> {
    match spec_previous(s, p) {
        Some(j) => s[j as int].tail,
        None => match spec_parent(s, p) {
            Some(q) => s[q as int].text_or_empty(),
            None => crlf,
        },
    }
}

/// The nodes after preparing an insert as last child of `p`, and the place.
pub open spec fn child_plan(s: Seq<NodeView>, p: int, indent: Seq<char>, crlf: Seq<char>) -> Option<
    (Seq<NodeView>, Place),
> {
    if 0 <= p < s.len() {
        let ch = spec_children(s, p);
        if ch.len() == 0 {
            let tail = first_child_tail(s, p, crlf);
            let s2 = if s[p].text_or_empty().len() == 0 {
                s.update(p, NodeView { text: Some(tail + indent), ..s[p] })
            } else {
                s
            };
            Some((s2, (p + 1, child_route(s, p), tail)))
        } else {
            let last = ch.last() as int;
            Some((heal(s, last), (desc_end(s, p), child_route(s, p), s[last].tail)))
        }
    } else {
        None
    }
}

/// The nodes once `n` is placed at `pl` with id `id`.
pub open spec fn placed(s: Seq<NodeView>, pl: Place, n: NodeView, id: usize) -> Seq<NodeView> {
    s.insert(pl.0, NodeView { idx: id, tail: pl.2, route: pl.1, ..n })
}

/// The whitespace healing before removing `p`: an earlier sibling takes its
/// tail; with no sibling at all, the parent's text loses one indent unit
/// from its end.
pub open spec fn remove_heal(s: Seq<NodeView>, p: int, indent: Seq<char>) -> Seq<NodeView> {
    match spec_previous(s, p) {
        Some(j) => s.update(j as int, NodeView { tail: s[p].tail, ..s[j as int] }),
        None => match spec_next(s, p) {
            Some(_) => s,
            None => match spec_parent(s, p) {
                Some(q) => match s[q as int].text {
                    Some(t) => if is_suffix_of(indent, t) {
                        s.update(
                            q as int,
                            NodeView { text: Some(t.subrange(0, t.len() - indent.len())), ..s[q as int] },
                        )
                    } else {
                        s
                    },
                    None => s,
                },
                None => s,
            },
        },
    }
}

/// The nodes once the subtree at `p` is removed, whitespace healed first.
pub open spec fn removed(s: Seq<NodeView>, p: int, indent: Seq<char>) -> Seq<NodeView> {
    let h = remove_heal(s, p, indent);
    h.subrange(0, p) + h.subrange(desc_end(s, p), s.len() as int)
}

pub proof fn lemma_remove_heal_ids(s: Seq<NodeView>, p: int, indent: Seq<char>)
    requires
        s.len() <= usize::MAX,
        0 <= p < s.len(),
    ensures
        remove_heal(s, p, indent).len() == s.len(),
        forall|k: int| 0 <= k < s.len() ==> #[trigger] remove_heal(s, p, indent)[k].idx == s[k].idx,
{
    lemma_prev_in(s, p);
    lemma_parent_in(s, p);
}

/// `x` repeated `n` times.
pub open spec fn repeat(x: Seq<char>, n: nat) -> Seq<char>
    decreases n,
{
    if n == 0 {
        Seq::empty()
    } else {
        repeat(x, (n - 1) as nat) + x
    }
}

/// A line break followed by `n` indent units.
pub open spec fn pad(crlf: Seq<char>, indent: Seq<char>, n: int) -> Seq<char> {
    crlf + repeat(indent, n as nat)
}

/// The node at `k`, inside the subtree of `p` laid out from `level`: its tail
/// opens the line of its next sibling, or of its parent's close tag when it
/// is the last child; a node with children gets its trimmed text followed by
/// the line of its first child; an element without children gets its text
/// trimmed.
pub open spec fn pretty_node(s: Seq<NodeView>, p: int, k: int, level: int, crlf: Seq<char>, indent: Seq<char>) -> NodeView {
    let l = level + (s[k].route.len() - s[p].route.len());
    let tail_level = if k == p || spec_next(s, k).is_some() { l } else { l - 1 };
    let text = if spec_children(s, k).len() > 0 {
        Some(trimmed(s[k].text_or_empty()) + pad(crlf, indent, l + 1))
    } else if !s[k].is_meta() {
        match s[k].text {
            Some(t) => Some(trimmed(t)),
            None => None,
        }
    } else {
        s[k].text
    };
    NodeView { tail: pad(crlf, indent, tail_level), text, ..s[k] }
}

/// The nodes once the subtree of `p` is laid out from `level`.
pub open spec fn prettied(s: Seq<NodeView>, p: int, level: int, crlf: Seq<char>, indent: Seq<char>) -> Seq<NodeView> {
    Seq::new(
        s.len(),
        |k: int|
            if p <= k < desc_end(s, p) {
                pretty_node(s, p, k, level, crlf, indent)
            } else {
                s[k]
            },
    )
}

/// The nodes of a document laid out with `indent`: meta nodes before the
/// root end their line, and the root's subtree is laid out from level 0.
pub open spec fn pretty_doc(s: Seq<NodeView>, crlf: Seq<char>, indent: Seq<char>) -> Seq<NodeView> {
    let s1 = lead_tails(s, crlf);
    let r = first_element(s, 0);
    if r < s1.len() {
        prettied(s1, r, 0, crlf, indent)
    } else {
        s1
    }
}

/// The nodes with every tail and text trimmed.
pub open spec fn stripped(s: Seq<NodeView>) -> Seq<NodeView> {
    Seq::new(
        s.len(),
        |k: int|
            NodeView {
                tail: trimmed(s[k].tail),
                text: match s[k].text {
                    Some(t) => Some(trimmed(t)),
                    None => None,
                },
                ..s[k]
            },
    )
}

/// Position of the last line break in `s` at or before `j`, if any.
pub open spec fn last_break(s: Seq<char>, j: int) -> int
    decreases j + 1,
{
    if j < 0 || j >= s.len() {
        -1
    } else if s[j] == '\n' {
        j
    } else {
        last_break(s, j - 1)
    }
}

/// What follows the last line break of `s` (all of `s` without one).
pub open spec fn last_line(s: Seq<char>) -> Seq<char> {
    s.subrange(last_break(s, s.len() - 1) + 1, s.len() as int)
}

/// Whether `s` holds `\r\n`.
pub open spec fn has_crlf(s: Seq<char>) -> bool {
    exists|i: int| 0 <= i && i + 1 < s.len() && #[trigger] s[i] == '\r' && s[i + 1] == '\n'
}

pub proof fn lemma_last_break(s: Seq<char>, j: int)
    requires
        -1 <= j < s.len(),
    ensures
        -1 <= last_break(s, j) <= j,
        last_break(s, j) >= 0 ==> s[last_break(s, j)] == '\n',
    decreases j + 1,
{
    if j >= 0 && s[j] != '\n' {
        lemma_last_break(s, j - 1);
    }
}

/// Position of the last node that is not a meta node, scanning back from
/// `j` (0 when there is none).
pub open spec fn last_element(s: Seq<NodeView>, j: int) -> int
    decreases j,
{
    if j <= 0 {
        0
    } else if !s[j - 1].is_meta() {
        j - 1
    } else {
        last_element(s, j - 1)
    }
}

/// The indent unit read off the layout: the last element's tail is a prefix
/// of its previous sibling's tail (or of its parent's text), and the unit is
/// what remains.
pub open spec fn detected_indent(s: Seq<NodeView>) -> Option<Seq<char>> {
    let e = last_element(s, s.len() as int);
    let t = s[e].tail;
    match spec_previous(s, e) {
        Some(j) => if crate::text::is_prefix_of(t, s[j as int].tail) {
            Some(s[j as int].tail.subrange(t.len() as int, s[j as int].tail.len() as int))
        } else {
            None
        },
        None => match spec_parent(s, e) {
            Some(q) => if crate::text::is_prefix_of(t, s[q as int].text_or_empty()) {
                Some(s[q as int].text_or_empty().subrange(t.len() as int, s[q as int].text_or_empty().len() as int))
            } else {
                None
            },
            None => None,
        },
    }
}

/// The nodes once meta nodes before `i` take `crlf` as tail, up to the first
/// element.
pub open spec fn lead_tails(s: Seq<NodeView>, crlf: Seq<char>) -> Seq<NodeView> {
    Seq::new(
        s.len(),
        |k: int|
            if k < first_element(s, 0) {
                NodeView { tail: crlf, ..s[k] }
            } else {
                s[k]
            },
    )
}

/// The ids of the nodes, in order.
pub open spec fn ids_of(s: Seq<NodeView>) -> Seq<usize> {
    s.map_values(|n: NodeView| n.idx)
}

/// First position at or after `i` of `x` in `ids`.
pub open spec fn index_in(ids: Seq<usize>, x: usize, i: int) -> Option<int>
    decreases ids.len() - i,
{
    if i < 0 || i >= ids.len() {
        None
    } else if ids[i] == x {
        Some(i)
    } else {
        index_in(ids, x, i + 1)
    }
}

/// The new name of id `x` when the nodes of `s` are renumbered from `start`.
pub open spec fn relabel_id(ids: Seq<usize>, start: int, x: usize) -> usize {
    match index_in(ids, x, 0) {
        Some(k) => (start + k) as usize,
        None => x,
    }
}

/// The nodes of `s` renumbered `start, start + 1, ...`, routes following.
pub open spec fn relabeled(s: Seq<NodeView>, start: int) -> Seq<NodeView> {
    Seq::new(
        s.len(),
        |k: int|
            NodeView {
                idx: (start + k) as usize,
                route: s[k].route.map_values(|x: usize| relabel_id(ids_of(s), start, x)),
                ..s[k]
            },
    )
}

pub open spec fn min_id(s: Seq<NodeView>) -> int
    decreases s.len(),
{
    if s.len() == 0 {
        0
    } else if s.len() == 1 || s.last().idx < min_id(s.drop_last()) {
        s.last().idx as int
    } else {
        min_id(s.drop_last())
    }
}

pub open spec fn max_id(s: Seq<NodeView>) -> int
    decreases s.len(),
{
    if s.len() == 0 {
        0
    } else if s.len() == 1 || s.last().idx > max_id(s.drop_last()) {
        s.last().idx as int
    } else {
        max_id(s.drop_last())
    }
}

/// Whether renumbering from `start` can go directly: the new ids do not meet
/// the old ones.
pub open spec fn clear_of(s: Seq<NodeView>, start: int) -> bool {
    start + s.len() <= min_id(s) || start > max_id(s)
}

/// The nodes of `s` renumbered from `start`; when the new range would meet
/// the old one, first moved above the old maximum.
pub open spec fn fresh_ids(s: Seq<NodeView>, start: int) -> Seq<NodeView> {
    if clear_of(s, start) {
        relabeled(s, start)
    } else {
        relabeled(relabeled(s, max_id(s) + s.len() + 1), start)
    }
}

/// Whether renumbering `s` from `start` stays within `usize`.
pub open spec fn ids_fit(s: Seq<NodeView>, start: int) -> bool {
    start + s.len() <= usize::MAX && max_id(s) + 2 * s.len() + 1 <= usize::MAX
}

/// Incoming nodes `t` placed at `pl`: routes under the anchor's route, the
/// first node taking the anchor's tail.
pub open spec fn grafted(t: Seq<NodeView>, pl: Place) -> Seq<NodeView> {
    Seq::new(
        t.len(),
        |k: int| NodeView { route: pl.1 + t[k].route, tail: if k == 0 { pl.2 } else { t[k].tail }, ..t[k] },
    )
}

pub open spec fn merged(s: Seq<NodeView>, pl: Place, t: Seq<NodeView>) -> Seq<NodeView> {
    s.subrange(0, pl.0) + grafted(t, pl) + s.subrange(pl.0, s.len() as int)
}

/// The merged nodes, with the incoming subtree laid out to match when an
/// indent unit is set; its first node keeps the anchor's tail.
pub open spec fn merged_layout(s: Seq<NodeView>, pl: Place, t: Seq<NodeView>, indent: Seq<char>, crlf: Seq<char>) -> Seq<NodeView> {
    let m = merged(s, pl, t);
    if indent.len() == 0 {
        m
    } else {
        let l0: int = (last_line(pl.2).len() / indent.len()) as int;
        let lvl = if spec_next(m, pl.0).is_none() && l0 < usize::MAX { l0 + 1 } else { l0 };
        let q = prettied(m, pl.0, lvl, crlf, indent);
        q.update(pl.0, NodeView { tail: pl.2, ..q[pl.0] })
    }
}

/// The subtree at `p`, its routes stripped of the ancestors of `p`.
pub open spec fn rebased(s: Seq<NodeView>, p: int) -> Seq<NodeView> {
    let base = s[p].route.len();
    Seq::new(
        (desc_end(s, p) - p) as nat,
        |k: int| NodeView { route: s[p + k].route.subrange(base as int, s[p + k].route.len() as int), ..s[p + k] },
    )
}

pub proof fn lemma_id_from(s: Seq<NodeView>, id: usize, j: int)
    requires
        0 <= j <= s.len(),
        s.len() <= usize::MAX,
    ensures
        match id_from(s, id, j) {
            Some(i) => j <= i < s.len() && s[i as int].idx == id && forall|k: int|
                j <= k < i ==> s[k].idx != id,
            None => forall|k: int| j <= k < s.len() ==> s[k].idx != id,
        },
    decreases s.len() - j,
{
    if j < s.len() && s[j].idx != id {
        lemma_id_from(s, id, j + 1);
    }
}

/// Element tree: a sequence of nodes in document order.
pub struct ETree {
    indent: String,
    count: usize,
    version: String,
    encoding: Option<String>,
    standalone: Option<String>,
    data: Vec<ETreeNode>,
    crlf: String,
    enable_index: bool,
    index: HashMap<usize, usize>,
}

impl ETree {
    /// The nodes, in document order.
    pub closed spec fn nodes(&self) -> Seq<NodeView> {
        view_nodes(self.data@)
    }

    /// The next id to hand out.
    pub closed spec fn counter(&self) -> usize {
        self.count
    }

    pub closed spec fn indent_view(&self) -> Seq<char> {
        self.indent@
    }

    pub closed spec fn crlf_view(&self) -> Seq<char> {
        self.crlf@
    }

    pub closed spec fn index_enabled(&self) -> bool {
        self.enable_index
    }

    pub closed spec fn version_view(&self) -> Seq<char> {
        self.version@
    }

    pub closed spec fn encoding_view(&self) -> Option<Seq<char>> {
        opt_view(self.encoding)
    }

    pub closed spec fn standalone_view(&self) -> Option<Seq<char>> {
        opt_view(self.standalone)
    }

    /// Well-formedness: ids unique and below the counter, and the id index,
    /// when enabled, maps each id to its position.
    pub closed spec fn wf(&self) -> bool {
        &&& ids_ok(self.nodes(), self.count)
        &&& self.enable_index ==> self.index_matches()
    }

    pub closed spec fn index_matches(&self) -> bool {
        &&& forall|i: int| 0 <= i < self.data@.len() ==> #[trigger] self.index@.contains_key(self.data@[i].idx)
            && self.index@[self.data@[i].idx] == i
        &&& forall|k: usize| #[trigger] self.index@.contains_key(k) ==> exists|i: int|
            0 <= i < self.data@.len() && self.data@[i].idx == k
    }

    proof fn lemma_nodes(&self)
        ensures
            self.nodes().len() == self.data@.len(),
            forall|i: int| 0 <= i < self.data@.len() ==> #[trigger] self.nodes()[i] == self.data@[i]@,
    {
    }

    /// An empty tree: version `1.0`, no encoding or standalone declared, no
    /// indent unit, line terminator `crlf`, counter 0, index off.
    pub fn new(crlf: &str) -> (r: ETree)
        ensures
            r.wf(),
            r.nodes().len() == 0,
            r.counter() == 0,
            r.crlf_view() == crlf@,
            r.indent_view().len() == 0,
            !r.index_enabled(),
            r.version_view() == seq!['1', '.', '0'],
            r.encoding_view().is_none(),
            r.standalone_view().is_none(),
    {
        let v = "1.0";
        proof {
            reveal_strlit("1.0");
            assert(v@ =~= seq!['1', '.', '0']);
        }
        let t = ETree {
            indent: String::new(),
            count: 0,
            version: String::from_str(v),
            encoding: None,
            standalone: None,
            data: Vec::new(),
            crlf: String::from_str(crlf),
            enable_index: false,
            index: HashMap::new(),
        };
        proof { t.lemma_nodes(); }
        t
    }

    /// A tree holding `node` alone as its root: id 0, empty route, counter 1,
    /// version `1.0`, no indent unit or line terminator.
    pub fn from_node(node: ETreeNode) -> (r: ETree)
        ensures
            r.wf(),
            r.nodes() == seq![NodeView { idx: 0, route: Seq::empty(), ..node@ }],
            r.counter() == 1,
            r.indent_view().len() == 0,
            r.crlf_view().len() == 0,
            !r.index_enabled(),
            r.version_view() == seq!['1', '.', '0'],
            r.encoding_view().is_none(),
            r.standalone_view().is_none(),
    {
        let mut node = node;
        node.idx = 0;
        node.route = Vec::new();
        let mut data: Vec<ETreeNode> = Vec::new();
        data.push(node);
        let v = "1.0";
        proof {
            reveal_strlit("1.0");
            assert(v@ =~= seq!['1', '.', '0']);
        }
        let t = ETree {
            indent: String::new(),
            count: 1,
            version: String::from_str(v),
            encoding: None,
            standalone: None,
            data,
            crlf: String::new(),
            enable_index: false,
            index: HashMap::new(),
        };
        proof {
            t.lemma_nodes();
            assert(t.nodes() =~= seq![NodeView { idx: 0, route: Seq::empty(), ..node@ }]);
        }
        t
    }

    pub fn get_version(&self) -> (r: Option<String>)
        ensures
            r.is_some() && r.unwrap()@ == self.version_view(),
    {
        Some(self.version.clone())
    }

    pub fn set_version(&mut self, version: &str)
        requires
            old(self).wf(),
        ensures
            final(self).wf(),
            final(self).version_view() == version@,
            final(self).nodes() == old(self).nodes(),
            final(self).encoding_view() == old(self).encoding_view(),
            final(self).standalone_view() == old(self).standalone_view(),
            final(self).counter() == old(self).counter(),
            final(self).crlf_view() == old(self).crlf_view(),
            final(self).indent_view() == old(self).indent_view(),
            final(self).index_enabled() == old(self).index_enabled(),
    {
        self.version = String::from_str(version);
    }

    pub fn get_encoding(&self) -> (r: Option<String>)
        ensures
            opt_view(r) == self.encoding_view(),
    {
        copy_string_opt(&self.encoding)
    }

    pub fn set_encoding(&mut self, encoding: &str)
        requires
            old(self).wf(),
        ensures
            final(self).wf(),
            final(self).encoding_view() == Some(encoding@),
            final(self).nodes() == old(self).nodes(),
            final(self).version_view() == old(self).version_view(),
            final(self).standalone_view() == old(self).standalone_view(),
            final(self).counter() == old(self).counter(),
            final(self).crlf_view() == old(self).crlf_view(),
            final(self).indent_view() == old(self).indent_view(),
            final(self).index_enabled() == old(self).index_enabled(),
    {
        self.encoding = Some(String::from_str(encoding));
    }

    pub fn get_standalone(&self) -> (r: Option<String>)
        ensures
            opt_view(r) == self.standalone_view(),
    {
        copy_string_opt(&self.standalone)
    }

    pub fn set_standalone(&mut self, standalone: &str)
        requires
            old(self).wf(),
        ensures
            final(self).wf(),
            final(self).standalone_view() == Some(standalone@),
            final(self).nodes() == old(self).nodes(),
            final(self).version_view() == old(self).version_view(),
            final(self).encoding_view() == old(self).encoding_view(),
            final(self).counter() == old(self).counter(),
            final(self).crlf_view() == old(self).crlf_view(),
            final(self).indent_view() == old(self).indent_view(),
            final(self).index_enabled() == old(self).index_enabled(),
    {
        self.standalone = Some(String::from_str(standalone));
    }

    /// The indent unit in use.
    pub fn get_indent(&self) -> (r: String)
        ensures
            r@ == self.indent_view(),
    {
        self.indent.clone()
    }

    /// The line terminator in use.
    pub fn get_crlf(&self) -> (r: String)
        ensures
            r@ == self.crlf_view(),
    {
        self.crlf.clone()
    }

    /// Number of nodes.
    pub fn len(&self) -> (r: usize)
        ensures
            r == self.nodes().len(),
    {
        proof { self.lemma_nodes(); }
        self.data.len()
    }

    /// The node at `pos`, for changes that leave its id and route alone.
    pub fn node_mut(&mut self, pos: usize) -> (r: Option<&mut ETreeNode>)
        ensures
            pos < old(self).nodes().len() ==> r.is_some() && (r matches Some(m) && final(self).nodes() == old(self).nodes().update(pos as int, final(m)@)
                && m@ == old(self).nodes()[pos as int]),
            final(self).same_index(old(self)),
            pos >= old(self).nodes().len() ==> r.is_none() && final(self).nodes() == old(self).nodes(),
            final(self).counter() == old(self).counter(),
            final(self).indent_view() == old(self).indent_view(),
            final(self).crlf_view() == old(self).crlf_view(),
            final(self).keeps_decl(old(self)),
    {
        proof { self.lemma_nodes(); }
        if pos < self.data.len() {
            Some(&mut self.data[pos])
        } else {
            None
        }
    }

    /// The counter and the id index are those of `o`.
    pub closed spec fn same_index(&self, o: &ETree) -> bool {
        &&& self.count == o.count
        &&& self.enable_index == o.enable_index
        &&& self.index@ == o.index@
    }

    /// Editing one node without changing its id keeps a tree well-formed.
    pub proof fn lemma_edit_keeps_wf(a: &ETree, b: &ETree, pos: int)
        requires
            a.wf(),
            b.same_index(a),
            0 <= pos < a.nodes().len(),
            b.nodes() == a.nodes().update(pos, b.nodes()[pos]),
            b.nodes()[pos].idx == a.nodes()[pos].idx,
        ensures
            b.wf(),
    {
        a.lemma_nodes();
        b.lemma_nodes();
        assert forall|i: int| 0 <= i < b.data@.len() implies b.data@[i].idx == a.data@[i].idx by {
            assert(b.nodes()[i].idx == a.nodes()[i].idx);
        }
    }

    /// In a well-formed tree, ids are unique and below the counter.
    pub proof fn lemma_wf_ids(&self)
        requires
            self.wf(),
        ensures
            ids_ok(self.nodes(), self.counter()),
    {
    }

    /// Whether the id index is kept.
    pub fn get_enable_index(&self) -> (r: bool)
        ensures
            r == self.index_enabled(),
    {
        self.enable_index
    }

    /// Position of the first node that is not a meta node.
    pub fn root(&self) -> (r: usize)
        ensures
            r == first_element(self.nodes(), 0),
    {
        proof { self.lemma_nodes(); }
        let mut i: usize = 0;
        while i < self.data.len() && self.data[i].is_meta_node()
            invariant
                i <= self.data@.len(),
                self.nodes().len() == self.data@.len(),
                forall|k: int| 0 <= k < self.data@.len() ==> #[trigger] self.nodes()[k] == self.data@[k]@,
                first_element(self.nodes(), 0) == first_element(self.nodes(), i as int),
            decreases self.data@.len() - i,
        {
            i = i + 1;
        }
        i
    }

    /// End of the run of positions from `i` whose routes start with `r`.
    fn run_end_of(&self, r: &Vec<usize>, i: usize) -> (e: usize)
        requires
            i <= self.data@.len(),
        ensures
            e == run_end(self.nodes(), r@, i as int),
    {
        proof { self.lemma_nodes(); }
        let mut j = i;
        while j < self.data.len() && route_starts(&self.data[j].route, r)
            invariant
                i <= j <= self.data@.len(),
                self.nodes().len() == self.data@.len(),
                run_end(self.nodes(), r@, i as int) == run_end(self.nodes(), r@, j as int),
            decreases self.data@.len() - j,
        {
            j = j + 1;
        }
        j
    }

    /// Positions of the children of the node at `pos`.
    pub fn children(&self, pos: usize) -> (r: Vec<usize>)
        ensures
            r@ == spec_children(self.nodes(), pos as int),
    {
        proof { self.lemma_nodes(); }
        let mut out: Vec<usize> = Vec::new();
        if pos < self.data.len() {
            let route = child_route_of(&self.data[pos]);
            let end = self.run_end_of(&route, pos + 1);
            proof { lemma_run_end(self.nodes(), route@, pos + 1); }
            let mut i = pos + 1;
            while i < end
                invariant
                    pos + 1 <= i <= end <= self.data@.len(),
                    self.nodes().len() == self.data@.len(),
                    route@ == child_route(self.nodes(), pos as int),
                    out@ == pick(self.nodes(), route@, pos + 1, i as int),
                decreases end - i,
            {
                if same_route(&self.data[i].route, &route) {
                    out.push(i);
                }
                i = i + 1;
            }
        }
        out
    }

    /// Positions of the children of `pos` whose qualified name is `tagname`.
    pub fn children_by_name(&self, pos: usize, tagname: &str) -> (r: Vec<usize>)
        ensures
            r@ == named(self.nodes(), spec_children(self.nodes(), pos as int), tagname@),
    {
        proof { self.lemma_nodes(); }
        let n = self.data.len();
        let c = self.children(pos);
        proof {
            if pos < self.data@.len() {
                lemma_run_end(self.nodes(), child_route(self.nodes(), pos as int), pos + 1);
                lemma_pick_bounds(self.nodes(), child_route(self.nodes(), pos as int), pos + 1, desc_end(self.nodes(), pos as int));
            }
        }
        let mut out: Vec<usize> = Vec::new();
        let mut i: usize = 0;
        while i < c.len()
            invariant
                i <= c@.len(),
                self.nodes().len() == self.data@.len(),
                forall|k: int| 0 <= k < c@.len() ==> c@[k] < self.data@.len(),
                out@ == named(self.nodes(), c@.subrange(0, i as int), tagname@),
            decreases c@.len() - i,
        {
            let name = self.data[c[i]].get_name();
            assert(c@.subrange(0, i + 1).drop_last() =~= c@.subrange(0, i as int));
            if same_str(name.as_str(), tagname) {
                out.push(c[i]);
            }
            i = i + 1;
        }
        assert(c@.subrange(0, i as int) =~= c@);
        out
    }

    /// Positions of the descendants of the node at `pos`, in document order.
    pub fn descendant(&self, pos: usize) -> (r: Vec<usize>)
        ensures
            r@ == spec_descendant(self.nodes(), pos as int),
    {
        proof { self.lemma_nodes(); }
        let mut out: Vec<usize> = Vec::new();
        if pos < self.data.len() {
            let route = child_route_of(&self.data[pos]);
            let end = self.run_end_of(&route, pos + 1);
            proof { lemma_run_end(self.nodes(), route@, pos + 1); }
            let mut i = pos + 1;
            while i < end
                invariant
                    pos + 1 <= i <= end <= self.data@.len(),
                    out@ == span(pos + 1, i as int),
                decreases end - i,
            {
                out.push(i);
                i = i + 1;
                assert(out@ =~= span(pos + 1, i as int));
            }
            assert(out@ =~= span(pos + 1, end as int));
        }
        proof {
            if pos >= self.data@.len() {
                assert(out@ =~= Seq::<usize>::empty());
            }
        }
        out
    }

    /// Position of the nearest earlier sibling of `pos`.
    pub fn previous(&self, pos: usize) -> (r: Option<usize>)
        ensures
            r == spec_previous(self.nodes(), pos as int),
    {
        proof { self.lemma_nodes(); }
        if pos == 0 || pos >= self.data.len() {
            return None;
        }
        let route = &self.data[pos].route;
        let mut j: usize = pos;
        while j > 0
            invariant
                j <= pos < self.data@.len(),
                self.nodes().len() == self.data@.len(),
                route@ == self.nodes()[pos as int].route,
                spec_previous(self.nodes(), pos as int) == prev_scan(self.nodes(), route@, j - 1),
            decreases j,
        {
            j = j - 1;
            if same_route(&self.data[j].route, route) {
                return Some(j);
            }
            if !route_starts(&self.data[j].route, route) {
                return None;
            }
        }
        None
    }

    /// Position of the nearest later sibling of `pos`.
    pub fn next(&self, pos: usize) -> (r: Option<usize>)
        ensures
            r == spec_next(self.nodes(), pos as int),
    {
        proof { self.lemma_nodes(); }
        if pos >= self.data.len() || pos + 1 >= self.data.len() {
            return None;
        }
        let route = &self.data[pos].route;
        let mut j: usize = pos + 1;
        while j < self.data.len()
            invariant
                pos < j <= self.data@.len(),
                self.nodes().len() == self.data@.len(),
                route@ == self.nodes()[pos as int].route,
                spec_next(self.nodes(), pos as int) == next_scan(self.nodes(), route@, j as int),
            decreases self.data@.len() - j,
        {
            if same_route(&self.data[j].route, route) {
                return Some(j);
            }
            if !route_starts(&self.data[j].route, route) {
                return None;
            }
            j = j + 1;
        }
        None
    }

    /// Position of the parent of `pos`.
    pub fn parent(&self, pos: usize) -> (r: Option<usize>)
        ensures
            r == spec_parent(self.nodes(), pos as int),
    {
        proof { self.lemma_nodes(); }
        if pos == 0 || pos >= self.data.len() || self.data[pos].route.len() == 0 {
            return None;
        }
        let mut up = copy_ids(&self.data[pos].route);
        up.pop();
        assert(up@ =~= self.nodes()[pos as int].route.drop_last());
        let mut j: usize = pos;
        while j > 0
            invariant
                j <= pos < self.data@.len(),
                self.nodes().len() == self.data@.len(),
                up@ == self.nodes()[pos as int].route.drop_last(),
                spec_parent(self.nodes(), pos as int) == find_back(self.nodes(), up@, j - 1),
            decreases j,
        {
            j = j - 1;
            if same_route(&self.data[j].route, &up) {
                return Some(j);
            }
        }
        None
    }

    /// Other fields than the nodes and the index are the same.
    pub closed spec fn same_settings(&self, o: &ETree) -> bool {
        &&& self.count == o.count
        &&& self.indent@ == o.indent@
        &&& self.crlf@ == o.crlf@
        &&& self.enable_index == o.enable_index
        &&& self.version@ == o.version@
        &&& opt_view(self.encoding) == opt_view(o.encoding)
        &&& opt_view(self.standalone) == opt_view(o.standalone)
    }

    /// The declaration fields and the index flag are those of `o`.
    pub open spec fn keeps_decl(&self, o: &ETree) -> bool {
        &&& self.version_view() == o.version_view()
        &&& self.encoding_view() == o.encoding_view()
        &&& self.standalone_view() == o.standalone_view()
        &&& self.index_enabled() == o.index_enabled()
    }

    /// Rebuilds the id index from the nodes, when it is enabled.
    fn generate_index(&mut self)
        requires
            ids_ok(old(self).nodes(), old(self).count),
        ensures
            final(self).data@ == old(self).data@,
            final(self).same_settings(old(self)),
            final(self).wf(),
    {
        if self.enable_index {
            self.index = HashMap::new();
            let mut i: usize = 0;
            while i < self.data.len()
                invariant
                    i <= self.data@.len(),
                    self.data@ == old(self).data@,
                    self.same_settings(old(self)),
                    self.enable_index,
                    ids_ok(self.nodes(), self.count),
                    forall|k: int| 0 <= k < i ==> #[trigger] self.index@.contains_key(self.data@[k].idx)
                        && self.index@[self.data@[k].idx] == k,
                    forall|key: usize| #[trigger] self.index@.contains_key(key) ==> exists|k: int|
                        0 <= k < i && self.data@[k].idx == key,
                decreases self.data@.len() - i,
            {
                proof {
                    assert forall|k: int| 0 <= k < i implies self.data@[k].idx != self.data@[i as int].idx by {
                        assert(self.nodes()[k] == self.data@[k]@);
                        assert(self.nodes()[i as int] == self.data@[i as int]@);
                    }
                }
                let id = self.data[i].idx;
                self.index.insert(id, i);
                i = i + 1;
            }
        }
    }

    /// Turns the id index on or off.
    pub fn set_enable_index(&mut self, enable_index: bool)
        requires
            old(self).wf(),
        ensures
            final(self).wf(),
            final(self).nodes() == old(self).nodes(),
            final(self).index_enabled() == enable_index,
            final(self).counter() == old(self).counter(),
            final(self).indent_view() == old(self).indent_view(),
            final(self).crlf_view() == old(self).crlf_view(),
            final(self).version_view() == old(self).version_view(),
            final(self).encoding_view() == old(self).encoding_view(),
            final(self).standalone_view() == old(self).standalone_view(),
    {
        self.enable_index = enable_index;
        self.generate_index();
    }

    /// Position of the node with id `idx`.
    pub fn pos(&self, idx: usize) -> (r: Option<usize>)
        requires
            self.wf(),
        ensures
            r == id_from(self.nodes(), idx, 0),
    {
        let _n = self.data.len();
        proof {
            self.lemma_nodes();
            lemma_id_from(self.nodes(), idx, 0);
        }
        if self.enable_index {
            match self.index.get(&idx) {
                Some(p) => {
                    proof {
                        let q = *p as int;
                        assert(self.nodes()[q].idx == idx);
                        match id_from(self.nodes(), idx, 0) {
                            Some(i) => {
                                assert(self.nodes()[i as int].idx == idx);
                            },
                            None => {},
                        }
                    }
                    Some(*p)
                },
                None => {
                    proof {
                        match id_from(self.nodes(), idx, 0) {
                            Some(i) => {
                                assert(self.data@[i as int].idx == idx);
                                assert(self.index@.contains_key(self.data@[i as int].idx));
                            },
                            None => {},
                        }
                    }
                    None
                },
            }
        } else {
            let mut i: usize = 0;
            while i < self.data.len()
                invariant
                    i <= self.data@.len(),
                    self.nodes().len() == self.data@.len(),
                    forall|k: int| 0 <= k < self.data@.len() ==> #[trigger] self.nodes()[k] == self.data@[k]@,
                    id_from(self.nodes(), idx, 0) == id_from(self.nodes(), idx, i as int),
                decreases self.data@.len() - i,
            {
                if self.data[i].idx == idx {
                    return Some(i);
                }
                i = i + 1;
            }
            None
        }
    }

    /// The node at `pos`.
    pub fn node(&self, pos: usize) -> (r: Option<&ETreeNode>)
        ensures
            pos < self.nodes().len() ==> r.is_some() && r.unwrap()@ == self.nodes()[pos as int],
            pos >= self.nodes().len() ==> r.is_none(),
    {
        proof { self.lemma_nodes(); }
        if pos < self.data.len() {
            Some(&self.data[pos])
        } else {
            None
        }
    }

    fn set_tail_at(&mut self, p: usize, t: String)
        requires
            p < old(self).data@.len(),
            old(self).wf(),
        ensures
            final(self).nodes() == old(self).nodes().update(p as int, NodeView { tail: t@, ..old(self).nodes()[p as int] }),
            final(self).same_settings(old(self)),
            final(self).wf(),
            final(self).index@ == old(self).index@,
    {
        self.data[p].tail = t;
        proof {
            assert(self.nodes() =~= old(self).nodes().update(p as int, NodeView { tail: t@, ..old(self).nodes()[p as int] }));
            assert(forall|i: int| 0 <= i < self.data@.len() ==> self.data@[i].idx == old(self).data@[i].idx);
        }
    }

    fn set_text_at(&mut self, p: usize, t: Option<String>)
        requires
            p < old(self).data@.len(),
            old(self).wf(),
        ensures
            final(self).nodes() == old(self).nodes().update(p as int, NodeView { text: opt_view(t), ..old(self).nodes()[p as int] }),
            final(self).same_settings(old(self)),
            final(self).wf(),
            final(self).index@ == old(self).index@,
    {
        self.data[p].text = t;
        proof {
            assert(self.nodes() =~= old(self).nodes().update(p as int, NodeView { text: opt_view(t), ..old(self).nodes()[p as int] }));
            assert(forall|i: int| 0 <= i < self.data@.len() ==> self.data@[i].idx == old(self).data@[i].idx);
        }
    }

    /// The text of the node at `p`, or an empty string.
    fn text_or_empty_at(&self, p: usize) -> (r: String)
        requires
            p < self.data@.len(),
        ensures
            r@ == self.nodes()[p as int].text_or_empty(),
    {
        proof { self.lemma_nodes(); }
        match &self.data[p].text {
            Some(t) => t.clone(),
            None => String::new(),
        }
    }

    /// Rewrites the tail of `p` to what preceded it, before an insert after it.
    fn heal_at(&mut self, p: usize)
        requires
            p < old(self).data@.len(),
            old(self).wf(),
        ensures
            final(self).nodes() == heal(old(self).nodes(), p as int),
            final(self).same_settings(old(self)),
            final(self).wf(),
    {
        proof { self.lemma_nodes(); }
        let _n = self.data.len();
        if let Some(prev) = self.previous(p) {
            proof { lemma_prev_in(self.nodes(), p as int); }
            let t = self.data[prev].tail.clone();
            self.set_tail_at(p, t);
        } else if let Some(parent) = self.parent(p) {
            proof { lemma_parent_in(self.nodes(), p as int); }
            let t = self.text_or_empty_at(parent);
            self.set_tail_at(p, t);
        }
    }

    fn prepare_append_next(&mut self, pos: usize) -> (r: Option<Anchor>)
        requires
            old(self).wf(),
        ensures
            final(self).wf(),
            final(self).same_settings(old(self)),
            match next_plan(old(self).nodes(), pos as int) {
                Some((s2, pl)) => r.is_some() && r.unwrap().place() == pl && final(self).nodes() == s2,
                None => r.is_none() && final(self).nodes() == old(self).nodes(),
            },
            r.is_some() ==> r.unwrap().pos <= final(self).nodes().len(),
    {
        proof { self.lemma_nodes(); }
        if pos >= self.data.len() {
            return None;
        }
        let tail = self.data[pos].tail.clone();
        let route = copy_ids(&self.data[pos].route);
        self.heal_at(pos);
        proof { self.lemma_nodes(); }
        let end = self.desc_end_of(pos);
        proof {
            assert(child_route(self.nodes(), pos as int) == child_route(old(self).nodes(), pos as int));
            lemma_run_end_same(old(self).nodes(), self.nodes(), child_route(old(self).nodes(), pos as int), pos + 1);
        }
        Some(Anchor { pos: end, route, tail })
    }

    fn prepare_append_previous(&mut self, pos: usize) -> (r: Option<Anchor>)
        requires
            old(self).wf(),
        ensures
            final(self).wf(),
            final(self).same_settings(old(self)),
            match previous_plan(old(self).nodes(), pos as int) {
                Some((s2, pl)) => r.is_some() && r.unwrap().place() == pl && final(self).nodes() == s2,
                None => r.is_none() && final(self).nodes() == old(self).nodes(),
            },
            r.is_some() ==> r.unwrap().pos <= final(self).nodes().len(),
    {
        proof { self.lemma_nodes(); }
        let _n = self.data.len();
        if pos >= self.data.len() {
            return None;
        }
        if let Some(prev) = self.previous(pos) {
            proof { lemma_prev_in(self.nodes(), pos as int); }
            self.prepare_append_next(prev)
        } else if let Some(parent) = self.parent(pos) {
            proof { lemma_parent_in(self.nodes(), pos as int); }
            let tail = self.text_or_empty_at(parent);
            let route = child_route_of(&self.data[parent]);
            Some(Anchor { pos: parent + 1, route, tail })
        } else {
            None
        }
    }

    fn prepare_append_child(&mut self, pos: usize) -> (r: Option<Anchor>)
        requires
            old(self).wf(),
        ensures
            final(self).wf(),
            final(self).same_settings(old(self)),
            match child_plan(old(self).nodes(), pos as int, old(self).indent@, old(self).crlf@) {
                Some((s2, pl)) => r.is_some() && r.unwrap().place() == pl && final(self).nodes() == s2,
                None => r.is_none() && final(self).nodes() == old(self).nodes(),
            },
            r.is_some() ==> r.unwrap().pos <= final(self).nodes().len(),
    {
        proof { self.lemma_nodes(); }
        let _n = self.data.len();
        if pos >= self.data.len() {
            return None;
        }
        let route = child_route_of(&self.data[pos]);
        let children = self.children(pos);
        proof {
            lemma_run_end(self.nodes(), route@, pos + 1);
            lemma_pick_bounds(self.nodes(), route@, pos + 1, desc_end(self.nodes(), pos as int));
        }
        if children.len() == 0 {
            let tail = if let Some(prev) = self.previous(pos) {
                proof { lemma_prev_in(self.nodes(), pos as int); }
                self.data[prev].tail.clone()
            } else if let Some(parent) = self.parent(pos) {
                proof { lemma_parent_in(self.nodes(), pos as int); }
                self.text_or_empty_at(parent)
            } else {
                self.crlf.clone()
            };
            let empty = match &self.data[pos].text {
                Some(t) => t.as_str().unicode_len() == 0,
                None => true,
            };
            if empty {
                let text = tail.clone().concat(self.indent.as_str());
                self.set_text_at(pos, Some(text));
            }
            Some(Anchor { pos: pos + 1, route, tail })
        } else {
            let last = children[children.len() - 1];
            let tail = self.data[last].tail.clone();
            let end = self.desc_end_of(pos);
            self.heal_at(last);
            proof {
                lemma_run_end_same(old(self).nodes(), self.nodes(), route@, pos + 1);
            }
            Some(Anchor { pos: end, route, tail })
        }
    }

    /// Puts `node` at `a` with the next id, and advances the counter.
    fn place_node(&mut self, a: Anchor, node: ETreeNode) -> (r: usize)
        requires
            old(self).wf(),
            a.pos <= old(self).nodes().len(),
            old(self).counter() < usize::MAX,
        ensures
            final(self).wf(),
            final(self).nodes() == placed(old(self).nodes(), a.place(), node@, old(self).counter()),
            final(self).counter() == old(self).counter() + 1,
            final(self).indent_view() == old(self).indent_view(),
            final(self).crlf_view() == old(self).crlf_view(),
            final(self).index_enabled() == old(self).index_enabled(),
            r == a.pos,
            final(self).keeps_decl(old(self)),
    {
        proof { self.lemma_nodes(); }
        let mut node = node;
        node.idx = self.count;
        node.tail = a.tail;
        node.route = a.route;
        let ghost nv = node@;
        self.data.insert(a.pos, node);
        self.count = self.count + 1;
        proof {
            assert(self.nodes() =~= old(self).nodes().insert(a.pos as int, nv));
            let s = self.nodes();
            assert forall|i: int, j: int| 0 <= i < j < s.len() implies s[i].idx != s[j].idx by {
                if i < a.pos && j < a.pos {
                    assert(s[i] == old(self).nodes()[i]);
                } else if i < a.pos && j > a.pos {
                    assert(s[j] == old(self).nodes()[j - 1]);
                } else if i > a.pos {
                    assert(s[j] == old(self).nodes()[j - 1]);
                }
            }
        }
        self.generate_index();
        a.pos
    }

    /// Inserts `node` as the previous sibling of `pos` and returns its
    /// position. `None` when `pos` has no previous sibling and no parent, or
    /// when ids are exhausted. Positions obtained earlier are stale after this.
    pub fn append_previous_node(&mut self, pos: usize, node: ETreeNode) -> (r: Option<usize>)
        requires
            old(self).wf(),
        ensures
            final(self).wf(),
            final(self).indent_view() == old(self).indent_view(),
            final(self).crlf_view() == old(self).crlf_view(),
            old(self).counter() < usize::MAX ==> match previous_plan(old(self).nodes(), pos as int) {
                Some((s2, pl)) => r == Some(pl.0 as usize) && final(self).nodes() == placed(s2, pl, node@, old(self).counter())
                    && final(self).counter() == old(self).counter() + 1,
                None => r.is_none() && final(self).nodes() == old(self).nodes(),
            },
            old(self).counter() == usize::MAX ==> r.is_none() && final(self).nodes() == old(self).nodes(),
            final(self).keeps_decl(old(self)),
            r is None ==> final(self).counter() == old(self).counter(),
    {
        if self.count == usize::MAX {
            return None;
        }
        match self.prepare_append_previous(pos) {
            Some(a) => Some(self.place_node(a, node)),
            None => None,
        }
    }

    /// Inserts `node` as the next sibling of `pos` and returns its position.
    /// `None` when `pos` is out of range or ids are exhausted. Positions
    /// obtained earlier are stale after this.
    pub fn append_next_node(&mut self, pos: usize, node: ETreeNode) -> (r: Option<usize>)
        requires
            old(self).wf(),
        ensures
            final(self).wf(),
            final(self).indent_view() == old(self).indent_view(),
            final(self).crlf_view() == old(self).crlf_view(),
            old(self).counter() < usize::MAX ==> match next_plan(old(self).nodes(), pos as int) {
                Some((s2, pl)) => r == Some(pl.0 as usize) && final(self).nodes() == placed(s2, pl, node@, old(self).counter())
                    && final(self).counter() == old(self).counter() + 1,
                None => r.is_none() && final(self).nodes() == old(self).nodes(),
            },
            old(self).counter() == usize::MAX ==> r.is_none() && final(self).nodes() == old(self).nodes(),
            final(self).keeps_decl(old(self)),
            r is None ==> final(self).counter() == old(self).counter(),
    {
        if self.count == usize::MAX {
            return None;
        }
        match self.prepare_append_next(pos) {
            Some(a) => Some(self.place_node(a, node)),
            None => None,
        }
    }

    /// Inserts `node` as the last child of `pos` and returns its position.
    /// `None` when `pos` is out of range or ids are exhausted. Positions
    /// obtained earlier are stale after this.
    pub fn append_child_node(&mut self, pos: usize, node: ETreeNode) -> (r: Option<usize>)
        requires
            old(self).wf(),
        ensures
            final(self).wf(),
            final(self).indent_view() == old(self).indent_view(),
            final(self).crlf_view() == old(self).crlf_view(),
            old(self).counter() < usize::MAX ==> match child_plan(old(self).nodes(), pos as int, old(self).indent_view(), old(self).crlf_view()) {
                Some((s2, pl)) => r == Some(pl.0 as usize) && final(self).nodes() == placed(s2, pl, node@, old(self).counter())
                    && final(self).counter() == old(self).counter() + 1,
                None => r.is_none() && final(self).nodes() == old(self).nodes(),
            },
            old(self).counter() == usize::MAX ==> r.is_none() && final(self).nodes() == old(self).nodes(),
            final(self).keeps_decl(old(self)),
            r is None ==> final(self).counter() == old(self).counter(),
    {
        if self.count == usize::MAX {
            return None;
        }
        match self.prepare_append_child(pos) {
            Some(a) => Some(self.place_node(a, node)),
            None => None,
        }
    }

    /// Removes the node at `pos` with its descendants. Whitespace is healed
    /// first: an earlier sibling takes the removed node's tail; an only child's
    /// parent loses one indent unit from the end of its text. Positions
    /// obtained earlier are stale after this.
    pub fn remove(&mut self, pos: usize)
        requires
            old(self).wf(),
            pos < old(self).nodes().len(),
        ensures
            final(self).wf(),
            final(self).nodes() == removed(old(self).nodes(), pos as int, old(self).indent_view()),
            final(self).counter() == old(self).counter(),
            final(self).indent_view() == old(self).indent_view(),
            final(self).crlf_view() == old(self).crlf_view(),
            final(self).index_enabled() == old(self).index_enabled(),
            final(self).keeps_decl(old(self)),
    {
        proof { self.lemma_nodes(); }
        let _n = self.data.len();
        let end = self.desc_end_of(pos);
        if let Some(previous) = self.previous(pos) {
            proof { lemma_prev_in(self.nodes(), pos as int); }
            let tail = self.data[pos].tail.clone();
            self.set_tail_at(previous, tail);
        } else if let Some(_next) = self.next(pos) {
        } else if let Some(parent) = self.parent(pos) {
            proof { lemma_parent_in(self.nodes(), pos as int); }
            let cut = match &self.data[parent].text {
                Some(t) => {
                    if ends_with(t.as_str(), self.indent.as_str()) {
                        let k = t.as_str().unicode_len() - self.indent.as_str().unicode_len();
                        Some(String::from_str(t.as_str().substring_char(0, k)))
                    } else {
                        None
                    }
                },
                None => None,
            };
            if let Some(t) = cut {
                self.set_text_at(parent, Some(t));
            }
        }
        let ghost h = self.nodes();
        proof {
            lemma_run_end_same(old(self).nodes(), h, child_route(h, pos as int), pos + 1);
            assert(h =~= remove_heal(old(self).nodes(), pos as int, self.indent@));
        }
        let mut k = end;
        while k > pos
            invariant
                pos <= k <= end <= h.len(),
                self.nodes() == h.subrange(0, k as int) + h.subrange(end as int, h.len() as int),
                self.same_settings(old(self)),
                ids_ok(h, self.count),
            decreases k,
        {
            k = k - 1;
            proof { self.lemma_nodes(); }
            let ghost before = self.nodes();
            self.data.remove(k);
            proof {
                self.lemma_nodes();
                assert(self.nodes() =~= before.remove(k as int));
                assert(self.nodes() =~= h.subrange(0, k as int) + h.subrange(end as int, h.len() as int));
            }
        }
        proof {
            let s = self.nodes();
            let e = end as int;
            let p = pos as int;
            assert forall|i: int, j: int| 0 <= i < j < s.len() implies s[i].idx != s[j].idx by {
                let i2 = if i < p { i } else { i + (e - p) };
                let j2 = if j < p { j } else { j + (e - p) };
                assert(s[i] == h[i2]);
                assert(s[j] == h[j2]);
            }
            assert forall|i: int| 0 <= i < s.len() implies s[i].idx < self.count by {
                let i2 = if i < p { i } else { i + (e - p) };
                assert(s[i] == h[i2]);
            }
        }
        self.generate_index();
    }

    /// Copies the subtree rooted at `pos` into a tree of its own: routes lose
    /// the ancestors of `pos`, ids stay as they are. Settings are copied and
    /// the index is off. `None` when `pos` is out of range.
    pub fn subtree(&self, pos: usize) -> (r: Option<ETree>)
        requires
            self.wf(),
        ensures
            pos >= self.nodes().len() ==> r.is_none(),
            pos < self.nodes().len() ==> r.is_some() && r.unwrap().wf()
                && r.unwrap().nodes() == rebased(self.nodes(), pos as int)
                && r.unwrap().counter() == self.counter()
                && r.unwrap().indent_view() == self.indent_view()
                && r.unwrap().crlf_view() == self.crlf_view()
                && !r.unwrap().index_enabled(),
    {
        proof { self.lemma_nodes(); }
        let _n = self.data.len();
        if pos >= self.data.len() {
            return None;
        }
        let end = self.desc_end_of(pos);
        let base = self.data[pos].route.len();
        proof { lemma_run_end(self.nodes(), child_route(self.nodes(), pos as int), pos + 1); }
        let mut data: Vec<ETreeNode> = Vec::new();
        let mut k = pos;
        while k < end
            invariant
                pos <= k <= end <= self.data@.len(),
                end == desc_end(self.nodes(), pos as int),
                base == self.nodes()[pos as int].route.len(),
                self.nodes().len() == self.data@.len(),
                forall|i: int| 0 <= i < self.data@.len() ==> #[trigger] self.nodes()[i] == self.data@[i]@,
                forall|i: int| pos < i < end ==> starts(#[trigger] self.nodes()[i].route, child_route(self.nodes(), pos as int)),
                view_nodes(data@) == rebased(self.nodes(), pos as int).subrange(0, k - pos),
            decreases end - k,
        {
            let mut n = self.data[k].deep_copy();
            assert(self.nodes()[k as int].route.len() >= base);
            let route = suffix_ids(&self.data[k].route, base);
            n.route = route;
            assert(n@ == rebased(self.nodes(), pos as int)[k - pos]);
            let ghost prev_data = data@;
            data.push(n);
            assert(view_nodes(data@) =~= view_nodes(prev_data).push(rebased(self.nodes(), pos as int)[k - pos]));
            k = k + 1;
            assert(view_nodes(data@) =~= rebased(self.nodes(), pos as int).subrange(0, k - pos));
        }
        let tree = ETree {
            indent: self.indent.clone(),
            count: self.count,
            version: self.version.clone(),
            encoding: copy_string_opt(&self.encoding),
            standalone: copy_string_opt(&self.standalone),
            data,
            crlf: self.crlf.clone(),
            enable_index: false,
            index: HashMap::new(),
        };
        proof {
            assert(rebased(self.nodes(), pos as int).subrange(0, end - pos) =~= rebased(self.nodes(), pos as int));
            let t = tree.nodes();
            assert forall|i: int, j: int| 0 <= i < j < t.len() implies t[i].idx != t[j].idx by {
                assert(t[i].idx == self.nodes()[pos + i].idx);
                assert(t[j].idx == self.nodes()[pos + j].idx);
            }
        }
        Some(tree)
    }

    /// Lays out the subtree of `pos` from `level`.
    fn pretty_tree(&mut self, pos: usize, level: usize)
        requires
            old(self).wf(),
            pos < old(self).nodes().len(),
        ensures
            final(self).wf(),
            final(self).same_settings(old(self)),
            final(self).nodes() == prettied(old(self).nodes(), pos as int, level as int, old(self).crlf@, old(self).indent@),
    {
        proof { self.lemma_nodes(); }
        let ghost s = self.nodes();
        let _n = self.data.len();
        let end = self.desc_end_of(pos);
        proof { lemma_run_end(s, child_route(s, pos as int), pos + 1); }
        let base = self.data[pos].route.len();
        let mut k = pos;
        while k < end
            invariant
                pos <= k <= end,
                end == desc_end(s, pos as int),
                end <= s.len(),
                base == s[pos as int].route.len(),
                self.wf(),
                self.same_settings(old(self)),
                s == old(self).nodes(),
                self.nodes().len() == s.len(),
                forall|i: int| pos < i < end ==> starts(#[trigger] s[i].route, child_route(s, pos as int)),
                forall|i: int| 0 <= i < s.len() ==> #[trigger] self.nodes()[i].route == s[i].route,
                forall|i: int| 0 <= i < s.len() && !(pos <= i < k) ==> #[trigger] self.nodes()[i] == s[i],
                forall|i: int| pos <= i < k ==> #[trigger] self.nodes()[i] == pretty_node(s, pos as int, i, level as int, self.crlf@, self.indent@),
            decreases end - k,
        {
            proof { self.lemma_nodes(); }
            assert(self.nodes()[k as int] == s[k as int]);
            let d = self.data[k].route.len() - base;
            let nx = self.next(k);
            proof {
                lemma_next_same(s, self.nodes(), k as int);
                lemma_children_same(s, self.nodes(), k as int);
            }
            let tail = if k == pos || nx.is_some() {
                pad_of(self.crlf.as_str(), self.indent.as_str(), level, d)
            } else {
                pad_of(self.crlf.as_str(), self.indent.as_str(), level, d - 1)
            };
            let nch = self.children(k).len();
            if nch > 0 {
                let t = self.text_or_empty_at(k);
                let inner = pad_of(self.crlf.as_str(), self.indent.as_str(), level, d).concat(self.indent.as_str());
                let text = trim(t.as_str()).concat(inner.as_str());
                self.set_text_at(k, Some(text));
            } else if !self.data[k].is_meta_node() {
                let text = match &self.data[k].text {
                    Some(t) => Some(trim(t.as_str())),
                    None => None,
                };
                self.set_text_at(k, text);
            }
            proof {
                self.lemma_nodes();
                assert(self.nodes()[k as int].text == pretty_node(s, pos as int, k as int, level as int, self.crlf@, self.indent@).text);
            }
            self.set_tail_at(k, tail);
            proof {
                self.lemma_nodes();
                lemma_repeat_add(self.indent@, level as nat, d as nat);
                lemma_repeat_add(self.indent@, level as nat, (d - 1) as nat);
                assert(self.nodes()[k as int] == pretty_node(s, pos as int, k as int, level as int, self.crlf@, self.indent@));
            }
            k = k + 1;
        }
        proof {
            assert(self.nodes() =~= prettied(s, pos as int, level as int, self.crlf@, self.indent@));
        }
    }

    /// Takes the indent unit from `indent`: what follows its last line break
    /// (all of it without one). The line terminator becomes `\r\n` when
    /// `indent` holds one, else `\n`.
    fn set_indent(&mut self, indent: &str)
        requires
            old(self).wf(),
        ensures
            final(self).wf(),
            final(self).nodes() == old(self).nodes(),
            final(self).indent_view() == last_line(indent@),
            final(self).crlf_view() == if has_crlf(indent@) { seq!['\r', '\n'] } else { seq!['\n'] },
            final(self).counter() == old(self).counter(),
            final(self).index_enabled() == old(self).index_enabled(),
            final(self).keeps_decl(old(self)),
    {
        let n = indent.unicode_len();
        let mut j = n;
        let mut crlf = false;
        let mut i: usize = 0;
        while n > 0 && i < n - 1
            invariant
                n == indent@.len(),
                i <= n,
                crlf == exists|k: int| 0 <= k < i && k + 1 < n && #[trigger] indent@[k] == '\r' && indent@[k + 1] == '\n',
            decreases n - i,
        {
            if indent.get_char(i) == '\r' && indent.get_char(i + 1) == '\n' {
                crlf = true;
            }
            i = i + 1;
        }
        proof {
            if has_crlf(indent@) {
                let k = choose|k: int| 0 <= k && k + 1 < indent@.len() && #[trigger] indent@[k] == '\r' && indent@[k + 1] == '\n';
                assert(k < i);
            }
        }
        while j > 0 && indent.get_char(j - 1) != '\n'
            invariant
                n == indent@.len(),
                j <= n,
                last_break(indent@, n - 1) == last_break(indent@, j - 1),
            decreases j,
        {
            j = j - 1;
        }
        proof { lemma_last_break(indent@, n - 1); }
        self.indent = String::from_str(indent.substring_char(j, n));
        if crlf {
            let t = "\r\n";
            proof { reveal_strlit("\r\n"); }
            self.crlf = String::from_str(t);
            assert(self.crlf@ =~= seq!['\r', '\n']);
        } else {
            let t = "\n";
            proof { reveal_strlit("\n"); }
            self.crlf = String::from_str(t);
            assert(self.crlf@ =~= seq!['\n']);
        }
    }

    /// Lays the document out with `indent` (see `set_indent` for how the
    /// unit and the line terminator are read from it): meta nodes before the
    /// root end their line, and the root's subtree is laid out from level 0.
    pub fn pretty(&mut self, indent: &str)
        requires
            old(self).wf(),
        ensures
            final(self).wf(),
            final(self).indent_view() == last_line(indent@),
            final(self).crlf_view() == if has_crlf(indent@) { seq!['\r', '\n'] } else { seq!['\n'] },
            final(self).counter() == old(self).counter(),
            final(self).nodes() == pretty_doc(old(self).nodes(), final(self).crlf_view(), final(self).indent_view()),
            final(self).keeps_decl(old(self)),
    {
        self.set_indent(indent);
        proof { self.lemma_nodes(); }
        let ghost s0 = self.nodes();
        let root = self.root();
        proof { lemma_first_element(s0, 0); }
        let mut i: usize = 0;
        while i < root
            invariant
                i <= root <= s0.len(),
                root == first_element(s0, 0),
                self.wf(),
                self.nodes().len() == s0.len(),
                self.indent@ == last_line(indent@),
                self.crlf@ == if has_crlf(indent@) { seq!['\r', '\n'] } else { seq!['\n'] },
                self.count == old(self).count,
                self.keeps_decl(old(self)),
                forall|k: int| 0 <= k < s0.len() && k >= i ==> #[trigger] self.nodes()[k] == s0[k],
                forall|k: int| 0 <= k < i ==> #[trigger] self.nodes()[k] == (NodeView { tail: self.crlf@, ..s0[k] }),
            decreases root - i,
        {
            proof { self.lemma_nodes(); }
            let t = self.crlf.clone();
            self.set_tail_at(i, t);
            i = i + 1;
        }
        proof {
            lemma_first_element(s0, 0);
            assert(self.nodes() =~= lead_tails(s0, self.crlf@));
        }
        if root < self.data.len() {
            self.pretty_tree(root, 0);
        }
    }

    /// Drops the layout: every tail and text is trimmed, and the indent unit
    /// and line terminator become empty. Returns the terminator followed by
    /// the unit that were in use.
    pub fn noindent(&mut self) -> (r: String)
        requires
            old(self).wf(),
        ensures
            final(self).wf(),
            r@ == old(self).crlf_view() + old(self).indent_view(),
            final(self).nodes() == stripped(old(self).nodes()),
            final(self).indent_view().len() == 0,
            final(self).crlf_view().len() == 0,
            final(self).counter() == old(self).counter(),
            final(self).keeps_decl(old(self)),
    {
        let r = self.crlf.clone().concat(self.indent.as_str());
        self.indent = String::new();
        self.crlf = String::new();
        proof { self.lemma_nodes(); }
        let ghost s0 = self.nodes();
        let mut i: usize = 0;
        while i < self.data.len()
            invariant
                i <= s0.len(),
                self.wf(),
                self.nodes().len() == s0.len(),
                self.data@.len() == s0.len(),
                self.indent@.len() == 0,
                self.crlf@.len() == 0,
                self.count == old(self).count,
                self.keeps_decl(old(self)),
                forall|k: int| 0 <= k < s0.len() && k >= i ==> #[trigger] self.nodes()[k] == s0[k],
                forall|k: int| 0 <= k < i ==> #[trigger] self.nodes()[k] == stripped(s0)[k],
            decreases s0.len() - i,
        {
            proof { self.lemma_nodes(); }
            let tail = trim(self.data[i].tail.as_str());
            let text = match &self.data[i].text {
                Some(t) => Some(trim(t.as_str())),
                None => None,
            };
            self.set_text_at(i, text);
            proof { self.lemma_nodes(); }
            self.set_tail_at(i, tail);
            proof { self.lemma_nodes(); }
            i = i + 1;
        }
        proof {
            assert(self.nodes() =~= stripped(s0));
        }
        r
    }

    /// Reads the indent unit off the layout when the last element's tail is a
    /// prefix of its previous sibling's tail or of its parent's text.
    pub fn detect_indent(&mut self)
        requires
            old(self).wf(),
        ensures
            final(self).wf(),
            final(self).nodes() == old(self).nodes(),
            final(self).counter() == old(self).counter(),
            final(self).crlf_view() == old(self).crlf_view(),
            final(self).index_enabled() == old(self).index_enabled(),
            old(self).nodes().len() > 0 ==> final(self).indent_view() == match detected_indent(old(self).nodes()) {
                Some(u) => u,
                None => old(self).indent_view(),
            },
            old(self).nodes().len() == 0 ==> final(self).indent_view() == old(self).indent_view(),
            final(self).version_view() == old(self).version_view(),
            final(self).encoding_view() == old(self).encoding_view(),
            final(self).standalone_view() == old(self).standalone_view(),
    {
        proof { self.lemma_nodes(); }
        let _n = self.data.len();
        if self.data.len() == 0 {
            return;
        }
        let mut idx = self.data.len();
        while idx > 0 && self.data[idx - 1].is_meta_node()
            invariant
                idx <= self.data@.len(),
                self.nodes().len() == self.data@.len(),
                forall|k: int| 0 <= k < self.data@.len() ==> #[trigger] self.nodes()[k] == self.data@[k]@,
                last_element(self.nodes(), self.data@.len() as int) == last_element(self.nodes(), idx as int),
            decreases idx,
        {
            idx = idx - 1;
        }
        let e = if idx > 0 { idx - 1 } else { 0 };
        let tail = self.data[e].tail.clone();
        if let Some(previous) = self.previous(e) {
            proof { lemma_prev_in(self.nodes(), e as int); }
            if crate::text::starts_with(self.data[previous].tail.as_str(), tail.as_str()) {
                let m = self.data[previous].tail.as_str().unicode_len();
                let k = tail.as_str().unicode_len();
                self.indent = String::from_str(self.data[previous].tail.as_str().substring_char(k, m));
            }
        } else if let Some(parent) = self.parent(e) {
            proof { lemma_parent_in(self.nodes(), e as int); }
            let text = self.text_or_empty_at(parent);
            if crate::text::starts_with(text.as_str(), tail.as_str()) {
                let m = text.as_str().unicode_len();
                let k = tail.as_str().unicode_len();
                self.indent = String::from_str(text.as_str().substring_char(k, m));
            }
        }
    }

    /// Smallest and largest id.
    fn id_span(&self) -> (r: (usize, usize))
        ensures
            r.0 == min_id(self.nodes()),
            r.1 == max_id(self.nodes()),
    {
        proof { self.lemma_nodes(); }
        if self.data.len() == 0 {
            return (0, 0);
        }
        let mut lo = self.data[0].idx;
        let mut hi = self.data[0].idx;
        let mut i: usize = 1;
        proof {
            assert(self.nodes().subrange(0, 1).drop_last() =~= Seq::<NodeView>::empty());
        }
        while i < self.data.len()
            invariant
                1 <= i <= self.data@.len(),
                self.nodes().len() == self.data@.len(),
                forall|k: int| 0 <= k < self.data@.len() ==> #[trigger] self.nodes()[k] == self.data@[k]@,
                lo == min_id(self.nodes().subrange(0, i as int)),
                hi == max_id(self.nodes().subrange(0, i as int)),
            decreases self.data@.len() - i,
        {
            let x = self.data[i].idx;
            proof {
                assert(self.nodes().subrange(0, i + 1).drop_last() =~= self.nodes().subrange(0, i as int));
            }
            if x < lo {
                lo = x;
            }
            if x > hi {
                hi = x;
            }
            i = i + 1;
        }
        proof {
            assert(self.nodes().subrange(0, i as int) =~= self.nodes());
        }
        (lo, hi)
    }

    /// Renumbers the nodes from `start_idx` when the new ids do not meet the
    /// old ones, rewriting routes to follow, and returns the new range.
    /// Otherwise changes nothing and returns a range above the old maximum,
    /// where a renumbering would be clear.
    fn subtree_reindex(&mut self, start_idx: usize) -> (r: (usize, usize))
        requires
            start_idx + old(self).nodes().len() <= usize::MAX,
            clear_of(old(self).nodes(), start_idx as int) || ids_fit(old(self).nodes(), start_idx as int),
        ensures
            ({
                let s = old(self).nodes();
                let n = s.len() as int;
                if n == 0 {
                    r == (0usize, 0usize) && final(self).nodes() == s
                } else if clear_of(s, start_idx as int) {
                    r == (start_idx, (start_idx + n) as usize) && final(self).nodes() == relabeled(s, start_idx as int)
                } else {
                    r == ((max_id(s) + n + 1) as usize, (max_id(s) + 2 * n + 1) as usize) && final(self).nodes() == s
                }
            }),
            final(self).same_settings(old(self)),
    {
        proof { self.lemma_nodes(); }
        let ghost s = self.nodes();
        let n = self.data.len();
        if n == 0 {
            return (0, 0);
        }
        let (lo, hi) = self.id_span();
        if (start_idx + n <= lo) || (start_idx > hi) {
            let mut ids: Vec<usize> = Vec::new();
            let mut i: usize = 0;
            while i < n
                invariant
                    i <= n,
                    n == self.data@.len(),
                    s == self.nodes(),
                    forall|k: int| 0 <= k < n ==> #[trigger] self.nodes()[k] == self.data@[k]@,
                    ids@ == ids_of(s).subrange(0, i as int),
                decreases n - i,
            {
                ids.push(self.data[i].idx);
                i = i + 1;
                assert(ids@ =~= ids_of(s).subrange(0, i as int));
            }
            assert(ids@ =~= ids_of(s));
            let mut k: usize = 0;
            while k < n
                invariant
                    k <= n,
                    n == self.data@.len(),
                    n == s.len(),
                    start_idx + n <= usize::MAX,
                    ids@ == ids_of(s),
                    self.same_settings(old(self)),
                    forall|j: int| 0 <= j < n ==> #[trigger] self.nodes()[j] == if j < k { relabeled(s, start_idx as int)[j] } else { s[j] },
                decreases n - k,
            {
                proof { self.lemma_nodes(); }
                assert(self.nodes()[k as int] == s[k as int]);
                let route = map_route(&self.data[k].route, &ids, start_idx);
                let ghost before = self.data@;
                let ghost before_nodes = self.nodes();
                self.data[k].idx = start_idx + k;
                self.data[k].route = route;
                proof {
                    self.lemma_nodes();
                    assert(self.data@ == before.update(k as int, self.data@[k as int]));
                    assert forall|j: int| 0 <= j < n && j != k implies #[trigger] self.nodes()[j] == before_nodes[j] by {
                        assert(self.data@[j] == before[j]);
                    }
                    assert(self.nodes()[k as int] == relabeled(s, start_idx as int)[k as int]);
                }
                k = k + 1;
            }
            proof {
                self.lemma_nodes();
                assert(self.nodes() =~= relabeled(s, start_idx as int));
            }
            (start_idx, start_idx + n)
        } else {
            (hi + n + 1, hi + n * 2 + 1)
        }
    }

    /// Puts the nodes of `tree` at `a`, renumbered from the counter, and lays
    /// them out when an indent unit is set.
    #[verifier::rlimit(60)]
    fn graft(&mut self, a: Anchor, tree: ETree) -> (r: usize)
        requires
            old(self).wf(),
            a.pos <= old(self).nodes().len(),
            tree.nodes().len() > 0,
            ids_fit(tree.nodes(), old(self).counter() as int),
        ensures
            final(self).wf(),
            final(self).nodes() == merged_layout(old(self).nodes(), a.place(), fresh_ids(tree.nodes(), old(self).counter() as int), old(self).indent_view(), old(self).crlf_view()),
            final(self).counter() == old(self).counter() + tree.nodes().len(),
            final(self).indent_view() == old(self).indent_view(),
            final(self).crlf_view() == old(self).crlf_view(),
            final(self).index_enabled() == old(self).index_enabled(),
            r == a.pos,
            final(self).keeps_decl(old(self)),
    {
        proof { self.lemma_nodes(); tree.lemma_nodes(); }
        let mut tree = tree;
        let ghost t0 = tree.nodes();
        let ghost s0 = self.nodes();
        let n = tree.data.len();
        let (startidx, endidx) = tree.subtree_reindex(self.count);
        if startidx == self.count {
            self.count = endidx;
        } else {
            proof { lemma_min_max(t0); }
            let _ = tree.subtree_reindex(startidx);
            proof {
                lemma_relabeled_span(t0, startidx as int);
                tree.lemma_nodes();
            }
            let (_, endidx) = tree.subtree_reindex(self.count);
            self.count = endidx;
        }
        proof {
            tree.lemma_nodes();
            lemma_min_max(t0);
            assert(tree.nodes() == fresh_ids(t0, old(self).count as int));
            lemma_relabeled_ids(t0, old(self).count as int);
        }
        let ghost t1 = tree.nodes();
        let mut i: usize = 0;
        while i < n
            invariant
                i <= n,
                n == tree.data@.len(),
                n == t1.len(),
                a.pos <= s0.len(),
                self.nodes() == s0.subrange(0, a.pos as int) + grafted(t1, a.place()).subrange(0, i as int) + s0.subrange(a.pos as int, s0.len() as int),
                forall|k: int| 0 <= k < n ==> #[trigger] tree.nodes()[k] == t1[k],
                self.count == old(self).count + n,
                self.indent@ == old(self).indent@,
                self.crlf@ == old(self).crlf@,
                self.enable_index == old(self).enable_index,
                self.keeps_decl(old(self)),
            decreases n - i,
        {
            proof { self.lemma_nodes(); tree.lemma_nodes(); }
            let mut node = tree.data[i].deep_copy();
            let mut route = copy_ids(&a.route);
            let mut j: usize = 0;
            assert(tree.nodes()[i as int] == t1[i as int]);
            assert(tree.nodes()[i as int] == tree.data@[i as int]@);
            assert(tree.data@[i as int]@ == t1[i as int]);
            while j < tree.data[i].route.len()
                invariant
                    i < tree.data@.len(),
                    t1.len() == tree.data@.len(),
                    tree.data@[i as int]@ == t1[i as int],
                    node@ == t1[i as int],
                    j <= tree.data@[i as int].route@.len(),
                    route@ == a.route@ + tree.data@[i as int].route@.subrange(0, j as int),
                decreases tree.data@[i as int].route@.len() - j,
            {
                route.push(tree.data[i].route[j]);
                j = j + 1;
                assert(route@ =~= a.route@ + tree.data@[i as int].route@.subrange(0, j as int));
            }
            assert(tree.data@[i as int].route@.subrange(0, j as int) =~= tree.data@[i as int].route@);
            node.route = route;
            if i == 0 {
                node.tail = a.tail.clone();
            }
            let ghost before = self.nodes();
            let ghost nv = node@;
            assert(tree.data@[i as int]@ == t1[i as int]);
            assert(nv.route == grafted(t1, a.place())[i as int].route);
            assert(nv.tail == grafted(t1, a.place())[i as int].tail);
            assert(nv == grafted(t1, a.place())[i as int]);
            let _m = self.data.len();
            assert(self.data@.len() == s0.len() + i);
            self.data.insert(a.pos + i, node);
            proof {
                self.lemma_nodes();
                assert(self.nodes() =~= before.insert(a.pos + i, nv));
                assert(self.nodes() =~= s0.subrange(0, a.pos as int) + grafted(t1, a.place()).subrange(0, i + 1) + s0.subrange(a.pos as int, s0.len() as int));
            }
            i = i + 1;
        }
        proof {
            assert(grafted(t1, a.place()).subrange(0, n as int) =~= grafted(t1, a.place()));
            lemma_graft_unique(s0, old(self).count, t0, a.place());
        }
        self.generate_index();
        let ghost m = self.nodes();
        if self.indent.as_str().unicode_len() > 0 {
            let lvl0 = last_line_len(a.tail.as_str()) / self.indent.as_str().unicode_len();
            proof { self.lemma_nodes(); }
            let lvl = if self.next(a.pos).is_none() && lvl0 < usize::MAX { lvl0 + 1 } else { lvl0 };
            self.pretty_tree(a.pos, lvl);
            proof { self.lemma_nodes(); }
            self.set_tail_at(a.pos, a.tail);
            proof {
                self.lemma_nodes();
            }
        }
        a.pos
    }

    /// Grafts `tree` as the previous sibling of `pos` and returns the position of its
    /// root. Incoming ids are renumbered from this tree's counter; the
    /// incoming subtree is laid out to match when an indent unit is set.
    /// `None` when `pos` has no previous sibling and no parent, or when renumbering would leave `usize`.
    /// Positions obtained earlier are stale after this.
    pub fn append_previous_tree(&mut self, pos: usize, tree: ETree) -> (r: Option<usize>)
        requires
            old(self).wf(),
            tree.nodes().len() > 0,
        ensures
            final(self).wf(),
            final(self).indent_view() == old(self).indent_view(),
            final(self).crlf_view() == old(self).crlf_view(),
            ids_fit(tree.nodes(), old(self).counter() as int) ==> match previous_plan(old(self).nodes(), pos as int) {
                Some((s2, pl)) => r == Some(pl.0 as usize) && final(self).nodes() == merged_layout(
                    s2,
                    pl,
                    fresh_ids(tree.nodes(), old(self).counter() as int),
                    old(self).indent_view(),
                    old(self).crlf_view(),
                ) && final(self).counter() == old(self).counter() + tree.nodes().len(),
                None => r.is_none() && final(self).nodes() == old(self).nodes(),
            },
            !ids_fit(tree.nodes(), old(self).counter() as int) ==> r.is_none() && final(self).nodes() == old(self).nodes(),
            final(self).keeps_decl(old(self)),
            r is None ==> final(self).counter() == old(self).counter(),
    {
        if !self.ids_fit_for(&tree) {
            return None;
        }
        match self.prepare_append_previous(pos) {
            Some(a) => Some(self.graft(a, tree)),
            None => None,
        }
    }

    /// Grafts `tree` as the next sibling of `pos` and returns the position of its
    /// root. Incoming ids are renumbered from this tree's counter; the
    /// incoming subtree is laid out to match when an indent unit is set.
    /// `None` when `pos` is out of range, or when renumbering would leave `usize`.
    /// Positions obtained earlier are stale after this.
    pub fn append_next_tree(&mut self, pos: usize, tree: ETree) -> (r: Option<usize>)
        requires
            old(self).wf(),
            tree.nodes().len() > 0,
        ensures
            final(self).wf(),
            final(self).indent_view() == old(self).indent_view(),
            final(self).crlf_view() == old(self).crlf_view(),
            ids_fit(tree.nodes(), old(self).counter() as int) ==> match next_plan(old(self).nodes(), pos as int) {
                Some((s2, pl)) => r == Some(pl.0 as usize) && final(self).nodes() == merged_layout(
                    s2,
                    pl,
                    fresh_ids(tree.nodes(), old(self).counter() as int),
                    old(self).indent_view(),
                    old(self).crlf_view(),
                ) && final(self).counter() == old(self).counter() + tree.nodes().len(),
                None => r.is_none() && final(self).nodes() == old(self).nodes(),
            },
            !ids_fit(tree.nodes(), old(self).counter() as int) ==> r.is_none() && final(self).nodes() == old(self).nodes(),
            final(self).keeps_decl(old(self)),
            r is None ==> final(self).counter() == old(self).counter(),
    {
        if !self.ids_fit_for(&tree) {
            return None;
        }
        match self.prepare_append_next(pos) {
            Some(a) => Some(self.graft(a, tree)),
            None => None,
        }
    }

    /// Grafts `tree` as the last child of `pos` and returns the position of its
    /// root. Incoming ids are renumbered from this tree's counter; the
    /// incoming subtree is laid out to match when an indent unit is set.
    /// `None` when `pos` is out of range, or when renumbering would leave `usize`.
    /// Positions obtained earlier are stale after this.
    pub fn append_child_tree(&mut self, pos: usize, tree: ETree) -> (r: Option<usize>)
        requires
            old(self).wf(),
            tree.nodes().len() > 0,
        ensures
            final(self).wf(),
            final(self).indent_view() == old(self).indent_view(),
            final(self).crlf_view() == old(self).crlf_view(),
            ids_fit(tree.nodes(), old(self).counter() as int) ==> match child_plan(old(self).nodes(), pos as int, old(self).indent_view(), old(self).crlf_view()) {
                Some((s2, pl)) => r == Some(pl.0 as usize) && final(self).nodes() == merged_layout(
                    s2,
                    pl,
                    fresh_ids(tree.nodes(), old(self).counter() as int),
                    old(self).indent_view(),
                    old(self).crlf_view(),
                ) && final(self).counter() == old(self).counter() + tree.nodes().len(),
                None => r.is_none() && final(self).nodes() == old(self).nodes(),
            },
            !ids_fit(tree.nodes(), old(self).counter() as int) ==> r.is_none() && final(self).nodes() == old(self).nodes(),
            final(self).keeps_decl(old(self)),
            r is None ==> final(self).counter() == old(self).counter(),
    {
        if !self.ids_fit_for(&tree) {
            return None;
        }
        match self.prepare_append_child(pos) {
            Some(a) => Some(self.graft(a, tree)),
            None => None,
        }
    }

    /// Whether the nodes of `tree` can be renumbered from the counter.
    fn ids_fit_for(&self, tree: &ETree) -> (r: bool)
        ensures
            r == ids_fit(tree.nodes(), self.count as int),
    {
        proof { tree.lemma_nodes(); }
        let n = tree.data.len();
        let (_, hi) = tree.id_span();
        proof { lemma_min_max(tree.nodes()); }
        if self.count > usize::MAX - n {
            return false;
        }
        if n > (usize::MAX - 1) / 2 {
            return false;
        }
        hi <= usize::MAX - 1 - 2 * n
    }

    /// Appends `node` at the end with the next id and route `route`; ids
    /// stay equal to positions. `false` when ids are exhausted.
    pub fn push_node(&mut self, node: ETreeNode, route: &Vec<usize>) -> (r: bool)
        requires
            old(self).wf(),
            old(self).counter() == old(self).nodes().len(),
            forall|k: int| 0 <= k < old(self).nodes().len() ==> #[trigger] old(self).nodes()[k].idx == k,
        ensures
            final(self).wf(),
            final(self).counter() == final(self).nodes().len(),
            forall|k: int| 0 <= k < final(self).nodes().len() ==> #[trigger] final(self).nodes()[k].idx == k,
            r == (old(self).counter() < usize::MAX),
            r ==> final(self).nodes() == old(self).nodes().push(NodeView { idx: old(self).counter(), route: route@, ..node@ }),
            !r ==> final(self).nodes() == old(self).nodes(),
            final(self).crlf_view() == old(self).crlf_view(),
            final(self).indent_view() == old(self).indent_view(),
            final(self).index_enabled() == old(self).index_enabled(),
            final(self).version_view() == old(self).version_view(),
            final(self).encoding_view() == old(self).encoding_view(),
            final(self).standalone_view() == old(self).standalone_view(),
    {
        proof { self.lemma_nodes(); }
        if self.count == usize::MAX {
            return false;
        }
        let mut node = node;
        node.idx = self.count;
        node.route = copy_ids(route);
        let ghost nv = node@;
        self.data.push(node);
        self.count = self.count + 1;
        proof {
            self.lemma_nodes();
            assert(self.nodes() =~= old(self).nodes().push(nv));
        }
        self.generate_index();
        true
    }

    /// Sets the text of the node at `p`.
    pub fn set_text_of(&mut self, p: usize, text: &str)
        requires
            old(self).wf(),
            p < old(self).nodes().len(),
        ensures
            final(self).wf(),
            final(self).nodes() == old(self).nodes().update(p as int, NodeView { text: Some(text@), ..old(self).nodes()[p as int] }),
            final(self).counter() == old(self).counter(),
            final(self).crlf_view() == old(self).crlf_view(),
            final(self).indent_view() == old(self).indent_view(),
            final(self).index_enabled() == old(self).index_enabled(),
            final(self).version_view() == old(self).version_view(),
            final(self).encoding_view() == old(self).encoding_view(),
            final(self).standalone_view() == old(self).standalone_view(),
    {
        proof { self.lemma_nodes(); }
        self.set_text_at(p, Some(String::from_str(text)));
    }

    /// Sets the tail of the node at `p`.
    pub fn set_tail_of(&mut self, p: usize, tail: &str)
        requires
            old(self).wf(),
            p < old(self).nodes().len(),
        ensures
            final(self).wf(),
            final(self).nodes() == old(self).nodes().update(p as int, NodeView { tail: tail@, ..old(self).nodes()[p as int] }),
            final(self).counter() == old(self).counter(),
            final(self).crlf_view() == old(self).crlf_view(),
            final(self).indent_view() == old(self).indent_view(),
            final(self).index_enabled() == old(self).index_enabled(),
            final(self).version_view() == old(self).version_view(),
            final(self).encoding_view() == old(self).encoding_view(),
            final(self).standalone_view() == old(self).standalone_view(),
    {
        proof { self.lemma_nodes(); }
        self.set_tail_at(p, String::from_str(tail));
    }

    /// One past the last descendant of `pos`.
    fn desc_end_of(&self, pos: usize) -> (e: usize)
        requires
            pos < self.data@.len(),
        ensures
            e == desc_end(self.nodes(), pos as int),
            pos < e <= self.data@.len(),
    {
        proof { self.lemma_nodes(); }
        let _n = self.data.len();
        let route = child_route_of(&self.data[pos]);
        let e = self.run_end_of(&route, pos + 1);
        proof { lemma_run_end(self.nodes(), route@, pos + 1); }
        e
    }
}

/// The entries of `v` from `from` on.
pub fn suffix_ids(v: &Vec<usize>, from: usize) -> (r: Vec<usize>)
    requires
        from <= v@.len(),
    ensures
        r@ == v@.subrange(from as int, v@.len() as int),
{
    let mut r: Vec<usize> = Vec::new();
    let mut j = from;
    while j < v.len()
        invariant
            from <= j <= v@.len(),
            r@ == v@.subrange(from as int, j as int),
        decreases v@.len() - j,
    {
        r.push(v[j]);
        j = j + 1;
        assert(r@ =~= v@.subrange(from as int, j as int));
    }
    r
}

/// Whether two routes are equal.
pub fn same_route(a: &Vec<usize>, b: &Vec<usize>) -> (r: bool)
    ensures
        r == (a@ == b@),
{
    if a.len() != b.len() {
        return false;
    }
    let mut i: usize = 0;
    while i < a.len()
        invariant
            a@.len() == b@.len(),
            i <= a@.len(),
            forall|k: int| 0 <= k < i ==> a@[k] == b@[k],
        decreases a@.len() - i,
    {
        if a[i] != b[i] {
            return false;
        }
        i = i + 1;
    }
    assert(a@ =~= b@);
    true
}

/// Whether route `a` starts with route `p`.
pub fn route_starts(a: &Vec<usize>, p: &Vec<usize>) -> (r: bool)
    ensures
        r == starts(a@, p@),
{
    if p.len() > a.len() {
        return false;
    }
    let mut i: usize = 0;
    while i < p.len()
        invariant
            p@.len() <= a@.len(),
            i <= p@.len(),
            forall|k: int| 0 <= k < i ==> a@[k] == p@[k],
        decreases p@.len() - i,
    {
        if a[i] != p[i] {
            assert(a@.subrange(0, p@.len() as int)[i as int] != p@[i as int]);
            return false;
        }
        i = i + 1;
    }
    assert(a@.subrange(0, p@.len() as int) =~= p@);
    true
}

/// The route given to the children of `n`.
pub fn child_route_of(n: &ETreeNode) -> (r: Vec<usize>)
    ensures
        r@ == n@.route.push(n@.idx),
{
    let mut r = copy_ids(&n.route);
    r.push(n.idx);
    r
}

} // verus!

verus! {

/// Where a new node goes: its position, its route and its tail.
pub struct Anchor {
    pub pos: usize,
    pub route: Vec<usize>,
    pub tail: String,
}

impl Anchor {
    pub open spec fn place(&self) -> Place {
        (self.pos as int, self.route@, self.tail@)
    }
}

pub proof fn lemma_prev_scan_in(s: Seq<NodeView>, r: Seq<usize>, j: int)
    requires
        s.len() <= usize::MAX,
    ensures
        prev_scan(s, r, j) matches Some(i) ==> 0 <= i <= j && i < s.len() && s[i as int].route == r,
    decreases j + 1,
{
    if 0 <= j < s.len() && s[j].route != r && starts(s[j].route, r) {
        lemma_prev_scan_in(s, r, j - 1);
    }
}

pub proof fn lemma_next_scan_in(s: Seq<NodeView>, r: Seq<usize>, j: int)
    requires
        s.len() <= usize::MAX,
    ensures
        next_scan(s, r, j) matches Some(i) ==> 0 <= j <= i < s.len() && s[i as int].route == r,
    decreases s.len() - j,
{
    if 0 <= j < s.len() && s[j].route != r && starts(s[j].route, r) {
        lemma_next_scan_in(s, r, j + 1);
    }
}

pub proof fn lemma_find_back_in(s: Seq<NodeView>, r: Seq<usize>, j: int)
    requires
        s.len() <= usize::MAX,
    ensures
        find_back(s, r, j) matches Some(i) ==> 0 <= i <= j && i < s.len() && s[i as int].route == r,
    decreases j + 1,
{
    if 0 <= j < s.len() && s[j].route != r {
        lemma_find_back_in(s, r, j - 1);
    }
}

pub proof fn lemma_prev_in(s: Seq<NodeView>, p: int)
    requires
        s.len() <= usize::MAX,
    ensures
        spec_previous(s, p) matches Some(i) ==> 0 <= i < p && p < s.len() && s[i as int].route == s[p].route,
{
    if 0 < p < s.len() {
        lemma_prev_scan_in(s, s[p].route, p - 1);
    }
}

pub proof fn lemma_next_in(s: Seq<NodeView>, p: int)
    requires
        s.len() <= usize::MAX,
    ensures
        spec_next(s, p) matches Some(i) ==> 0 <= p < i < s.len() && s[i as int].route == s[p].route,
{
    if 0 <= p && p + 1 < s.len() {
        lemma_next_scan_in(s, s[p].route, p + 1);
    }
}

pub proof fn lemma_parent_in(s: Seq<NodeView>, p: int)
    requires
        s.len() <= usize::MAX,
    ensures
        spec_parent(s, p) matches Some(i) ==> 0 <= i < p && p < s.len() && s[p].route.len() > 0
            && s[i as int].route == s[p].route.drop_last(),
{
    if 0 < p < s.len() && s[p].route.len() > 0 {
        lemma_find_back_in(s, s[p].route.drop_last(), p - 1);
    }
}

/// `run_end` reads routes only.
pub proof fn lemma_run_end_same(s: Seq<NodeView>, t: Seq<NodeView>, r: Seq<usize>, i: int)
    requires
        s.len() == t.len(),
        forall|k: int| 0 <= k < s.len() ==> #[trigger] s[k].route == t[k].route,
    ensures
        run_end(s, r, i) == run_end(t, r, i),
    decreases s.len() - i,
{
    if 0 <= i < s.len() && starts(s[i].route, r) {
        lemma_run_end_same(s, t, r, i + 1);
    }
}

} // verus!

verus! {

pub proof fn lemma_children_bounds(s: Seq<NodeView>, p: int)
    requires
        s.len() <= usize::MAX,
    ensures
        forall|k: int| 0 <= k < spec_children(s, p).len() ==> #[trigger] spec_children(s, p)[k] < s.len(),
{
    if 0 <= p < s.len() {
        lemma_run_end(s, child_route(s, p), p + 1);
        lemma_pick_bounds(s, child_route(s, p), p + 1, desc_end(s, p));
    }
}

pub proof fn lemma_descendant_bounds(s: Seq<NodeView>, p: int)
    requires
        s.len() <= usize::MAX,
    ensures
        forall|k: int| 0 <= k < spec_descendant(s, p).len() ==> #[trigger] spec_descendant(s, p)[k] < s.len(),
{
    if 0 <= p < s.len() {
        lemma_run_end(s, child_route(s, p), p + 1);
    }
}

pub proof fn lemma_named_bounds(s: Seq<NodeView>, c: Seq<usize>, name: Seq<char>)
    ensures
        forall|k: int| 0 <= k < named(s, c, name).len() ==> exists|j: int| 0 <= j < c.len() && #[trigger] named(s, c, name)[k] == c[j],
    decreases c.len(),
{
    if c.len() > 0 {
        lemma_named_bounds(s, c.drop_last(), name);
        let r = named(s, c, name);
        assert forall|k: int| 0 <= k < r.len() implies exists|j: int| 0 <= j < c.len() && #[trigger] r[k] == c[j] by {
            let q = named(s, c.drop_last(), name);
            if k < q.len() {
                let j = choose|j: int| 0 <= j < c.drop_last().len() && q[k] == c.drop_last()[j];
                assert(r[k] == c[j]);
            } else {
                assert(r[k] == c[c.len() - 1]);
            }
        }
    }
}

pub proof fn lemma_first_element(s: Seq<NodeView>, i: int)
    requires
        0 <= i <= s.len(),
    ensures
        i <= first_element(s, i) <= s.len(),
    decreases s.len() - i,
{
    if i < s.len() && s[i].is_meta() {
        lemma_first_element(s, i + 1);
    }
}

pub proof fn lemma_repeat_add(x: Seq<char>, a: nat, b: nat)
    ensures
        repeat(x, a) + repeat(x, b) == repeat(x, a + b),
    decreases b,
{
    if b == 0 {
        assert(repeat(x, a) + repeat(x, 0) =~= repeat(x, a));
    } else {
        lemma_repeat_add(x, a, (b - 1) as nat);
        assert(repeat(x, a) + repeat(x, b) =~= repeat(x, a) + repeat(x, (b - 1) as nat) + x);
        assert(repeat(x, (a + b) as nat) == repeat(x, (a + b - 1) as nat) + x);
    }
}

/// `x` repeated `n` times.
pub fn repeat_str(x: &str, n: usize) -> (r: String)
    ensures
        r@ == repeat(x@, n as nat),
{
    let mut r = String::new();
    let mut i: usize = 0;
    while i < n
        invariant
            i <= n,
            r@ == repeat(x@, i as nat),
        decreases n - i,
    {
        r = r.concat(x);
        i = i + 1;
    }
    r
}

/// A line break followed by `a + b` indent units.
pub fn pad_of(crlf: &str, indent: &str, a: usize, b: usize) -> (r: String)
    ensures
        r@ == pad(crlf@, indent@, a + b),
{
    let x = repeat_str(indent, a);
    let y = repeat_str(indent, b);
    proof { lemma_repeat_add(indent@, a as nat, b as nat); }
    let r = String::from_str(crlf).concat(x.as_str()).concat(y.as_str());
    assert(r@ =~= crlf@ + (repeat(indent@, a as nat) + repeat(indent@, b as nat)));
    r
}

/// `next_scan` reads routes only.
pub proof fn lemma_next_scan_same(s: Seq<NodeView>, t: Seq<NodeView>, r: Seq<usize>, j: int)
    requires
        s.len() == t.len(),
        forall|k: int| 0 <= k < s.len() ==> #[trigger] s[k].route == t[k].route,
    ensures
        next_scan(s, r, j) == next_scan(t, r, j),
    decreases s.len() - j,
{
    if 0 <= j < s.len() && s[j].route != r && starts(s[j].route, r) {
        lemma_next_scan_same(s, t, r, j + 1);
    }
}

pub proof fn lemma_next_same(s: Seq<NodeView>, t: Seq<NodeView>, p: int)
    requires
        s.len() == t.len(),
        forall|k: int| 0 <= k < s.len() ==> #[trigger] s[k].route == t[k].route,
    ensures
        spec_next(s, p) == spec_next(t, p),
{
    if 0 <= p && p + 1 < s.len() {
        lemma_next_scan_same(s, t, s[p].route, p + 1);
    }
}

pub proof fn lemma_pick_same(s: Seq<NodeView>, t: Seq<NodeView>, r: Seq<usize>, lo: int, hi: int)
    requires
        s.len() == t.len(),
        0 <= lo,
        hi <= s.len(),
        forall|k: int| 0 <= k < s.len() ==> #[trigger] s[k].route == t[k].route,
    ensures
        pick(s, r, lo, hi) == pick(t, r, lo, hi),
    decreases hi - lo,
{
    if hi > lo {
        lemma_pick_same(s, t, r, lo, hi - 1);
    }
}

pub proof fn lemma_children_same(s: Seq<NodeView>, t: Seq<NodeView>, p: int)
    requires
        s.len() == t.len(),
        forall|k: int| 0 <= k < s.len() ==> #[trigger] s[k].route == t[k].route && s[k].idx == t[k].idx,
    ensures
        spec_children(s, p) == spec_children(t, p),
        0 <= p < s.len() ==> desc_end(s, p) == desc_end(t, p),
{
    if 0 <= p < s.len() {
        assert(child_route(s, p) == child_route(t, p));
        lemma_run_end_same(s, t, child_route(s, p), p + 1);
        lemma_run_end(s, child_route(s, p), p + 1);
        lemma_pick_same(s, t, child_route(s, p), p + 1, desc_end(s, p));
    }
}

} // verus!

verus! {

/// Where `x` stands in `ids`, from the start.
pub fn lookup(ids: &Vec<usize>, x: usize) -> (r: Option<usize>)
    ensures
        match index_in(ids@, x, 0) {
            Some(k) => r == Some(k as usize),
            None => r.is_none(),
        },
{
    let mut i: usize = 0;
    while i < ids.len()
        invariant
            i <= ids@.len(),
            index_in(ids@, x, 0) == index_in(ids@, x, i as int),
        decreases ids@.len() - i,
    {
        if ids[i] == x {
            return Some(i);
        }
        i = i + 1;
    }
    None
}

pub proof fn lemma_index_in(ids: Seq<usize>, x: usize, i: int)
    requires
        0 <= i,
    ensures
        index_in(ids, x, i) matches Some(k) ==> i <= k < ids.len() && ids[k] == x,
    decreases ids.len() - i,
{
    if i < ids.len() && ids[i] != x {
        lemma_index_in(ids, x, i + 1);
    }
}

/// A route with each id of `ids` replaced by its renumbered id.
pub fn map_route(route: &Vec<usize>, ids: &Vec<usize>, start: usize) -> (r: Vec<usize>)
    requires
        start + ids@.len() <= usize::MAX,
    ensures
        r@ == route@.map_values(|x: usize| relabel_id(ids@, start as int, x)),
{
    let mut r: Vec<usize> = Vec::new();
    let mut j: usize = 0;
    while j < route.len()
        invariant
            j <= route@.len(),
            start + ids@.len() <= usize::MAX,
            r@ == route@.subrange(0, j as int).map_values(|x: usize| relabel_id(ids@, start as int, x)),
        decreases route@.len() - j,
    {
        let x = route[j];
        proof { lemma_index_in(ids@, x, 0); }
        let y = match lookup(ids, x) {
            Some(k) => start + k,
            None => x,
        };
        r.push(y);
        j = j + 1;
        assert(r@ =~= route@.subrange(0, j as int).map_values(|x: usize| relabel_id(ids@, start as int, x)));
    }
    assert(route@.subrange(0, j as int) =~= route@);
    r
}

/// Length of what follows the last line break of `s`.
pub fn last_line_len(s: &str) -> (r: usize)
    ensures
        r == last_line(s@).len(),
{
    let n = s.unicode_len();
    let mut j = n;
    while j > 0 && s.get_char(j - 1) != '\n'
        invariant
            n == s@.len(),
            j <= n,
            last_break(s@, n - 1) == last_break(s@, j - 1),
        decreases j,
    {
        j = j - 1;
    }
    proof { lemma_last_break(s@, n - 1); }
    n - j
}

pub proof fn lemma_min_max(s: Seq<NodeView>)
    ensures
        forall|k: int| 0 <= k < s.len() ==> min_id(s) <= #[trigger] s[k].idx <= max_id(s),
        s.len() > 0 ==> 0 <= min_id(s) <= max_id(s),
    decreases s.len(),
{
    if s.len() > 0 {
        lemma_min_max(s.drop_last());
        assert forall|k: int| 0 <= k < s.len() implies min_id(s) <= #[trigger] s[k].idx <= max_id(s) by {
            if k < s.len() - 1 {
                assert(s[k] == s.drop_last()[k]);
            }
        }
    }
}

/// Renumbered ids are `start, start + 1, ...`; so the smallest and largest
/// are the ends of that range.
pub proof fn lemma_relabeled_span(s: Seq<NodeView>, start: int)
    requires
        s.len() > 0,
        0 <= start,
        start + s.len() <= usize::MAX,
    ensures
        min_id(relabeled(s, start)) == start,
        max_id(relabeled(s, start)) == start + s.len() - 1,
    decreases s.len(),
{
    let r = relabeled(s, start);
    if s.len() > 1 {
        lemma_relabeled_span(s.drop_last(), start);
        lemma_span_prefix(s, start);
    }
}

pub proof fn lemma_span_prefix(s: Seq<NodeView>, start: int)
    requires
        s.len() > 1,
        0 <= start,
        start + s.len() <= usize::MAX,
        min_id(relabeled(s.drop_last(), start)) == start,
        max_id(relabeled(s.drop_last(), start)) == start + s.len() - 2,
    ensures
        min_id(relabeled(s, start)) == start,
        max_id(relabeled(s, start)) == start + s.len() - 1,
{
    let r = relabeled(s, start);
    let q = relabeled(s.drop_last(), start);
    assert forall|k: int| 0 <= k < r.len() - 1 implies #[trigger] r.drop_last()[k].idx == q[k].idx by {}
    lemma_min_max_idx_eq(r.drop_last(), q);
}

/// `min_id` and `max_id` read ids only.
pub proof fn lemma_min_max_idx_eq(a: Seq<NodeView>, b: Seq<NodeView>)
    requires
        a.len() == b.len(),
        forall|k: int| 0 <= k < a.len() ==> #[trigger] a[k].idx == b[k].idx,
    ensures
        min_id(a) == min_id(b),
        max_id(a) == max_id(b),
    decreases a.len(),
{
    if a.len() > 0 {
        lemma_min_max_idx_eq(a.drop_last(), b.drop_last());
    }
}

pub proof fn lemma_relabeled_ids(s: Seq<NodeView>, start: int)
    requires
        0 <= start,
        start + s.len() <= usize::MAX,
    ensures
        forall|k: int| 0 <= k < s.len() ==> #[trigger] fresh_ids(s, start)[k].idx == start + k,
        fresh_ids(s, start).len() == s.len(),
{
}

/// After a graft, every id in the destination is unique: the destination's
/// ids lie below its counter, and the incoming nodes are renumbered from it.
pub proof fn lemma_graft_unique(s: Seq<NodeView>, count: usize, t: Seq<NodeView>, pl: Place)
    requires
        ids_ok(s, count),
        0 <= pl.0 <= s.len(),
        ids_fit(t, count as int),
    ensures
        ids_ok(merged(s, pl, fresh_ids(t, count as int)), (count + t.len()) as usize),
{
    let f = fresh_ids(t, count as int);
    let m = merged(s, pl, f);
    let a = pl.0;
    let n = t.len() as int;
    lemma_relabeled_ids(t, count as int);
    assert forall|i: int| 0 <= i < m.len() implies (#[trigger] m[i]).idx < count + n by {
        if i < a {
            assert(m[i] == s[i]);
        } else if i < a + n {
            assert(m[i].idx == f[i - a].idx);
        } else {
            assert(m[i] == s[i - n]);
        }
    }
    assert forall|i: int, j: int| 0 <= i < j < m.len() implies m[i].idx != m[j].idx by {
        if i < a {
            assert(m[i] == s[i]);
        } else if i < a + n {
            assert(m[i].idx == f[i - a].idx);
        } else {
            assert(m[i] == s[i - n]);
        }
        if j < a {
            assert(m[j] == s[j]);
        } else if j < a + n {
            assert(m[j].idx == f[j - a].idx);
        } else {
            assert(m[j] == s[j - n]);
        }
    }
}

/// The line terminator of a text: `\r\n` when it holds one, else `\n`.
pub fn line_ending(content: &str) -> (r: String)
    ensures
        r@ == if has_crlf(content@) { seq!['\r', '\n'] } else { seq!['\n'] },
{
    let n = content.unicode_len();
    let mut crlf = false;
    let mut i: usize = 0;
    while n > 0 && i < n - 1
        invariant
            n == content@.len(),
            i <= n,
            crlf == exists|k: int| 0 <= k < i && k + 1 < n && #[trigger] content@[k] == '\r' && content@[k + 1] == '\n',
        decreases n - i,
    {
        if content.get_char(i) == '\r' && content.get_char(i + 1) == '\n' {
            crlf = true;
        }
        i = i + 1;
    }
    proof {
        if has_crlf(content@) {
            let k = choose|k: int| 0 <= k && k + 1 < content@.len() && #[trigger] content@[k] == '\r' && content@[k + 1] == '\n';
            assert(k < i);
        }
    }
    if crlf {
        let t = "\r\n";
        proof { reveal_strlit("\r\n"); }
        let r = String::from_str(t);
        assert(r@ =~= seq!['\r', '\n']);
        r
    } else {
        let t = "\n";
        proof { reveal_strlit("\n"); }
        let r = String::from_str(t);
        assert(r@ =~= seq!['\n']);
        r
    }
}

} // verus!
