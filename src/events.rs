use vstd::prelude::*;
use vstd::string::*;
use crate::node::{ETreeNode, NodeView, attr_pos, attrs_view};
use crate::tree::{ETree, starts};
use crate::laws::{nested, encloses};
use crate::text::same_str;

verus! {

/// What a streaming XML reader reports, as plain values.
pub enum XmlEvent {
    /// An opening tag: qualified name, local name, resolved namespace and
    /// attributes in source order.
    Start { name: String, local: String, namespace: Option<String>, attrs: Vec<(String, String)> },
    /// A self-closing tag.
    Empty { name: String, local: String, namespace: Option<String>, attrs: Vec<(String, String)> },
    End,
    Text(String),
    Comment(String),
    CData(String),
    PI(String),
    DocType(String),
    Decl { version: String, encoding: Option<String>, standalone: Option<String> },
}

/// What a streaming XML writer is handed, as plain values.
pub enum OutEvent {
    Decl { version: String, encoding: Option<String>, standalone: Option<String> },
    /// Bytes written as they are (the line terminator after the declaration).
    Raw(String),
    Start { name: String, attrs: Vec<(String, String)> },
    Empty { name: String, attrs: Vec<(String, String)> },
    End(String),
    Text(String),
    Comment(String),
    CData(String),
    PI(String),
    DocType(String),
}

/// The routes break the pre-order layout between positions `at - 1` and `at`.
pub enum StructureError {
    Corrupt(usize),
}

/// The attributes `a` after setting each pair of `xs` in turn: a key
/// already present keeps its place and takes the new value.
pub open spec fn with_attrs(a: Seq<(Seq<char>, Seq<char>)>, xs: Seq<(String, String)>) -> Seq<(Seq<char>, Seq<char>)>
    decreases xs.len(),
{
    if xs.len() == 0 {
        a
    } else {
        let b = with_attrs(a, xs.drop_last());
        let k = xs.last().0@;
        let v = xs.last().1@;
        if attr_pos(b, k) < b.len() {
            b.update(attr_pos(b, k), (k, v))
        } else {
            b.push((k, v))
        }
    }
}

/// The node an opening or self-closing tag makes, before it is placed.
pub open spec fn element_view(
    name: Seq<char>,
    local: Seq<char>,
    namespace: Option<String>,
    attrs: Seq<(String, String)>,
    text: Option<Seq<char>>,
) -> NodeView {
    NodeView {
        localname: local,
        namespace: match namespace {
            Some(n) => n@,
            None => Seq::empty(),
        },
        namespace_abbrev: prefix_of(name, local),
        attrs: with_attrs(Seq::empty(), attrs),
        text,
        tail: Seq::empty(),
        idx: 0,
        route: Seq::empty(),
    }
}

/// The state of building a tree from events: the nodes so far, the route
/// of the open element, whether the last event opened an element (1) or
/// ended something (2), and the position whose tail text goes to.
pub struct BuildState {
    pub nodes: Seq<NodeView>,
    pub route: Seq<usize>,
    pub status: int,
    pub close: int,
}

/// `n` placed at the end with the next id and route `st.route`.
pub open spec fn add_node(st: BuildState, n: NodeView) -> Seq<NodeView> {
    st.nodes.push(NodeView { idx: st.nodes.len() as usize, route: st.route, ..n })
}

pub open spec fn meta_view(kind: Seq<char>, content: Seq<char>) -> NodeView {
    NodeView {
        localname: kind,
        namespace: Seq::empty(),
        namespace_abbrev: Seq::empty(),
        attrs: Seq::empty(),
        text: Some(content),
        tail: Seq::empty(),
        idx: 0,
        route: Seq::empty(),
    }
}

/// One event applied to the build state.
pub open spec fn build_step(st: BuildState, ev: XmlEvent) -> BuildState {
    let full = st.nodes.len() >= usize::MAX;
    match ev {
        XmlEvent::Start { name, local, namespace, attrs } => if full {
            BuildState { status: 1, ..st }
        } else {
            BuildState {
                nodes: add_node(st, element_view(name@, local@, namespace, attrs@, Some(Seq::empty()))),
                route: st.route.push(st.nodes.len() as usize),
                status: 1,
                close: st.close,
            }
        },
        XmlEvent::End => if st.route.len() > 0 {
            BuildState { route: st.route.drop_last(), status: 2, close: st.route.last() as int, ..st }
        } else {
            BuildState { status: 2, ..st }
        },
        XmlEvent::Empty { name, local, namespace, attrs } => if full {
            BuildState { status: 2, ..st }
        } else {
            BuildState {
                nodes: add_node(st, element_view(name@, local@, namespace, attrs@, None)),
                status: 2,
                close: st.nodes.len() as int,
                ..st
            }
        },
        XmlEvent::Text(t) => if st.status == 1 && st.nodes.len() > 0 {
            BuildState {
                nodes: st.nodes.update(st.nodes.len() - 1, NodeView { text: Some(t@), ..st.nodes.last() }),
                ..st
            }
        } else if st.status == 2 && 0 <= st.close < st.nodes.len() {
            BuildState { nodes: st.nodes.update(st.close, NodeView { tail: t@, ..st.nodes[st.close] }), ..st }
        } else {
            st
        },
        XmlEvent::Comment(t) => meta_step(st, seq!['<', 'C', 'o', 'm', 'm', 'e', 'n', 't', '>'], t@),
        XmlEvent::CData(t) => meta_step(st, seq!['<', 'C', 'D', 'a', 't', 'a', '>'], t@),
        XmlEvent::PI(t) => meta_step(st, seq!['<', 'P', 'I', '>'], t@),
        XmlEvent::DocType(t) => meta_step(st, seq!['<', 'D', 'o', 'c', 'T', 'y', 'p', 'e', '>'], t@),
        XmlEvent::Decl { .. } => st,
    }
}

pub open spec fn meta_step(st: BuildState, kind: Seq<char>, content: Seq<char>) -> BuildState {
    if st.nodes.len() >= usize::MAX {
        BuildState { status: 2, ..st }
    } else {
        BuildState { nodes: add_node(st, meta_view(kind, content)), status: 2, close: st.nodes.len() as int, ..st }
    }
}

/// The build state after the first `i` events.
pub open spec fn build_run(evs: Seq<XmlEvent>, i: int) -> BuildState
    decreases i,
{
    if i <= 0 {
        BuildState { nodes: Seq::empty(), route: Seq::empty(), status: 0, close: 0 }
    } else {
        build_step(build_run(evs, i - 1), evs[i - 1])
    }
}

/// The declaration fields after the first `i` events: version `1.0` and
/// nothing else at first; a declaration sets the version, and the encoding
/// and standalone fields it carries.
pub open spec fn decl_run(evs: Seq<XmlEvent>, i: int) -> (Seq<char>, Option<Seq<char>>, Option<Seq<char>>)
    decreases i,
{
    if i <= 0 {
        (seq!['1', '.', '0'], None, None)
    } else {
        let d = decl_run(evs, i - 1);
        match evs[i - 1] {
            XmlEvent::Decl { version, encoding, standalone } => (
                version@,
                match encoding {
                    Some(e) => Some(e@),
                    None => d.1,
                },
                match standalone {
                    Some(x) => Some(x@),
                    None => d.2,
                },
            ),
            _ => d,
        }
    }
}

/// The namespace prefix of a qualified name: what precedes the local name
/// and its colon.
pub open spec fn prefix_of(name: Seq<char>, local: Seq<char>) -> Seq<char> {
    if name.len() > local.len() {
        name.subrange(0, name.len() - local.len() - 1)
    } else {
        Seq::empty()
    }
}

fn prefix(name: &String, local: &String) -> (r: String)
    ensures
        r@ == prefix_of(name@, local@),
{
    let n = name.as_str().unicode_len();
    let m = local.as_str().unicode_len();
    if n > m {
        String::from_str(name.as_str().substring_char(0, n - m - 1))
    } else {
        String::new()
    }
}

fn element(name: &String, local: &String, namespace: &Option<String>, attrs: &Vec<(String, String)>) -> (r: ETreeNode)
    ensures
        r@ == element_view(name@, local@, *namespace, attrs@, None),
{
    let mut node = ETreeNode::new(local.as_str());
    if let Some(ns) = namespace {
        node.set_namespace(ns.as_str());
    }
    proof {
        assert(with_attrs(Seq::empty(), Seq::<(String, String)>::empty()) == Seq::<(Seq<char>, Seq<char>)>::empty());
    }
    let p = prefix(name, local);
    node.set_namespace_abbrev(p.as_str());
    let mut i: usize = 0;
    proof {
        assert(attrs@.subrange(0, 0) =~= Seq::<(String, String)>::empty());
    }
    while i < attrs.len()
        invariant
            i <= attrs@.len(),
            node@ == (NodeView { attrs: with_attrs(Seq::empty(), attrs@.subrange(0, i as int)), ..element_view(name@, local@, *namespace, attrs@, None) }),
        decreases attrs@.len() - i,
    {
        node.set_attr(attrs[i].0.as_str(), attrs[i].1.as_str());
        proof {
            assert(attrs@.subrange(0, i + 1).drop_last() =~= attrs@.subrange(0, i as int));
        }
        i = i + 1;
    }
    proof {
        assert(attrs@.subrange(0, i as int) =~= attrs@);
    }
    node
}

impl ETree {
    /// Builds a tree from reader events. Nodes get ids `0, 1, ...` in
    /// document order; text right after an opening tag becomes that
    /// element's text, text after a closing tag, self-closing tag or meta
    /// node becomes that node's tail. Meta nodes are named `<Comment>`,
    /// `<CData>`, `<PI>` and `<DocType>` and hold their content as text.
    pub fn from_events(events: &Vec<XmlEvent>, crlf: &str) -> (r: ETree)
        ensures
            r.wf(),
            r.nodes() == build_run(events@, events@.len() as int).nodes,
            nested(r.nodes()),
            !r.index_enabled(),
            (r.version_view(), r.encoding_view(), r.standalone_view()) == decl_run(events@, events@.len() as int),
            r.nodes().len() > 0 ==> r.indent_view() == match crate::tree::detected_indent(r.nodes()) {
                Some(u) => u,
                None => Seq::empty(),
            },
            r.nodes().len() == 0 ==> r.indent_view().len() == 0,
            r.counter() == r.nodes().len(),
            forall|i: int| 0 <= i < r.nodes().len() ==> #[trigger] r.nodes()[i].idx == i,
            r.crlf_view() == crlf@,
    {
        let mut t = ETree::new(crlf);
        let mut status: u8 = 0;
        let mut route: Vec<usize> = Vec::new();
        let mut closeidx: usize = 0;
        let mut i: usize = 0;
        while i < events.len()
            invariant
                i <= events@.len(),
                t.wf(),
                t.counter() == t.nodes().len(),
                forall|k: int| 0 <= k < t.nodes().len() ==> #[trigger] t.nodes()[k].idx == k,
                t.crlf_view() == crlf@,
                t.nodes() == build_run(events@, i as int).nodes,
                route@ == build_run(events@, i as int).route,
                status as int == build_run(events@, i as int).status,
                closeidx as int == build_run(events@, i as int).close,
                status <= 2,
                nested(t.nodes()),
                open_chain(t.nodes(), route@),
                !t.index_enabled(),
                t.indent_view().len() == 0,
                (t.version_view(), t.encoding_view(), t.standalone_view()) == decl_run(events@, i as int),
            decreases events@.len() - i,
        {
            proof {
                reveal_strlit("<Comment>");
                reveal_strlit("<CData>");
                reveal_strlit("<PI>");
                reveal_strlit("<DocType>");
                reveal_strlit("");
                assert("<Comment>"@ =~= seq!['<', 'C', 'o', 'm', 'm', 'e', 'n', 't', '>']);
                assert("<CData>"@ =~= seq!['<', 'C', 'D', 'a', 't', 'a', '>']);
                assert("<PI>"@ =~= seq!['<', 'P', 'I', '>']);
                assert("<DocType>"@ =~= seq!['<', 'D', 'o', 'c', 'T', 'y', 'p', 'e', '>']);
                assert(""@ =~= Seq::<char>::empty());
            }
            let ghost st = build_run(events@, i as int);
            let ghost s0 = t.nodes();
            let ghost r0 = route@;
            assert(build_run(events@, i + 1) == build_step(st, events@[i as int]));
            match &events[i] {
                XmlEvent::Start { name, local, namespace, attrs } => {
                    status = 1;
                    let mut node = element(name, local, namespace, attrs);
                    let e = "";
                    node.set_text(e);
                    let id = t.len();
                    let ghost nv = node@;
                    if t.push_node(node, &route) {
                        proof {
                            lemma_append_nested(s0, r0, NodeView { idx: id, route: r0, ..nv });
                            lemma_open_last(t.nodes(), r0);
                        }
                        route.push(id);
                    }
                },
                XmlEvent::End => {
                    status = 2;
                    if let Some(x) = route.pop() {
                        proof { lemma_close_last(s0, r0); }
                        closeidx = x;
                    }
                },
                XmlEvent::Empty { name, local, namespace, attrs } => {
                    status = 2;
                    let node = element(name, local, namespace, attrs);
                    let id = t.len();
                    let ghost nv = node@;
                    if t.push_node(node, &route) {
                        proof { lemma_append_nested(s0, r0, NodeView { idx: id, route: r0, ..nv }); }
                        closeidx = id;
                    }
                },
                XmlEvent::Text(s) => {
                    if status == 1 {
                        let n = t.len();
                        if n > 0 {
                            t.set_text_of(n - 1, s.as_str());
                            proof { lemma_same_shape(s0, t.nodes(), r0); }
                        }
                    } else if status == 2 {
                        if closeidx < t.len() {
                            t.set_tail_of(closeidx, s.as_str());
                            proof { lemma_same_shape(s0, t.nodes(), r0); }
                        }
                    }
                },
                XmlEvent::Comment(s) => {
                    status = 2;
                    let id = t.len();
                    let node = meta_node("<Comment>", s);
                    let ghost nv = node@;
                    if t.push_node(node, &route) {
                        proof { lemma_append_nested(s0, r0, NodeView { idx: id, route: r0, ..nv }); }
                        closeidx = id;
                    }
                },
                XmlEvent::CData(s) => {
                    status = 2;
                    let id = t.len();
                    let node = meta_node("<CData>", s);
                    let ghost nv = node@;
                    if t.push_node(node, &route) {
                        proof { lemma_append_nested(s0, r0, NodeView { idx: id, route: r0, ..nv }); }
                        closeidx = id;
                    }
                },
                XmlEvent::PI(s) => {
                    status = 2;
                    let id = t.len();
                    let node = meta_node("<PI>", s);
                    let ghost nv = node@;
                    if t.push_node(node, &route) {
                        proof { lemma_append_nested(s0, r0, NodeView { idx: id, route: r0, ..nv }); }
                        closeidx = id;
                    }
                },
                XmlEvent::DocType(s) => {
                    status = 2;
                    let id = t.len();
                    let node = meta_node("<DocType>", s);
                    let ghost nv = node@;
                    if t.push_node(node, &route) {
                        proof { lemma_append_nested(s0, r0, NodeView { idx: id, route: r0, ..nv }); }
                        closeidx = id;
                    }
                },
                XmlEvent::Decl { version, encoding, standalone } => {
                    t.set_version(version.as_str());
                    if let Some(e) = encoding {
                        t.set_encoding(e.as_str());
                    }
                    if let Some(s) = standalone {
                        t.set_standalone(s.as_str());
                    }
                },
            }
            i = i + 1;
        }
        t.detect_indent();
        t
    }
}

impl ETree {
    /// Builds a tree from the reader events of `content`; the line
    /// terminator is `\r\n` when `content` holds one, else `\n`.
    pub fn parse_events(events: &Vec<XmlEvent>, content: &str) -> (r: ETree)
        ensures
            r.wf(),
            r.nodes() == build_run(events@, events@.len() as int).nodes,
            nested(r.nodes()),
            !r.index_enabled(),
            r.counter() == r.nodes().len(),
            forall|i: int| 0 <= i < r.nodes().len() ==> #[trigger] r.nodes()[i].idx == i,
            r.crlf_view() == if crate::tree::has_crlf(content@) { seq!['\r', '\n'] } else { seq!['\n'] },
            (r.version_view(), r.encoding_view(), r.standalone_view()) == decl_run(events@, events@.len() as int),
            r.nodes().len() > 0 ==> r.indent_view() == match crate::tree::detected_indent(r.nodes()) {
                Some(u) => u,
                None => Seq::empty(),
            },
            r.nodes().len() == 0 ==> r.indent_view().len() == 0,
    {
        let crlf = crate::tree::line_ending(content);
        ETree::from_events(events, crlf.as_str())
    }
}

fn meta_node(kind: &str, content: &String) -> (r: ETreeNode)
    ensures
        r@ == meta_view(kind@, content@),
{
    let mut node = ETreeNode::new(kind);
    node.set_text(content.as_str());
    node
}

/// A writer event as a mathematical value.
pub enum OutView {
    Decl(Seq<char>, Option<Seq<char>>, Option<Seq<char>>),
    Raw(Seq<char>),
    Start(Seq<char>, Seq<(Seq<char>, Seq<char>)>),
    Empty(Seq<char>, Seq<(Seq<char>, Seq<char>)>),
    End(Seq<char>),
    Text(Seq<char>),
    Comment(Seq<char>),
    CData(Seq<char>),
    PI(Seq<char>),
    DocType(Seq<char>),
}

pub open spec fn opt_str(o: Option<String>) -> Option<Seq<char>> {
    match o {
        Some(x) => Some(x@),
        None => None,
    }
}

pub open spec fn out_view(e: OutEvent) -> OutView {
    match e {
        OutEvent::Decl { version, encoding, standalone } => OutView::Decl(version@, opt_str(encoding), opt_str(standalone)),
        OutEvent::Raw(x) => OutView::Raw(x@),
        OutEvent::Start { name, attrs } => OutView::Start(name@, attrs_view(attrs@)),
        OutEvent::Empty { name, attrs } => OutView::Empty(name@, attrs_view(attrs@)),
        OutEvent::End(x) => OutView::End(x@),
        OutEvent::Text(x) => OutView::Text(x@),
        OutEvent::Comment(x) => OutView::Comment(x@),
        OutEvent::CData(x) => OutView::CData(x@),
        OutEvent::PI(x) => OutView::PI(x@),
        OutEvent::DocType(x) => OutView::DocType(x@),
    }
}

pub open spec fn outs_view(v: Seq<OutEvent>) -> Seq<OutView> {
    v.map_values(|e: OutEvent| out_view(e))
}

/// A node's close tag (none for a meta node) followed by its tail.
pub open spec fn close_ev(n: NodeView) -> Seq<OutView> {
    if n.is_meta() {
        seq![OutView::Text(n.tail)]
    } else {
        seq![OutView::End(n.name()), OutView::Text(n.tail)]
    }
}

/// The end of the node just before a sibling or a climb: nothing for a
/// self-closing node, whose tail went out with it.
pub open spec fn close_last_ev(n: NodeView) -> Seq<OutView> {
    if n.text is Some {
        close_ev(n)
    } else {
        Seq::empty()
    }
}

/// The ends of the ancestors named in `from` after its first `keep`
/// entries, innermost first; nothing when one of them names no node.
pub open spec fn chain_ev(s: Seq<NodeView>, from: Seq<usize>, keep: int) -> Option<Seq<OutView>>
    decreases from.len(),
{
    if from.len() <= keep || from.len() == 0 {
        Some(Seq::empty())
    } else {
        match crate::tree::id_from(s, from.last(), 0) {
            Some(q) => match chain_ev(s, from.drop_last(), keep) {
                Some(rest) => Some(close_ev(s[q as int]) + rest),
                None => None,
            },
            None => None,
        }
    }
}

pub open spec fn comment_name() -> Seq<char> {
    seq!['<', 'C', 'o', 'm', 'm', 'e', 'n', 't', '>']
}

pub open spec fn cdata_name() -> Seq<char> {
    seq!['<', 'C', 'D', 'a', 't', 'a', '>']
}

pub open spec fn pi_name() -> Seq<char> {
    seq!['<', 'P', 'I', '>']
}

pub open spec fn doctype_name() -> Seq<char> {
    seq!['<', 'D', 'o', 'c', 'T', 'y', 'p', 'e', '>']
}

/// The start of a node: a meta node's own event with its text; an element
/// with text opens and gives its text; a self-closing element is an empty
/// tag followed by its tail.
pub open spec fn open_ev(n: NodeView) -> Seq<OutView> {
    let body = n.text_or_empty();
    if n.localname == comment_name() {
        seq![OutView::Comment(body)]
    } else if n.localname == cdata_name() {
        seq![OutView::CData(body)]
    } else if n.localname == pi_name() {
        seq![OutView::PI(body)]
    } else if n.localname == doctype_name() {
        seq![OutView::DocType(body)]
    } else if n.text is Some {
        seq![OutView::Start(n.name(), n.attrs), OutView::Text(body)]
    } else {
        seq![OutView::Empty(n.name(), n.attrs), OutView::Text(n.tail)]
    }
}

/// What goes out between nodes `i - 1` and `i`, by comparing their routes:
/// siblings close the first; a descent closes nothing; a climb closes the
/// first and the ancestors left. Any other relation fails.
pub open spec fn between_ev(s: Seq<NodeView>, i: int) -> Option<Seq<OutView>> {
    let a = s[i - 1].route;
    let b = s[i].route;
    if a == b {
        Some(close_last_ev(s[i - 1]))
    } else if crate::tree::starts(b, a) {
        Some(Seq::empty())
    } else if crate::tree::starts(a, b) {
        match chain_ev(s, a, b.len() as int) {
            Some(c) => Some(close_last_ev(s[i - 1]) + c),
            None => None,
        }
    } else {
        None
    }
}

/// The events for the first `i` nodes.
pub open spec fn body_ev(s: Seq<NodeView>, i: int) -> Option<Seq<OutView>>
    decreases i,
{
    if i <= 0 {
        Some(Seq::empty())
    } else {
        match body_ev(s, i - 1) {
            Some(b) => if i - 1 > 0 {
                match between_ev(s, i - 1) {
                    Some(c) => Some(b + c + open_ev(s[i - 1])),
                    None => None,
                }
            } else {
                Some(b + open_ev(s[i - 1]))
            },
            None => None,
        }
    }
}

/// The serialized document: the declaration, the line terminator, every
/// node in order, then the end of the last node and of all its ancestors.
pub open spec fn serialized(
    s: Seq<NodeView>,
    version: Seq<char>,
    encoding: Option<Seq<char>>,
    standalone: Option<Seq<char>>,
    crlf: Seq<char>,
) -> Option<Seq<OutView>> {
    let head = seq![OutView::Decl(version, encoding, standalone), OutView::Raw(crlf)];
    if s.len() == 0 {
        Some(head)
    } else {
        match body_ev(s, s.len() as int) {
            Some(b) => match chain_ev(s, s.last().route, 0) {
                Some(c) => Some(head + b + close_last_ev(s.last()) + c),
                None => None,
            },
            None => None,
        }
    }
}

proof fn lemma_push_view(v: Seq<OutEvent>, e: OutEvent)
    ensures
        outs_view(v.push(e)) == outs_view(v) + seq![out_view(e)],
{
    assert(outs_view(v.push(e)) =~= outs_view(v) + seq![out_view(e)]);
}

impl ETree {
    /// Emits the end of the node at `p` when it has text.
    fn close_last(&self, p: usize, out: &mut Vec<OutEvent>)
        requires
            p < self.nodes().len(),
        ensures
            outs_view(final(out)@) == outs_view(old(out)@) + close_last_ev(self.nodes()[p as int]),
    {
        let n = self.node(p).unwrap();
        let ghost o = out@;
        if n.text.is_some() {
            self.close_one(p, out);
        } else {
            assert(outs_view(out@) =~= outs_view(o) + close_last_ev(self.nodes()[p as int]));
        }
    }

    /// Emits the close tag (none for a meta node) and tail of the node at `p`.
    fn close_one(&self, p: usize, out: &mut Vec<OutEvent>)
        requires
            p < self.nodes().len(),
        ensures
            outs_view(final(out)@) == outs_view(old(out)@) + close_ev(self.nodes()[p as int]),
    {
        let n = self.node(p).unwrap();
        let ghost o = out@;
        if !n.is_meta_node() {
            let e = OutEvent::End(n.get_name());
            proof { lemma_push_view(out@, e); }
            out.push(e);
        }
        let t = OutEvent::Text(n.tail.clone());
        proof { lemma_push_view(out@, t); }
        out.push(t);
        assert(outs_view(out@) =~= outs_view(o) + close_ev(self.nodes()[p as int]));
    }

    /// Emits the ends of the ancestors named in `from` after its first
    /// `keep` entries, innermost first.
    fn close_chain(&self, from: &Vec<usize>, keep: usize, out: &mut Vec<OutEvent>) -> (r: Result<(), StructureError>)
        requires
            self.wf(),
            keep <= from@.len(),
        ensures
            match chain_ev(self.nodes(), from@, keep as int) {
                Some(ev) => r is Ok && outs_view(final(out)@) == outs_view(old(out)@) + ev,
                None => r is Err,
            },
    {
        let _n = self.len();
        let mut k = from.len();
        proof {
            assert(from@.subrange(0, k as int) =~= from@);
        }
        while k > keep
            invariant
                self.wf(),
                _n == self.nodes().len(),
                keep <= k <= from@.len(),
                chain_ev(self.nodes(), from@, keep as int) == match chain_ev(self.nodes(), from@.subrange(0, k as int), keep as int) {
                    Some(rest) => Some(outs_view(out@).subrange(outs_view(old(out)@).len() as int, outs_view(out@).len() as int) + rest),
                    None => None::<Seq<OutView>>,
                },
                outs_view(old(out)@).len() <= outs_view(out@).len(),
                outs_view(out@).subrange(0, outs_view(old(out)@).len() as int) == outs_view(old(out)@),
            decreases k,
        {
            let ghost pre = from@.subrange(0, k as int);
            assert(pre.drop_last() =~= from@.subrange(0, k - 1));
            k = k - 1;
            proof { crate::tree::lemma_id_from(self.nodes(), from@[k as int], 0); }
            match self.pos(from[k]) {
                Some(q) => {
                    let ghost o = out@;
                    self.close_one(q, out);
                    proof {
                        let ov = outs_view(o);
                        let nv = outs_view(out@);
                        let base = outs_view(old(out)@).len() as int;
                        assert(nv == ov + close_ev(self.nodes()[q as int]));
                        assert(nv.subrange(base, nv.len() as int) =~= ov.subrange(base, ov.len() as int) + close_ev(self.nodes()[q as int]));
                        assert(nv.subrange(0, base) =~= ov.subrange(0, base));
                    }
                },
                None => {
                    return Err(StructureError::Corrupt(k));
                },
            }
        }
        proof {
            let nv = outs_view(out@);
            let base = outs_view(old(out)@).len() as int;
            assert(nv =~= nv.subrange(0, base) + nv.subrange(base, nv.len() as int));
            assert(chain_ev(self.nodes(), from@.subrange(0, k as int), keep as int) == Some(Seq::<OutView>::empty()));
            assert(nv.subrange(base, nv.len() as int) + Seq::<OutView>::empty() =~= nv.subrange(base, nv.len() as int));
        }
        Ok(())
    }

    /// Emits the start of the node at `p`.
    fn open_node(&self, p: usize, out: &mut Vec<OutEvent>)
        requires
            p < self.nodes().len(),
        ensures
            outs_view(final(out)@) == outs_view(old(out)@) + open_ev(self.nodes()[p as int]),
    {
        let n = self.node(p).unwrap();
        let ghost o = out@;
        let body = match &n.text {
            Some(t) => t.clone(),
            None => String::new(),
        };
        proof {
            reveal_strlit("<Comment>");
            reveal_strlit("<CData>");
            reveal_strlit("<PI>");
            reveal_strlit("<DocType>");
            assert("<Comment>"@ =~= comment_name());
            assert("<CData>"@ =~= cdata_name());
            assert("<PI>"@ =~= pi_name());
            assert("<DocType>"@ =~= doctype_name());
        }
        let name = n.localname.as_str();
        if same_str(name, "<Comment>") {
            out.push(OutEvent::Comment(body));
        } else if same_str(name, "<CData>") {
            out.push(OutEvent::CData(body));
        } else if same_str(name, "<PI>") {
            out.push(OutEvent::PI(body));
        } else if same_str(name, "<DocType>") {
            out.push(OutEvent::DocType(body));
        } else {
            let attrs = n.get_attr_list();
            if n.text.is_some() {
                out.push(OutEvent::Start { name: n.get_name(), attrs });
                out.push(OutEvent::Text(body));
            } else {
                out.push(OutEvent::Empty { name: n.get_name(), attrs });
                out.push(OutEvent::Text(n.tail.clone()));
            }
        }
        assert(outs_view(out@) =~= outs_view(o) + open_ev(self.nodes()[p as int]));
    }

    /// The writer events that reproduce the document (see `serialized`):
    /// one pass over the nodes that compares each node's route with the one
    /// before it to close, descend or climb. Fails exactly when two
    /// neighbours' routes are in none of those relations, or a route names an
    /// id that no node has.
    pub fn write_events(&self) -> (r: Result<Vec<OutEvent>, StructureError>)
        requires
            self.wf(),
        ensures
            match serialized(self.nodes(), self.version_view(), self.encoding_view(), self.standalone_view(), self.crlf_view()) {
                Some(ev) => r matches Ok(v) && outs_view(v@) == ev,
                None => r is Err,
            },
    {
        let mut out: Vec<OutEvent> = Vec::new();
        let d = OutEvent::Decl {
            version: self.get_version().unwrap(),
            encoding: self.get_encoding(),
            standalone: self.get_standalone(),
        };
        out.push(d);
        out.push(OutEvent::Raw(self.get_crlf()));
        let ghost s = self.nodes();
        let ghost head = seq![OutView::Decl(self.version_view(), self.encoding_view(), self.standalone_view()), OutView::Raw(self.crlf_view())];
        assert(outs_view(out@) =~= head);
        let n = self.len();
        if n == 0 {
            return Ok(out);
        }
        let mut idx: usize = 0;
        while idx < n
            invariant
                self.wf(),
                s == self.nodes(),
                n == s.len(),
                idx <= n,
                body_ev(s, idx as int) matches Some(b) && outs_view(out@) == head + b,
            decreases n - idx,
        {
            let ghost b0 = body_ev(s, idx as int).unwrap();
            if idx > 0 {
                let prev = self.node(idx - 1).unwrap();
                let cur = self.node(idx).unwrap();
                if crate::tree::same_route(&prev.route, &cur.route) {
                    self.close_last(idx - 1, &mut out);
                } else if crate::tree::route_starts(&cur.route, &prev.route) {
                } else if crate::tree::route_starts(&prev.route, &cur.route) {
                    self.close_last(idx - 1, &mut out);
                    let keep = cur.route.len();
                    match self.close_chain(&prev.route, keep, &mut out) {
                        Ok(()) => {},
                        Err(e) => {
                            proof { lemma_body_none(s, n as int, idx as int); }
                            return Err(e);
                        },
                    }
                } else {
                    proof { lemma_body_none(s, n as int, idx as int); }
                    return Err(StructureError::Corrupt(idx));
                }
            }
            self.open_node(idx, &mut out);
            proof {
                let c = if idx > 0 { between_ev(s, idx as int).unwrap() } else { Seq::<OutView>::empty() };
                assert(outs_view(out@) =~= head + (b0 + c + open_ev(s[idx as int])));
                if idx == 0 {
                    assert(b0 + c =~= b0);
                }
            }
            idx = idx + 1;
        }
        let ghost b = body_ev(s, n as int).unwrap();
        self.close_last(n - 1, &mut out);
        let last = self.node(n - 1).unwrap();
        match self.close_chain(&last.route, 0, &mut out) {
            Ok(()) => {
                assert(outs_view(out@) =~= head + b + close_last_ev(s.last()) + chain_ev(s, s.last().route, 0).unwrap());
                Ok(out)
            },
            Err(e) => Err(e),
        }
    }
}

/// Once a step fails, the rest of the document fails too.
proof fn lemma_body_none(s: Seq<NodeView>, i: int, j: int)
    requires
        1 <= j < i,
        j < s.len(),
        between_ev(s, j) is None || body_ev(s, j) is None,
    ensures
        body_ev(s, i) is None,
    decreases i - j,
{
    if i > j + 1 {
        lemma_body_none(s, i - 1, j);
    }
}

/// The `m`-th open element named by `route` precedes the end of `s`, and
/// everything after it lies inside it.
pub open spec fn chain_at(s: Seq<NodeView>, route: Seq<usize>, m: int) -> bool {
    exists|j: int|
        #![trigger s[j]]
        0 <= j < s.len() && s[j].route == route.subrange(0, m) && s[j].idx == route[m] && forall|k: int|
            j < k < s.len() ==> starts(#[trigger] s[k].route, route.subrange(0, m + 1))
}

pub open spec fn open_chain(s: Seq<NodeView>, route: Seq<usize>) -> bool {
    forall|m: int| 0 <= m < route.len() ==> #[trigger] chain_at(s, route, m)
}

/// Nesting and the open chain read routes and ids only.
proof fn lemma_same_shape(a: Seq<NodeView>, b: Seq<NodeView>, route: Seq<usize>)
    requires
        a.len() == b.len(),
        forall|k: int| 0 <= k < a.len() ==> #[trigger] a[k].route == b[k].route && a[k].idx == b[k].idx,
        nested(a),
        open_chain(a, route),
    ensures
        nested(b),
        open_chain(b, route),
{
    assert forall|i: int, m: int| 0 <= i < b.len() && 0 <= m < b[i].route.len() implies #[trigger] encloses(b, i, m) by {
        assert(a[i].route == b[i].route);
        assert(encloses(a, i, m));
        let j = choose|j: int|
            #![trigger a[j]]
            0 <= j < i && a[j].route == a[i].route.subrange(0, m) && a[j].idx == a[i].route[m] && forall|k: int|
                j < k <= i ==> starts(#[trigger] a[k].route, a[i].route.subrange(0, m + 1));
        assert(a[j].route == b[j].route);
        assert forall|k: int| j < k <= i implies starts(#[trigger] b[k].route, b[i].route.subrange(0, m + 1)) by {
            assert(a[k].route == b[k].route);
        }
        assert(b[j].idx == b[i].route[m]);
    }
    assert forall|m: int| 0 <= m < route.len() implies #[trigger] chain_at(b, route, m) by {
        assert(chain_at(a, route, m));
        let j = choose|j: int|
            #![trigger a[j]]
            0 <= j < a.len() && a[j].route == route.subrange(0, m) && a[j].idx == route[m] && forall|k: int|
                j < k < a.len() ==> starts(#[trigger] a[k].route, route.subrange(0, m + 1));
        assert(a[j].route == b[j].route);
        assert forall|k: int| j < k < b.len() implies starts(#[trigger] b[k].route, route.subrange(0, m + 1)) by {
            assert(a[k].route == b[k].route);
        }
        assert(b[j].idx == route[m]);
    }
}

proof fn lemma_starts_prefix(route: Seq<usize>, m: int)
    requires
        0 <= m < route.len(),
    ensures
        starts(route, route.subrange(0, m + 1)),
{
    assert(route.subrange(0, m + 1) =~= route.subrange(0, m + 1));
}

/// Appending a node under the open chain keeps the document nested, and the
/// chain open.
proof fn lemma_append_nested(a: Seq<NodeView>, route: Seq<usize>, n: NodeView)
    requires
        nested(a),
        open_chain(a, route),
        n.route == route,
    ensures
        nested(a.push(n)),
        open_chain(a.push(n), route),
{
    let b = a.push(n);
    assert forall|i: int, m: int| 0 <= i < b.len() && 0 <= m < b[i].route.len() implies #[trigger] encloses(b, i, m) by {
        if i < a.len() {
            assert(b[i] == a[i]);
            assert(encloses(a, i, m));
            let j = choose|j: int|
                #![trigger a[j]]
                0 <= j < i && a[j].route == a[i].route.subrange(0, m) && a[j].idx == a[i].route[m] && forall|k: int|
                    j < k <= i ==> starts(#[trigger] a[k].route, a[i].route.subrange(0, m + 1));
            assert(b[j] == a[j]);
            assert forall|k: int| j < k <= i implies starts(#[trigger] b[k].route, b[i].route.subrange(0, m + 1)) by {
                assert(b[k] == a[k]);
            }
        } else {
            assert(chain_at(a, route, m));
            let j = choose|j: int|
                #![trigger a[j]]
                0 <= j < a.len() && a[j].route == route.subrange(0, m) && a[j].idx == route[m] && forall|k: int|
                    j < k < a.len() ==> starts(#[trigger] a[k].route, route.subrange(0, m + 1));
            assert(b[j] == a[j]);
            lemma_starts_prefix(route, m);
            assert forall|k: int| j < k <= i implies starts(#[trigger] b[k].route, b[i].route.subrange(0, m + 1)) by {
                if k < a.len() {
                    assert(b[k] == a[k]);
                }
            }
        }
    }
    assert forall|m: int| 0 <= m < route.len() implies #[trigger] chain_at(b, route, m) by {
        assert(chain_at(a, route, m));
        let j = choose|j: int|
            #![trigger a[j]]
            0 <= j < a.len() && a[j].route == route.subrange(0, m) && a[j].idx == route[m] && forall|k: int|
                j < k < a.len() ==> starts(#[trigger] a[k].route, route.subrange(0, m + 1));
        assert(b[j] == a[j]);
        lemma_starts_prefix(route, m);
        assert forall|k: int| j < k < b.len() implies starts(#[trigger] b[k].route, route.subrange(0, m + 1)) by {
            if k < a.len() {
                assert(b[k] == a[k]);
            }
        }
    }
}

/// Opening the last node: its id joins the chain.
proof fn lemma_open_last(b: Seq<NodeView>, route: Seq<usize>)
    requires
        b.len() > 0,
        open_chain(b, route),
        b.last().route == route,
    ensures
        open_chain(b, route.push(b.last().idx)),
{
    let r2 = route.push(b.last().idx);
    assert forall|m: int| 0 <= m < r2.len() implies #[trigger] chain_at(b, r2, m) by {
        if m < route.len() {
            assert(chain_at(b, route, m));
            let j = choose|j: int|
                #![trigger b[j]]
                0 <= j < b.len() && b[j].route == route.subrange(0, m) && b[j].idx == route[m] && forall|k: int|
                    j < k < b.len() ==> starts(#[trigger] b[k].route, route.subrange(0, m + 1));
            assert(r2.subrange(0, m) =~= route.subrange(0, m));
            assert(r2.subrange(0, m + 1) =~= route.subrange(0, m + 1));
            assert(b[j].idx == r2[m]);
        } else {
            let j = b.len() - 1;
            assert(r2.subrange(0, m) =~= route);
            assert(b[j].route == r2.subrange(0, m));
            assert(b[j].idx == r2[m]);
        }
    }
}

/// Closing the innermost open element keeps the rest of the chain open.
proof fn lemma_close_last(b: Seq<NodeView>, route: Seq<usize>)
    requires
        route.len() > 0,
        open_chain(b, route),
    ensures
        open_chain(b, route.drop_last()),
{
    let r2 = route.drop_last();
    assert forall|m: int| 0 <= m < r2.len() implies #[trigger] chain_at(b, r2, m) by {
        assert(chain_at(b, route, m));
        let j = choose|j: int|
            #![trigger b[j]]
            0 <= j < b.len() && b[j].route == route.subrange(0, m) && b[j].idx == route[m] && forall|k: int|
                j < k < b.len() ==> starts(#[trigger] b[k].route, route.subrange(0, m + 1));
        assert(r2.subrange(0, m) =~= route.subrange(0, m));
        assert(r2.subrange(0, m + 1) =~= route.subrange(0, m + 1));
        assert(b[j].idx == r2[m]);
    }
}

proof fn lemma_chain_some(s: Seq<NodeView>, from: Seq<usize>, keep: int)
    requires
        s.len() <= usize::MAX,
        forall|j: int| 0 <= j < from.len() ==> exists|i: int| 0 <= i < s.len() && s[i].idx == #[trigger] from[j],
    ensures
        chain_ev(s, from, keep) is Some,
    decreases from.len(),
{
    if from.len() > keep && from.len() > 0 {
        let x = from.last();
        assert(exists|i: int| 0 <= i < s.len() && s[i].idx == from[from.len() - 1]);
        crate::tree::lemma_id_from(s, x, 0);
        assert forall|j: int| 0 <= j < from.drop_last().len() implies exists|i: int| 0 <= i < s.len() && s[i].idx == #[trigger] from.drop_last()[j] by {
            assert(from.drop_last()[j] == from[j]);
        }
        lemma_chain_some(s, from.drop_last(), keep);
    }
}

proof fn lemma_route_ids(s: Seq<NodeView>, k: int)
    requires
        nested(s),
        0 <= k < s.len(),
    ensures
        forall|j: int| 0 <= j < s[k].route.len() ==> exists|i: int| 0 <= i < s.len() && s[i].idx == #[trigger] s[k].route[j],
{
    assert forall|j: int| 0 <= j < s[k].route.len() implies exists|i: int| 0 <= i < s.len() && s[i].idx == #[trigger] s[k].route[j] by {
        assert(encloses(s, k, j));
    }
}

proof fn lemma_between_some(s: Seq<NodeView>, i: int)
    requires
        s.len() <= usize::MAX,
        nested(s),
        1 <= i < s.len(),
    ensures
        between_ev(s, i) is Some,
{
    let a = s[i - 1].route;
    let b = s[i].route;
    lemma_route_ids(s, i - 1);
    lemma_chain_some(s, a, b.len() as int);
    if b.len() > 0 && a != b && !starts(b, a) {
        let m = b.len() - 1;
        assert(encloses(s, i, m));
        let j = choose|j: int|
            #![trigger s[j]]
            0 <= j < i && s[j].route == b.subrange(0, m) && s[j].idx == b[m] && forall|k: int|
                j < k <= i ==> starts(#[trigger] s[k].route, b.subrange(0, m + 1));
        assert(b.subrange(0, m + 1) =~= b);
        if j == i - 1 {
            assert(b =~= a.push(s[j].idx));
            assert(b.subrange(0, a.len() as int) =~= a);
        } else {
            assert(starts(s[i - 1].route, b.subrange(0, m + 1)));
        }
    }
    if b.len() == 0 {
        assert(a.subrange(0, 0) =~= b);
    }
}

proof fn lemma_body_some(s: Seq<NodeView>, i: int)
    requires
        s.len() <= usize::MAX,
        nested(s),
        0 <= i <= s.len(),
    ensures
        body_ev(s, i) is Some,
    decreases i,
{
    if i > 0 {
        lemma_body_some(s, i - 1);
        if i - 1 > 0 {
            lemma_between_some(s, i - 1);
        }
    }
}

/// A nested document always serializes: neighbouring routes are in one of
/// the three relations, and every id in a route names a node.
pub proof fn lemma_nested_serializes(
    s: Seq<NodeView>,
    version: Seq<char>,
    encoding: Option<Seq<char>>,
    standalone: Option<Seq<char>>,
    crlf: Seq<char>,
)
    requires
        s.len() <= usize::MAX,
        nested(s),
    ensures
        serialized(s, version, encoding, standalone, crlf) is Some,
{
    if s.len() > 0 {
        lemma_body_some(s, s.len() as int);
        lemma_route_ids(s, s.len() - 1);
        lemma_chain_some(s, s.last().route, 0);
    }
}

} // verus!
