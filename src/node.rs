use vstd::prelude::*;
use vstd::string::*;
use crate::text::same_str;

verus! {

/// One record of a document: an element, or a meta node (comment, CDATA,
/// processing instruction, doctype) whose local name is written `<...>`.
///
/// `route` holds the ids of the node's ancestors, outermost first.
pub struct ETreeNode {
    pub localname: String,
    pub namespace: String,
    pub namespace_abbrev: String,
    pub attrs: Vec<(String, String)>,
    pub text: Option<String>,
    pub tail: String,
    pub idx: usize,
    pub route: Vec<usize>,
}

/// The mathematical value of a node.
pub struct NodeView {
    pub localname: Seq<char>,
    pub namespace: Seq<char>,
    pub namespace_abbrev: Seq<char>,
    pub attrs: Seq<(Seq<char>, Seq<char>)>,
    pub text: Option<Seq<char>>,
    pub tail: Seq<char>,
    pub idx: usize,
    pub route: Seq<usize>,
}

pub open spec fn pair_view(p: (String, String)) -> (Seq<char>, Seq<char>) {
    (p.0@, p.1@)
}

pub open spec fn attrs_view(a: Seq<(String, String)>) -> Seq<(Seq<char>, Seq<char>)> {
    a.map_values(|p: (String, String)| pair_view(p))
}

pub open spec fn opt_view(t: Option<String>) -> Option<Seq<char>> {
    match t {
        Some(s) => Some(s@),
        None => None,
    }
}

impl View for ETreeNode {
    type V = NodeView;

    open spec fn view(&self) -> NodeView {
        NodeView {
            localname: self.localname@,
            namespace: self.namespace@,
            namespace_abbrev: self.namespace_abbrev@,
            attrs: attrs_view(self.attrs@),
            text: opt_view(self.text),
            tail: self.tail@,
            idx: self.idx,
            route: self.route@,
        }
    }
}

/// Whether a local name marks a meta node: it starts with `<` and ends with `>`.
pub open spec fn is_meta_name(s: Seq<char>) -> bool {
    s.len() > 0 && s[0] == '<' && s.last() == '>'
}

/// The qualified name: `prefix:local`, or `local` when there is no prefix.
pub open spec fn qualified(abbrev: Seq<char>, local: Seq<char>) -> Seq<char> {
    if abbrev.len() > 0 {
        abbrev + seq![':'] + local
    } else {
        local
    }
}

impl NodeView {
    pub open spec fn name(self) -> Seq<char> {
        qualified(self.namespace_abbrev, self.localname)
    }

    pub open spec fn is_meta(self) -> bool {
        is_meta_name(self.localname)
    }

    /// The text, or nothing for a self-closing node.
    pub open spec fn text_or_empty(self) -> Seq<char> {
        match self.text {
            Some(t) => t,
            None => Seq::empty(),
        }
    }
}

/// Position of the first attribute at or after `i` whose key is `k`, or the
/// length of `a` when there is none.
pub open spec fn attr_from(a: Seq<(Seq<char>, Seq<char>)>, k: Seq<char>, i: int) -> int
    decreases a.len() - i,
{
    if 0 <= i < a.len() && a[i].0 != k {
        attr_from(a, k, i + 1)
    } else {
        i
    }
}

pub open spec fn attr_pos(a: Seq<(Seq<char>, Seq<char>)>, k: Seq<char>) -> int {
    attr_from(a, k, 0)
}

/// The value of attribute `k`, if present.
pub open spec fn attr_value(a: Seq<(Seq<char>, Seq<char>)>, k: Seq<char>) -> Option<Seq<char>> {
    if attr_pos(a, k) < a.len() {
        Some(a[attr_pos(a, k)].1)
    } else {
        None
    }
}

pub proof fn lemma_attr_from(a: Seq<(Seq<char>, Seq<char>)>, k: Seq<char>, i: int)
    requires
        0 <= i <= a.len(),
    ensures
        i <= attr_from(a, k, i) <= a.len(),
        attr_from(a, k, i) < a.len() ==> a[attr_from(a, k, i)].0 == k,
        forall|j: int| i <= j < attr_from(a, k, i) ==> a[j].0 != k,
    decreases a.len() - i,
{
    if i < a.len() && a[i].0 != k {
        lemma_attr_from(a, k, i + 1);
    }
}

pub fn copy_string_opt(s: &Option<String>) -> (r: Option<String>)
    ensures
        opt_view(r) == opt_view(*s),
{
    match s {
        Some(t) => Some(t.clone()),
        None => None,
    }
}

pub fn copy_ids(v: &Vec<usize>) -> (r: Vec<usize>)
    ensures
        r@ == v@,
{
    let mut r: Vec<usize> = Vec::new();
    let mut i: usize = 0;
    while i < v.len()
        invariant
            i <= v.len(),
            r@ == v@.subrange(0, i as int),
        decreases v.len() - i,
    {
        r.push(v[i]);
        i = i + 1;
    }
    assert(r@ =~= v@);
    r
}

pub fn copy_attrs(v: &Vec<(String, String)>) -> (r: Vec<(String, String)>)
    ensures
        attrs_view(r@) == attrs_view(v@),
{
    let mut r: Vec<(String, String)> = Vec::new();
    let mut i: usize = 0;
    while i < v.len()
        invariant
            i <= v.len(),
            r@.len() == i,
            attrs_view(r@) == attrs_view(v@.subrange(0, i as int)),
        decreases v.len() - i,
    {
        let k = v[i].0.clone();
        let w = v[i].1.clone();
        let ghost old_r = r@;
        r.push((k, w));
        assert(pair_view(r@[i as int]) == pair_view(v@[i as int]));
        assert forall|j: int| 0 <= j < i + 1 implies attrs_view(r@)[j] == attrs_view(
            v@.subrange(0, i + 1),
        )[j] by {
            if j < i {
                assert(attrs_view(r@)[j] == attrs_view(old_r)[j]);
                assert(attrs_view(old_r)[j] == attrs_view(v@.subrange(0, i as int))[j]);
            }
        }
        assert(attrs_view(r@) =~= attrs_view(v@.subrange(0, i + 1)));
        i = i + 1;
    }
    assert(v@.subrange(0, i as int) =~= v@);
    r
}

impl ETreeNode {
    /// A detached node with local name `name`, no attributes, no text
    /// (self-closing), an empty tail, id 0 and an empty route.
    pub fn new(name: &str) -> (r: ETreeNode)
        ensures
            r@ == (NodeView {
                localname: name@,
                namespace: Seq::empty(),
                namespace_abbrev: Seq::empty(),
                attrs: Seq::empty(),
                text: None,
                tail: Seq::empty(),
                idx: 0,
                route: Seq::empty(),
            }),
    {
        let r = ETreeNode {
            localname: String::from_str(name),
            namespace: String::new(),
            namespace_abbrev: String::new(),
            attrs: Vec::new(),
            text: None,
            tail: String::new(),
            idx: 0,
            route: Vec::new(),
        };
        assert(attrs_view(r.attrs@) =~= Seq::empty());
        assert(r.route@ =~= Seq::empty());
        r
    }

    /// A copy with the same value.
    pub fn deep_copy(&self) -> (r: ETreeNode)
        ensures
            r@ == self@,
    {
        ETreeNode {
            localname: self.localname.clone(),
            namespace: self.namespace.clone(),
            namespace_abbrev: self.namespace_abbrev.clone(),
            attrs: copy_attrs(&self.attrs),
            text: copy_string_opt(&self.text),
            tail: self.tail.clone(),
            idx: self.idx,
            route: copy_ids(&self.route),
        }
    }

    /// Whether this is a meta node (comment, CDATA, processing instruction, doctype).
    pub fn is_meta_node(&self) -> (r: bool)
        ensures
            r == self@.is_meta(),
    {
        let n = self.localname.as_str().unicode_len();
        n > 0 && self.localname.as_str().get_char(0) == '<' && self.localname.as_str().get_char(n - 1)
            == '>'
    }

    pub fn get_localname(&self) -> (r: String)
        ensures
            r@ == self@.localname,
    {
        self.localname.clone()
    }

    /// The qualified name: `prefix:local`, or the local name alone.
    pub fn get_name(&self) -> (r: String)
        ensures
            r@ == self@.name(),
    {
        if self.namespace_abbrev.as_str().unicode_len() > 0 {
            let colon = ":";
            proof {
                reveal_strlit(":");
            }
            let s = self.namespace_abbrev.clone().concat(colon);
            let r = s.concat(self.localname.as_str());
            assert(colon@ =~= seq![':']);
            r
        } else {
            self.localname.clone()
        }
    }

    pub fn get_namespace(&self) -> (r: String)
        ensures
            r@ == self@.namespace,
    {
        self.namespace.clone()
    }

    pub fn set_namespace(&mut self, ns: &str)
        ensures
            final(self)@ == (NodeView { namespace: ns@, ..old(self)@ }),
    {
        self.namespace = String::from_str(ns);
    }

    pub fn get_namespace_abbrev(&self) -> (r: String)
        ensures
            r@ == self@.namespace_abbrev,
    {
        self.namespace_abbrev.clone()
    }

    pub fn set_namespace_abbrev(&mut self, abbrev: &str)
        ensures
            final(self)@ == (NodeView { namespace_abbrev: abbrev@, ..old(self)@ }),
    {
        self.namespace_abbrev = String::from_str(abbrev);
    }

    pub fn get_text(&self) -> (r: Option<String>)
        ensures
            opt_view(r) == self@.text,
    {
        copy_string_opt(&self.text)
    }

    pub fn set_text(&mut self, text: &str)
        ensures
            final(self)@ == (NodeView { text: Some(text@), ..old(self)@ }),
    {
        self.text = Some(String::from_str(text));
    }

    /// Makes the node self-closing: it has no text.
    pub fn clear_text(&mut self)
        ensures
            final(self)@ == (NodeView { text: None, ..old(self)@ }),
    {
        self.text = None;
    }

    pub fn get_tail(&self) -> (r: String)
        ensures
            r@ == self@.tail,
    {
        self.tail.clone()
    }

    pub fn set_tail(&mut self, tail: &str)
        ensures
            final(self)@ == (NodeView { tail: tail@, ..old(self)@ }),
    {
        self.tail = String::from_str(tail);
    }

    pub fn get_idx(&self) -> (r: usize)
        ensures
            r == self@.idx,
    {
        self.idx
    }

    pub fn get_route(&self) -> (r: Vec<usize>)
        ensures
            r@ == self@.route,
    {
        copy_ids(&self.route)
    }

    pub fn get_attr_count(&self) -> (r: usize)
        ensures
            r == self@.attrs.len(),
    {
        self.attrs.len()
    }

    /// The attributes, in order.
    pub fn get_attr_list(&self) -> (r: Vec<(String, String)>)
        ensures
            attrs_view(r@) == self@.attrs,
    {
        copy_attrs(&self.attrs)
    }

    /// Position of the attribute named `key`, or the number of attributes.
    pub fn attr_position(&self, key: &str) -> (r: usize)
        ensures
            r == attr_pos(self@.attrs, key@),
            r <= self@.attrs.len(),
    {
        proof {
            lemma_attr_from(self@.attrs, key@, 0);
        }
        let mut i: usize = 0;
        while i < self.attrs.len()
            invariant
                i <= self.attrs@.len(),
                self@.attrs.len() == self.attrs@.len(),
                attr_from(self@.attrs, key@, 0) == attr_from(self@.attrs, key@, i as int),
            decreases self.attrs@.len() - i,
        {
            if same_str(self.attrs[i].0.as_str(), key) {
                return i;
            }
            i = i + 1;
        }
        i
    }

    /// The value of the attribute named `key`.
    pub fn get_attr(&self, key: &str) -> (r: Option<String>)
        ensures
            opt_view(r) == attr_value(self@.attrs, key@),
    {
        let k = self.attr_position(key);
        if k < self.attrs.len() {
            Some(self.attrs[k].1.clone())
        } else {
            None
        }
    }

    /// Sets attribute `key` to `value`: in place when present, else appended.
    pub fn set_attr(&mut self, key: &str, value: &str)
        ensures
            ({
                let a = old(self)@.attrs;
                let k = attr_pos(a, key@);
                final(self)@ == (NodeView {
                    attrs: if k < a.len() {
                        a.update(k, (key@, value@))
                    } else {
                        a.push((key@, value@))
                    },
                    ..old(self)@
                })
            }),
    {
        let k = self.attr_position(key);
        proof {
            lemma_attr_from(self@.attrs, key@, 0);
        }
        if k < self.attrs.len() {
            self.attrs[k].1 = String::from_str(value);
            assert(attrs_view(self.attrs@) =~= attrs_view(old(self).attrs@).update(
                k as int,
                (key@, value@),
            ));
        } else {
            self.attrs.push((String::from_str(key), String::from_str(value)));
            assert(attrs_view(self.attrs@) =~= attrs_view(old(self).attrs@).push((key@, value@)));
        }
    }
}

} // verus!
