use etree::events::{OutEvent, StructureError, XmlEvent};
use etree::{ETree, ETreeNode};

fn start(name: &str, attrs: &[(&str, &str)]) -> XmlEvent {
    let local = match name.find(':') {
        Some(i) => name[i + 1..].to_string(),
        None => name.to_string(),
    };
    XmlEvent::Start {
        name: name.to_string(),
        local,
        namespace: None,
        attrs: attrs.iter().map(|(k, v)| (k.to_string(), v.to_string())).collect(),
    }
}

fn empty(name: &str, attrs: &[(&str, &str)]) -> XmlEvent {
    XmlEvent::Empty {
        name: name.to_string(),
        local: name.to_string(),
        namespace: None,
        attrs: attrs.iter().map(|(k, v)| (k.to_string(), v.to_string())).collect(),
    }
}

fn text(s: &str) -> XmlEvent {
    XmlEvent::Text(s.to_string())
}

/// `<ROOT><A dest="CHN">x</A><B>Shanghail</B></ROOT>`
fn example() -> ETree {
    let ev = vec![
        start("ROOT", &[]),
        start("A", &[("dest", "CHN")]),
        text("x"),
        XmlEvent::End,
        start("B", &[]),
        text("Shanghail"),
        XmlEvent::End,
        XmlEvent::End,
    ];
    ETree::from_events(&ev, "\n")
}

/// `<a>\n  <b>1</b>\n  <c/>\n</a>`
fn indented() -> ETree {
    let ev = vec![
        start("a", &[]),
        text("\n  "),
        start("b", &[]),
        text("1"),
        XmlEvent::End,
        text("\n  "),
        empty("c", &[]),
        text("\n"),
        XmlEvent::End,
    ];
    ETree::from_events(&ev, "\n")
}

fn name_at(t: &ETree, p: usize) -> String {
    t.node(p).unwrap().get_name()
}

fn texts_and_tails(t: &ETree) -> Vec<(Option<String>, String)> {
    (0..t.len()).map(|i| (t.node(i).unwrap().get_text(), t.node(i).unwrap().get_tail())).collect()
}

fn ids(t: &ETree) -> Vec<usize> {
    (0..t.len()).map(|i| t.node(i).unwrap().get_idx()).collect()
}

#[test]
fn example_find_by_name() {
    assert_eq!(example().find("//A"), Some(1));
}

#[test]
fn example_find_by_attribute() {
    assert_eq!(example().find("//*[@dest='CHN']"), Some(1));
}

#[test]
fn example_find_by_text() {
    assert_eq!(example().find("//B[text()='Shanghail']"), Some(2));
}

#[test]
fn example_find_by_position() {
    let t = example();
    assert_eq!(t.find("//ROOT/*[position()<2]"), None);
    assert_eq!(t.find("/*[position()<2]"), Some(1));
    assert_eq!(t.find_at("//ROOT/*[position()<2]", t.len()), None);
    let all: Vec<usize> = {
        let mut it = t.find_iter("/*[position()<2]");
        let mut v = Vec::new();
        while let Some(p) = it.next() {
            v.push(p);
        }
        v
    };
    assert_eq!(all, vec![1]);
}

#[test]
fn example_rfind_all() {
    let t = example();
    assert_eq!(t.rfind("//*"), Some(2));
    let mut it = t.rfind_iter("//*");
    let mut v = Vec::new();
    while let Some(p) = it.next() {
        v.push(p);
    }
    assert_eq!(v, vec![2, 1]);
}

#[test]
fn find_iter_document_order() {
    let t = example();
    let mut it = t.find_iter("//*");
    let mut v = Vec::new();
    while let Some(p) = it.next() {
        v.push(p);
    }
    assert_eq!(v, vec![1, 2]);
}

#[test]
fn malformed_path_finds_nothing() {
    let t = example();
    assert_eq!(t.find("//A["), None);
    assert_eq!(t.find(""), None);
    assert_eq!(t.find("//A[@]"), None);
}

#[test]
fn parent_and_current_steps() {
    let t = example();
    assert_eq!(t.find_at("..", 1), Some(0));
    assert_eq!(t.find_at(".", 2), Some(2));
    assert_eq!(t.find_at("../B", 1), Some(2));
}

#[test]
fn predicate_numeric_and_lexical() {
    let ev = vec![
        start("R", &[]),
        empty("X", &[("n", "9")]),
        empty("X", &[("n", "10")]),
        empty("X", &[("n", "abc")]),
        XmlEvent::End,
    ];
    let t = ETree::from_events(&ev, "\n");
    assert_eq!(t.find("//X[@n > 9]"), Some(2));
    assert_eq!(t.find("//X[@n < 'b']"), Some(1));
    assert_eq!(t.find("//X[@n >= 'a']"), Some(3));
    assert_eq!(t.find("//X[@n = 'abc' or @n = 9]"), Some(1));
    assert_eq!(t.find("//X[@n and @n != 9]"), Some(2));
    assert_eq!(t.find("//X[last()]"), Some(3));
    assert_eq!(t.find("//X[last()-1]"), Some(2));
    assert_eq!(t.find("//X[2]"), Some(2));
    assert_eq!(t.find("//X[@*]"), Some(1));
    assert_eq!(t.find("//R[@*]"), None);
}

#[test]
fn predicate_on_child_texts() {
    let ev = vec![
        start("lib", &[]),
        start("book", &[]),
        start("t", &[]),
        text("A"),
        XmlEvent::End,
        start("y", &[]),
        text("1999"),
        XmlEvent::End,
        XmlEvent::End,
        start("book", &[]),
        start("t", &[]),
        text("B"),
        XmlEvent::End,
        start("t", &[]),
        text("C"),
        XmlEvent::End,
        start("y", &[]),
        text("2001"),
        XmlEvent::End,
        XmlEvent::End,
        XmlEvent::End,
    ];
    let t = ETree::from_events(&ev, "\n");
    assert_eq!(t.find("//book[t='C' and y > 2000]"), Some(4));
    assert_eq!(t.find("//book[t='A' and y > 2000]"), None);
    assert_eq!(t.find("//book[z='A']"), None);
    assert_eq!(t.find("//book[(t='A') or (t='C')]"), Some(1));
}

#[test]
fn navigation() {
    let t = example();
    assert_eq!(t.root(), 0);
    assert_eq!(t.children(0), vec![1, 2]);
    assert_eq!(t.descendant(0), vec![1, 2]);
    assert_eq!(t.children_by_name(0, "B"), vec![2]);
    assert_eq!(t.parent(2), Some(0));
    assert_eq!(t.parent(0), None);
    assert_eq!(t.previous(2), Some(1));
    assert_eq!(t.next(1), Some(2));
    assert_eq!(t.next(2), None);
    assert_eq!(t.previous(1), None);
    assert_eq!(t.pos(2), Some(2));
    assert_eq!(t.pos(7), None);
}

#[test]
fn sibling_round_trip_values() {
    let t = indented();
    for p in 0..t.len() {
        if let Some(q) = t.previous(p) {
            assert_eq!(t.next(q), Some(p));
        }
        if let Some(q) = t.next(p) {
            assert_eq!(t.previous(q), Some(p));
        }
        if let Some(q) = t.parent(p) {
            assert!(t.children(q).contains(&p));
        }
    }
}

#[test]
fn root_skips_meta_nodes() {
    let ev = vec![
        XmlEvent::Comment(" c ".to_string()),
        text("\n"),
        start("r", &[]),
        XmlEvent::End,
    ];
    let t = ETree::from_events(&ev, "\n");
    assert_eq!(t.root(), 1);
    assert_eq!(t.node(0).unwrap().get_localname(), "<Comment>");
    assert_eq!(t.node(0).unwrap().get_tail(), "\n");
    assert_eq!(t.find_at("//r", 0), None);
    assert_eq!(t.find_at("/*", 1), None);
}

#[test]
fn append_child_ends_children() {
    let mut t = example();
    let p = t.append_child_node(0, ETreeNode::new("C"));
    assert_eq!(p, Some(3));
    assert_eq!(t.children(0), vec![1, 2, 3]);
    assert_eq!(t.node(3).unwrap().get_idx(), 3);
    assert_eq!(name_at(&t, 3), "C");
}

#[test]
fn append_child_keeps_whitespace() {
    let mut t = indented();
    let before: usize = texts_and_tails(&t).iter().map(|(x, y)| x.clone().unwrap_or_default().len() + y.len()).sum();
    let p = t.append_child_node(0, ETreeNode::new("d")).unwrap();
    assert_eq!(p, 3);
    assert_eq!(t.children(0), vec![1, 2, 3]);
    assert_eq!(t.node(2).unwrap().get_tail(), "\n  ");
    assert_eq!(t.node(3).unwrap().get_tail(), "\n");
    let after: usize = texts_and_tails(&t).iter().map(|(x, y)| x.clone().unwrap_or_default().len() + y.len()).sum();
    assert_eq!(after, before + 3);
}

#[test]
fn append_child_into_leaf() {
    let mut t = indented();
    t.pretty("  ");
    let p = t.append_child_node(2, ETreeNode::new("e")).unwrap();
    assert_eq!(p, 3);
    assert_eq!(t.node(2).unwrap().get_text(), Some("\n  ".to_string() + "  "));
    assert_eq!(t.node(3).unwrap().get_tail(), "\n  ");
    assert_eq!(t.parent(3), Some(2));
}

#[test]
fn append_previous_and_next() {
    let mut t = example();
    assert_eq!(t.append_previous_node(2, ETreeNode::new("P")), Some(2));
    assert_eq!(name_at(&t, 2), "P");
    assert_eq!(name_at(&t, 3), "B");
    assert_eq!(t.append_next_node(3, ETreeNode::new("N")), Some(4));
    assert_eq!(name_at(&t, 4), "N");
    assert_eq!(t.children(0), vec![1, 2, 3, 4]);
    assert_eq!(t.append_previous_node(0, ETreeNode::new("Z")), None);
    assert_eq!(t.append_next_node(9, ETreeNode::new("Z")), None);
    assert_eq!(ids(&t), vec![0, 1, 3, 2, 4]);
}

#[test]
fn remove_shrinks_by_subtree() {
    let mut t = indented();
    let before = t.len();
    let d = t.descendant(0).len();
    t.remove(0);
    assert_eq!(t.len(), before - 1 - d);
    let mut t = indented();
    t.remove(1);
    assert_eq!(t.len(), 2);
    assert_eq!(name_at(&t, 1), "c");
    assert_eq!(t.pos(1), None);
}

#[test]
fn remove_heals_whitespace() {
    let mut t = indented();
    t.remove(2);
    assert_eq!(t.node(1).unwrap().get_tail(), "\n");
    t.remove(1);
    assert_eq!(t.node(0).unwrap().get_text(), Some("\n".to_string()));
}

#[test]
fn index_lookup() {
    let mut t = example();
    t.set_enable_index(true);
    assert!(t.get_enable_index());
    t.append_child_node(0, ETreeNode::new("C"));
    assert_eq!(t.pos(3), Some(3));
    t.remove(1);
    assert_eq!(t.pos(3), Some(2));
    assert_eq!(t.pos(1), None);
}

#[test]
fn subtree_copies_and_rebases() {
    let t = indented();
    let s = t.subtree(1).unwrap();
    assert_eq!(s.len(), 1);
    assert_eq!(s.node(0).unwrap().get_route(), Vec::<usize>::new());
    assert_eq!(s.node(0).unwrap().get_idx(), 1);
    assert!(t.subtree(9).is_none());
}

#[test]
fn graft_keeps_ids_unique() {
    let mut t = example();
    let s = t.subtree(1).unwrap();
    assert_eq!(t.append_child_tree(2, s), Some(3));
    assert_eq!(ids(&t), vec![0, 1, 2, 3]);
    assert_eq!(t.parent(3), Some(2));
    let s2 = t.subtree(0).unwrap();
    assert_eq!(t.append_next_tree(0, s2), Some(4));
    let mut v = ids(&t);
    v.sort();
    v.dedup();
    assert_eq!(v.len(), t.len());
    assert_eq!(t.len(), 8);
}

#[test]
fn graft_relocates_clashing_ids() {
    let mut t = example();
    let mut g = ETree::from_node(ETreeNode::new("X"));
    for _ in 0..4 {
        g.append_child_node(0, ETreeNode::new("Y"));
    }
    assert_eq!(ids(&g), vec![0, 1, 2, 3, 4]);
    assert_eq!(t.append_previous_tree(2, g), Some(2));
    assert_eq!(ids(&t), vec![0, 1, 3, 4, 5, 6, 7, 2]);
    assert_eq!(t.children(2), vec![3, 4, 5, 6]);
    assert_eq!(t.parent(7), Some(0));
}

#[test]
fn graft_direct_renumbering() {
    let mut t = example();
    let mut g = ETree::from_node(ETreeNode::new("X"));
    g.append_child_node(0, ETreeNode::new("Y"));
    assert_eq!(t.append_next_tree(1, g), Some(2));
    assert_eq!(ids(&t), vec![0, 1, 3, 4, 2]);
    assert_eq!(t.children(2), vec![3]);
}

#[test]
fn graft_lays_out_incoming() {
    let mut t = indented();
    let n = ETree::from_node(ETreeNode::new("x"));
    assert_eq!(t.append_child_tree(0, n), Some(3));
    assert_eq!(t.get_indent(), "  ");
    assert_eq!(t.node(2).unwrap().get_tail(), "\n  ");
    assert_eq!(t.node(3).unwrap().get_tail(), "\n");
}

#[test]
fn detects_indent() {
    let t = indented();
    assert_eq!(t.get_indent(), "  ");
    assert_eq!(t.get_crlf(), "\n");
    assert_eq!(example().get_indent(), "");
}

#[test]
fn pretty_is_idempotent() {
    let mut t = example();
    t.pretty("  ");
    let once = texts_and_tails(&t);
    assert_eq!(once[0], (Some("\n  ".to_string()), "\n".to_string()));
    assert_eq!(once[1], (Some("x".to_string()), "\n  ".to_string()));
    assert_eq!(once[2], (Some("Shanghail".to_string()), "\n".to_string()));
    t.pretty("  ");
    assert_eq!(texts_and_tails(&t), once);
}

#[test]
fn pretty_reads_terminator() {
    let mut t = example();
    t.pretty("\r\n\t");
    assert_eq!(t.get_indent(), "\t");
    assert_eq!(t.get_crlf(), "\r\n");
    assert_eq!(t.node(0).unwrap().get_text(), Some("\r\n\t".to_string()));
}

#[test]
fn noindent_after_pretty_strips_layout() {
    let mut t = example();
    t.pretty("    ");
    let old = t.noindent();
    assert_eq!(old, "\n    ");
    for (x, y) in texts_and_tails(&t) {
        assert_eq!(y, "");
        assert!(!x.unwrap().starts_with(' '));
    }
    assert_eq!(t.node(1).unwrap().get_text(), Some("x".to_string()));
    assert_eq!(t.get_indent(), "");
}

#[test]
fn noindent_trims_white_space() {
    let ev = vec![start("a", &[]), text(" \t x y \n"), XmlEvent::End, text("  ")];
    let mut t = ETree::from_events(&ev, "\n");
    t.noindent();
    assert_eq!(t.node(0).unwrap().get_text(), Some("x y".to_string()));
    assert_eq!(t.node(0).unwrap().get_tail(), "");
}

fn to_reader_events(out: &[OutEvent]) -> Vec<XmlEvent> {
    let mut v = Vec::new();
    for e in out {
        match e {
            OutEvent::Decl { version, encoding, standalone } => v.push(XmlEvent::Decl {
                version: version.clone(),
                encoding: encoding.clone(),
                standalone: standalone.clone(),
            }),
            OutEvent::Raw(_) => {}
            OutEvent::Start { name, attrs } => v.push(XmlEvent::Start {
                name: name.clone(),
                local: name.clone(),
                namespace: None,
                attrs: attrs.clone(),
            }),
            OutEvent::Empty { name, attrs } => v.push(XmlEvent::Empty {
                name: name.clone(),
                local: name.clone(),
                namespace: None,
                attrs: attrs.clone(),
            }),
            OutEvent::End(_) => v.push(XmlEvent::End),
            OutEvent::Text(s) => v.push(XmlEvent::Text(s.clone())),
            OutEvent::Comment(s) => v.push(XmlEvent::Comment(s.clone())),
            OutEvent::CData(s) => v.push(XmlEvent::CData(s.clone())),
            OutEvent::PI(s) => v.push(XmlEvent::PI(s.clone())),
            OutEvent::DocType(s) => v.push(XmlEvent::DocType(s.clone())),
        }
    }
    v
}

fn same_nodes(a: &ETree, b: &ETree) {
    assert_eq!(a.len(), b.len());
    for i in 0..a.len() {
        let x = a.node(i).unwrap();
        let y = b.node(i).unwrap();
        assert_eq!(x.get_name(), y.get_name());
        assert_eq!(x.get_attr_list(), y.get_attr_list());
        assert_eq!(x.get_text(), y.get_text());
        assert_eq!(x.get_tail(), y.get_tail());
        assert_eq!(x.get_route(), y.get_route());
    }
}

#[test]
fn serialize_then_parse_round_trip() {
    for t in [example(), indented()] {
        let out = t.write_events().ok().unwrap();
        assert!(matches!(out[0], OutEvent::Decl { .. }));
        let back = ETree::from_events(&to_reader_events(&out), "\n");
        same_nodes(&t, &back);
    }
}

#[test]
fn serialize_closes_tags() {
    let t = example();
    let out = t.write_events().ok().unwrap();
    let ends: Vec<String> = out
        .iter()
        .filter_map(|e| match e {
            OutEvent::End(n) => Some(n.clone()),
            _ => None,
        })
        .collect();
    assert_eq!(ends, vec!["A".to_string(), "B".to_string(), "ROOT".to_string()]);
}

#[test]
fn serialize_reports_corruption() {
    let mut t = ETree::from_node(ETreeNode::new("r"));
    t.append_child_node(0, ETreeNode::new("a"));
    t.append_child_node(0, ETreeNode::new("b"));
    assert!(t.write_events().is_ok());
    t.node_mut(2).unwrap().route = vec![9];
    assert!(matches!(t.write_events(), Err(StructureError::Corrupt(2))));
    let mut u = ETree::from_node(ETreeNode::new("r"));
    u.append_child_node(0, ETreeNode::new("a"));
    u.node_mut(1).unwrap().route = vec![5];
    assert!(u.write_events().is_err());
}

#[test]
fn node_attributes() {
    let mut n = ETreeNode::new("a");
    n.set_attr("k", "1");
    n.set_attr("j", "2");
    n.set_attr("k", "3");
    assert_eq!(n.get_attr("k"), Some("3".to_string()));
    assert_eq!(n.get_attr("z"), None);
    assert_eq!(n.get_attr_count(), 2);
    assert_eq!(n.get_attr_list(), vec![("k".to_string(), "3".to_string()), ("j".to_string(), "2".to_string())]);
    n.set_namespace_abbrev("ns");
    assert_eq!(n.get_name(), "ns:a");
}

#[test]
fn prefixed_names() {
    let ev = vec![start("x:r", &[]), XmlEvent::End];
    let t = ETree::from_events(&ev, "\n");
    assert_eq!(t.node(0).unwrap().get_localname(), "r");
    assert_eq!(t.node(0).unwrap().get_namespace_abbrev(), "x");
    assert_eq!(t.find_at("/x:r", t.len()), None);
    assert_eq!(t.node(0).unwrap().get_name(), "x:r");
}

#[test]
fn declaration_fields() {
    let ev = vec![
        XmlEvent::Decl { version: "1.1".to_string(), encoding: Some("UTF-8".to_string()), standalone: None },
        start("r", &[]),
        XmlEvent::End,
    ];
    let mut t = ETree::from_events(&ev, "\r\n");
    assert_eq!(t.get_version(), Some("1.1".to_string()));
    assert_eq!(t.get_encoding(), Some("UTF-8".to_string()));
    assert_eq!(t.get_standalone(), None);
    t.set_standalone("yes");
    assert_eq!(t.get_standalone(), Some("yes".to_string()));
    t.set_version("1.0");
    t.set_encoding("ascii");
    assert_eq!(t.get_version(), Some("1.0".to_string()));
    assert_eq!(t.get_encoding(), Some("ascii".to_string()));
    assert_eq!(t.get_crlf(), "\r\n");
}

#[test]
fn descendants_are_children_and_their_descendants() {
    let ev = vec![
        start("a", &[]),
        start("b", &[]),
        empty("c", &[]),
        XmlEvent::End,
        empty("d", &[]),
        XmlEvent::End,
    ];
    let t = ETree::from_events(&ev, "\n");
    let mut v = t.children(0);
    for c in t.children(0) {
        v.extend(t.descendant(c));
    }
    v.sort();
    assert_eq!(v, t.descendant(0));
    assert_eq!(t.descendant(0), vec![1, 2, 3]);
    assert_eq!(t.children(1), vec![2]);
}

#[test]
fn malformed_path_is_reported() {
    let t = example();
    assert_eq!(t.try_find_at("//A[", 0), Err(etree::query::QueryError::Malformed));
    assert_eq!(t.try_find_at("//A", 0), Ok(Some(1)));
    assert_eq!(t.try_find_at("//Z", 0), Ok(None));
    assert!(!ETree::path_ok(""));
    assert!(ETree::path_ok("//ROOT/*[position()<2]"));
}

#[test]
fn first_step_normalisation() {
    let t = example();
    assert_eq!(t.find_at("A", 0), Some(1));
    assert_eq!(t.find_at(".", 1), Some(1));
    assert_eq!(t.find_at("..", 2), Some(0));
    assert_eq!(t.find_at("./B", 0), Some(2));
}

#[test]
fn parse_events_line_ending() {
    let ev = vec![start("r", &[]), XmlEvent::End];
    assert_eq!(ETree::parse_events(&ev, "<r>\r\n</r>").get_crlf(), "\r\n");
    assert_eq!(ETree::parse_events(&ev, "<r>\n</r>").get_crlf(), "\n");
    assert!(!ETree::parse_events(&ev, "<r/>").get_enable_index());
}

#[test]
fn predicate_decimal_numbers() {
    let ev = vec![
        start("R", &[]),
        empty("X", &[("n", "9")]),
        empty("X", &[("n", "10")]),
        empty("X", &[("n", "-0.25")]),
        XmlEvent::End,
    ];
    let t = ETree::from_events(&ev, "\n");
    assert_eq!(t.find("//X[@n > '9.5']"), Some(2));
    assert_eq!(t.find("//X[@n = '9.0']"), Some(1));
    assert_eq!(t.find("//X[@n < 0]"), Some(3));
    assert_eq!(t.find("//X[@n > '-0.3' and @n < '-0.2']"), Some(3));
}

#[test]
fn mixed_comparison_is_lexical() {
    let ev = vec![
        start("R", &[]),
        start("X", &[]),
        text("a"),
        XmlEvent::End,
        start("X", &[]),
        text("3"),
        XmlEvent::End,
        XmlEvent::End,
    ];
    let t = ETree::from_events(&ev, "\n");
    assert_eq!(t.find("//X[text() > 5]"), Some(1));
    assert_eq!(t.find("//X[text() != 5]"), Some(1));
    assert_eq!(t.find("//X[text() < 5]"), Some(2));
    assert_eq!(t.find("//X[text() = 3]"), Some(2));
    assert_eq!(t.find("//X[text() >= -1]"), Some(1));
    assert_eq!(t.find("//X[text() <= 'a']"), Some(1));
}

#[test]
fn iterator_reports_malformed_path() {
    let t = example();
    assert!(etree::XPathIterator::new(&t, "//A[", 0, true).is_none());
    let mut it = etree::XPathIterator::new(&t, "//*", 0, false).unwrap();
    assert_eq!(it.next(), Some(2));
    assert_eq!(t.try_find("//B"), Ok(Some(2)));
    assert_eq!(t.try_rfind_at("//*", 0), Ok(Some(2)));
    assert_eq!(t.try_rfind_at("[", 0), Err(etree::query::QueryError::Malformed));
}
