use scryer_core::build_edges::{derive_graph, BuildEdges, CachedEdge, DerivedEdge, ResolvedEdge};
use scryer_core::{Kind, Link, Node, Responsibility, ScryModel, Source, SourceLocation};

fn node(id: &str, kind: Kind, parent: Option<&str>) -> Node {
    Node {
        id: id.into(),
        kind,
        name: id.into(),
        vagrant: None,
        stale: None,
        parent_id: parent.map(Into::into),
        external: None,
        technology: None,
        description: None,
        responsibilities: Vec::new(),
        properties: Vec::new(),
        icon: None,
        notes: None,
        position: None,
        directives: Vec::new(),
    }
}

fn anchor(model: &mut ScryModel, node_id: &str, file: &str, symbol: &str) {
    model.source_map.insert(
        node_id.into(),
        vec![SourceLocation {
            pattern: file.into(),
            symbol: Some(symbol.into()),
            line: Some(1),
            end_line: Some(5),
        }],
    );
}

#[test]
fn rollup_audit_and_unmodeled() {
    let mut m = ScryModel::new();
    m.nodes.push(node("sys", Kind::System, None));
    m.nodes.push(node("ca", Kind::Container, Some("sys")));
    m.nodes.push(node("cb", Kind::Container, Some("sys")));
    m.nodes.push(node("compa", Kind::Component, Some("ca")));
    m.nodes.push(node("compa2", Kind::Component, Some("ca")));
    m.nodes.push(node("compb", Kind::Component, Some("cb")));
    m.nodes.push(node("syma", Kind::Symbol, Some("compa")));
    m.nodes.push(node("syma2", Kind::Symbol, Some("compa2")));
    m.nodes.push(node("symb", Kind::Symbol, Some("compb")));
    anchor(&mut m, "syma", "a/src/x.ts", "useThing");
    anchor(&mut m, "syma2", "a/src/z.ts", "zed");
    anchor(&mut m, "symb", "b/src/y.ts", "thing");
    m.links.push(Link {
        id: "link-1".into(),
        src: "ca".into(),
        dst: "cb".into(),
        label: "uses".into(),
        method: None,
    });
    m.links.push(Link {
        id: "link-2".into(),
        src: "cb".into(),
        dst: "ca".into(),
        label: "asserted only".into(),
        method: None,
    });

    let edges = BuildEdges {
        symbol_edges: vec![
            CachedEdge {
                src: "a/src/x.ts#useThing@1".into(),
                dst: "b/src/y.ts#thing@1".into(),
            },
            CachedEdge {
                src: "a/src/x.ts#useThing@1".into(),
                dst: "a/src/z.ts#zed@1".into(),
            },
        ],
    };
    let g = derive_graph(&m, &edges);

    let audit = |id: &str| g.link_audit.iter().find(|a| a.link_id == id).unwrap().edge_count;
    assert_eq!(audit("link-1"), 1, "declared link is code-backed");
    assert_eq!(audit("link-2"), 0, "reverse claim is asserted-only");

    assert!(
        g.unmodeled.iter().any(|e| e.src == "compa" && e.dst == "compa2"),
        "unmodeled sibling pair surfaces: {:?}",
        g.unmodeled
    );
    assert!(g.unmodeled.iter().all(|e| !(e.src == "compa" && e.dst == "compb")));
    assert!(g.unmodeled.iter().all(|e| e.src != "syma"));

    let find = |sn: &str, dn: &str| {
        g.resolved_edges
            .iter()
            .find(|e| e.src_node == sn && e.dst_node == dn)
    };
    let cross = find("syma", "symb").expect("cross-container leaf edge kept");
    assert_eq!((cross.src_symbol.as_str(), cross.dst_symbol.as_str()), ("useThing", "thing"));
    assert_eq!(cross.count, 1);
    let sib = find("syma", "syma2").expect("cross-component leaf edge kept");
    assert_eq!((sib.src_symbol.as_str(), sib.dst_symbol.as_str()), ("useThing", "zed"));
    assert_eq!(g.resolved_edges.len(), 2, "{:?}", g.resolved_edges);
}

#[test]
fn boundary_fallback_and_containment_skip() {
    let mut m = ScryModel::new();
    m.nodes.push(node("sys", Kind::System, None));
    m.nodes.push(node("ca", Kind::Container, Some("sys")));
    m.nodes.push(node("cb", Kind::Container, Some("sys")));
    m.boundaries.insert(
        "ca".into(),
        vec![Source { pattern: "a/**/*".into(), comment: None }],
    );
    m.boundaries.insert(
        "cb".into(),
        vec![Source { pattern: "b/**/*".into(), comment: None }],
    );

    let edges = BuildEdges {
        symbol_edges: vec![
            CachedEdge { src: "a/m.ts#f@1".into(), dst: "b/n.ts#g@1".into() },
            CachedEdge { src: "a/m.ts#f@1".into(), dst: "a/o.ts#h@1".into() },
        ],
    };
    let g = derive_graph(&m, &edges);
    assert_eq!(
        g.unmodeled,
        vec![DerivedEdge { src: "ca".into(), dst: "cb".into(), count: 1 }]
    );
}

#[test]
fn specific_boundary_beats_catch_all() {
    let mut m = ScryModel::new();
    m.nodes.push(node("sys", Kind::System, None));
    m.nodes.push(node("c0", Kind::Container, Some("sys")));
    m.nodes.push(node("c1", Kind::Container, Some("sys")));
    m.nodes.push(node("c2", Kind::Container, Some("sys")));
    m.boundaries.insert("c0".into(), vec![Source { pattern: "**/*".into(), comment: None }]);
    m.boundaries.insert("c1".into(), vec![Source { pattern: "a/**/*".into(), comment: None }]);
    m.boundaries.insert("c2".into(), vec![Source { pattern: "b/**/*".into(), comment: None }]);

    let edges = BuildEdges {
        symbol_edges: vec![CachedEdge {
            src: "a/m.ts#f@1".into(),
            dst: "b/n.ts#g@1".into(),
        }],
    };
    let g = derive_graph(&m, &edges);
    assert_eq!(
        g.unmodeled,
        vec![DerivedEdge { src: "c1".into(), dst: "c2".into(), count: 1 }],
        "narrow boundaries own their files; the `**/*` net never wins a contested file"
    );
}

#[test]
fn responsibility_anchors_resolve_endpoints() {
    let mut m = ScryModel::new();
    m.nodes.push(node("sys", Kind::System, None));
    let mut sa = node("syma", Kind::Symbol, Some("sys"));
    sa.responsibilities.push(Responsibility {
        title: None,
        cites: Vec::new(),
        concern: None,
        id: "r1".into(),
        statement: "does".into(),
        vagrant: None,
        stale: None,
        stale_proposal: None,
        directives: Vec::new(),
        last_touched_at: None,
        vagrant_origin: None,
        approved_statement: None,
    });
    m.nodes.push(sa);
    m.nodes.push(node("symb", Kind::Symbol, Some("sys")));
    m.links.push(Link {
        id: "link-1".into(),
        src: "syma".into(),
        dst: "symb".into(),
        label: "calls".into(),
        method: None,
    });
    m.source_map.insert(
        "r1".into(),
        vec![SourceLocation {
            pattern: "src/a.ts".into(),
            symbol: Some("doA".into()),
            line: Some(1),
            end_line: None,
        }],
    );
    anchor(&mut m, "symb", "src/b.ts", "doB");

    let edges = BuildEdges {
        symbol_edges: vec![CachedEdge {
            src: "src/a.ts#doA@1".into(),
            dst: "src/b.ts#doB@9".into(),
        }],
    };
    let g = derive_graph(&m, &edges);
    assert_eq!(
        g.link_audit[0].edge_count, 1,
        "resp-anchored endpoint resolved and backs the declared link"
    );
}

#[test]
fn symbol_keys_come_apart() {
    let split = BuildEdges::split_symbol_key;
    assert_eq!(split("src/a.ts#f@12"), Some(("src/a.ts", "f")));
    assert_eq!(split("src/a.ts#f"), Some(("src/a.ts", "f")));
    assert_eq!(split("a#b#c@d@1"), Some(("a", "b#c@d")));
    assert_eq!(split("no-key"), None);
}

#[test]
fn edges_are_counted_once_each_and_listed_in_order() {
    let mut m = ScryModel::new();
    m.nodes.push(node("b", Kind::Container, None));
    m.nodes.push(node("a", Kind::Container, None));
    m.boundaries.insert("a".into(), vec![Source { pattern: "a/**/*".into(), comment: None }]);
    m.boundaries.insert("b".into(), vec![Source { pattern: "b/**/*".into(), comment: None }]);
    let edge = |s: &str, d: &str| CachedEdge { src: s.into(), dst: d.into() };
    let edges = BuildEdges {
        symbol_edges: vec![
            edge("b/x.ts#g@1", "a/y.ts#f@1"),
            edge("a/y.ts#f@1", "b/x.ts#g@1"),
            edge("a/y.ts#f@2", "b/x.ts#g@9"),
            edge("c/z.ts#h@1", "b/x.ts#g@1"),
        ],
    };
    let g = derive_graph(&m, &edges);
    assert_eq!(
        g.unmodeled,
        vec![
            DerivedEdge { src: "a".into(), dst: "b".into(), count: 2 },
            DerivedEdge { src: "b".into(), dst: "a".into(), count: 1 },
        ]
    );
    assert_eq!(
        g.resolved_edges,
        vec![
            ResolvedEdge {
                src_node: "a".into(),
                src_symbol: "f".into(),
                dst_node: "b".into(),
                dst_symbol: "g".into(),
                count: 2,
            },
            ResolvedEdge {
                src_node: "b".into(),
                src_symbol: "g".into(),
                dst_node: "a".into(),
                dst_symbol: "f".into(),
                count: 1,
            },
        ]
    );
    assert!(g.link_audit.is_empty());
}

#[test]
fn a_link_in_either_direction_covers_the_pair() {
    let mut m = ScryModel::new();
    m.nodes.push(node("a", Kind::Container, None));
    m.nodes.push(node("b", Kind::Container, None));
    anchor(&mut m, "a", "a.ts", "f");
    anchor(&mut m, "b", "b.ts", "g");
    m.links.push(Link {
        id: "l".into(),
        src: "b".into(),
        dst: "a".into(),
        label: String::new(),
        method: None,
    });
    let edges = BuildEdges {
        symbol_edges: vec![CachedEdge { src: "a.ts#f@1".into(), dst: "b.ts#g@1".into() }],
    };
    let g = derive_graph(&m, &edges);
    assert!(g.unmodeled.is_empty());
    assert_eq!(g.link_audit[0].edge_count, 0);
}
