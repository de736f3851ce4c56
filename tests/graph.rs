use en::types::{make_incoming, modulate_nodes, Config, Edge, Graph, Node, Version};

fn node(id: &str, title: &str, links: Vec<String>, connections: Option<Vec<Edge>>) -> Node {
    Node {
        id: id.to_string(),
        text: String::new(),
        title: title.to_string(),
        links,
        connections,
    }
}

#[test]
fn detached_node() {
    let node = Node {
        id: String::from("SomeNode"),
        text: String::new(),
        title: String::new(),
        links: vec![String::new()],
        connections: Some(vec![Edge {
            anchor: String::from("SomeAnchor"),
            from: String::new(),
            to: String::new(),
            detached: false,
        }]),
    };

    let map: Vec<(String, Node)> = vec![(String::from("SomeNode"), node)];

    let modulated_map = modulate_nodes(&map);
    let modulated_node = modulated_map
        .iter()
        .find(|(k, _)| k == "SomeNode")
        .map(|(_, n)| n.clone())
        .unwrap();
    let modulated_connections = modulated_node.connections.unwrap();
    let modulated_connection = modulated_connections.first().unwrap();
    assert!(modulated_connection.anchor == "SomeAnchor");
    assert!(modulated_connection.detached);
}

#[test]
fn modulation_fills_origin_title_and_links() {
    let a = node(
        "",
        "",
        vec!["B".to_string(), "Missing".to_string()],
        Some(vec![Edge {
            to: "B".to_string(),
            anchor: "x".to_string(),
            from: String::new(),
            detached: false,
        }]),
    );
    let b = node("", "Bee", vec![], None);
    let nodes = vec![("A".to_string(), a), ("B".to_string(), b)];
    let out = modulate_nodes(&nodes);

    let (key_a, node_a) = &out[0];
    assert_eq!(key_a, "A");
    assert_eq!(node_a.id, "A");
    assert_eq!(node_a.title, "A");
    let edges = node_a.connections.clone().unwrap();
    assert_eq!(edges.len(), 3);
    assert_eq!(edges[0].from, "A");
    assert!(!edges[0].detached);
    assert_eq!(edges[1].to, "B");
    assert!(!edges[1].detached);
    assert_eq!(edges[2].to, "Missing");
    assert!(edges[2].detached);

    let (_, node_b) = &out[1];
    assert_eq!(node_b.title, "Bee");
    assert_eq!(node_b.connections, Some(vec![]));
}

#[test]
fn incoming_edges_grouped_by_target() {
    let a = node("A", "A", vec!["C".to_string(), "B".to_string()], None);
    let b = node("B", "B", vec!["C".to_string()], None);
    let nodes = modulate_nodes(&vec![("A".to_string(), a), ("B".to_string(), b)]);
    let incoming = make_incoming(&nodes);
    assert_eq!(incoming.len(), 2);
    assert_eq!(incoming[0].0, "C");
    assert_eq!(incoming[0].1.len(), 2);
    assert_eq!(incoming[0].1[0].from, "A");
    assert_eq!(incoming[0].1[1].from, "B");
    assert_eq!(incoming[1].0, "B");
    assert_eq!(incoming[1].1.len(), 1);
}

#[test]
fn empty_graph_with_message() {
    let graph = Graph::new(Some("could not read".to_string()));
    assert!(graph.nodes.is_empty());
    assert_eq!(graph.root_node, "VoidNode");
    assert_eq!(graph.meta.messages, vec!["could not read".to_string()]);
    assert_eq!(graph.meta.version, Version { major: 0, minor: 1, patch: 0 });
    assert!(graph.meta.config.about);
    assert_eq!(graph.meta.config.index_node_count, 8);
    assert!(Graph::new(None).meta.messages.is_empty());
}

#[test]
fn root_lookup() {
    let mut graph = Graph::new(None);
    assert!(graph.get_root().is_none());
    graph.nodes.push(("VoidNode".to_string(), node("VoidNode", "Root", vec![], None)));
    assert_eq!(graph.get_root().unwrap().title, "Root");
}

#[test]
fn prepared_graph() {
    let mut graph = Graph::new(None);
    graph.nodes.push(("VoidNode".to_string(), node("", "", vec!["Else".to_string()], None)));
    let graph = graph.prepared();
    assert_eq!(graph.nodes[0].1.title, "VoidNode");
    assert_eq!(graph.incoming.len(), 1);
    assert_eq!(graph.incoming[0].0, "Else");
    assert!(graph.incoming[0].1[0].detached);
}

#[test]
fn placeholder_node() {
    let n = Node::new(None);
    assert_eq!(n.id, "VoidNode");
    assert_eq!(n.title, "Pure Void");
    assert_eq!(n.text, "Node is empty, missing or wasn't found.");
    assert_eq!(Node::new(Some("gone".to_string())).text, "gone");
}

#[test]
fn default_config_is_blank() {
    let c = Config::default();
    assert!(!c.ascii_dom_ids);
    assert!(!c.about);
    assert_eq!(c.index_node_count, 0);
}

#[test]
fn config_texts_rendered() {
    let config = Config {
        footer_text: "made with |en|".to_string(),
        about_text: "`x`".to_string(),
        ..Config::default()
    };
    let parsed = config.parse_text().unwrap();
    assert_eq!(parsed.footer_text, r#"<p>made with <a href="/node/en">en</a></p>"#);
    assert_eq!(parsed.about_text, "<p><code>x</code></p>");
}

#[test]
fn config_text_open_header_fails() {
    let config = Config { about_text: "# open".to_string(), ..Config::default() };
    assert!(config.parse_text().is_err());
}
