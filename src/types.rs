//! The content graph and the site configuration.

use vstd::prelude::*;

use crate::syntax::content::parse;
use crate::syntax::content::parser::{document, ParseError};

verus! {

/// Site settings read with the graph.
#[derive(Clone, Debug, PartialEq, Eq)]
pub struct Config {
    pub site_title: String,
    pub site_description: String,
    pub footer: bool,
    pub footer_credits: bool,
    pub footer_date: bool,
    pub footer_text: String,
    pub about: bool,
    pub about_text: String,
    pub tree: bool,
    pub raw: bool,
    pub raw_toml: bool,
    pub raw_json: bool,
    pub index_search: bool,
    pub index_node_list: bool,
    pub index_node_count: u16,
    pub index_root_node: bool,
    pub tree_node_text: bool,
    pub ascii_dom_ids: bool,
}

/// Every flag off, every text empty, a node count of zero.
pub open spec fn is_blank_config(c: Config) -> bool {
    &&& c.site_title@.len() == 0
    &&& c.site_description@.len() == 0
    &&& !c.footer && !c.footer_credits && !c.footer_date
    &&& c.footer_text@.len() == 0
    &&& !c.about
    &&& c.about_text@.len() == 0
    &&& !c.tree && !c.raw && !c.raw_toml && !c.raw_json
    &&& !c.index_search && !c.index_node_list
    &&& c.index_node_count == 0
    &&& !c.index_root_node && !c.tree_node_text && !c.ascii_dom_ids
}

/// The settings of a graph that could not be read: every page and feature
/// on, eight nodes on the index, no texts.
pub open spec fn is_fallback_config(c: Config) -> bool {
    &&& c.site_title@.len() == 0
    &&& c.site_description@.len() == 0
    &&& c.footer && c.footer_credits && c.footer_date
    &&& c.footer_text@.len() == 0
    &&& c.about
    &&& c.about_text@.len() == 0
    &&& c.tree && c.raw && c.raw_toml && c.raw_json
    &&& c.index_search && c.index_node_list
    &&& c.index_node_count == 8
    &&& c.index_root_node && c.tree_node_text && !c.ascii_dom_ids
}

impl Default for Config {
    fn default() -> (r: Config)
        ensures
            is_blank_config(r),
    {
        Config {
            site_title: String::new(),
            site_description: String::new(),
            footer: false,
            footer_credits: false,
            footer_date: false,
            footer_text: String::new(),
            about: false,
            about_text: String::new(),
            tree: false,
            raw: false,
            raw_toml: false,
            raw_json: false,
            index_search: false,
            index_node_list: false,
            index_node_count: 0,
            index_root_node: false,
            tree_node_text: false,
            ascii_dom_ids: false,
        }
    }
}

impl Config {
    /// The settings with the footer text and the about text rendered from
    /// markup to HTML; fails where either text fails to render.
    pub fn parse_text(self) -> (r: Result<Config, ParseError>)
        ensures
            match r {
                Ok(c) => {
                    &&& document(self.footer_text@, self.ascii_dom_ids) == Ok::<
                        Seq<char>,
                        ParseError,
                    >(c.footer_text@)
                    &&& document(self.about_text@, self.ascii_dom_ids) == Ok::<
                        Seq<char>,
                        ParseError,
                    >(c.about_text@)
                    &&& c == Config { footer_text: c.footer_text, about_text: c.about_text, ..self }
                },
                Err(e) => document(self.footer_text@, self.ascii_dom_ids) == Err::<
                    Seq<char>,
                    ParseError,
                >(e) || (document(self.footer_text@, self.ascii_dom_ids) is Ok && document(
                    self.about_text@,
                    self.ascii_dom_ids,
                ) == Err::<Seq<char>, ParseError>(e)),
            },
    {
        let footer_text = match parse(self.footer_text.as_str(), &self) {
            Ok(h) => h,
            Err(e) => return Err(e),
        };
        let about_text = match parse(self.about_text.as_str(), &self) {
            Ok(h) => h,
            Err(e) => return Err(e),
        };
        Ok(Config { footer_text, about_text, ..self })
    }
}

/// A link from one node to another.
#[derive(Clone, Debug, PartialEq, Eq)]
pub struct Edge {
    pub to: String,
    pub anchor: String,
    pub from: String,
    pub detached: bool,
}

pub struct EdgeView {
    pub to: Seq<char>,
    pub anchor: Seq<char>,
    pub from: Seq<char>,
    pub detached: bool,
}

impl View for Edge {
    type V = EdgeView;

    open spec fn view(&self) -> EdgeView {
        EdgeView { to: self.to@, anchor: self.anchor@, from: self.from@, detached: self.detached }
    }
}

/// A page of the wiki.
#[derive(Clone, Debug, PartialEq, Eq)]
pub struct Node {
    pub text: String,
    pub title: String,
    pub links: Vec<String>,
    pub id: String,
    pub connections: Option<Vec<Edge>>,
}

pub struct NodeView {
    pub text: Seq<char>,
    pub title: Seq<char>,
    pub links: Seq<Seq<char>>,
    pub id: Seq<char>,
    pub connections: Option<Seq<EdgeView>>,
}

pub open spec fn string_views(v: Seq<String>) -> Seq<Seq<char>> {
    v.map_values(|s: String| s@)
}

pub open spec fn edge_views(v: Seq<Edge>) -> Seq<EdgeView> {
    v.map_values(|e: Edge| e@)
}

impl View for Node {
    type V = NodeView;

    open spec fn view(&self) -> NodeView {
        NodeView {
            text: self.text@,
            title: self.title@,
            links: string_views(self.links@),
            id: self.id@,
            connections: match self.connections {
                Some(c) => Some(edge_views(c@)),
                None => None,
            },
        }
    }
}

/// A format version: major, minor, patch.
#[derive(Clone, Copy, Debug, PartialEq, Eq)]
pub struct Version {
    pub major: u8,
    pub minor: u8,
    pub patch: u8,
}

/// Graph metadata: settings, format version, and messages about loading.
#[derive(Clone, Debug, PartialEq, Eq)]
pub struct Meta {
    pub config: Config,
    pub version: Version,
    pub messages: Vec<String>,
}

/// The wiki: nodes by identifier, the root node, and for each node the
/// edges that point to it.
#[derive(Clone, Debug, PartialEq, Eq)]
pub struct Graph {
    pub nodes: Vec<(String, Node)>,
    pub root_node: String,
    pub incoming: Vec<(String, Vec<Edge>)>,
    pub meta: Meta,
}

pub type NodesView = Seq<(Seq<char>, NodeView)>;

pub type IncomingView = Seq<(Seq<char>, Seq<EdgeView>)>;

pub open spec fn nodes_view(v: Seq<(String, Node)>) -> NodesView {
    v.map_values(|p: (String, Node)| (p.0@, p.1@))
}

pub open spec fn incoming_view(v: Seq<(String, Vec<Edge>)>) -> IncomingView {
    v.map_values(|p: (String, Vec<Edge>)| (p.0@, edge_views(p.1@)))
}

/// No two nodes share a key, as in a map from key to node.
pub open spec fn unique_keys(nodes: NodesView) -> bool {
    forall|i: int, j: int|
        0 <= i < j < nodes.len() ==> (#[trigger] nodes[i]).0 != (#[trigger] nodes[j]).0
}

/// No two entries of an incoming table share a target.
pub open spec fn unique_targets(t: IncomingView) -> bool {
    forall|i: int, j: int| 0 <= i < j < t.len() ==> (#[trigger] t[i]).0 != (#[trigger] t[j]).0
}

proof fn lemma_target_index_found(t: IncomingView, to: Seq<char>, i: int)
    requires
        0 <= i,
    ensures
        target_index(t, to, i) < 0 ==> forall|j: int|
            i <= j < t.len() ==> (#[trigger] t[j]).0 != to,
        target_index(t, to, i) >= 0 ==> i <= target_index(t, to, i) < t.len() && t[target_index(
            t,
            to,
            i,
        )].0 == to,
    decreases t.len() - i,
{
    if i < t.len() && t[i].0 != to {
        lemma_target_index_found(t, to, i + 1);
    }
}

proof fn lemma_add_keeps_targets_unique(t: IncomingView, e: EdgeView)
    requires
        unique_targets(t),
    ensures
        unique_targets(add_incoming(t, e)),
{
    lemma_target_index_found(t, e.to, 0);
    let u = add_incoming(t, e);
    assert forall|i: int, j: int| 0 <= i < j < u.len() implies (#[trigger] u[i]).0 != (
    #[trigger] u[j]).0 by {
        if target_index(t, e.to, 0) < 0 {
            assert(u[i] == t[i]);
            if j < t.len() {
                assert(u[j] == t[j]);
            }
        } else {
            assert(u[i].0 == t[i].0);
            assert(u[j].0 == t[j].0);
        }
    }
}

/// The incoming table of any edges has one entry per target.
pub proof fn lemma_incoming_targets_unique(edges: Seq<EdgeView>)
    ensures
        unique_targets(incoming_of(edges)),
    decreases edges.len(),
{
    if edges.len() > 0 {
        lemma_incoming_targets_unique(edges.drop_last());
        lemma_add_keeps_targets_unique(incoming_of(edges.drop_last()), edges.last());
    }
}

/// Some node has this identifier.
pub open spec fn has_key(nodes: NodesView, key: Seq<char>) -> bool {
    exists|j: int| 0 <= j < nodes.len() && (#[trigger] nodes[j]).0 == key
}

/// The index of the first node with this identifier at or after `i`, or -1.
pub open spec fn key_index(nodes: NodesView, key: Seq<char>, i: int) -> int
    decreases nodes.len() - i,
{
    if i < 0 || i >= nodes.len() {
        -1
    } else if nodes[i].0 == key {
        i
    } else {
        key_index(nodes, key, i + 1)
    }
}

/// An edge of node `key` as modulation leaves it: an empty origin becomes
/// the node, and an edge to a missing node is flagged detached.
pub open spec fn modulated_edge(e: EdgeView, key: Seq<char>, nodes: NodesView) -> EdgeView {
    EdgeView {
        to: e.to,
        anchor: e.anchor,
        from: if e.from.len() == 0 {
            key
        } else {
            e.from
        },
        detached: if !has_key(nodes, e.to) {
            true
        } else {
            e.detached
        },
    }
}

/// The edge that a link of node `key` stands for.
pub open spec fn link_edge(key: Seq<char>, link: Seq<char>, nodes: NodesView) -> EdgeView {
    EdgeView { to: link, anchor: Seq::empty(), from: key, detached: !has_key(nodes, link) }
}

pub open spec fn connections_of(n: NodeView) -> Seq<EdgeView> {
    match n.connections {
        Some(c) => c,
        None => Seq::empty(),
    }
}

/// A node as modulation leaves it: identified by its key, titled by it when
/// it has no title, with its edges completed and one more edge per link.
pub open spec fn modulated_node(key: Seq<char>, n: NodeView, nodes: NodesView) -> NodeView {
    NodeView {
        text: n.text,
        title: if n.title.len() == 0 {
            key
        } else {
            n.title
        },
        links: n.links,
        id: key,
        connections: Some(
            connections_of(n).map_values(|e: EdgeView| modulated_edge(e, key, nodes))
                + n.links.map_values(|l: Seq<char>| link_edge(key, l, nodes)),
        ),
    }
}

/// The index of the first entry for `to` at or after `i`, or -1.
pub open spec fn target_index(t: IncomingView, to: Seq<char>, i: int) -> int
    decreases t.len() - i,
{
    if i < 0 || i >= t.len() {
        -1
    } else if t[i].0 == to {
        i
    } else {
        target_index(t, to, i + 1)
    }
}

/// The incoming table with one more edge, listed under its target.
pub open spec fn add_incoming(t: IncomingView, e: EdgeView) -> IncomingView {
    let k = target_index(t, e.to, 0);
    if k < 0 {
        t.push((e.to, seq![e]))
    } else {
        t.update(k, (e.to, t[k].1.push(e)))
    }
}

/// The incoming table of a sequence of edges, each under its target, in order.
pub open spec fn incoming_of(edges: Seq<EdgeView>) -> IncomingView
    decreases edges.len(),
{
    if edges.len() == 0 {
        Seq::empty()
    } else {
        add_incoming(incoming_of(edges.drop_last()), edges.last())
    }
}

/// All edges of the nodes, node after node.
pub open spec fn all_connections(nodes: NodesView) -> Seq<EdgeView>
    decreases nodes.len(),
{
    if nodes.len() == 0 {
        Seq::empty()
    } else {
        all_connections(nodes.drop_last()) + connections_of(nodes.last().1)
    }
}

fn copy_strings(v: &Vec<String>) -> (r: Vec<String>)
    ensures
        string_views(r@) == string_views(v@),
{
    let mut out: Vec<String> = Vec::new();
    let mut i: usize = 0;
    while i < v.len()
        invariant
            i <= v@.len(),
            string_views(out@) == string_views(v@).take(i as int),
        decreases v@.len() - i,
    {
        let ghost prev = out@;
        let s = v[i].clone();
        out.push(s);
        proof {
            assert(out@ == prev.push(s));
            assert(string_views(out@) =~= string_views(prev).push(s@));
            assert(string_views(v@).take(i + 1) =~= string_views(v@).take(i as int).push(
                v@[i as int]@,
            ));
        }
        i = i + 1;
    }
    assert(string_views(v@).take(i as int) =~= string_views(v@));
    out
}

impl Edge {
    /// A copy of the edge.
    pub fn copied(&self) -> (r: Edge)
        ensures
            r@ == self@,
    {
        Edge {
            to: self.to.clone(),
            anchor: self.anchor.clone(),
            from: self.from.clone(),
            detached: self.detached,
        }
    }
}

fn copy_edges(v: &Vec<Edge>) -> (r: Vec<Edge>)
    ensures
        edge_views(r@) == edge_views(v@),
{
    let mut out: Vec<Edge> = Vec::new();
    let mut i: usize = 0;
    while i < v.len()
        invariant
            i <= v@.len(),
            edge_views(out@) == edge_views(v@).take(i as int),
        decreases v@.len() - i,
    {
        let ghost prev = out@;
        let e = v[i].copied();
        out.push(e);
        proof {
            assert(edge_views(out@) =~= edge_views(prev).push(e@));
            assert(edge_views(v@).take(i + 1) =~= edge_views(v@).take(i as int).push(
                v@[i as int]@,
            ));
        }
        i = i + 1;
    }
    assert(edge_views(v@).take(i as int) =~= edge_views(v@));
    out
}

impl Node {
    /// The placeholder node shown where a node is missing, with the given
    /// message as its text.
    pub fn new(message: Option<String>) -> (r: Node)
        ensures
            r.id@ == seq!['V', 'o', 'i', 'd', 'N', 'o', 'd', 'e'],
            r.title@ == seq!['P', 'u', 'r', 'e', ' ', 'V', 'o', 'i', 'd'],
            message is Some ==> r.text@ == message->0@,
            message is None ==> r.text@ == "Node is empty, missing or wasn't found."@,
            r.connections is None,
            r.links@.len() == 0,
    {
        let id = "VoidNode".to_owned();
        let title = "Pure Void".to_owned();
        proof {
            reveal_strlit("VoidNode");
            reveal_strlit("Pure Void");
        }
        Node {
            id,
            title,
            text: match message {
                Some(s) => s,
                None => "Node is empty, missing or wasn't found.".to_owned(),
            },
            connections: None,
            links: Vec::new(),
        }
    }

    /// A copy of the node.
    pub fn copied(&self) -> (r: Node)
        ensures
            r@ == self@,
    {
        Node {
            text: self.text.clone(),
            title: self.title.clone(),
            links: copy_strings(&self.links),
            id: self.id.clone(),
            connections: match &self.connections {
                Some(c) => Some(copy_edges(c)),
                None => None,
            },
        }
    }
}

/// Whether some node has this identifier.
fn contains_key(nodes: &Vec<(String, Node)>, key: &String) -> (r: bool)
    ensures
        r == has_key(nodes_view(nodes@), key@),
{
    let ghost nv = nodes_view(nodes@);
    let mut i: usize = 0;
    while i < nodes.len()
        invariant
            i <= nodes@.len(),
            nv == nodes_view(nodes@),
            forall|j: int| 0 <= j < i ==> (#[trigger] nv[j]).0 != key@,
        decreases nodes@.len() - i,
    {
        if nodes[i].0 == *key {
            assert(nv[i as int].0 == key@);
            return true;
        }
        i = i + 1;
    }
    false
}

/// Completes the nodes read from a graph file: each node takes its key as
/// identifier (and as title when it has none), edges without an origin get
/// the node, edges to missing nodes are flagged detached, and each link
/// becomes an edge too.
pub fn modulate_nodes(old_nodes: &Vec<(String, Node)>) -> (r: Vec<(String, Node)>)
    ensures
        r@.len() == old_nodes@.len(),
        unique_keys(nodes_view(old_nodes@)) ==> unique_keys(nodes_view(r@)),
        forall|i: int|
            0 <= i < r@.len() ==> (#[trigger] nodes_view(r@)[i]).0 == nodes_view(old_nodes@)[i].0
                && nodes_view(r@)[i].1 == modulated_node(
                nodes_view(old_nodes@)[i].0,
                nodes_view(old_nodes@)[i].1,
                nodes_view(old_nodes@),
            ),
{
    let ghost nv = nodes_view(old_nodes@);
    let mut nodes: Vec<(String, Node)> = Vec::new();
    let mut n: usize = 0;
    while n < old_nodes.len()
        invariant
            n <= old_nodes@.len(),
            nv == nodes_view(old_nodes@),
            nodes@.len() == n,
            forall|i: int|
                0 <= i < n ==> (#[trigger] nodes_view(nodes@)[i]).0 == nv[i].0
                    && nodes_view(nodes@)[i].1 == modulated_node(nv[i].0, nv[i].1, nv),
        decreases old_nodes@.len() - n,
    {
        let key = &old_nodes[n].0;
        let node = &old_nodes[n].1;
        let ghost conns = connections_of(node@);
        let empty: Vec<Edge> = Vec::new();
        let connections = match &node.connections {
            Some(c) => c,
            None => &empty,
        };
        assert(edge_views(connections@) =~= conns);
        let mut new_edges: Vec<Edge> = Vec::new();
        let mut i: usize = 0;
        while i < connections.len()
            invariant
                i <= connections@.len(),
                edge_views(connections@) == conns,
                nv == nodes_view(old_nodes@),
                n < old_nodes@.len(),
                nv.len() == old_nodes@.len(),
                key@ == nv[n as int].0,
                edge_views(new_edges@) == conns.take(i as int).map_values(
                    |e: EdgeView| modulated_edge(e, key@, nv),
                ),
            decreases connections@.len() - i,
        {
            let edge = &connections[i];
            let from = if edge.from.as_str().unicode_len() == 0 {
                key.clone()
            } else {
                edge.from.clone()
            };
            let detached = if !contains_key(old_nodes, &edge.to) {
                true
            } else {
                edge.detached
            };
            let new_edge = Edge { to: edge.to.clone(), anchor: edge.anchor.clone(), from, detached };
            let ghost prev = new_edges@;
            proof {
                assert(conns[i as int] == edge@);
                assert(new_edge@ == modulated_edge(conns[i as int], key@, nv));
            }
            new_edges.push(new_edge);
            proof {
                assert(edge_views(new_edges@) =~= edge_views(prev).push(new_edge@));
                assert(conns.take(i + 1) =~= conns.take(i as int).push(conns[i as int]));
            }
            i = i + 1;
            assert(edge_views(new_edges@) =~= conns.take(i as int).map_values(
                |e: EdgeView| modulated_edge(e, key@, nv),
            ));
        }
        assert(conns.take(i as int) =~= conns);
        let ghost first_part = edge_views(new_edges@);
        let ghost links = string_views(node.links@);
        let mut l: usize = 0;
        while l < node.links.len()
            invariant
                l <= node.links@.len(),
                links == string_views(node.links@),
                nv == nodes_view(old_nodes@),
                n < old_nodes@.len(),
                nv.len() == old_nodes@.len(),
                key@ == nv[n as int].0,
                edge_views(new_edges@) == first_part + links.take(l as int).map_values(
                    |k: Seq<char>| link_edge(key@, k, nv),
                ),
            decreases node.links@.len() - l,
        {
            let link = &node.links[l];
            let detached = !contains_key(old_nodes, link);
            let new_edge = Edge { from: key.clone(), to: link.clone(), anchor: String::new(), detached };
            let ghost prev = new_edges@;
            proof {
                assert(links[l as int] == link@);
                assert(new_edge@ == link_edge(key@, links[l as int], nv));
            }
            new_edges.push(new_edge);
            proof {
                assert(edge_views(new_edges@) =~= edge_views(prev).push(new_edge@));
                assert(links.take(l + 1) =~= links.take(l as int).push(links[l as int]));
            }
            l = l + 1;
            assert(edge_views(new_edges@) =~= first_part + links.take(l as int).map_values(
                |k: Seq<char>| link_edge(key@, k, nv),
            ));
        }
        assert(links.take(l as int) =~= links);
        let new_title = if node.title.as_str().unicode_len() == 0 {
            key.clone()
        } else {
            node.title.clone()
        };
        let new_node = Node {
            id: key.clone(),
            title: new_title,
            connections: Some(new_edges),
            text: node.text.clone(),
            links: copy_strings(&node.links),
        };
        let ghost before = nodes@;
        nodes.push((key.clone(), new_node));
        proof {
            assert(nodes_view(nodes@)[n as int].1 =~= modulated_node(nv[n as int].0, nv[n as int].1, nv));
            assert forall|i: int| 0 <= i < n implies (#[trigger] nodes_view(nodes@)[i]).0 == nv[i].0
                && nodes_view(nodes@)[i].1 == modulated_node(nv[i].0, nv[i].1, nv) by {
                assert(nodes@[i] == before[i]);
                assert(nodes_view(nodes@)[i] == nodes_view(before)[i]);
            }
        }
        n = n + 1;
    }
    proof {
        if unique_keys(nv) {
            assert forall|i: int, j: int| 0 <= i < j < nodes@.len() implies (#[trigger] nodes_view(
                nodes@,
            )[i]).0 != (#[trigger] nodes_view(nodes@)[j]).0 by {
                assert(nv[i].0 != nv[j].0);
            }
        }
    }
    nodes
}


/// For each node that edges point to, the edges that point to it, in the
/// order of the nodes and of their edges.
pub fn make_incoming(nodes: &Vec<(String, Node)>) -> (r: Vec<(String, Vec<Edge>)>)
    ensures
        incoming_view(r@) == incoming_of(all_connections(nodes_view(nodes@))),
        unique_targets(incoming_view(r@)),
{
    proof {
        lemma_incoming_targets_unique(all_connections(nodes_view(nodes@)));
    }
    let ghost nv = nodes_view(nodes@);
    let mut incoming: Vec<(String, Vec<Edge>)> = Vec::new();
    let mut n: usize = 0;
    proof {
        assert(nv.take(0) =~= Seq::<(Seq<char>, NodeView)>::empty());
        assert(incoming_view(incoming@) =~= Seq::<(Seq<char>, Seq<EdgeView>)>::empty());
    }
    while n < nodes.len()
        invariant
            n <= nodes@.len(),
            nv == nodes_view(nodes@),
            incoming_view(incoming@) == incoming_of(all_connections(nv.take(n as int))),
        decreases nodes@.len() - n,
    {
        let ghost done = all_connections(nv.take(n as int));
        let ghost conns = connections_of(nv[n as int].1);
        let empty: Vec<Edge> = Vec::new();
        let connections = match &nodes[n].1.connections {
            Some(c) => c,
            None => &empty,
        };
        assert(edge_views(connections@) =~= conns);
        let mut i: usize = 0;
        proof {
            assert(done + conns.take(0) =~= done);
        }
        while i < connections.len()
            invariant
                i <= connections@.len(),
                edge_views(connections@) == conns,
                incoming_view(incoming@) == incoming_of(done + conns.take(i as int)),
            decreases connections@.len() - i,
        {
            let edge = &connections[i];
            add_edge(&mut incoming, edge.copied());
            proof {
                let s = done + conns.take(i + 1);
                assert(s.drop_last() =~= done + conns.take(i as int));
                assert(s.last() == edge@);
            }
            i = i + 1;
        }
        proof {
            assert(conns.take(i as int) =~= conns);
            assert(nv.take(n + 1).drop_last() =~= nv.take(n as int));
            assert(nv.take(n + 1).last() == nv[n as int]);
        }
        n = n + 1;
    }
    assert(nv.take(n as int) =~= nv);
    incoming
}

/// Lists one more edge under its target.
fn add_edge(incoming: &mut Vec<(String, Vec<Edge>)>, edge: Edge)
    ensures
        incoming_view(final(incoming)@) == add_incoming(incoming_view(old(incoming)@), edge@),
{
    let ghost t0 = incoming_view(incoming@);
    let mut i: usize = 0;
    while i < incoming.len()
        invariant
            i <= incoming@.len(),
            t0 == incoming_view(incoming@),
            t0 == incoming_view(old(incoming)@),
            target_index(t0, edge@.to, 0) == target_index(t0, edge@.to, i as int),
        decreases incoming@.len() - i,
    {
        if incoming[i].0 == edge.to {
            let ghost old_entries = incoming@;
            let ghost ev = edge@;
            incoming[i].1.push(edge);
            proof {
                assert(t0[i as int].0 == ev.to);
                assert(target_index(t0, ev.to, i as int) == i);
                assert(incoming@[i as int].0 == old_entries[i as int].0);
                assert(edge_views(incoming@[i as int].1@) =~= t0[i as int].1.push(ev));
                assert(forall|j: int| 0 <= j < old_entries.len() && j != i ==> incoming@[j] == old_entries[j]);
                assert(incoming_view(incoming@) =~= t0.update(i as int, (ev.to, t0[i as int].1.push(ev))));
            }
            return;
        }
        i = i + 1;
    }
    let to = edge.to.clone();
    let ghost ev = edge@;
    let mut edges: Vec<Edge> = Vec::new();
    edges.push(edge);
    incoming.push((to, edges));
    proof {
        assert(edge_views(edges@) =~= seq![ev]);
        assert(incoming_view(incoming@) =~= t0.push((ev.to, seq![ev])));
    }
}

impl Graph {
    /// Nodes are unique by key, and the incoming table by target.
    pub open spec fn wf(&self) -> bool {
        unique_keys(nodes_view(self.nodes@)) && unique_targets(incoming_view(self.incoming@))
    }

    /// An empty graph, rooted at the placeholder node, with the fallback
    /// settings and, if given, a message on why it is empty.
    pub fn new(message: Option<String>) -> (r: Graph)
        ensures
            r.nodes@.len() == 0,
            r.root_node@ == seq!['V', 'o', 'i', 'd', 'N', 'o', 'd', 'e'],
            r.incoming@.len() == 0,
            r.wf(),
            is_fallback_config(r.meta.config),
            r.meta.version == (Version { major: 0, minor: 1, patch: 0 }),
            message is Some ==> string_views(r.meta.messages@) == seq![message->0@],
            message is None ==> r.meta.messages@.len() == 0,
    {
        let root_node = "VoidNode".to_owned();
        proof {
            reveal_strlit("VoidNode");
        }
        let mut messages: Vec<String> = Vec::new();
        match message {
            Some(m) => {
                messages.push(m);
            },
            None => {},
        }
        let r = Graph {
            nodes: Vec::new(),
            root_node,
            incoming: Vec::new(),
            meta: Meta {
                config: Config {
                    site_title: String::new(),
                    site_description: String::new(),
                    footer: true,
                    footer_credits: true,
                    footer_date: true,
                    footer_text: String::new(),
                    about: true,
                    about_text: String::new(),
                    tree: true,
                    raw: true,
                    raw_toml: true,
                    raw_json: true,
                    index_search: true,
                    index_node_list: true,
                    index_node_count: 8,
                    index_root_node: true,
                    tree_node_text: true,
                    ascii_dom_ids: false,
                },
                version: Version { major: 0, minor: 1, patch: 0 },
                messages,
            },
        };
        assert(message is Some ==> string_views(r.meta.messages@) =~= seq![message->0@]);
        r
    }

    /// The root node, if the graph has it.
    pub fn get_root(&self) -> (r: Option<Node>)
        ensures
            r is Some == has_key(nodes_view(self.nodes@), self.root_node@),
            r is Some ==> r->0@ == nodes_view(self.nodes@)[key_index(
                nodes_view(self.nodes@),
                self.root_node@,
                0,
            )].1,
    {
        let ghost nv = nodes_view(self.nodes@);
        let mut i: usize = 0;
        while i < self.nodes.len()
            invariant
                i <= self.nodes@.len(),
                nv == nodes_view(self.nodes@),
                forall|j: int| 0 <= j < i ==> (#[trigger] nv[j]).0 != self.root_node@,
                key_index(nv, self.root_node@, 0) == key_index(nv, self.root_node@, i as int),
            decreases self.nodes@.len() - i,
        {
            if self.nodes[i].0 == self.root_node {
                proof {
                    assert(nv[i as int].0 == self.root_node@);
                    assert(key_index(nv, self.root_node@, i as int) == i);
                }
                return Some(self.nodes[i].1.copied());
            }
            i = i + 1;
        }
        None
    }

    /// Completes a graph as read from a file: modulates its nodes and
    /// builds the table of incoming edges from them.
    pub fn prepared(self) -> (r: Graph)
        ensures
            r.nodes@.len() == self.nodes@.len(),
            forall|i: int|
                0 <= i < r.nodes@.len() ==> (#[trigger] nodes_view(r.nodes@)[i]).0 == nodes_view(
                    self.nodes@,
                )[i].0 && nodes_view(r.nodes@)[i].1 == modulated_node(
                    nodes_view(self.nodes@)[i].0,
                    nodes_view(self.nodes@)[i].1,
                    nodes_view(self.nodes@),
                ),
            incoming_view(r.incoming@) == incoming_of(all_connections(nodes_view(r.nodes@))),
            r.root_node == self.root_node,
            r.meta == self.meta,
            unique_keys(nodes_view(self.nodes@)) ==> r.wf(),
    {
        let nodes = modulate_nodes(&self.nodes);
        let incoming = make_incoming(&nodes);
        Graph { nodes, root_node: self.root_node, incoming, meta: self.meta }
    }
}

} // verus!
