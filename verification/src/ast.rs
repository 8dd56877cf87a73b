//! The abstract syntax tree of the Graphviz DOT format: graphs hold
//! statements, statements declare nodes, edges, attributes or subgraphs.

use vstd::prelude::*;

verus! {

/// A node reference: a name with an optional port, as in `first:f0`.
#[derive(Debug, Clone)]
pub struct NodeId {
    pub name: String,
    pub port: Option<String>,
}

impl NodeId {
    pub fn new(name: &str, port: &Option<String>) -> (r: Self)
        ensures
            r.name@ == name@,
            r.port is Some <==> port is Some,
            port matches Some(p) ==> r.port matches Some(q) && q@ == p@,
    {
        let p: Option<String> = match port {
            Some(p) => Some(p.clone()),
            None => None,
        };
        Self { name: name.to_owned(), port: p }
    }
}

/// An attribute value: either plain text or an HTML-bracketed string.
#[derive(Debug, Clone)]
pub enum DotString {
    Plain(String),
    Html(String),
}

/// An attribute list: `[a=b; c=d; ...]`.
#[derive(Debug, Clone)]
pub struct AttributeList {
    pub list: Vec<(String, DotString)>,
}

impl AttributeList {
    pub fn new() -> (r: Self)
        ensures
            r.list@.len() == 0,
    {
        Self { list: Vec::new() }
    }

    /// Record a plain-text attribute.
    pub fn add_attr_str(&mut self, from: &str, to: &str)
        ensures
            final(self).list@.len() == old(self).list@.len() + 1,
            final(self).list@.last().0@ == from@,
            final(self).list@.last().1 matches DotString::Plain(s) && s@ == to@,
            final(self).list@.drop_last() == old(self).list@,
    {
        self.list.push((from.to_owned(), DotString::Plain(to.to_owned())));
        proof {
            assert(final(self).list@.drop_last() =~= old(self).list@);
        }
    }

    /// Record an HTML-string attribute.
    pub fn add_attr_html(&mut self, from: &str, to: &str)
        ensures
            final(self).list@.len() == old(self).list@.len() + 1,
            final(self).list@.last().0@ == from@,
            final(self).list@.last().1 matches DotString::Html(s) && s@ == to@,
            final(self).list@.drop_last() == old(self).list@,
    {
        self.list.push((from.to_owned(), DotString::Html(to.to_owned())));
        proof {
            assert(final(self).list@.drop_last() =~= old(self).list@);
        }
    }

    /// The recorded attributes, in order.
    pub fn iter(&self) -> (r: &Vec<(String, DotString)>)
        ensures
            r == self.list,
    {
        &self.list
    }
}

impl Default for AttributeList {
    fn default() -> (r: Self)
        ensures
            r.list@.len() == 0,
    {
        Self::new()
    }
}

/// The target of an attribute statement: `graph`, `node` or `edge`.
#[derive(Debug, Clone)]
pub enum AttrStmtTarget {
    Graph,
    Node,
    Edge,
}

/// An attribute statement: `(graph | node | edge) [ ... ]`.
#[derive(Debug, Clone)]
pub struct AttrStmt {
    pub target: AttrStmtTarget,
    pub list: AttributeList,
}

impl AttrStmt {
    pub fn new(target: AttrStmtTarget, list: AttributeList) -> (r: Self)
        ensures
            r.target == target,
            r.list == list,
    {
        Self { target, list }
    }
}

/// A node statement: a node name with its attribute list.
#[derive(Debug, Clone)]
pub struct NodeStmt {
    pub id: NodeId,
    pub list: AttributeList,
}

impl NodeStmt {
    pub fn new(id: NodeId) -> (r: Self)
        ensures
            r.id == id,
            r.list.list@.len() == 0,
    {
        Self { id, list: AttributeList::new() }
    }

    pub fn new_with_list(id: NodeId, list: AttributeList) -> (r: Self)
        ensures
            r.id == id,
            r.list == list,
    {
        Self { id, list }
    }
}

/// The connector of an edge statement: `->` or `--`.
#[derive(Debug, Clone)]
pub enum ArrowKind {
    Arrow,
    Line,
}

/// An edge statement: `a -> b -> c [...]`.
#[derive(Debug, Clone)]
pub struct EdgeStmt {
    pub from: NodeId,
    pub to: Vec<(NodeId, ArrowKind)>,
    pub list: AttributeList,
}

impl EdgeStmt {
    pub fn new(from: NodeId) -> (r: Self)
        ensures
            r.from == from,
            r.to@.len() == 0,
            r.list.list@.len() == 0,
    {
        Self { from, to: Vec::new(), list: AttributeList::new() }
    }

    /// Extend the chain with one more destination.
    pub fn insert(&mut self, n: NodeId, ak: ArrowKind)
        ensures
            final(self).to@ == old(self).to@.push((n, ak)),
            final(self).from == old(self).from,
            final(self).list == old(self).list,
    {
        self.to.push((n, ak));
    }
}

/// One statement of a graph body.
#[derive(Debug)]
pub enum Stmt {
    Edge(EdgeStmt),
    Node(NodeStmt),
    Attribute(AttrStmt),
    SubGraph(Graph),
}

/// The statements between one pair of braces.
#[derive(Debug)]
pub struct StmtList {
    pub list: Vec<Stmt>,
}

impl StmtList {
    pub fn new() -> (r: Self)
        ensures
            r.list@.len() == 0,
    {
        Self { list: Vec::new() }
    }
}

impl Default for StmtList {
    fn default() -> (r: Self)
        ensures
            r.list@.len() == 0,
    {
        Self::new()
    }
}

/// A parsed graph: its name and its statements.
#[derive(Debug)]
pub struct Graph {
    pub name: String,
    pub list: StmtList,
}

impl Graph {
    pub fn new(name: &str) -> (r: Self)
        ensures
            r.name@ == name@,
            r.list.list@.len() == 0,
    {
        Self { name: name.to_owned(), list: StmtList::new() }
    }
}

} // verus!
