//! The graph builder walks a parsed DOT tree and collects the node and
//! edge declarations with their effective attributes, resolving the scoped
//! `graph`/`node`/`edge` attribute statements along the way. What it
//! gathers is what the visual-graph construction consumes.

use vstd::prelude::*;
use crate::ast;
use crate::ast::DotString;
use crate::scoped_map::ScopedMap;
use crate::shapes::Arrow;
use crate::shapes::LineEndKind;
use crate::shapes::RecordDef;
use crate::style::LineStyleKind;
use crate::style::StyleAttr;
use crate::color::Color;

verus! {

broadcast use vstd::std_specs::vec::axiom_spec_len;

/// An attribute map in insertion order: inserting an existing key replaces
/// its value in place.
#[derive(Debug)]
pub struct AttrMap {
    pub list: Vec<(String, DotString)>,
}

/// The position of the binding of `key` among the pairs, or `-1` when there
/// is none.
pub open spec fn binding_index(list: Seq<(String, DotString)>, key: Seq<char>) -> int
    decreases list.len(),
{
    if list.len() == 0 {
        -1
    } else if list.first().0@ == key {
        0
    } else if binding_index(list.drop_first(), key) == -1 {
        -1
    } else {
        1 + binding_index(list.drop_first(), key)
    }
}

/// The value bound to `key` among the pairs, if any.
pub open spec fn binding_of(list: Seq<(String, DotString)>, key: Seq<char>) -> Option<DotString> {
    if binding_index(list, key) == -1 {
        None
    } else {
        Some(list[binding_index(list, key)].1)
    }
}

/// The binding index is a position of the key, and the first one.
proof fn lemma_binding_index(list: Seq<(String, DotString)>, key: Seq<char>)
    ensures
        binding_index(list, key) == -1 ==> forall|j: int|
            0 <= j < list.len() ==> (#[trigger] list[j]).0@ != key,
        binding_index(list, key) != -1 ==> {
            let p = binding_index(list, key);
            &&& 0 <= p < list.len()
            &&& list[p].0@ == key
            &&& forall|j: int| 0 <= j < p ==> (#[trigger] list[j]).0@ != key
        },
    decreases list.len(),
{
    if list.len() > 0 {
        lemma_binding_index(list.drop_first(), key);
        let d = list.drop_first();
        if list.first().0@ != key {
            assert forall|j: int| 1 <= j < list.len() implies list[j] == d[j - 1] by {}
        }
    }
}

impl AttrMap {
    pub fn new() -> (r: Self)
        ensures
            r.list@.len() == 0,
    {
        Self { list: Vec::new() }
    }

    /// Bind `key` to `val`: replace the binding of an already-bound key in
    /// place, append a fresh binding otherwise.
    pub fn insert(&mut self, key: &String, val: &DotString)
        ensures
            binding_index(old(self).list@, key@) == -1 ==> final(self).list@ == old(
                self,
            ).list@.push((*key, *val)),
            binding_index(old(self).list@, key@) != -1 ==> final(self).list@ == old(
                self,
            ).list@.update(
                binding_index(old(self).list@, key@),
                (old(self).list@[binding_index(old(self).list@, key@)].0, *val),
            ),
    {
        proof {
            lemma_binding_index(self.list@, key@);
        }
        let n = self.list.len();
        let mut i: usize = 0;
        while i < n
            invariant
                n == self.list@.len(),
                self.list == old(self).list,
                forall|j: int| 0 <= j < i ==> (#[trigger] self.list@[j]).0@ != key@,
                i <= n,
            decreases n - i,
        {
            if self.list[i].0 == *key {
                proof {
                    lemma_binding_index(self.list@, key@);
                    let p = binding_index(self.list@, key@);
                    if p < i {
                        assert(self.list@[p].0@ != key@);
                    }
                    if p > i {
                        assert(self.list@[i as int].0@ != key@);
                    }
                }
                self.list[i].1 = clone_dot(val);
                proof {
                    assert(final(self).list@ =~= old(self).list@.update(
                        i as int,
                        (old(self).list@[i as int].0, *val),
                    ));
                }
                return ;
            }
            i += 1;
        }
        proof {
            lemma_binding_index(self.list@, key@);
        }
        self.list.push((key.clone(), clone_dot(val)));
        proof {
            assert(final(self).list@ =~= old(self).list@.push((*key, *val)));
        }
    }

    /// The value bound to `key`, if any.
    pub fn get(&self, key: &str) -> (r: Option<&DotString>)
        ensures
            match binding_of(self.list@, key@) {
                Option::None => r is None,
                Option::Some(v) => r matches Some(rv) && *rv == v,
            },
    {
        proof {
            lemma_binding_index(self.list@, key@);
        }
        let owned = key.to_owned();
        let n = self.list.len();
        let mut i: usize = 0;
        while i < n
            invariant
                n == self.list@.len(),
                owned@ == key@,
                forall|j: int| 0 <= j < i ==> (#[trigger] self.list@[j]).0@ != key@,
                i <= n,
            decreases n - i,
        {
            if self.list[i].0 == owned {
                proof {
                    lemma_binding_index(self.list@, key@);
                    let p = binding_index(self.list@, key@);
                    if p < i {
                        assert(self.list@[p].0@ != key@);
                    }
                    if p > i {
                        assert(self.list@[i as int].0@ != key@);
                    }
                }
                return Some(&self.list[i].1);
            }
            i += 1;
        }
        proof {
            lemma_binding_index(self.list@, key@);
        }
        None
    }

    /// Whether `key` is bound.
    pub fn contains_key(&self, key: &str) -> (r: bool)
        ensures
            r == (binding_of(self.list@, key@) is Some),
    {
        matches!(self.get(key), Some(_))
    }
}

/// One collected edge: its endpoint names, its effective attributes,
/// whether it was drawn with an arrow head, and its ports.
#[derive(Debug)]
pub struct EdgeDesc {
    pub from: String,
    pub to: String,
    pub props: AttrMap,
    pub is_directed: bool,
    pub from_port: Option<String>,
    pub to_port: Option<String>,
}

/// The builder state: the collected nodes in declaration order with their
/// attributes, the collected edges, and the attribute scopes that open and
/// close as the walk enters and leaves graph bodies.
pub struct GraphBuilder {
    pub global_state: AttrMap,
    pub node_order: Vec<String>,
    pub node_props: Vec<AttrMap>,
    pub edges: Vec<EdgeDesc>,
    pub global_attr: ScopedMap<String, DotString>,
    pub node_attr: ScopedMap<String, DotString>,
    pub edge_attr: ScopedMap<String, DotString>,
}

/// The bindings of all scopes flattened into one map, inner scopes last so
/// that they win.
fn flatten_scopes(sm: &ScopedMap<String, DotString>) -> (r: AttrMap)
{
    let mut map = AttrMap::new();
    let nscopes = sm.stack.len();
    let mut s: usize = 0;
    while s < nscopes
        invariant
            nscopes == sm.stack@.len(),
            s <= nscopes,
        decreases nscopes - s,
    {
        let n = sm.stack[s].len();
        let mut i: usize = 0;
        while i < n
            invariant
                s < nscopes,
                nscopes == sm.stack@.len(),
                n == sm.stack@[s as int]@.len(),
                i <= n,
            decreases n - i,
        {
            map.insert(&sm.stack[s][i].0, &sm.stack[s][i].1);
            i += 1;
        }
        s += 1;
    }
    map
}

/// The decimal value of the digits of `s`.
pub open spec fn dec_val(s: Seq<char>) -> int
    decreases s.len(),
{
    if s.len() == 0 {
        0
    } else {
        dec_val(s.drop_last()) * 10 + (s.last() as int - '0' as int)
    }
}

/// A digit string's value is never negative.
proof fn lemma_dec_val_nonneg(s: Seq<char>)
    requires
        all_digits(s),
    ensures
        dec_val(s) >= 0,
    decreases s.len(),
{
    if s.len() > 0 {
        lemma_dec_val_nonneg(s.drop_last());
        assert(crate::lexer::char_is_digit(s.last()));
        assert(dec_val(s.drop_last()) * 10 >= 0) by (nonlinear_arith)
            requires
                dec_val(s.drop_last()) >= 0,
        ;
    }
}

/// A digit string's value never falls below the value of a prefix.
proof fn lemma_dec_val_prefix(s: Seq<char>, k: int)
    requires
        0 <= k <= s.len(),
        all_digits(s),
    ensures
        dec_val(s) >= dec_val(s.take(k)),
    decreases s.len() - k,
{
    if k < s.len() {
        lemma_dec_val_prefix(s, k + 1);
        assert(s.take(k + 1).drop_last() =~= s.take(k));
        assert(s.take(k + 1).last() == s[k]);
        assert(all_digits(s.take(k))) by {
            assert forall|j: int|
                0 <= j < s.take(k).len() implies crate::lexer::char_is_digit(
                #[trigger] s.take(k)[j]) by {
                assert(s.take(k)[j] == s[j]);
            }
        }
        lemma_dec_val_nonneg(s.take(k));
        assert(dec_val(s.take(k)) * 10 >= dec_val(s.take(k))) by (nonlinear_arith)
            requires
                dec_val(s.take(k)) >= 0,
        ;
        assert(crate::lexer::char_is_digit(s[k]));
        assert(s[k] as int - '0' as int >= 0);
        assert(dec_val(s.take(k + 1)) >= dec_val(s.take(k)));
    } else {
        assert(s.take(k) =~= s);
    }
}

/// The digit part of a decimal literal: the text behind an optional
/// leading plus sign.
pub open spec fn digit_body(t: Seq<char>) -> Seq<char> {
    if t.len() > 0 && t[0] == '+' {
        t.skip(1)
    } else {
        t
    }
}

/// Whether `s` consists of decimal digits only.
pub open spec fn all_digits(s: Seq<char>) -> bool {
    forall|j: int| 0 <= j < s.len() ==> crate::lexer::char_is_digit(#[trigger] s[j])
}

/// The number `text` spells in decimal, exactly when it spells one that
/// fits the machine; an optional leading plus sign is accepted. Anything
/// with no digits, a non-digit, or a value too big gives nothing.
pub fn parse_usize(text: &str) -> (r: Option<usize>)
    ensures
        digit_body(text@).len() == 0 ==> r is None,
        !all_digits(digit_body(text@)) ==> r is None,
        (digit_body(text@).len() > 0 && all_digits(digit_body(text@)) && dec_val(
            digit_body(text@),
        ) > usize::MAX) ==> r is None,
        (digit_body(text@).len() > 0 && all_digits(digit_body(text@)) && dec_val(
            digit_body(text@),
        ) <= usize::MAX) ==> r == Some(dec_val(digit_body(text@)) as usize),
        r is Some ==> digit_body(text@).len() > 0 && all_digits(digit_body(text@)) && r == Some(
            dec_val(digit_body(text@)) as usize,
        ),
{
    let cs = crate::lexer::text_chars(text);
    let ghost body = digit_body(text@);
    let n = cs.len();
    let mut start: usize = 0;
    if n > 0 && cs[0] == '+' {
        start = 1;
    }
    proof {
        assert(body =~= cs@.skip(start as int));
    }
    if start >= n {
        return None;
    }
    let mut acc: usize = 0;
    let mut i = start;
    while i < n
        invariant
            n == cs@.len(),
            start <= i <= n,
            body == cs@.skip(start as int),
            body == digit_body(text@),
            forall|j: int|
                start <= j < i ==> crate::lexer::char_is_digit(#[trigger] cs@[j]),
            acc as int == dec_val(body.take(i - start)),
        decreases n - i,
    {
        let c = cs[i];
        if !('0' <= c && c <= '9') {
            proof {
                assert(!crate::lexer::char_is_digit(body[i - start]));
                assert(!all_digits(digit_body(text@)));
            }
            return None;
        }
        let d = (c as u32 - '0' as u32) as usize;
        let ghost k = i - start;
        proof {
            assert(body.take(k + 1).drop_last() =~= body.take(k as int));
            assert(body.take(k + 1).last() == body[k as int]);
            assert(body[k as int] == cs@[i as int]);
            assert(d == c as int - '0' as int);
        }
        if acc > (usize::MAX - d) / 10 {
            // The value does not fit the machine.
            proof {
                vstd::arithmetic::div_mod::lemma_fundamental_div_mod(
                    usize::MAX - d,
                    10,
                );
                assert(acc * 10 + d > usize::MAX) by (nonlinear_arith)
                    requires
                        acc >= (usize::MAX - d) / 10 + 1,
                        (usize::MAX - d) as int == 10 * (((usize::MAX - d) as int) / 10) + (((
                        usize::MAX - d) as int) % 10),
                        0 <= ((usize::MAX - d) as int) % 10 < 10,
                ;
                assert(dec_val(body.take(k + 1)) > usize::MAX);
                if all_digits(body) {
                    lemma_dec_val_prefix(body, k + 1);
                    assert(dec_val(digit_body(text@)) > usize::MAX);
                }
            }
            return None;
        }
        acc = acc * 10 + d;
        i += 1;
    }
    proof {
        assert forall|j: int| 0 <= j < body.len() implies crate::lexer::char_is_digit(
            #[trigger] body[j],
        ) by {
            assert(body[j] == cs@[start + j]);
        }
        assert(body.take(n - start) =~= body);
        assert(all_digits(digit_body(text@)));
        assert(acc as int == dec_val(digit_body(text@)));
    }
    Some(acc)
}

impl GraphBuilder {
    pub fn new() -> (r: Self)
        ensures
            r.node_order@.len() == 0,
            r.node_props@.len() == 0,
            r.edges@.len() == 0,
    {
        Self {
            global_state: AttrMap::new(),
            node_order: Vec::new(),
            node_props: Vec::new(),
            edges: Vec::new(),
            global_attr: ScopedMap::new(),
            node_attr: ScopedMap::new(),
            edge_attr: ScopedMap::new(),
        }
    }

    /// The builder keeps one attribute map per declared node, and every
    /// declared name exactly once.
    pub open spec fn wf(&self) -> bool {
        &&& self.node_order@.len() == self.node_props@.len()
        &&& forall|i: int, j: int|
            0 <= i < j < self.node_order@.len() ==> self.node_order@[i]@ != self.node_order@[j]@
    }

    /// Walk one graph body: open a scope for each attribute class, visit
    /// the statements, and close the scopes again. Nodes keep their
    /// declaration order: the walk only appends to the collected nodes and
    /// edges.
    pub fn visit_graph(&mut self, graph: &ast::Graph)
        requires
            old(self).wf(),
        ensures
            final(self).wf(),
            old(self).node_order@.is_prefix_of(final(self).node_order@),
            old(self).edges@.len() <= final(self).edges@.len(),
        decreases *graph,
    {
        self.global_attr.push();
        self.node_attr.push();
        self.edge_attr.push();
        let n = graph.list.list.len();
        let mut k: usize = 0;
        while k < n
            invariant
                self.wf(),
                n == graph.list.list@.len(),
                k <= n,
                (*graph) matches ast::Graph { name: _, list: ll } && ll == graph.list,
                old(self).node_order@.is_prefix_of(self.node_order@),
                old(self).edges@.len() <= self.edges@.len(),
            decreases n - k,
        {
            proof {
                broadcast use vstd::std_specs::vec::axiom_vec_index_decreases;
                assert(decreases_to!(*graph => graph.list));
                assert(decreases_to!(graph.list => graph.list.list));
                assert(decreases_to!(graph.list.list => graph.list.list[k as int]));
                assert(decreases_to!(*graph => graph.list.list[k as int]));
            }
            self.visit_stmt(&graph.list.list[k]);
            k += 1;
        }

        // The scopes' bindings are kept as the graph-level state when the
        // scope closes.
        self.global_state = flatten_scopes(&self.global_attr);

        self.global_attr.pop();
        self.node_attr.pop();
        self.edge_attr.pop();
    }

    /// Dispatch on one statement.
    fn visit_stmt(&mut self, stmt: &ast::Stmt)
        requires
            old(self).wf(),
        ensures
            final(self).wf(),
            old(self).node_order@.is_prefix_of(final(self).node_order@),
            old(self).edges@.len() <= final(self).edges@.len(),
        decreases *stmt,
    {
        match stmt {
            ast::Stmt::Edge(e) => {
                self.visit_edge(e);
            },
            ast::Stmt::Node(n) => {
                self.visit_node(n);
            },
            ast::Stmt::Attribute(a) => {
                self.visit_att(a);
            },
            ast::Stmt::SubGraph(g) => {
                proof {
                    assert(decreases_to!(*stmt => stmt->SubGraph_0));
                }
                self.visit_graph(g);
            },
        }
    }

    /// Collect the edges of one edge statement: one edge per arrow of the
    /// chain, each carrying the flattened edge attributes.
    fn visit_edge(&mut self, e: &ast::EdgeStmt)
        requires
            old(self).wf(),
        ensures
            final(self).wf(),
            old(self).node_order@.is_prefix_of(final(self).node_order@),
            old(self).edges@.len() <= final(self).edges@.len(),
    {
        self.edge_attr.push();

        let atts = e.list.iter();
        let na = atts.len();
        let mut i: usize = 0;
        while i < na
            invariant
                self.wf(),
                na == e.list.list@.len(),
                i <= na,
                self.edge_attr.stack@.len() > 0,
                self.node_order == old(self).node_order,
                self.edges == old(self).edges,
            decreases na - i,
        {
            self.edge_attr.insert(&e.list.list[i].0, &e.list.list[i].1);
            i += 1;
        }

        self.init_node_with_name(&e.from.name, false);

        let mut prev: String = e.from.name.clone();
        let mut prev_port: Option<String> = clone_opt(&e.from.port);
        let nd = e.to.len();
        let mut d: usize = 0;
        while d < nd
            invariant
                self.wf(),
                nd == e.to@.len(),
                d <= nd,
                self.edge_attr.stack@.len() > 0,
                old(self).node_order@.is_prefix_of(self.node_order@),
                old(self).edges@.len() <= self.edges@.len(),
            decreases nd - d,
        {
            let curr = e.to[d].0.name.clone();
            self.init_node_with_name(&curr, false);

            let has_arrow = matches!(e.to[d].1, ast::ArrowKind::Arrow);
            let prop_list = flatten_scopes(&self.edge_attr);

            let edge = EdgeDesc {
                from: prev,
                to: curr.clone(),
                props: prop_list,
                is_directed: has_arrow,
                from_port: prev_port,
                to_port: clone_opt(&e.to[d].0.port),
            };
            self.edges.push(edge);
            prev = curr;
            prev_port = clone_opt(&e.to[d].0.port);
            d += 1;
        }
        self.edge_attr.pop();
    }

    /// Register a node under `name`. A declaration (`overwrite`) folds the
    /// current node attributes over the node's stored ones; a mere mention
    /// of a known name changes nothing.
    fn init_node_with_name(&mut self, name: &String, overwrite: bool)
        requires
            old(self).wf(),
        ensures
            final(self).wf(),
            final(self).global_attr.stack == old(self).global_attr.stack,
            final(self).node_attr.stack == old(self).node_attr.stack,
            final(self).edge_attr.stack == old(self).edge_attr.stack,
            old(self).node_order@.is_prefix_of(final(self).node_order@),
            final(self).edges == old(self).edges,
    {
        let node_attr = flatten_scopes(&self.node_attr);

        let n = self.node_order.len();
        let mut i: usize = 0;
        while i < n
            invariant
                self.wf(),
                n == self.node_order@.len(),
                i <= n,
                self.global_attr.stack == old(self).global_attr.stack,
                self.node_attr.stack == old(self).node_attr.stack,
                self.edge_attr.stack == old(self).edge_attr.stack,
                self.node_order == old(self).node_order,
                self.edges == old(self).edges,
                forall|j: int| 0 <= j < i ==> self.node_order@[j]@ != name@,
            decreases n - i,
        {
            if self.node_order[i] == *name {
                if !overwrite {
                    return ;
                }
                let np = node_attr.list.len();
                let mut p: usize = 0;
                while p < np
                    invariant
                        self.wf(),
                        i < self.node_props@.len(),
                        np == node_attr.list@.len(),
                        p <= np,
                        self.global_attr.stack == old(self).global_attr.stack,
                        self.node_attr.stack == old(self).node_attr.stack,
                        self.edge_attr.stack == old(self).edge_attr.stack,
                        self.node_order == old(self).node_order,
                        self.edges == old(self).edges,
                    decreases np - p,
                {
                    self.node_props[i].insert(&node_attr.list[p].0, &node_attr.list[p].1);
                    p += 1;
                }
                return ;
            }
            i += 1;
        }
        self.node_order.push(name.clone());
        self.node_props.push(node_attr);
        proof {
            assert(old(self).node_order@.is_prefix_of(final(self).node_order@));
            assert forall|i2: int, j2: int|
                0 <= i2 < j2 < final(self).node_order@.len() implies final(self).node_order@[
                i2]@ != final(self).node_order@[j2]@ by {
                if j2 == final(self).node_order@.len() - 1 {
                    assert(final(self).node_order@[i2] == old(self).node_order@[i2]);
                    assert(final(self).node_order@[j2]@ == name@);
                }
            }
        }
    }

    /// Collect one node statement: bind its attributes in a scope of their
    /// own and register the node.
    fn visit_node(&mut self, n: &ast::NodeStmt)
        requires
            old(self).wf(),
        ensures
            final(self).wf(),
            old(self).node_order@.is_prefix_of(final(self).node_order@),
            final(self).edges == old(self).edges,
    {
        self.node_attr.push();

        let na = n.list.list.len();
        let mut i: usize = 0;
        while i < na
            invariant
                self.wf(),
                na == n.list.list@.len(),
                i <= na,
                self.node_attr.stack@.len() > 0,
                self.node_order == old(self).node_order,
                self.edges == old(self).edges,
            decreases na - i,
        {
            self.node_attr.insert(&n.list.list[i].0, &n.list.list[i].1);
            i += 1;
        }

        self.init_node_with_name(&n.id.name, true);
        self.node_attr.pop();
    }

    /// Collect one attribute statement into the scope of its class.
    fn visit_att(&mut self, att: &ast::AttrStmt)
        requires
            old(self).wf(),
        ensures
            final(self).wf(),
            final(self).node_order == old(self).node_order,
            final(self).edges == old(self).edges,
    {
        let na = att.list.list.len();
        match att.target {
            ast::AttrStmtTarget::Graph => {
                if self.global_attr.is_empty() {
                    self.global_attr.push();
                }
                let mut i: usize = 0;
                while i < na
                    invariant
                        self.wf(),
                        na == att.list.list@.len(),
                        i <= na,
                        self.global_attr.stack@.len() > 0,
                        self.node_order == old(self).node_order,
                        self.edges == old(self).edges,
                    decreases na - i,
                {
                    self.global_attr.insert(&att.list.list[i].0, &att.list.list[i].1);
                    i += 1;
                }
            },
            ast::AttrStmtTarget::Node => {
                if self.node_attr.is_empty() {
                    self.node_attr.push();
                }
                let mut i: usize = 0;
                while i < na
                    invariant
                        self.wf(),
                        na == att.list.list@.len(),
                        i <= na,
                        self.node_attr.stack@.len() > 0,
                        self.node_order == old(self).node_order,
                        self.edges == old(self).edges,
                    decreases na - i,
                {
                    self.node_attr.insert(&att.list.list[i].0, &att.list.list[i].1);
                    i += 1;
                }
            },
            ast::AttrStmtTarget::Edge => {
                if self.edge_attr.is_empty() {
                    self.edge_attr.push();
                }
                let mut i: usize = 0;
                while i < na
                    invariant
                        self.wf(),
                        na == att.list.list@.len(),
                        i <= na,
                        self.edge_attr.stack@.len() > 0,
                        self.node_order == old(self).node_order,
                        self.edges == old(self).edges,
                    decreases na - i,
                {
                    self.edge_attr.insert(&att.list.list[i].0, &att.list.list[i].1);
                    i += 1;
                }
            },
        }
    }

    /// The arrow for one collected edge: the `label` binding becomes its
    /// text, `style=dashed` a dashed line, an arrow head stands at the
    /// destination exactly for directed edges, and the ports pass through;
    /// `color`, `penwidth` and `fontsize` shape its look.
    pub fn get_arrow_from_attributes(
        lst: &AttrMap,
        has_arrow: bool,
        from_port: Option<String>,
        to_port: Option<String>,
    ) -> (r: Arrow)
        ensures
            r.start is Flat,
            has_arrow ==> r.end is Arrow,
            !has_arrow ==> r.end is Flat,
            ({
                let lb = binding_of(lst.list@, "label"@);
                &&& (lb matches Some(DotString::Plain(v)) ==> r.text@ == v@)
                &&& (!(lb matches Some(DotString::Plain(v))) ==> r.text@ == Seq::<char>::empty())
            }),
            ({
                let st = binding_of(lst.list@, "style"@);
                &&& (r.line_style is Dashed <==> (st matches Some(DotString::Plain(sv)) && sv@
                    == "dashed"@))
                &&& (r.line_style is Dashed || r.line_style is Normal)
            }),
            r.src_port == from_port,
            r.dst_port == to_port,
            r.look.fill_color is None,
            r.look.rounded == 0,
            binding_of(lst.list@, "penwidth"@) is None ==> r.look.line_width == 1,
            binding_of(lst.list@, "fontsize"@) is None ==> r.look.font_size == 14,
    {
        let mut line_width: usize = 1;
        let mut font_size: usize = 14;
        let start = LineEndKind::Flat;
        let end = if has_arrow {
            LineEndKind::Arrow
        } else {
            LineEndKind::Flat
        };
        let mut label: String = String::new();
        let mut color: String = "black".to_owned();
        let mut line_style = LineStyleKind::Normal;

        if let Some(DotString::Plain(val)) = lst.get("label") {
            label = val.clone();
        }

        if let Some(DotString::Plain(stl)) = lst.get("style") {
            if crate::lexer::string_is(stl, "dashed") {
                line_style = LineStyleKind::Dashed;
            }
        }

        if let Some(DotString::Plain(x)) = lst.get("color") {
            color = normalize_color(x.clone());
        }

        if let Some(DotString::Plain(pw)) = lst.get("penwidth") {
            if let Some(x) = parse_usize(pw.as_str()) {
                line_width = x;
            }
        }

        if let Some(DotString::Plain(fx)) = lst.get("fontsize") {
            if let Some(x) = parse_usize(fx.as_str()) {
                font_size = x;
            }
        }

        let color = Color::fast(color.as_str());
        let look = StyleAttr::new(color, line_width, None, 0, font_size);
        Arrow::new(start, end, line_style, label.as_str(), &look, &from_port, &to_port)
    }
}

/// An exact copy of an attribute value.
fn clone_dot(v: &DotString) -> (r: DotString)
    ensures
        r == *v,
{
    match v {
        DotString::Plain(s) => DotString::Plain(s.clone()),
        DotString::Html(s) => DotString::Html(s.clone()),
    }
}

/// An exact copy of an optional string.
fn clone_opt(o: &Option<String>) -> (r: Option<String>)
    ensures
        r == *o,
{
    match o {
        Some(s) => Some(s.clone()),
        None => None,
    }
}

/// The first position of a gradient separator in `s`, or `-1` when there
/// is none.
pub open spec fn first_colon(s: Seq<char>) -> int
    decreases s.len(),
{
    if s.len() == 0 {
        -1
    } else if s[0] == ':' {
        0
    } else if first_colon(s.drop_first()) == -1 {
        -1
    } else {
        1 + first_colon(s.drop_first())
    }
}

proof fn lemma_first_colon(s: Seq<char>)
    ensures
        first_colon(s) == -1 ==> forall|j: int| 0 <= j < s.len() ==> s[j] != ':',
        first_colon(s) != -1 ==> {
            let p = first_colon(s);
            &&& 0 <= p < s.len()
            &&& s[p] == ':'
            &&& forall|j: int| 0 <= j < p ==> s[j] != ':'
        },
    decreases s.len(),
{
    if s.len() > 0 {
        lemma_first_colon(s.drop_first());
        let d = s.drop_first();
        if s[0] != ':' {
            assert forall|j: int| 1 <= j < s.len() implies s[j] == d[j - 1] by {}
        }
    }
}

/// What `normalize_color` returns: the text up to the first gradient
/// separator, with `transparent` mapped to `white`.
pub open spec fn normalized_color(c: Seq<char>) -> Seq<char> {
    let cut = if first_colon(c) == -1 {
        c
    } else {
        c.take(first_colon(c))
    };
    if cut == "transparent"@ {
        "white"@
    } else {
        cut
    }
}

/// Cut a color at a gradient separator and map `transparent` to `white`:
/// the normal form the renderer can draw.
pub fn normalize_color(color: String) -> (r: String)
    ensures
        r@ == normalized_color(color@),
{
    proof {
        lemma_first_colon(color@);
    }
    let cs = crate::lexer::text_chars(color.as_str());
    let n = cs.len();
    let mut cut = n;
    let mut i: usize = 0;
    while i < n
        invariant
            n == cs@.len(),
            cs@ == color@,
            i <= n,
            cut <= n,
            cut == n ==> forall|j: int| 0 <= j < i ==> cs@[j] != ':',
            cut < n ==> cut == first_colon(cs@),
        decreases n - i,
    {
        if cs[i] == ':' && cut == n {
            proof {
                lemma_first_colon(cs@);
                let p = first_colon(cs@);
                if p < i {
                    assert(cs@[p] != ':');
                }
                if p > i {
                    assert(cs@[i as int] != ':');
                }
            }
            cut = i;
        }
        i += 1;
    }
    proof {
        lemma_first_colon(cs@);
        if cut == n && first_colon(cs@) != -1 {
            assert(cs@[first_colon(cs@)] != ':');
        }
    }
    let mut out = String::new();
    let mut j: usize = 0;
    while j < cut
        invariant
            cut <= n,
            n == cs@.len(),
            j <= cut,
            out@ == cs@.take(j as int),
        decreases cut - j,
    {
        proof {
            assert(cs@.take(j + 1) =~= cs@.take(j as int).push(cs@[j as int]));
        }
        crate::lexer::append_char(&mut out, cs[j]);
        j += 1;
    }
    proof {
        if cut == n {
            assert(cs@.take(n as int) =~= cs@);
        }
    }
    if crate::lexer::string_is(&out, "transparent") {
        return "white".to_owned();
    }
    out
}


/// Which outline a declared node draws as.
#[derive(Debug, Clone, Copy, PartialEq, Eq, Structural)]
pub enum NodeShapeKind {
    Circle,
    Box,
    DoubleCircle,
    Record,
}

/// What a declared node's attributes mean for drawing, as plain values:
/// its shape choice, label, optional record tree, colors, font size, pen
/// width, and the squareness and rounding flags. Sizing the shape from
/// these values is the renderer's business.
#[derive(Debug)]
pub struct ShapeDesc {
    pub kind: NodeShapeKind,
    pub label: String,
    pub record: Option<RecordDef>,
    pub edge_color: String,
    pub fill_color: String,
    pub font_size: usize,
    pub line_width: usize,
    pub make_xy_same: bool,
    pub rounded: usize,
}

/// The effective label of a node: the text of its `label` binding, or the
/// node's name.
pub open spec fn spec_node_label(lst: Seq<(String, DotString)>, default_name: Seq<char>) -> Seq<
    char,
> {
    match binding_of(lst, "label"@) {
        Some(DotString::Plain(v)) => v@,
        Some(DotString::Html(v)) => v@,
        _ => default_name,
    }
}

/// The shape a `shape` binding picks: boxes, double circles and records by
/// name, circles for everything else. A record whose label the record
/// grammar rejects falls back to a box.
pub open spec fn spec_node_kind(lst: Seq<(String, DotString)>, label: Seq<char>) -> NodeShapeKind {
    match binding_of(lst, "shape"@) {
        Some(DotString::Plain(v)) => if v@ == "box"@ {
            NodeShapeKind::Box
        } else if v@ == "doublecircle"@ {
            NodeShapeKind::DoubleCircle
        } else if v@ == "record"@ || v@ == "Mrecord"@ {
            if label.len() > 0 && label.last() != '{' {
                NodeShapeKind::Record
            } else {
                NodeShapeKind::Box
            }
        } else {
            NodeShapeKind::Circle
        },
        _ => NodeShapeKind::Circle,
    }
}

/// Whether the `shape` binding names the rounded record variant.
pub open spec fn spec_node_rounded(lst: Seq<(String, DotString)>) -> int {
    match binding_of(lst, "shape"@) {
        Some(DotString::Plain(v)) => if v@ == "box"@ || v@ == "doublecircle"@ {
            0
        } else if v@ == "record"@ {
            0
        } else if v@ == "Mrecord"@ {
            15
        } else {
            0
        },
        _ => 0,
    }
}

/// The fill of a node: its `fillcolor` binding, else light gray for
/// `style=filled`, else white.
pub open spec fn spec_node_fill(lst: Seq<(String, DotString)>) -> Seq<char> {
    match binding_of(lst, "fillcolor"@) {
        Some(DotString::Plain(v)) => normalized_color(v@),
        Some(DotString::Html(v)) => "white"@,
        _ => if (binding_of(lst, "style"@) matches Some(DotString::Plain(sv)) && sv@ == "filled"@) {
            "lightgray"@
        } else {
            "white"@
        },
    }
}

/// The number a binding spells, or the fallback when it is absent, not
/// plain text, not a number, or too big.
pub open spec fn spec_numeric_attr(lst: Seq<(String, DotString)>, key: Seq<char>, dflt: int) -> int {
    match binding_of(lst, key) {
        Some(DotString::Plain(v)) => if digit_body(v@).len() > 0 && all_digits(digit_body(v@))
            && dec_val(digit_body(v@)) <= usize::MAX {
            dec_val(digit_body(v@))
        } else {
            dflt
        },
        _ => dflt,
    }
}

impl GraphBuilder {
    /// The drawing description of one declared node, from its effective
    /// attributes: the label and shape table of the DOT dialect, the
    /// normalized colors, and the numeric font and pen settings.
    pub fn get_shape_desc_from_attributes(lst: &AttrMap, default_name: &str) -> (r: ShapeDesc)
        ensures
            r.label@ == spec_node_label(lst.list@, default_name@),
            r.kind == spec_node_kind(lst.list@, spec_node_label(lst.list@, default_name@)),
            r.record is Some <==> r.kind is Record,
            r.make_xy_same <==> r.kind is DoubleCircle,
            r.rounded == spec_node_rounded(lst.list@),
            ({
                let cb = binding_of(lst.list@, "color"@);
                &&& (cb matches Some(DotString::Plain(v)) ==> r.edge_color@ == normalized_color(
                    v@,
                ))
                &&& (!(cb matches Some(DotString::Plain(v))) ==> r.edge_color@ == "black"@)
            }),
            r.fill_color@ == spec_node_fill(lst.list@),
            r.font_size == spec_numeric_attr(lst.list@, "fontsize"@, 14),
            r.line_width == spec_numeric_attr(lst.list@, "width"@, 1),
    {
        let mut label: String = default_name.to_owned();
        if let Some(b) = lst.get("label") {
            match b {
                DotString::Plain(v) => {
                    label = v.clone();
                },
                // Embedded HTML labels are kept as their raw text.
                DotString::Html(v) => {
                    label = v.clone();
                },
            }
        }

        // Pick the shape named by the attributes.
        proof {
            assert("box"@ != "doublecircle"@ && "box"@ != "record"@ && "box"@ != "Mrecord"@
                && "doublecircle"@ != "record"@ && "doublecircle"@ != "Mrecord"@ && "record"@
                != "Mrecord"@) by {
                reveal_strlit("box");
                reveal_strlit("doublecircle");
                reveal_strlit("record");
                reveal_strlit("Mrecord");
                assert("box"@.len() == 3);
                assert("doublecircle"@.len() == 12);
                assert("record"@.len() == 6);
                assert("Mrecord"@.len() == 7);
            }
        }
        let mut kind = NodeShapeKind::Circle;
        let mut rounded: usize = 0;
        if let Some(DotString::Plain(val)) = lst.get("shape") {
            if crate::lexer::string_is(val, "box") {
                kind = NodeShapeKind::Box;
            } else if crate::lexer::string_is(val, "doublecircle") {
                kind = NodeShapeKind::DoubleCircle;
            } else if crate::lexer::string_is(val, "record") || crate::lexer::string_is(
                val,
                "Mrecord",
            ) {
                if crate::lexer::string_is(val, "Mrecord") {
                    rounded = 15;
                }
                kind = NodeShapeKind::Record;
            }
        }
        // A record label that the record grammar rejects draws as a box.
        let mut record: Option<RecordDef> = None;
        if matches!(kind, NodeShapeKind::Record) {
            let cs = crate::lexer::text_chars(label.as_str());
            if cs.len() > 0 && cs[cs.len() - 1] != '{' {
                proof {
                    assert(label@.last() == label@[label@.len() - 1]);
                }
                record = Some(crate::record::parse_record_string(label.as_str()));
            } else {
                kind = NodeShapeKind::Box;
            }
        }

        let mut edge_color: String = "black".to_owned();
        if let Some(DotString::Plain(x)) = lst.get("color") {
            edge_color = normalize_color(x.clone());
        }

        let mut fill_color: String = "white".to_owned();
        let mut filled = false;
        if let Some(DotString::Plain(style)) = lst.get("style") {
            if crate::lexer::string_is(style, "filled") {
                filled = true;
            }
        }
        if let Some(DotString::Plain(x)) = lst.get("fillcolor") {
            fill_color = normalize_color(x.clone());
        } else {
            if filled && !(matches!(lst.get("fillcolor"), Some(DotString::Html(_)))) {
                fill_color = "lightgray".to_owned();
            }
            proof {
                reveal_strlit("lightgray");
                reveal_strlit("white");
                assert("lightgray"@.len() == 9);
                assert("white"@.len() == 5);
            }
        }

        let mut font_size: usize = 14;
        if let Some(b) = lst.get("fontsize") {
            let bv = clone_dot(b);
            if let DotString::Plain(fx) = bv {
                if let Some(x) = parse_usize(fx.as_str()) {
                    font_size = x;
                    proof {
                        assert(dec_val(digit_body(fx@)) <= usize::MAX);
                        lemma_dec_val_nonneg(digit_body(fx@));
                    }
                }
            }
        }

        let mut line_width: usize = 1;
        if let Some(b) = lst.get("width") {
            let bv = clone_dot(b);
            if let DotString::Plain(pw) = bv {
                if let Some(x) = parse_usize(pw.as_str()) {
                    line_width = x;
                    proof {
                        assert(dec_val(digit_body(pw@)) <= usize::MAX);
                        lemma_dec_val_nonneg(digit_body(pw@));
                    }
                }
            }
        }

        let make_xy_same = matches!(kind, NodeShapeKind::DoubleCircle);
        ShapeDesc {
            kind,
            label,
            record,
            edge_color,
            fill_color,
            font_size,
            line_width,
            make_xy_same,
            rounded,
        }
    }
}

} // verus!
