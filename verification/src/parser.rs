//! The recursive-descent parser for the Graphviz DOT format. It consumes
//! the token stream of the lexer and builds the abstract syntax tree; on a
//! malformed input it reports an error message, and the position reached is
//! kept for the caller's error rendering.

use vstd::prelude::*;
use crate::ast;
use crate::lexer::Lexer;
use crate::lexer::Token;

verus! {

/// An error carrying the message `s`.
fn to_error<T>(s: &str) -> (r: Result<T, String>)
    ensures
        r matches Err(m) && m@ == s@,
{
    Err(s.to_owned())
}

/// The DOT parser: the lexer and the current token.
#[derive(Debug)]
pub struct DotParser {
    pub lexer: Lexer,
    pub tok: Token,
}

impl DotParser {
    /// The lexer's cursor stays inside its input.
    pub open spec fn wf(&self) -> bool {
        self.lexer.wf()
    }

    /// How much work is left: the lexer's remaining fuel, plus one when the
    /// buffered token still lets lexing continue. Every consumed token
    /// spends some of it.
    pub open spec fn fuel(&self) -> int {
        2 * self.lexer.fuel() + if self.tok.is_good() {
            1int
        } else {
            0int
        }
    }

    pub fn new(input: &str) -> (r: Self)
        ensures
            r.wf(),
            r.tok.is_good(),
    {
        Self { lexer: Lexer::from_string(input), tok: Token::Colon }
    }

    /// A rendering of the input up to the spot where lexing stopped, with a
    /// caret under the offending column.
    pub fn print_error(&self) -> (r: String)
        requires
            self.wf(),
    {
        self.lexer.print_error()
    }

    /// Read the next token. Lexing past the end of the input or past an
    /// error is a caller bug, which the precondition rules out.
    pub fn lex(&mut self)
        requires
            old(self).wf(),
            old(self).tok.is_good(),
        ensures
            final(self).wf(),
            final(self).fuel() < old(self).fuel(),
    {
        let t = self.lexer.next_token();
        self.tok = t;
    }

    /// Read the inside of an HTML-bracketed string as one token.
    pub fn lex_html(&mut self)
        requires
            old(self).wf(),
            old(self).tok.is_good(),
        ensures
            final(self).wf(),
            final(self).fuel() <= old(self).fuel(),
    {
        self.tok = self.lexer.next_token_html();
    }

    /// graph : [ strict ] (graph | digraph) [ ID ] '{' stmt_list '}'
    /// subgraph : [ subgraph [ ID ] ] '{' stmt_list '}'
    pub fn parse_graph(&mut self, is_subgraph: bool) -> (r: Result<ast::Graph, String>)
        requires
            old(self).wf(),
        ensures
            final(self).wf(),
            final(self).fuel() <= old(self).fuel(),
            r is Ok ==> final(self).fuel() < old(self).fuel(),
        decreases old(self).fuel(), 0int,
    {
        let mut graph = ast::Graph::new("");

        // Handle the subgraph structure.
        if is_subgraph {
            // Consume the 'subgraph' keyword.
            if matches!(self.tok, Token::SubgraphKW) {
                self.lex();
            } else {
                return to_error("Expected 'subgraph'");
            }

            // Consume the optional graph name.
            if let Token::Identifier(name) = &self.tok {
                graph.name = name.clone();
                self.lex();
            }

            if matches!(self.tok, Token::OpenBrace) {
                self.lex();
            } else {
                return to_error("Expected '{'");
            }
            match self.parse_stmt_list() {
                Ok(lst) => {
                    graph.list = lst;
                },
                Err(e) => {
                    return Err(e);
                },
            }
            return Ok(graph);
        }

        // Consume the 'strict' keyword.
        if matches!(self.tok, Token::StrictKW) {
            self.lex();
        }

        match self.tok {
            Token::GraphKW => {
                self.lex();
            },
            Token::DigraphKW => {
                self.lex();
            },
            Token::SubgraphKW => {
                self.lex();
            },
            _ => {
                return to_error("Expected (graph|digraph)");
            },
        }

        // Consume the optional graph name.
        if let Token::Identifier(name) = &self.tok {
            graph.name = name.clone();
            self.lex();
        }

        if matches!(self.tok, Token::OpenBrace) {
            self.lex();
        } else {
            return to_error("Expected '{'");
        }
        match self.parse_stmt_list() {
            Ok(lst) => {
                graph.list = lst;
            },
            Err(e) => {
                return Err(e);
            },
        }
        Ok(graph)
    }

    /// stmt_list : [ stmt [ ';' ] stmt_list ]
    pub fn parse_stmt_list(&mut self) -> (r: Result<ast::StmtList, String>)
        requires
            old(self).wf(),
        ensures
            final(self).wf(),
            final(self).fuel() <= old(self).fuel(),
            r is Ok ==> final(self).fuel() < old(self).fuel(),
        decreases old(self).fuel(), 2int,
    {
        let mut lst = ast::StmtList::new();
        let ghost f0 = self.fuel();

        loop
            invariant
                self.wf(),
                self.fuel() <= f0,
                f0 <= old(self).fuel(),
            decreases self.fuel(),
        {
            if matches!(self.tok, Token::Semicolon) {
                // Consume the semicolon.
                self.lex();
            }

            if matches!(self.tok, Token::CloseBrace) {
                // Consume the '}' and exit.
                self.lex();
                return Ok(lst);
            }
            match self.parse_stmt() {
                Ok(stmt) => {
                    lst.list.push(stmt);
                },
                Err(e) => {
                    return Err(e);
                },
            }
        }
    }

    /// stmt : node_stmt | edge_stmt | attr_stmt | ID '=' ID | subgraph
    pub fn parse_stmt(&mut self) -> (r: Result<ast::Stmt, String>)
        requires
            old(self).wf(),
        ensures
            final(self).wf(),
            final(self).fuel() <= old(self).fuel(),
            r is Ok ==> final(self).fuel() < old(self).fuel(),
        decreases old(self).fuel(), 1int,
    {
        if matches!(self.tok, Token::Identifier(_)) {
            let id0 = match self.parse_node_id() {
                Ok(id0) => id0,
                Err(e) => {
                    return Err(e);
                },
            };
            match self.tok {
                Token::ArrowLine => {
                    let es = match self.parse_edge_stmt(id0) {
                        Ok(es) => es,
                        Err(e) => {
                            return Err(e);
                        },
                    };
                    Ok(ast::Stmt::Edge(es))
                },
                Token::ArrowRight => {
                    let es = match self.parse_edge_stmt(id0) {
                        Ok(es) => es,
                        Err(e) => {
                            return Err(e);
                        },
                    };
                    Ok(ast::Stmt::Edge(es))
                },
                Token::Equal => {
                    let es = match self.parse_attribute_stmt(id0) {
                        Ok(es) => es,
                        Err(e) => {
                            return Err(e);
                        },
                    };
                    Ok(ast::Stmt::Attribute(es))
                },
                Token::Identifier(_) => Ok(ast::Stmt::Node(ast::NodeStmt::new(id0))),
                Token::Semicolon => {
                    self.lex();
                    Ok(ast::Stmt::Node(ast::NodeStmt::new(id0)))
                },
                Token::CloseBrace => Ok(ast::Stmt::Node(ast::NodeStmt::new(id0))),
                Token::OpenBracket => {
                    let al = match self.parse_attr_list() {
                        Ok(al) => al,
                        Err(e) => {
                            return Err(e);
                        },
                    };
                    Ok(ast::Stmt::Node(ast::NodeStmt::new_with_list(id0, al)))
                },
                _ => to_error("Unsupported token"),
            }
        } else if matches!(self.tok, Token::SubgraphKW) {
            let subgraph = match self.parse_graph(true) {
                Ok(g) => g,
                Err(e) => {
                    return Err(e);
                },
            };
            Ok(ast::Stmt::SubGraph(subgraph))
        } else if matches!(self.tok, Token::GraphKW) {
            // attr_stmt : (graph | node | edge) attr_list
            self.lex();
            let list = match self.parse_attr_list() {
                Ok(l) => l,
                Err(e) => {
                    return Err(e);
                },
            };
            Ok(ast::Stmt::Attribute(ast::AttrStmt::new(ast::AttrStmtTarget::Graph, list)))
        } else if matches!(self.tok, Token::NodeKW) {
            self.lex();
            let list = match self.parse_attr_list() {
                Ok(l) => l,
                Err(e) => {
                    return Err(e);
                },
            };
            Ok(ast::Stmt::Attribute(ast::AttrStmt::new(ast::AttrStmtTarget::Node, list)))
        } else if matches!(self.tok, Token::EdgeKW) {
            self.lex();
            let list = match self.parse_attr_list() {
                Ok(l) => l,
                Err(e) => {
                    return Err(e);
                },
            };
            Ok(ast::Stmt::Attribute(ast::AttrStmt::new(ast::AttrStmtTarget::Edge, list)))
        } else if matches!(self.tok, Token::OpenBrace) {
            // Handle anonymous scopes.
            self.lex();
            let mut graph = ast::Graph::new("anonymous");
            match self.parse_stmt_list() {
                Ok(lst) => {
                    graph.list = lst;
                },
                Err(e) => {
                    return Err(e);
                },
            }
            Ok(ast::Stmt::SubGraph(graph))
        } else {
            to_error("Unknown token")
        }
    }

    /// attr_list : '[' [ a_list ] ']' [ attr_list ]
    pub fn parse_attr_list(&mut self) -> (r: Result<ast::AttributeList, String>)
        requires
            old(self).wf(),
        ensures
            final(self).wf(),
            final(self).fuel() <= old(self).fuel(),
            r is Ok ==> final(self).fuel() < old(self).fuel(),
    {
        let mut lst = ast::AttributeList::new();

        if matches!(self.tok, Token::OpenBracket) {
            self.lex();
        } else {
            return to_error("Expected '['");
        }
        let ghost f0 = self.fuel();

        loop
            invariant
                self.wf(),
                self.fuel() <= f0,
                f0 < old(self).fuel(),
            decreases self.fuel(),
        {
            if matches!(self.tok, Token::CloseBracket) {
                break;
            }
            let prop: String;

            if let Token::Identifier(id) = &self.tok {
                prop = id.clone();
                // Consume the property name.
                self.lex();
            } else {
                return to_error("Expected property name");
            }

            if matches!(self.tok, Token::Equal) {
                // Consume the '='.
                self.lex();
            } else {
                return to_error("Expected '='");
            }

            if matches!(self.tok, Token::HtmlStart) {
                if crate::lexer::string_is(&prop, "label") {
                    let html = match self.parse_html_string() {
                        Ok(h) => h,
                        Err(e) => {
                            return Err(e);
                        },
                    };
                    lst.add_attr_html(prop.as_str(), html.as_str());
                    if matches!(self.tok, Token::HtmlEnd) {
                        self.lex();
                    } else {
                        return to_error("Expected '>' after the HTML string");
                    }
                }
            } else if let Token::Identifier(value) = &self.tok {
                lst.add_attr_str(prop.as_str(), value.as_str());
                // Consume the value name.
                self.lex();
            } else {
                return to_error("Expected value after assignment");
            }

            // Skip semicolons.
            if matches!(self.tok, Token::Semicolon) {
                self.lex()
            }
            // Skip commas.
            if matches!(self.tok, Token::Comma) {
                self.lex()
            }
        }
        if matches!(self.tok, Token::CloseBracket) {
            self.lex();
        } else {
            return to_error("Expected ']'");
        }
        Ok(lst)
    }

    /// Parses the string inside an HTML bracket.
    pub fn parse_html_string(&mut self) -> (r: Result<String, String>)
        requires
            old(self).wf(),
            old(self).tok.is_good(),
        ensures
            final(self).wf(),
            final(self).fuel() <= old(self).fuel(),
            r is Ok ==> final(self).fuel() < old(self).fuel(),
    {
        self.lex_html();
        if let Token::Identifier(s) = &self.tok {
            let s = s.clone();
            self.lex();
            Ok(s)
        } else {
            to_error("Expected a string")
        }
    }

    fn is_edge_token(&self) -> (r: bool)
        ensures
            r == (self.tok matches Token::ArrowLine || self.tok matches Token::ArrowRight),
    {
        matches!(self.tok, Token::ArrowLine | Token::ArrowRight)
    }

    /// ID '=' ID
    pub fn parse_attribute_stmt(&mut self, id: ast::NodeId) -> (r: Result<ast::AttrStmt, String>)
        requires
            old(self).wf(),
        ensures
            final(self).wf(),
            final(self).fuel() <= old(self).fuel(),
            r is Ok ==> final(self).fuel() < old(self).fuel(),
    {
        let mut lst = ast::AttributeList::new();

        if id.port.is_some() {
            return to_error("Can't assign into a port");
        }

        if matches!(self.tok, Token::Equal) {
            self.lex();
        } else {
            return to_error("Expected '='");
        }

        if let Token::Identifier(val) = &self.tok {
            lst.add_attr_str(id.name.as_str(), val.clone().as_str());
            self.lex();
        } else {
            return to_error("Expected identifier.");
        }

        Ok(ast::AttrStmt::new(ast::AttrStmtTarget::Graph, lst))
    }

    /// edge_stmt : (node_id | subgraph) edgeRHS [ attr_list ]
    pub fn parse_edge_stmt(&mut self, id: ast::NodeId) -> (r: Result<ast::EdgeStmt, String>)
        requires
            old(self).wf(),
        ensures
            final(self).wf(),
            final(self).fuel() <= old(self).fuel(),
    {
        let mut es = ast::EdgeStmt::new(id);

        while self.is_edge_token()
            invariant
                self.wf(),
                self.fuel() <= old(self).fuel(),
            decreases self.fuel(),
        {
            let ak = if matches!(self.tok, Token::ArrowLine) {
                ast::ArrowKind::Line
            } else {
                ast::ArrowKind::Arrow
            };
            // Consume the arrow.
            self.lex();
            let id = match self.parse_node_id() {
                Ok(id) => id,
                Err(e) => {
                    return Err(e);
                },
            };
            es.insert(id, ak);
        }
        // Parse the optional attribute list.
        if matches!(self.tok, Token::OpenBracket) {
            es.list = match self.parse_attr_list() {
                Ok(l) => l,
                Err(e) => {
                    return Err(e);
                },
            };
        }

        Ok(es)
    }

    /// node_id : ID [ port ]
    pub fn parse_node_id(&mut self) -> (r: Result<ast::NodeId, String>)
        requires
            old(self).wf(),
        ensures
            final(self).wf(),
            final(self).fuel() <= old(self).fuel(),
            r is Ok ==> final(self).fuel() < old(self).fuel(),
    {
        let node_name: String;
        if let Token::Identifier(name) = &self.tok {
            node_name = name.clone();
            // Consume the name.
            self.lex();
        } else {
            return to_error("Expected a node name");
        }

        if matches!(self.tok, Token::Colon) {
            // Consume the colon.
            self.lex();
            if let Token::Identifier(port) = &self.tok {
                let port = port.clone();
                // Consume the port name.
                self.lex();
                return Ok(ast::NodeId::new(node_name.as_str(), &Some(port)));
            } else {
                return to_error("Expected a port name");
            }
        }
        Ok(ast::NodeId::new(node_name.as_str(), &None))
    }

    /// Parses dot files, as specified here:
    /// <https://graphviz.org/doc/info/lang.html>
    pub fn process(&mut self) -> (r: Result<ast::Graph, String>)
        requires
            old(self).wf(),
            old(self).tok.is_good(),
        ensures
            final(self).wf(),
    {
        self.lex();
        let result = match self.parse_graph(false) {
            Ok(g) => g,
            Err(e) => {
                return Err(e);
            },
        };
        if matches!(self.tok, Token::EOF) {
            return Ok(result);
        }
        to_error("Unexpected content at the end of the file.")
    }
}

} // verus!
