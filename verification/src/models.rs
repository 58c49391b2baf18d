//! The records of the index: symbols, edges, import and route references and
//! command history entries, with their mathematical views.
use vstd::prelude::*;

verus! {

/// A symbol row of the index.
#[derive(Debug, Clone, PartialEq, Eq)]
pub struct Symbol {
    pub id: i64,
    pub name: String,
    pub kind: String,
    pub file: String,
    pub line: u32,
    pub col: u32,
}

pub struct SymbolView {
    pub id: i64,
    pub name: Seq<char>,
    pub kind: Seq<char>,
    pub file: Seq<char>,
    pub line: u32,
    pub col: u32,
}

impl View for Symbol {
    type V = SymbolView;

    open spec fn view(&self) -> SymbolView {
        SymbolView {
            id: self.id,
            name: self.name@,
            kind: self.kind@,
            file: self.file@,
            line: self.line,
            col: self.col,
        }
    }
}

impl Symbol {
    /// A copy with the same view.
    pub fn duplicate(&self) -> (r: Symbol)
        ensures
            r@ == self@,
    {
        Symbol {
            id: self.id,
            name: self.name.clone(),
            kind: self.kind.clone(),
            file: self.file.clone(),
            line: self.line,
            col: self.col,
        }
    }
}

/// An edge row of the index. `confidence` is a percentage (0 to 100).
#[derive(Debug, Clone, PartialEq, Eq)]
pub struct Edge {
    pub from_id: i64,
    pub to_id: i64,
    pub relation: String,
    pub reason: String,
    pub origin_file: String,
    pub origin_line: u32,
    pub confidence: u32,
}

pub struct EdgeView {
    pub from_id: i64,
    pub to_id: i64,
    pub relation: Seq<char>,
    pub reason: Seq<char>,
    pub origin_file: Seq<char>,
    pub origin_line: u32,
    pub confidence: u32,
}

impl View for Edge {
    type V = EdgeView;

    open spec fn view(&self) -> EdgeView {
        EdgeView {
            from_id: self.from_id,
            to_id: self.to_id,
            relation: self.relation@,
            reason: self.reason@,
            origin_file: self.origin_file@,
            origin_line: self.origin_line,
            confidence: self.confidence,
        }
    }
}

impl Edge {
    /// A copy with the same view.
    pub fn duplicate(&self) -> (r: Edge)
        ensures
            r@ == self@,
    {
        Edge {
            from_id: self.from_id,
            to_id: self.to_id,
            relation: self.relation.clone(),
            reason: self.reason.clone(),
            origin_file: self.origin_file.clone(),
            origin_line: self.origin_line,
            confidence: self.confidence,
        }
    }
}

/// An import statement recorded for a file.
#[derive(Debug, Clone, PartialEq, Eq)]
pub struct ImportRef {
    pub file: String,
    pub imported_name: String,
    pub source_module: String,
    pub line: u32,
}

pub struct ImportRefView {
    pub file: Seq<char>,
    pub imported_name: Seq<char>,
    pub source_module: Seq<char>,
    pub line: u32,
}

impl View for ImportRef {
    type V = ImportRefView;

    open spec fn view(&self) -> ImportRefView {
        ImportRefView {
            file: self.file@,
            imported_name: self.imported_name@,
            source_module: self.source_module@,
            line: self.line,
        }
    }
}

/// A route symbol together with the name of its handler.
#[derive(Debug, Clone, PartialEq, Eq)]
pub struct RouteRef {
    pub route_id: i64,
    pub handler_name: String,
    pub origin_file: String,
    pub origin_line: u32,
}

pub struct RouteRefView {
    pub route_id: i64,
    pub handler_name: Seq<char>,
    pub origin_file: Seq<char>,
    pub origin_line: u32,
}

impl View for RouteRef {
    type V = RouteRefView;

    open spec fn view(&self) -> RouteRefView {
        RouteRefView {
            route_id: self.route_id,
            handler_name: self.handler_name@,
            origin_file: self.origin_file@,
            origin_line: self.origin_line,
        }
    }
}

/// One recorded command of the project's history.
#[derive(Debug, Clone, PartialEq, Eq)]
pub struct CommandHistoryEntry {
    pub ts: u64,
    pub session_key: String,
    pub command: String,
    pub success: bool,
}

} // verus!
