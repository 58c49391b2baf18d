//! Rendering the graph of a symbol: building it from the index, and writing
//! it as Graphviz DOT or as a self-contained HTML page.
pub mod dot;
pub mod graph;
pub mod html;

pub use dot::graph_to_dot;
pub use graph::{build_graph, GraphData, GraphEdge, GraphNode};
pub use html::{generate_html, PageAssets};
