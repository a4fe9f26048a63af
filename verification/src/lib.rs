//! Interaction state engine of a graph view: selection, folding and dragging
//! of the nodes of a multigraph, with a log of every change made in a frame.

pub mod change;
pub mod elements;
pub mod graph;
pub mod graph_view;
pub mod hit;
pub mod navigation;
pub mod settings;
pub mod state;
pub mod state_computed;
pub mod storage;
pub mod subgraphs;
pub mod unique;
pub mod walk;

pub use self::change::{Change, ChangeEdge, ChangeNode, ChangeSubgraph};
pub use self::elements::{Edge, EdgeID, Node};
pub use self::graph::{Direction, EdgeRef, EdgeShape, Graph, NotFound};
pub use self::graph_view::{GraphView, Handled, Pointer};
pub use self::hit::first_hit;
pub use self::navigation::{handle_navigation, Navigation};
pub use self::settings::SettingsInteraction;
pub use self::state::State;
pub use self::state_computed::{StateComputed, StateComputedEdge, StateComputedNode};
pub use self::subgraphs::{SubGraph, SubGraphs};
