use vstd::prelude::*;

verus! {

/// What the camera does in one frame.
#[derive(Debug, Clone, Copy, PartialEq, Eq, Structural)]
pub struct Navigation {
    /// Fit the graph to the canvas.
    pub fit_to_screen: bool,
    /// Zoom by the step that the pointer asked for, about the pointer.
    pub zoom: bool,
    /// Pan by the distance that the pointer went.
    pub pan: bool,
    /// Whether the next frame still counts as the first.
    pub first_frame: bool,
}

/// The camera fits the graph to the canvas in the first frame and whenever
/// fitting is switched on, unless the graph has no node: the box around no
/// node gives no zoom. Zoom and pan by the pointer apply only when they are
/// switched on, fitting is not, and no node is dragged: a drag moves the
/// node, not the canvas. The first frame is over once the graph was fitted.
pub open spec fn navigation(
    fit_to_screen_enabled: bool,
    zoom_and_pan_enabled: bool,
    first_frame: bool,
    has_nodes: bool,
    zoom_requested: bool,
    canvas_dragged: bool,
    node_dragged: bool,
) -> Navigation {
    let fit = (first_frame || fit_to_screen_enabled) && has_nodes;
    let free = zoom_and_pan_enabled && !fit_to_screen_enabled && !node_dragged;
    Navigation {
        fit_to_screen: fit,
        zoom: free && zoom_requested,
        pan: free && canvas_dragged,
        first_frame: first_frame && !fit,
    }
}

/// Decides what the camera does in this frame.
pub fn handle_navigation(
    fit_to_screen_enabled: bool,
    zoom_and_pan_enabled: bool,
    first_frame: bool,
    has_nodes: bool,
    zoom_requested: bool,
    canvas_dragged: bool,
    node_dragged: bool,
) -> (n: Navigation)
    ensures
        n == navigation(
            fit_to_screen_enabled,
            zoom_and_pan_enabled,
            first_frame,
            has_nodes,
            zoom_requested,
            canvas_dragged,
            node_dragged,
        ),
{
    let fit = (first_frame || fit_to_screen_enabled) && has_nodes;
    let free = zoom_and_pan_enabled && !fit_to_screen_enabled && !node_dragged;
    Navigation {
        fit_to_screen: fit,
        zoom: free && zoom_requested,
        pan: free && canvas_dragged,
        first_frame: first_frame && !fit,
    }
}

/// Fitting and free navigation exclude each other, and a fit ends the
/// first frame.
pub proof fn lemma_navigation_exclusive(
    fit_to_screen_enabled: bool,
    zoom_and_pan_enabled: bool,
    first_frame: bool,
    has_nodes: bool,
    zoom_requested: bool,
    canvas_dragged: bool,
    node_dragged: bool,
)
    ensures
        ({
            let n = navigation(
                fit_to_screen_enabled,
                zoom_and_pan_enabled,
                first_frame,
                has_nodes,
                zoom_requested,
                canvas_dragged,
                node_dragged,
            );
            &&& fit_to_screen_enabled ==> !n.zoom && !n.pan
            &&& node_dragged ==> !n.zoom && !n.pan
            &&& n.fit_to_screen ==> !n.first_frame && has_nodes
        }),
{
}

} // verus!
