use egui_graphs::{first_hit, handle_navigation, Navigation};

#[test]
fn first_frame_fits_once() {
    let n = handle_navigation(false, true, true, true, true, true, false);
    assert_eq!(n, Navigation { fit_to_screen: true, zoom: true, pan: true, first_frame: false });
    let n = handle_navigation(false, true, false, true, true, true, false);
    assert_eq!(n, Navigation { fit_to_screen: false, zoom: true, pan: true, first_frame: false });
}

#[test]
fn fit_is_skipped_without_nodes() {
    let n = handle_navigation(true, false, true, false, false, false, false);
    assert_eq!(n, Navigation { fit_to_screen: false, zoom: false, pan: false, first_frame: true });
    let n = handle_navigation(true, false, true, true, false, false, false);
    assert_eq!(n, Navigation { fit_to_screen: true, zoom: false, pan: false, first_frame: false });
}

#[test]
fn fitting_switches_free_navigation_off() {
    let n = handle_navigation(true, true, false, true, true, true, false);
    assert_eq!(n, Navigation { fit_to_screen: true, zoom: false, pan: false, first_frame: false });
}

#[test]
fn dragging_a_node_holds_the_canvas() {
    let n = handle_navigation(false, true, false, true, true, true, true);
    assert_eq!(n, Navigation { fit_to_screen: false, zoom: false, pan: false, first_frame: false });
    let n = handle_navigation(false, false, false, true, true, true, false);
    assert_eq!(n, Navigation { fit_to_screen: false, zoom: false, pan: false, first_frame: false });
}

#[test]
fn first_hit_takes_the_first_candidate_that_was_hit() {
    assert_eq!(first_hit(&vec![]), None);
    assert_eq!(first_hit(&vec![(4, false), (7, false)]), None);
    assert_eq!(first_hit(&vec![(4, false), (7, true), (9, true)]), Some(7));
    assert_eq!(first_hit(&vec![(4, true), (7, true)]), Some(4));
    let candidates = vec![(3, false), (5, true), (3, true)];
    assert_eq!(first_hit(&candidates), first_hit(&candidates));
}
