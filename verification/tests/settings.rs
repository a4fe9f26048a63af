use egui_graphs::settings::SettingsInteraction;

#[test]
fn settings_interaction_defaults_are_off() {
    let s = SettingsInteraction::new();
    assert!(!s.dragging_enabled);
    assert!(!s.clicking_enabled);
    assert!(!s.selection_enabled);
    assert!(!s.selection_multi_enabled);
    assert!(!s.folding_enabled);
    assert_eq!(s.selection_depth, 1);
    assert_eq!(s.folding_depth, usize::MAX);
}

#[test]
fn settings_interaction_builders_set_one_field() {
    let s = SettingsInteraction::new().with_dragging_enabled(true);
    assert_eq!(s, SettingsInteraction { dragging_enabled: true, ..SettingsInteraction::new() });
    let s = SettingsInteraction::new().with_selection_depth(-2).with_folding_depth(3);
    assert_eq!(s.selection_depth, -2);
    assert_eq!(s.folding_depth, 3);
}
