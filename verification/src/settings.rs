use vstd::prelude::*;

verus! {

/// Which interactions the view reacts to, and how far selection and folding
/// spread from their root.
///
/// `selection_depth` is signed: a positive depth follows edges from source to
/// target, a negative one from target to source, each for that many steps;
/// zero selects the clicked node alone. `folding_depth` counts steps along
/// outgoing edges; `usize::MAX` stands for no limit.
#[derive(Debug, Clone, Copy, PartialEq, Eq, Structural)]
pub struct SettingsInteraction {
    pub dragging_enabled: bool,
    pub clicking_enabled: bool,
    pub selection_enabled: bool,
    pub selection_multi_enabled: bool,
    pub selection_depth: i32,
    pub folding_enabled: bool,
    pub folding_depth: usize,
}

impl Default for SettingsInteraction {
    fn default() -> (s: Self)
        ensures
            s == Self::spec_default(),
    {
        SettingsInteraction {
            dragging_enabled: false,
            clicking_enabled: false,
            selection_enabled: false,
            selection_multi_enabled: false,
            selection_depth: 1,
            folding_enabled: false,
            folding_depth: usize::MAX,
        }
    }
}

impl SettingsInteraction {
    /// Everything switched off, selection one step deep, folding unlimited.
    pub open spec fn spec_default() -> Self {
        SettingsInteraction {
            dragging_enabled: false,
            clicking_enabled: false,
            selection_enabled: false,
            selection_multi_enabled: false,
            selection_depth: 1,
            folding_enabled: false,
            folding_depth: usize::MAX,
        }
    }

    /// True when a click on the canvas has any effect at all.
    pub open spec fn clickable(&self) -> bool {
        self.clicking_enabled || self.selection_enabled || self.selection_multi_enabled
            || self.folding_enabled
    }

    /// True when clicks change the selection.
    pub open spec fn selectable(&self) -> bool {
        self.selection_enabled || self.selection_multi_enabled
    }

    pub fn new() -> (s: Self)
        ensures
            s == Self::spec_default(),
    {
        Self::default()
    }

    /// Node dragging with the pointer.
    pub fn with_dragging_enabled(self, enabled: bool) -> (s: Self)
        ensures
            s == (SettingsInteraction { dragging_enabled: enabled, ..self }),
    {
        let mut s = self;
        s.dragging_enabled = enabled;
        s
    }

    /// Reporting of clicks and double clicks on nodes.
    pub fn with_clicking_enabled(self, enabled: bool) -> (s: Self)
        ensures
            s == (SettingsInteraction { clicking_enabled: enabled, ..self }),
    {
        let mut s = self;
        s.clicking_enabled = enabled;
        s
    }

    /// Selection by click: a click on a node selects it, a second click
    /// deselects it, a click on empty space deselects everything.
    pub fn with_selection_enabled(self, enabled: bool) -> (s: Self)
        ensures
            s == (SettingsInteraction { selection_enabled: enabled, ..self }),
    {
        let mut s = self;
        s.selection_enabled = enabled;
        s
    }

    /// Selection of several nodes at once.
    pub fn with_selection_multi_enabled(self, enabled: bool) -> (s: Self)
        ensures
            s == (SettingsInteraction { selection_multi_enabled: enabled, ..self }),
    {
        let mut s = self;
        s.selection_multi_enabled = enabled;
        s
    }

    /// How far selection spreads from a selected node, and in which direction.
    pub fn with_selection_depth(self, depth: i32) -> (s: Self)
        ensures
            s == (SettingsInteraction { selection_depth: depth, ..self }),
    {
        let mut s = self;
        s.selection_depth = depth;
        s
    }

    /// Folding by double click.
    pub fn with_folding_enabled(self, enabled: bool) -> (s: Self)
        ensures
            s == (SettingsInteraction { folding_enabled: enabled, ..self }),
    {
        let mut s = self;
        s.folding_enabled = enabled;
        s
    }

    /// How many steps along outgoing edges a fold swallows.
    pub fn with_folding_depth(self, depth: usize) -> (s: Self)
        ensures
            s == (SettingsInteraction { folding_depth: depth, ..self }),
    {
        let mut s = self;
        s.folding_depth = depth;
        s
    }
}

} // verus!
