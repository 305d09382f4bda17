use vstd::prelude::*;

verus! {

/// The restart control's press/hover sub-state, a small state machine
/// independent of the main game state.
pub struct Button {
    pub is_pressed: bool,
    pub is_hovered: bool,
}

impl Default for Button {
    /// A button that is neither pressed nor hovered.
    fn default() -> (r: Self)
        ensures
            !r.is_pressed,
            !r.is_hovered,
    {
        Button { is_pressed: false, is_hovered: false }
    }
}

impl Button {
    /// A press over the control: it becomes pressed and hovered.
    pub fn click(&mut self)
        ensures
            final(self).is_pressed,
            final(self).is_hovered,
    {
        self.is_pressed = true;
        self.is_hovered = true;
    }

    /// Clears press and hover without firing anything.
    pub fn release(&mut self)
        ensures
            !final(self).is_pressed,
            !final(self).is_hovered,
    {
        self.is_pressed = false;
        self.is_hovered = false;
    }
}

} // verus!
