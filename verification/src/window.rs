use vstd::prelude::*;

verus! {

/// Whether a window stays above the others until the user says otherwise.
pub const DEFAULT_ALWAYS_ON_TOP: bool = true;

/// What the editing surface asks of its window. The frame update takes the
/// value and hands back the one for the next frame.
#[derive(Clone, Copy, Debug, PartialEq, Eq, Structural)]
pub struct WindowProps {
    /// Whether the window is to stay above the others.
    pub always_on_top: bool,
}

impl WindowProps {
    /// The properties a window starts with.
    pub fn new() -> (props: WindowProps)
        ensures
            props.always_on_top == DEFAULT_ALWAYS_ON_TOP,
    {
        WindowProps { always_on_top: DEFAULT_ALWAYS_ON_TOP }
    }

    /// The properties after the user asked to switch staying on top.
    pub fn toggled(self) -> (props: WindowProps)
        ensures
            props.always_on_top == !self.always_on_top,
    {
        WindowProps { always_on_top: !self.always_on_top }
    }
}

impl Default for WindowProps {
    fn default() -> (props: WindowProps)
        ensures
            props.always_on_top == DEFAULT_ALWAYS_ON_TOP,
    {
        WindowProps::new()
    }
}

} // verus!
