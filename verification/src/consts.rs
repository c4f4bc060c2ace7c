//! Shared vocabulary: identifiers, limits, triggers, commands and faults.

use vstd::prelude::*;

verus! {

/// Input identifier. The value `0` is reserved for layer pushes that no
/// physical input caused.
pub type InIdx = u8;

/// Output identifier.
pub type OutIdx = u8;

/// Layer identifier. Layer `0` is the default layer.
pub type LayerIdx = u8;

/// Procedure identifier.
pub type ProcIdx = u8;

/// Number of procedures that the procedure index can hold.
pub const MAX_PROCEDURES: usize = 128;

/// Highest layer that a program may push.
pub const MAX_LAYERS: usize = 128;

/// Depth of the layer stack.
pub const MAX_LAYER_STACK: usize = 5;

/// Number of inputs of a node.
pub const MAX_INPUTS: usize = 128;

/// Number of outputs of a node.
pub const MAX_OUTPUTS: usize = 128;

/// Number of opcodes that program memory holds.
pub const PROGRAM_SIZE: usize = 1024;

/// Number of procedure activations that may be open at once.
pub const MAX_CALL_DEPTH: usize = 8;

/// The input that stands for "no input" in layer pushes made by a program.
pub const VIRTUAL_INPUT: InIdx = 0;

/// The layer that is current while the layer stack is empty.
pub const DEFAULT_LAYER: LayerIdx = 0;

/// Effect requested from the output side, or a layer change routed internally.
#[derive(Debug, Copy, Clone, PartialEq, Eq, Structural)]
pub enum Command {
    /// Toggle an output.
    ToggleOutput(OutIdx),
    /// Switch an output on, whatever its state.
    ActivateOutput(OutIdx),
    /// Switch an output off, whatever its state.
    DeactivateOutput(OutIdx),
    /// Activate a layer.
    ActivateLayer(LayerIdx),
    /// Deactivate a layer.
    DeactivateLayer(LayerIdx),
    /// No operation.
    Noop,
}

/// The classified ways in which a button can fire.
#[derive(Debug, Copy, Clone, PartialEq, Eq, Structural)]
pub enum Trigger {
    /// Held longer than the debounce period but shorter than a long click;
    /// fires on release.
    ShortClick,
    /// Held longer than a short click; fires on release.
    LongClick,
    /// Fires as soon as the debounce period is over.
    Activated,
    /// Fires on release, however long the button was held.
    Deactivated,
    /// Fires once the button is held past the short-click time.
    LongActivated,
    /// Fires on release after `LongActivated` fired.
    LongDeactivated,
}

/// One classified button event.
#[derive(Debug, Copy, Clone, PartialEq, Eq, Structural)]
pub struct ButtonTrigger {
    pub in_idx: InIdx,
    pub trigger: Trigger,
}

/// Raw state of a switch, before classification.
#[derive(Debug, Copy, Clone, PartialEq, Eq, Structural)]
pub enum SwitchState {
    /// Just pressed.
    Activated,
    /// Still held, with the time held so far.
    Active(u32),
    /// Released, with the time it was held.
    Deactivated(u32),
}

/// Raw switch event, before classification.
#[derive(Debug, Copy, Clone, PartialEq, Eq, Structural)]
pub struct SwitchEvent {
    pub switch_id: InIdx,
    pub state: SwitchState,
}

/// Layer change announced from outside.
#[derive(Debug, Copy, Clone, PartialEq, Eq, Structural)]
pub enum LayerEvent {
    Activate(u8),
    Deactivate(u8),
}

/// Runtime event consumed by the executor.
#[derive(Debug, Copy, Clone, PartialEq, Eq, Structural)]
pub enum Event {
    /// A button fired.
    ButtonTrigger(ButtonTrigger),
}

impl Event {
    /// The event "input `in_idx` fired with `trigger`".
    pub fn new_button_trigger(in_idx: InIdx, trigger: Trigger) -> (event: Self)
        ensures
            event == Event::ButtonTrigger(ButtonTrigger { in_idx, trigger }),
    {
        Event::ButtonTrigger(ButtonTrigger { in_idx, trigger })
    }
}

/// Fatal defects of a program or of its configuration. An operation that
/// reports one has stopped at the point of the defect.
#[derive(Debug, Copy, Clone, PartialEq, Eq, Structural)]
pub enum Fault {
    /// A binding names the reserved input `0`.
    ReservedInput,
    /// The binding table is full and the binding has a new key.
    BindingsFull,
    /// The layer stack is full.
    LayerStackFull,
    /// A pushed layer lies above `MAX_LAYERS`.
    LayerOutOfRange,
    /// The program does not fit into program memory.
    ProgramTooLong,
    /// A procedure identifier does not fit into the procedure index.
    ProcedureOutOfRange,
    /// The procedure index does not point at the start marker of the
    /// procedure asked for.
    MissingProcedure,
    /// A start marker stands inside a procedure's body.
    UnexpectedStart,
    /// A procedure ran past the end of program memory without stopping.
    ProgramOverrun,
    /// Too many procedure activations are open at once.
    CallDepthExceeded,
    /// A binding asks for a command that the executor cannot carry out.
    UnsupportedCommand,
}

} // verus!
