//! The closed instruction set of the executor.

use vstd::prelude::*;
use crate::consts::{InIdx, LayerIdx, OutIdx, ProcIdx};

verus! {

/// One instruction of a program.
#[derive(Debug, Copy, Clone, PartialEq, Eq, Structural)]
pub enum Opcode {
    /// No operation.
    Noop,
    /// Marks the start of the procedure with this identifier.
    Start(ProcIdx),
    /// Returns from the procedure.
    Stop,
    /// Runs another procedure, then goes on.
    Call(ProcIdx),
    /// Direct output control: toggle.
    Toggle(OutIdx),
    /// Direct output control: switch on.
    Activate(OutIdx),
    /// Direct output control: switch off.
    Deactivate(OutIdx),
    /// Pushes a layer onto the layer stack on behalf of no input.
    LayerPush(LayerIdx),
    /// Removes the layer pushed last on behalf of no input.
    LayerPop,
    /// Empties the layer stack, then pushes a layer on behalf of no input.
    LayerSet(LayerIdx),
    /// Empties the layer stack: back to the default layer.
    LayerDefault,
    /// Removes every binding.
    BindClearAll,
    /// Binds a short click, on the current layer, to a procedure.
    BindShortCall(InIdx, ProcIdx),
    /// Binds a long click, on the current layer, to a procedure.
    BindLongCall(InIdx, ProcIdx),
    /// Binds the activation, on the current layer, to a procedure.
    BindActivateCall(InIdx, ProcIdx),
    /// Binds the deactivation, on the current layer, to a procedure.
    BindDeactivateCall(InIdx, ProcIdx),
    /// Binds the long activation, on the current layer, to a procedure.
    BindLongActivate(InIdx, ProcIdx),
    /// Binds the long deactivation, on the current layer, to a procedure.
    BindLongDeactivate(InIdx, ProcIdx),
    /// Binds a short click, on the current layer, to the toggle of an output.
    BindShortToggle(InIdx, OutIdx),
    /// Binds a long click, on the current layer, to the toggle of an output.
    BindLongToggle(InIdx, OutIdx),
    /// Binds the activation of an input, on the current layer, to holding a
    /// layer. The release needs no binding: the layer stack handles it.
    BindLayerHold(InIdx, LayerIdx),
}

} // verus!
