//! The executor: program memory, the procedure index, and the routing of
//! events through the binding table to commands.

use vstd::prelude::*;
use crate::bindings::{bind_verdict, bound, lookup, table_ok, Action, Binding, BindingList};
use crate::consts::{
    Command, Event, Fault, InIdx, LayerIdx, ProcIdx, Trigger, MAX_CALL_DEPTH,
    MAX_LAYERS, MAX_LAYER_STACK, MAX_PROCEDURES, PROGRAM_SIZE, VIRTUAL_INPUT,
};
use crate::layers::{lemma_latest_holds, LayerState, Layers};
use crate::opcodes::Opcode;

verus! {

/// What opcodes and events act on: the layers, the bindings, and the
/// commands emitted so far that the sink has not taken yet.
pub struct Config {
    pub layers: LayerState,
    pub bindings: Seq<Binding>,
    pub emitted: Seq<Command>,
}

/// How an operation ended: the configuration it left, and the fault that
/// stopped it, if one did.
pub struct Outcome {
    pub config: Config,
    pub fault: Option<Fault>,
}

/// Mathematical model of an executor: program memory and configuration.
pub struct Machine {
    pub memory: Seq<Opcode>,
    pub config: Config,
}

impl Config {
    /// No layer held, no binding, nothing emitted.
    pub open spec fn initial() -> Config {
        Config { layers: LayerState::initial(), bindings: Seq::empty(), emitted: Seq::empty() }
    }

    /// This configuration with `command` emitted.
    pub open spec fn emit(self, command: Command) -> Config {
        Config { emitted: self.emitted.push(command), ..self }
    }

    /// This configuration with other layers.
    pub open spec fn with_layers(self, layers: LayerState) -> Config {
        Config { layers, ..self }
    }

    /// Ends without a fault.
    pub open spec fn done(self) -> Outcome {
        Outcome { config: self, fault: None }
    }

    /// Stops on a fault.
    pub open spec fn stopped(self, fault: Fault) -> Outcome {
        Outcome { config: self, fault: Some(fault) }
    }

    /// `binding` bound in a table of `capacity` entries.
    pub open spec fn bind(self, binding: Binding, capacity: nat) -> Outcome {
        match bind_verdict(self.bindings, binding, capacity) {
            Ok(_) => Config { bindings: bound(self.bindings, binding), ..self }.done(),
            Err(fault) => self.stopped(fault),
        }
    }

    /// `layer` pushed on behalf of `input`.
    pub open spec fn push_layer(self, input: InIdx, layer: LayerIdx) -> Outcome {
        if self.layers.has_room() {
            self.with_layers(self.layers.activated(input, layer)).done()
        } else {
            self.stopped(Fault::LayerStackFull)
        }
    }
}

impl Outcome {
    /// The fault as the result of an operation.
    pub open spec fn verdict(self) -> Result<(), Fault> {
        match self.fault {
            Some(fault) => Err(fault),
            None => Ok(()),
        }
    }
}

/// Program memory that holds `program` from the first cell on and `Noop` in
/// the cells behind it.
pub open spec fn memory_of(program: Seq<Opcode>) -> Seq<Opcode> {
    Seq::new(
        PROGRAM_SIZE as nat,
        |i: int|
            if i < program.len() {
                program[i]
            } else {
                Opcode::Noop
            },
    )
}

/// Cell of the last start marker of `proc` among the first `n` cells, and
/// `0` where there is none.
pub open spec fn entry_below(memory: Seq<Opcode>, proc: ProcIdx, n: int) -> int
    decreases n,
{
    if n <= 0 {
        0
    } else if memory[n - 1] == Opcode::Start(proc) {
        n - 1
    } else {
        entry_below(memory, proc, n - 1)
    }
}

/// What the procedure index holds for `proc`: the cell of its last start
/// marker in program memory, and `0` where it has none.
pub open spec fn entry(memory: Seq<Opcode>, proc: ProcIdx) -> int {
    entry_below(memory, proc, PROGRAM_SIZE as int)
}

/// The cell at which the body of `proc` begins, or the fault that keeps the
/// procedure from being run: an identifier outside the index, or an index
/// entry that does not point at the procedure's start marker.
pub open spec fn enter(memory: Seq<Opcode>, proc: ProcIdx) -> Result<int, Fault> {
    if proc >= MAX_PROCEDURES {
        Err(Fault::ProcedureOutOfRange)
    } else if memory[entry(memory, proc)] != Opcode::Start(proc) {
        Err(Fault::MissingProcedure)
    } else {
        Ok(entry(memory, proc) + 1)
    }
}

/// The binding that a binding opcode asks for on `layer`.
pub open spec fn binding_of(opcode: Opcode, layer: LayerIdx) -> Option<Binding> {
    match opcode {
        Opcode::BindShortCall(idx, proc) => Some(
            Binding { idx, layer, trigger: Trigger::ShortClick, action: Action::Proc(proc) },
        ),
        Opcode::BindLongCall(idx, proc) => Some(
            Binding { idx, layer, trigger: Trigger::LongClick, action: Action::Proc(proc) },
        ),
        Opcode::BindActivateCall(idx, proc) => Some(
            Binding { idx, layer, trigger: Trigger::Activated, action: Action::Proc(proc) },
        ),
        Opcode::BindDeactivateCall(idx, proc) => Some(
            Binding { idx, layer, trigger: Trigger::Deactivated, action: Action::Proc(proc) },
        ),
        Opcode::BindLongActivate(idx, proc) => Some(
            Binding { idx, layer, trigger: Trigger::LongActivated, action: Action::Proc(proc) },
        ),
        Opcode::BindLongDeactivate(idx, proc) => Some(
            Binding { idx, layer, trigger: Trigger::LongDeactivated, action: Action::Proc(proc) },
        ),
        Opcode::BindShortToggle(idx, out) => Some(
            Binding {
                idx,
                layer,
                trigger: Trigger::ShortClick,
                action: Action::Single(Command::ToggleOutput(out)),
            },
        ),
        Opcode::BindLongToggle(idx, out) => Some(
            Binding {
                idx,
                layer,
                trigger: Trigger::LongClick,
                action: Action::Single(Command::ToggleOutput(out)),
            },
        ),
        Opcode::BindLayerHold(idx, held) => Some(
            Binding {
                idx,
                layer,
                trigger: Trigger::Activated,
                action: Action::Single(Command::ActivateLayer(held)),
            },
        ),
        _ => None,
    }
}

/// The command that a direct output opcode emits.
pub open spec fn output_of(opcode: Opcode) -> Option<Command> {
    match opcode {
        Opcode::Toggle(out) => Some(Command::ToggleOutput(out)),
        Opcode::Activate(out) => Some(Command::ActivateOutput(out)),
        Opcode::Deactivate(out) => Some(Command::DeactivateOutput(out)),
        _ => None,
    }
}

/// What one opcode does to the configuration. The control opcodes leave it
/// as it is: `run` gives them their meaning.
pub open spec fn effect(opcode: Opcode, c: Config, capacity: nat) -> Outcome {
    match opcode {
        Opcode::Noop | Opcode::Start(_) | Opcode::Stop | Opcode::Call(_) => c.done(),
        Opcode::Toggle(_) | Opcode::Activate(_) | Opcode::Deactivate(_) => c.emit(
            output_of(opcode)->0,
        ).done(),
        Opcode::LayerPush(layer) => if layer > MAX_LAYERS {
            c.stopped(Fault::LayerOutOfRange)
        } else {
            c.push_layer(VIRTUAL_INPUT, layer)
        },
        Opcode::LayerPop => c.with_layers(c.layers.released(VIRTUAL_INPUT)).done(),
        Opcode::LayerSet(layer) => c.with_layers(
            LayerState::initial().activated(VIRTUAL_INPUT, layer),
        ).done(),
        Opcode::LayerDefault => c.with_layers(LayerState::initial()).done(),
        Opcode::BindClearAll => Config { bindings: Seq::empty(), ..c }.done(),
        _ => c.bind(binding_of(opcode, c.layers.current)->0, capacity),
    }
}

/// Runs the opcodes from cell `pc` on, up to the `Stop` that ends the
/// procedure, with `depth` further procedure activations allowed inside it.
/// A `Call` runs the called procedure to its end and then goes on behind
/// the call. The run stops at the first fault.
pub open spec fn run(memory: Seq<Opcode>, c: Config, pc: int, depth: nat, capacity: nat) -> Outcome
    decreases depth, PROGRAM_SIZE - pc,
{
    if pc < 0 || pc >= PROGRAM_SIZE {
        c.stopped(Fault::ProgramOverrun)
    } else {
        match memory[pc] {
            Opcode::Stop => c.done(),
            Opcode::Start(_) => c.stopped(Fault::UnexpectedStart),
            Opcode::Call(proc) => match enter(memory, proc) {
                Err(fault) => c.stopped(fault),
                Ok(body) => if depth == 0 {
                    c.stopped(Fault::CallDepthExceeded)
                } else {
                    let inner = run(memory, c, body, (depth - 1) as nat, capacity);
                    if inner.fault is Some {
                        inner
                    } else {
                        run(memory, inner.config, pc + 1, depth, capacity)
                    }
                },
            },
            opcode => {
                let step = effect(opcode, c, capacity);
                if step.fault is Some {
                    step
                } else {
                    run(memory, step.config, pc + 1, depth, capacity)
                }
            },
        }
    }
}

/// Runs procedure `proc` as one of `depth` procedure activations that may
/// be open at once.
pub open spec fn call(
    memory: Seq<Opcode>,
    c: Config,
    proc: ProcIdx,
    depth: nat,
    capacity: nat,
) -> Outcome {
    match enter(memory, proc) {
        Err(fault) => c.stopped(fault),
        Ok(body) => if depth == 0 {
            c.stopped(Fault::CallDepthExceeded)
        } else {
            run(memory, c, body, (depth - 1) as nat, capacity)
        },
    }
}

/// What the action of a binding does when `input` fires it. To activate a
/// layer is to hold it on behalf of `input`; nothing is emitted for it. To
/// deactivate a layer by a binding is not supported: layers leave the stack
/// when the input that holds them is released. Any other command is
/// emitted, and a procedure runs to its end.
pub open spec fn fired(
    memory: Seq<Opcode>,
    c: Config,
    input: InIdx,
    action: Action,
    capacity: nat,
) -> Outcome {
    match action {
        Action::Noop => c.done(),
        Action::Single(Command::ActivateLayer(layer)) => c.push_layer(input, layer),
        Action::Single(Command::DeactivateLayer(_)) => c.stopped(Fault::UnsupportedCommand),
        Action::Single(command) => c.emit(command).done(),
        Action::Proc(proc) => call(memory, c, proc, MAX_CALL_DEPTH as nat, capacity),
    }
}

/// What an event does. The release of an input that holds a layer takes
/// that layer off the stack and does nothing else. Any other event fires
/// the binding of its input and trigger on the current layer, if there is
/// one.
pub open spec fn reaction(memory: Seq<Opcode>, c: Config, event: Event, capacity: nat) -> Outcome {
    let Event::ButtonTrigger(data) = event;
    if data.trigger == Trigger::Deactivated && c.layers.holds(data.in_idx) {
        c.with_layers(c.layers.released(data.in_idx)).done()
    } else {
        match lookup(c.bindings, data.in_idx, Some(c.layers.current), Some(data.trigger)) {
            None => c.done(),
            Some(binding) => fired(memory, c, data.in_idx, binding.action, capacity),
        }
    }
}

/// Whether the procedure index has an entry for what an opcode starts: any
/// opcode but a start marker of a procedure outside the index.
pub open spec fn indexable(opcode: Opcode) -> bool {
    match opcode {
        Opcode::Start(proc) => proc < MAX_PROCEDURES,
        _ => true,
    }
}

/// The first fault of a program that cannot be loaded: it does not fit
/// into program memory, or one of its start markers names a procedure
/// outside the procedure index.
pub open spec fn load_fault(program: Seq<Opcode>) -> Option<Fault> {
    if program.len() > PROGRAM_SIZE {
        Some(Fault::ProgramTooLong)
    } else if exists|i: int| 0 <= i < program.len() && !indexable(#[trigger] program[i]) {
        Some(Fault::ProcedureOutOfRange)
    } else {
        None
    }
}

/// What loading does to an executor: a program that cannot be loaded
/// leaves it as it was. Any other program replaces program memory, its
/// procedure `0` runs, and where that ends without a fault, the layer stack
/// is emptied.
pub open spec fn loaded(m: Machine, program: Seq<Opcode>, capacity: nat) -> (Machine, Option<Fault>) {
    match load_fault(program) {
        Some(fault) => (m, Some(fault)),
        None => {
            let memory = memory_of(program);
            let setup = call(memory, m.config, 0, MAX_CALL_DEPTH as nat, capacity);
            let config = if setup.fault is Some {
                setup.config
            } else {
                setup.config.with_layers(LayerState::initial())
            };
            (Machine { memory, config }, setup.fault)
        },
    }
}

/// What is left of a run that stands at cell `pc` with the return cells
/// `stack` saved, the innermost last: the rest of the running procedure,
/// then the rest of each procedure that waits for it.
pub open spec fn resume(
    memory: Seq<Opcode>,
    c: Config,
    pc: int,
    stack: Seq<usize>,
    capacity: nat,
) -> Outcome
    decreases stack.len(),
{
    let top = run(memory, c, pc, (MAX_CALL_DEPTH - 1 - stack.len()) as nat, capacity);
    if stack.len() == 0 || top.fault is Some {
        top
    } else {
        resume(memory, top.config, stack.last() as int, stack.drop_last(), capacity)
    }
}

/// How far the activation at level `level` of the call stack still has to
/// go: nothing for a level that is not open, and more than nothing for one
/// that is.
pub open spec fn slack(stack: Seq<usize>, pc: int, level: int) -> int {
    if level < stack.len() {
        PROGRAM_SIZE + 1 - stack[level]
    } else if level == stack.len() {
        PROGRAM_SIZE + 1 - pc
    } else {
        0
    }
}

/// The index entry of a procedure lies in program memory.
pub proof fn lemma_entry_below(memory: Seq<Opcode>, proc: ProcIdx, n: int)
    ensures
        0 <= entry_below(memory, proc, n),
        n > 0 ==> entry_below(memory, proc, n) < n,
        n <= 0 ==> entry_below(memory, proc, n) == 0,
    decreases n,
{
    if n > 0 && memory[n - 1] != Opcode::Start(proc) {
        lemma_entry_below(memory, proc, n - 1);
    }
}

/// Executes a program and routes events to commands.
pub struct Executor<const BINDINGS: usize> {
    layers: Layers,
    bindings: BindingList<BINDINGS>,
    opcodes: [Opcode; PROGRAM_SIZE],
    procedures: [usize; MAX_PROCEDURES],
    emitted: Vec<Command>,
}

impl<const BN: usize> View for Executor<BN> {
    type V = Machine;

    closed spec fn view(&self) -> Machine {
        Machine {
            memory: self.opcodes@,
            config: Config {
                layers: self.layers@,
                bindings: self.bindings@,
                emitted: self.emitted@,
            },
        }
    }
}

impl<const BN: usize> Executor<BN> {
    /// The tables are well-formed and the procedure index is the one of
    /// program memory.
    pub closed spec fn wf(&self) -> bool {
        &&& self.layers.wf()
        &&& self.bindings.wf()
        &&& forall|proc: ProcIdx|
            proc < MAX_PROCEDURES ==> self.procedures@[proc as int] == #[trigger] entry(
                self.opcodes@,
                proc,
            )
    }

    /// What well-formedness says of the model.
    pub proof fn lemma_wf(&self)
        requires
            self.wf(),
        ensures
            self@.memory.len() == PROGRAM_SIZE,
            self@.config.bindings.len() <= BN,
            table_ok(self@.config.bindings),
            self@.config.layers.held.len() <= MAX_LAYER_STACK,
    {
        self.bindings.lemma_wf();
        self.layers.lemma_wf();
    }

    /// An executor without a program: memory full of `Noop`, no binding,
    /// no layer held, nothing emitted.
    pub fn new() -> (executor: Self)
        ensures
            executor.wf(),
            executor@ == (Machine { memory: memory_of(Seq::empty()), config: Config::initial() }),
    {
        let executor = Executor {
            layers: Layers::new(),
            bindings: BindingList::new(),
            opcodes: [Opcode::Noop;PROGRAM_SIZE],
            procedures: [0usize;MAX_PROCEDURES],
            emitted: Vec::new(),
        };
        assert(executor.opcodes@ =~= memory_of(Seq::empty()));
        assert forall|proc: ProcIdx| proc < MAX_PROCEDURES implies executor.procedures@[proc as int]
            == #[trigger] entry(executor.opcodes@, proc) by {
            Self::lemma_no_start(executor.opcodes@, proc, PROGRAM_SIZE as int);
        }
        executor
    }

    /// Memory without a start marker of `proc` has index entry `0` for it.
    proof fn lemma_no_start(memory: Seq<Opcode>, proc: ProcIdx, n: int)
        requires
            n <= memory.len(),
            forall|i: int| 0 <= i < n ==> memory[i] != Opcode::Start(proc),
        ensures
            entry_below(memory, proc, n) == 0,
        decreases n,
    {
        if n > 0 {
            Self::lemma_no_start(memory, proc, n - 1);
        }
    }

    /// The layer that events are looked up on.
    pub fn current_layer(&self) -> (layer: LayerIdx)
        ensures
            layer == self@.config.layers.current,
    {
        self.layers.current_layer()
    }

    /// Hands `command` to the sink: it joins the emitted commands, which
    /// wait in order until `take_emitted` fetches them.
    pub fn emit(&mut self, command: Command)
        requires
            old(self).wf(),
        ensures
            final(self).wf(),
            final(self)@.memory == old(self)@.memory,
            final(self)@.config == old(self)@.config.emit(command),
    {
        self.emitted.push(command);
    }

    /// Hands out the commands emitted since the last call, oldest first,
    /// and forgets them.
    pub fn take_emitted(&mut self) -> (commands: Vec<Command>)
        requires
            old(self).wf(),
        ensures
            final(self).wf(),
            commands@ == old(self)@.config.emitted,
            final(self)@ == (Machine {
                config: Config { emitted: Seq::empty(), ..old(self)@.config },
                ..old(self)@
            }),
    {
        let mut commands: Vec<Command> = Vec::new();
        core::mem::swap(&mut self.emitted, &mut commands);
        commands
    }

    /// Binds a trigger of an input, on the current layer, to a procedure.
    fn bind_proc(&mut self, idx: InIdx, trigger: Trigger, proc_idx: ProcIdx) -> (r: Result<
        (),
        Fault,
    >)
        requires
            old(self).wf(),
        ensures
            final(self).wf(),
            final(self)@.memory == old(self)@.memory,
            final(self)@.config == old(self)@.config.bind(
                Binding {
                    idx,
                    layer: old(self)@.config.layers.current,
                    trigger,
                    action: Action::Proc(proc_idx),
                },
                BN as nat,
            ).config,
            r == old(self)@.config.bind(
                Binding {
                    idx,
                    layer: old(self)@.config.layers.current,
                    trigger,
                    action: Action::Proc(proc_idx),
                },
                BN as nat,
            ).verdict(),
    {
        let layer: LayerIdx = self.layers.current_layer();
        self.bindings.bind(Binding { idx, trigger, layer, action: Action::Proc(proc_idx) })
    }

    /// Binds a trigger of an input, on the current layer, to one command.
    fn bind_single(&mut self, idx: InIdx, trigger: Trigger, command: Command) -> (r: Result<
        (),
        Fault,
    >)
        requires
            old(self).wf(),
        ensures
            final(self).wf(),
            final(self)@.memory == old(self)@.memory,
            final(self)@.config == old(self)@.config.bind(
                Binding {
                    idx,
                    layer: old(self)@.config.layers.current,
                    trigger,
                    action: Action::Single(command),
                },
                BN as nat,
            ).config,
            r == old(self)@.config.bind(
                Binding {
                    idx,
                    layer: old(self)@.config.layers.current,
                    trigger,
                    action: Action::Single(command),
                },
                BN as nat,
            ).verdict(),
    {
        let layer: LayerIdx = self.layers.current_layer();
        self.bindings.bind(Binding { idx, trigger, layer, action: Action::Single(command) })
    }

    /// Carries out one opcode that acts on the configuration. The control
    /// opcodes do nothing here: `execute` steers by them.
    fn execute_opcode(&mut self, opcode: Opcode) -> (r: Result<(), Fault>)
        requires
            old(self).wf(),
        ensures
            final(self).wf(),
            final(self)@.memory == old(self)@.memory,
            final(self)@.config == effect(opcode, old(self)@.config, BN as nat).config,
            r == effect(opcode, old(self)@.config, BN as nat).verdict(),
    {
        match opcode {
            Opcode::Noop | Opcode::Start(_) | Opcode::Stop | Opcode::Call(_) => Ok(()),
            Opcode::Toggle(out_idx) => {
                self.emit(Command::ToggleOutput(out_idx));
                Ok(())
            },
            Opcode::Activate(out_idx) => {
                self.emit(Command::ActivateOutput(out_idx));
                Ok(())
            },
            Opcode::Deactivate(out_idx) => {
                self.emit(Command::DeactivateOutput(out_idx));
                Ok(())
            },
            Opcode::LayerPush(layer) => {
                if layer as usize > MAX_LAYERS {
                    Err(Fault::LayerOutOfRange)
                } else {
                    self.layers.activate(VIRTUAL_INPUT, layer)
                }
            },
            Opcode::LayerPop => {
                self.layers.maybe_deactivate(VIRTUAL_INPUT);
                Ok(())
            },
            Opcode::LayerSet(layer) => {
                self.layers.reset();
                self.layers.activate(VIRTUAL_INPUT, layer)
            },
            Opcode::LayerDefault => {
                self.layers.reset();
                Ok(())
            },
            Opcode::BindClearAll => {
                self.bindings.clear();
                Ok(())
            },
            Opcode::BindShortCall(in_idx, proc_idx) => self.bind_proc(
                in_idx,
                Trigger::ShortClick,
                proc_idx,
            ),
            Opcode::BindLongCall(in_idx, proc_idx) => self.bind_proc(
                in_idx,
                Trigger::LongClick,
                proc_idx,
            ),
            Opcode::BindActivateCall(in_idx, proc_idx) => self.bind_proc(
                in_idx,
                Trigger::Activated,
                proc_idx,
            ),
            Opcode::BindDeactivateCall(in_idx, proc_idx) => self.bind_proc(
                in_idx,
                Trigger::Deactivated,
                proc_idx,
            ),
            Opcode::BindLongActivate(in_idx, proc_idx) => self.bind_proc(
                in_idx,
                Trigger::LongActivated,
                proc_idx,
            ),
            Opcode::BindLongDeactivate(in_idx, proc_idx) => self.bind_proc(
                in_idx,
                Trigger::LongDeactivated,
                proc_idx,
            ),
            Opcode::BindShortToggle(in_idx, out_idx) => self.bind_single(
                in_idx,
                Trigger::ShortClick,
                Command::ToggleOutput(out_idx),
            ),
            Opcode::BindLongToggle(in_idx, out_idx) => self.bind_single(
                in_idx,
                Trigger::LongClick,
                Command::ToggleOutput(out_idx),
            ),
            Opcode::BindLayerHold(in_idx, layer_idx) => self.bind_single(
                in_idx,
                Trigger::Activated,
                Command::ActivateLayer(layer_idx),
            ),
        }
    }

    /// Looks a procedure up in the index: the cell at which its body begins.
    fn enter(&self, proc: ProcIdx) -> (r: Result<usize, Fault>)
        requires
            self.wf(),
        ensures
            match r {
                Ok(body) => enter(self@.memory, proc) == Ok::<int, Fault>(body as int) && 1 <= body
                    <= PROGRAM_SIZE,
                Err(fault) => enter(self@.memory, proc) == Err::<int, Fault>(fault),
            },
    {
        if proc as usize >= MAX_PROCEDURES {
            return Err(Fault::ProcedureOutOfRange);
        }
        proof {
            lemma_entry_below(self.opcodes@, proc, PROGRAM_SIZE as int);
        }
        let pc: usize = self.procedures[proc as usize];
        match self.opcodes[pc] {
            Opcode::Start(id) => {
                if id == proc {
                    Ok(pc + 1)
                } else {
                    Err(Fault::MissingProcedure)
                }
            },
            _ => Err(Fault::MissingProcedure),
        }
    }

    /// Runs procedure `proc` to its end. Called procedures run inside it,
    /// up to `MAX_CALL_DEPTH` activations at once, on a call stack of the
    /// executor's own. The first fault ends the run where it stands.
    pub fn execute(&mut self, proc: ProcIdx) -> (r: Result<(), Fault>)
        requires
            old(self).wf(),
        ensures
            final(self).wf(),
            final(self)@.memory == old(self)@.memory,
            final(self)@.config == call(
                old(self)@.memory,
                old(self)@.config,
                proc,
                MAX_CALL_DEPTH as nat,
                BN as nat,
            ).config,
            r == call(
                old(self)@.memory,
                old(self)@.config,
                proc,
                MAX_CALL_DEPTH as nat,
                BN as nat,
            ).verdict(),
    {
        let ghost memory = self@.memory;
        let ghost goal = call(memory, self@.config, proc, MAX_CALL_DEPTH as nat, BN as nat);
        let mut pc: usize = match self.enter(proc) {
            Ok(body) => body,
            Err(fault) => {
                return Err(fault);
            },
        };
        // The cells to return to, one for each procedure that waits for a
        // call to end, the innermost last.
        let mut frames: [usize; MAX_CALL_DEPTH] = [0usize;MAX_CALL_DEPTH];
        let mut open: usize = 0;
        // Termination: every step moves the innermost open level forward or
        // closes it, and leaves the levels outside it alone. The measure has
        // one component for each of the `MAX_CALL_DEPTH` levels.
        loop
            invariant
                self.wf(),
                self@.memory == memory,
                memory == old(self)@.memory,
                goal == call(memory, old(self)@.config, proc, MAX_CALL_DEPTH as nat, BN as nat),
                open < MAX_CALL_DEPTH,
                pc <= PROGRAM_SIZE,
                forall|i: int| 0 <= i < open ==> frames@[i] <= PROGRAM_SIZE,
                resume(memory, self@.config, pc as int, frames@.subrange(0, open as int), BN as nat)
                    == goal,
            decreases
                slack(frames@.subrange(0, open as int), pc as int, 0),
                slack(frames@.subrange(0, open as int), pc as int, 1),
                slack(frames@.subrange(0, open as int), pc as int, 2),
                slack(frames@.subrange(0, open as int), pc as int, 3),
                slack(frames@.subrange(0, open as int), pc as int, 4),
                slack(frames@.subrange(0, open as int), pc as int, 5),
                slack(frames@.subrange(0, open as int), pc as int, 6),
                slack(frames@.subrange(0, open as int), pc as int, 7),
        {
            let ghost stack = frames@.subrange(0, open as int);
            let ghost before = self@.config;
            let ghost old_pc = pc;
            let ghost depth = (MAX_CALL_DEPTH - 1 - stack.len()) as nat;
            if pc >= PROGRAM_SIZE {
                return Err(Fault::ProgramOverrun);
            }
            let opcode: Opcode = self.opcodes[pc];
            match opcode {
                Opcode::Stop => {
                    if open == 0 {
                        return Ok(());
                    }
                    open -= 1;
                    pc = frames[open];
                    assert(frames@.subrange(0, open as int) =~= stack.drop_last());
                    assert(run(memory, before, old_pc as int, depth, BN as nat) == before.done());
                    assert(pc == stack.last());
                },
                Opcode::Start(_) => {
                    return Err(Fault::UnexpectedStart);
                },
                Opcode::Call(callee) => {
                    let body: usize = match self.enter(callee) {
                        Ok(body) => body,
                        Err(fault) => {
                            return Err(fault);
                        },
                    };
                    if open + 1 >= MAX_CALL_DEPTH {
                        return Err(Fault::CallDepthExceeded);
                    }
                    frames[open] = pc + 1;
                    open += 1;
                    proof {
                        let pushed = frames@.subrange(0, open as int);
                        assert(pushed.drop_last() =~= stack);
                        assert(pushed.last() == pc + 1);
                        let inner = run(memory, before, body as int, (depth - 1) as nat, BN as nat);
                        assert(run(memory, before, pc as int, depth, BN as nat) == if inner.fault
                            is Some {
                            inner
                        } else {
                            run(memory, inner.config, pc + 1, depth, BN as nat)
                        });
                        assert(resume(memory, before, body as int, pushed, BN as nat)
                            == if inner.fault is Some {
                            inner
                        } else {
                            resume(memory, inner.config, pc + 1, stack, BN as nat)
                        });
                    }
                    pc = body;
                },
                _ => {
                    match self.execute_opcode(opcode) {
                        Ok(()) => {
                            assert(run(memory, before, pc as int, depth, BN as nat) == run(
                                memory,
                                self@.config,
                                pc + 1,
                                depth,
                                BN as nat,
                            ));
                            pc += 1;
                        },
                        Err(fault) => {
                            return Err(fault);
                        },
                    }
                },
            }
        }
    }

    /// Derives the procedure index from program memory.
    fn index_code(&mut self)
        requires
            old(self).layers.wf(),
            old(self).bindings.wf(),
            forall|i: int| 0 <= i < PROGRAM_SIZE ==> indexable(#[trigger] old(self).opcodes@[i]),
        ensures
            final(self).wf(),
            final(self)@ == old(self)@,
    {
        let mut i: usize = 0;
        while i < MAX_PROCEDURES
            invariant
                i <= MAX_PROCEDURES,
                self.layers == old(self).layers,
                self.bindings == old(self).bindings,
                self.opcodes == old(self).opcodes,
                self.emitted == old(self).emitted,
                forall|proc: int| 0 <= proc < i ==> self.procedures@[proc] == 0,
            decreases MAX_PROCEDURES - i,
        {
            self.procedures[i] = 0;
            i += 1;
        }
        let mut idx: usize = 0;
        while idx < PROGRAM_SIZE
            invariant
                idx <= PROGRAM_SIZE,
                self.layers == old(self).layers,
                self.bindings == old(self).bindings,
                self.opcodes == old(self).opcodes,
                self.emitted == old(self).emitted,
                forall|i: int| 0 <= i < PROGRAM_SIZE ==> indexable(#[trigger] self.opcodes@[i]),
                forall|proc: ProcIdx|
                    proc < MAX_PROCEDURES ==> self.procedures@[proc as int]
                        == #[trigger] entry_below(self.opcodes@, proc, idx as int),
            decreases PROGRAM_SIZE - idx,
        {
            let ghost index = self.procedures@;
            match self.opcodes[idx] {
                Opcode::Start(proc_idx) => {
                    assert(indexable(self.opcodes@[idx as int]));
                    self.procedures[proc_idx as usize] = idx;
                },
                _ => {},
            }
            assert forall|proc: ProcIdx| proc < MAX_PROCEDURES implies self.procedures@[proc as int]
                == #[trigger] entry_below(self.opcodes@, proc, idx + 1) by {
                assert(index[proc as int] == entry_below(self.opcodes@, proc, idx as int));
            }
            idx += 1;
        }
    }

    /// Loads a program: it replaces program memory, the procedure index is
    /// derived anew, procedure `0` runs to set bindings and layers up, and
    /// the layer stack is emptied. A program that does not fit, or that
    /// starts a procedure outside the index, changes nothing. A fault in
    /// procedure `0` ends the loading where the procedure stopped.
    pub fn load_static(&mut self, program: &[Opcode]) -> (r: Result<(), Fault>)
        requires
            old(self).wf(),
        ensures
            final(self).wf(),
            final(self)@ == loaded(old(self)@, program@, BN as nat).0,
            r == match loaded(old(self)@, program@, BN as nat).1 {
                Some(fault) => Err::<(), Fault>(fault),
                None => Ok::<(), Fault>(()),
            },
    {
        if program.len() > PROGRAM_SIZE {
            return Err(Fault::ProgramTooLong);
        }
        let mut i: usize = 0;
        while i < program.len()
            invariant
                i <= program.len(),
                program.len() <= PROGRAM_SIZE,
                *self == *old(self),
                self.wf(),
                forall|j: int| 0 <= j < i ==> indexable(#[trigger] program@[j]),
            decreases program.len() - i,
        {
            match program[i] {
                Opcode::Start(proc_idx) => {
                    if proc_idx as usize >= MAX_PROCEDURES {
                        assert(!indexable(program@[i as int]));
                        return Err(Fault::ProcedureOutOfRange);
                    }
                },
                _ => {},
            }
            i += 1;
        }
        assert(load_fault(program@) is None);
        let mut idx: usize = 0;
        while idx < PROGRAM_SIZE
            invariant
                idx <= PROGRAM_SIZE,
                program.len() <= PROGRAM_SIZE,
                self.layers == old(self).layers,
                self.bindings == old(self).bindings,
                self.emitted == old(self).emitted,
                forall|j: int| 0 <= j < idx ==> self.opcodes@[j] == memory_of(program@)[j],
            decreases PROGRAM_SIZE - idx,
        {
            if idx < program.len() {
                self.opcodes[idx] = program[idx];
            } else {
                self.opcodes[idx] = Opcode::Noop;
            }
            idx += 1;
        }
        assert(self.opcodes@ =~= memory_of(program@));
        self.index_code();
        match self.execute(0) {
            Ok(()) => {
                self.layers.reset();
                Ok(())
            },
            Err(fault) => Err(fault),
        }
    }

    /// Carries out the action of a binding that `in_idx` fired.
    pub fn fire(&mut self, in_idx: InIdx, action: Action) -> (r: Result<(), Fault>)
        requires
            old(self).wf(),
        ensures
            final(self).wf(),
            final(self)@.memory == old(self)@.memory,
            final(self)@.config == fired(
                old(self)@.memory,
                old(self)@.config,
                in_idx,
                action,
                BN as nat,
            ).config,
            r == fired(old(self)@.memory, old(self)@.config, in_idx, action, BN as nat).verdict(),
    {
        match action {
            Action::Noop => Ok(()),
            Action::Single(command) => match command {
                Command::ActivateLayer(held) => self.layers.activate(in_idx, held),
                Command::DeactivateLayer(_) => Err(Fault::UnsupportedCommand),
                _ => {
                    self.emit(command);
                    Ok(())
                },
            },
            Action::Proc(proc_idx) => self.execute(proc_idx),
        }
    }

    /// Reacts to an event. The release of an input that holds a layer only
    /// takes that layer off the stack. Any other event fires the binding
    /// of its input and trigger on the current layer: a command is emitted,
    /// a layer is held on behalf of the input, or a procedure runs. An
    /// event without a binding is dropped.
    pub fn parse_event(&mut self, event: &Event) -> (r: Result<(), Fault>)
        requires
            old(self).wf(),
        ensures
            final(self).wf(),
            final(self)@.memory == old(self)@.memory,
            final(self)@.config == reaction(
                old(self)@.memory,
                old(self)@.config,
                *event,
                BN as nat,
            ).config,
            r == reaction(old(self)@.memory, old(self)@.config, *event, BN as nat).verdict(),
    {
        match event {
            Event::ButtonTrigger(data) => {
                if data.trigger == Trigger::Deactivated {
                    proof {
                        lemma_latest_holds(self@.config.layers, data.in_idx);
                    }
                    if self.layers.maybe_deactivate(data.in_idx) {
                        return Ok(());
                    }
                }
                let layer: LayerIdx = self.layers.current_layer();
                let action: Action = match self.bindings.filter(
                    data.in_idx,
                    Some(layer),
                    Some(data.trigger),
                ) {
                    Some(binding) => binding.action,
                    None => {
                        return Ok(());
                    },
                };
                self.fire(data.in_idx, action)
            },
        }
    }
}

/// The commands of a stretch of direct output opcodes: one for each
/// opcode, in their order.
pub open spec fn outputs_of(opcodes: Seq<Opcode>) -> Seq<Command> {
    Seq::new(opcodes.len(), |i: int| output_of(opcodes[i])->0)
}

/// A run over direct output opcodes up to a `Stop` emits the command of
/// each of them, in program order, and changes nothing else.
pub proof fn lemma_run_outputs(
    memory: Seq<Opcode>,
    c: Config,
    pc: int,
    stop: int,
    depth: nat,
    capacity: nat,
)
    requires
        memory.len() == PROGRAM_SIZE,
        0 <= pc <= stop < PROGRAM_SIZE,
        memory[stop] == Opcode::Stop,
        forall|i: int| pc <= i < stop ==> output_of(#[trigger] memory[i]) is Some,
    ensures
        run(memory, c, pc, depth, capacity) == (Config {
            emitted: c.emitted + outputs_of(memory.subrange(pc, stop)),
            ..c
        }).done(),
    decreases stop - pc,
{
    if pc == stop {
        assert(c.emitted + outputs_of(memory.subrange(pc, stop)) =~= c.emitted);
    } else {
        let command = output_of(memory[pc])->0;
        assert(effect(memory[pc], c, capacity) == c.emit(command).done());
        lemma_run_outputs(memory, c.emit(command), pc + 1, stop, depth, capacity);
        assert(c.emit(command).emitted + outputs_of(memory.subrange(pc + 1, stop)) =~= c.emitted
            + outputs_of(memory.subrange(pc, stop)));
    }
}

/// A procedure whose body holds direct output opcodes only emits exactly
/// one command for each of them, in program order, without a fault, and
/// leaves layers and bindings as they were.
pub proof fn law_output_procedure(
    memory: Seq<Opcode>,
    c: Config,
    proc: ProcIdx,
    body: int,
    stop: int,
    capacity: nat,
)
    requires
        memory.len() == PROGRAM_SIZE,
        enter(memory, proc) == Ok::<int, Fault>(body),
        0 <= body <= stop < PROGRAM_SIZE,
        memory[stop] == Opcode::Stop,
        forall|i: int| body <= i < stop ==> output_of(#[trigger] memory[i]) is Some,
    ensures
        call(memory, c, proc, MAX_CALL_DEPTH as nat, capacity) == (Config {
            emitted: c.emitted + outputs_of(memory.subrange(body, stop)),
            ..c
        }).done(),
        outputs_of(memory.subrange(body, stop)).len() == stop - body,
{
    lemma_run_outputs(memory, c, body, stop, (MAX_CALL_DEPTH - 1) as nat, capacity);
}

} // verus!
