use std::collections::VecDeque;

use buttonsmash::bindings::Action;
use buttonsmash::consts::{
    ButtonTrigger, Command, Event, Fault, Trigger, MAX_CALL_DEPTH, MAX_LAYER_STACK, PROGRAM_SIZE,
};
use buttonsmash::microvm::Executor;
use buttonsmash::opcodes::Opcode;

/// Stands for the outbound queue: what the executor emitted, oldest first.
struct Sink {
    queue: VecDeque<Command>,
}

impl Sink {
    fn new() -> Self {
        Sink { queue: VecDeque::new() }
    }

    fn drain<const N: usize>(&mut self, executor: &mut Executor<N>) {
        self.queue.extend(executor.take_emitted());
    }

    fn recv(&mut self) -> Option<Command> {
        self.queue.pop_front()
    }

    fn is_empty(&self) -> bool {
        self.queue.is_empty()
    }
}

fn feed<const N: usize>(executor: &mut Executor<N>, sink: &mut Sink, in_idx: u8, trigger: Trigger) {
    executor.parse_event(&Event::new_button_trigger(in_idx, trigger)).unwrap();
    sink.drain(executor);
}

fn get_prepared() -> (Executor<30>, Sink) {
    const PROGRAM: [Opcode; 16] = [
        // Setup proc.
        Opcode::Start(0),
        Opcode::LayerDefault,
        Opcode::BindShortToggle(1, 10),
        Opcode::BindShortToggle(2, 11),
        Opcode::BindLongToggle(3, 20),
        Opcode::BindShortToggle(3, 21),
        Opcode::BindShortCall(4, 1),
        Opcode::BindLayerHold(5, 66),
        Opcode::LayerPush(66),
        Opcode::BindShortToggle(1, 13),
        Opcode::Stop,
        // Test proc.
        Opcode::Start(1),
        Opcode::Activate(100),
        Opcode::Activate(101),
        Opcode::Deactivate(110),
        Opcode::Stop,
    ];

    let mut sink = Sink::new();
    let mut executor: Executor<30> = Executor::new();
    executor.load_static(&PROGRAM).unwrap();
    sink.drain(&mut executor);

    (executor, sink)
}

fn loaded(program: &[Opcode]) -> Executor<30> {
    let mut executor: Executor<30> = Executor::new();
    assert_eq!(executor.load_static(program), Ok(()));
    executor
}

#[test]
fn it_handles_basic_code() {
    let (mut executor, mut event_handler) = get_prepared();

    feed(&mut executor, &mut event_handler, 3, Trigger::LongClick);
    feed(&mut executor, &mut event_handler, 3, Trigger::ShortClick);
    assert!(!event_handler.is_empty());
    let cmd = event_handler.recv().unwrap();
    assert_eq!(cmd, Command::ToggleOutput(20));
    let cmd = event_handler.recv().unwrap();
    assert_eq!(cmd, Command::ToggleOutput(21));
    assert!(event_handler.is_empty());

    // Try procedure execution
    feed(&mut executor, &mut event_handler, 4, Trigger::ShortClick);
    assert!(!event_handler.is_empty());
    let cmd = event_handler.recv().unwrap();
    assert_eq!(cmd, Command::ActivateOutput(100));
    let cmd = event_handler.recv().unwrap();
    assert_eq!(cmd, Command::ActivateOutput(101));
    let cmd = event_handler.recv().unwrap();
    assert_eq!(cmd, Command::DeactivateOutput(110));
}

#[test]
fn it_handles_layers() {
    let (mut executor, mut event_handler) = get_prepared();

    // Try layer differentiator
    assert!(event_handler.is_empty());

    // Normal activation on layer 0 -> 10 output
    feed(&mut executor, &mut event_handler, 1, Trigger::ShortClick);
    // Holds layer 66 active.
    feed(&mut executor, &mut event_handler, 5, Trigger::Activated);
    // Now activates 13 instead.
    feed(&mut executor, &mut event_handler, 1, Trigger::ShortClick);
    // ...twice.
    feed(&mut executor, &mut event_handler, 1, Trigger::ShortClick);
    // Back to layer 1
    feed(&mut executor, &mut event_handler, 5, Trigger::Deactivated);
    // Activates 10.
    feed(&mut executor, &mut event_handler, 1, Trigger::ShortClick);

    let cmd = event_handler.recv().unwrap();
    assert_eq!(cmd, Command::ToggleOutput(10));
    let cmd = event_handler.recv().unwrap();
    assert_eq!(cmd, Command::ToggleOutput(13));
    let cmd = event_handler.recv().unwrap();
    assert_eq!(cmd, Command::ToggleOutput(13));
    let cmd = event_handler.recv().unwrap();
    assert_eq!(cmd, Command::ToggleOutput(10));
    assert!(event_handler.is_empty());
}

#[test]
fn event_constructor_fills_both_fields() {
    let Event::ButtonTrigger(data) = Event::new_button_trigger(7, Trigger::LongActivated);
    assert_eq!(data, ButtonTrigger { in_idx: 7, trigger: Trigger::LongActivated });
}

#[test]
fn short_click_toggles_bound_output() {
    let mut executor = loaded(&[
        Opcode::Start(0),
        Opcode::BindShortToggle(1, 10),
        Opcode::BindShortToggle(2, 11),
        Opcode::Stop,
    ]);
    assert!(executor.take_emitted().is_empty());
    executor.parse_event(&Event::new_button_trigger(1, Trigger::ShortClick)).unwrap();
    assert_eq!(executor.take_emitted(), vec![Command::ToggleOutput(10)]);
    assert!(executor.take_emitted().is_empty());
}

#[test]
fn long_and_short_click_keep_their_order() {
    let mut executor = loaded(&[
        Opcode::Start(0),
        Opcode::BindLongToggle(3, 20),
        Opcode::BindShortToggle(3, 21),
        Opcode::Stop,
    ]);
    executor.parse_event(&Event::new_button_trigger(3, Trigger::LongClick)).unwrap();
    executor.parse_event(&Event::new_button_trigger(3, Trigger::ShortClick)).unwrap();
    assert_eq!(
        executor.take_emitted(),
        vec![Command::ToggleOutput(20), Command::ToggleOutput(21)]
    );
}

#[test]
fn held_layer_changes_what_a_click_does() {
    let mut executor = loaded(&[
        Opcode::Start(0),
        Opcode::BindLayerHold(5, 66),
        Opcode::BindShortToggle(1, 10),
        Opcode::LayerPush(66),
        Opcode::BindShortToggle(1, 13),
        Opcode::Stop,
    ]);
    assert_eq!(executor.current_layer(), 0);
    executor.parse_event(&Event::new_button_trigger(1, Trigger::ShortClick)).unwrap();
    executor.parse_event(&Event::new_button_trigger(5, Trigger::Activated)).unwrap();
    assert_eq!(executor.current_layer(), 66);
    executor.parse_event(&Event::new_button_trigger(1, Trigger::ShortClick)).unwrap();
    executor.parse_event(&Event::new_button_trigger(5, Trigger::Deactivated)).unwrap();
    assert_eq!(executor.current_layer(), 0);
    executor.parse_event(&Event::new_button_trigger(1, Trigger::ShortClick)).unwrap();
    assert_eq!(
        executor.take_emitted(),
        vec![Command::ToggleOutput(10), Command::ToggleOutput(13), Command::ToggleOutput(10)]
    );
}

#[test]
fn bound_procedure_emits_in_program_order() {
    let mut executor = loaded(&[
        Opcode::Start(0),
        Opcode::BindShortCall(4, 1),
        Opcode::Stop,
        Opcode::Start(1),
        Opcode::Activate(100),
        Opcode::Activate(101),
        Opcode::Deactivate(110),
        Opcode::Stop,
    ]);
    executor.parse_event(&Event::new_button_trigger(4, Trigger::ShortClick)).unwrap();
    assert_eq!(
        executor.take_emitted(),
        vec![
            Command::ActivateOutput(100),
            Command::ActivateOutput(101),
            Command::DeactivateOutput(110)
        ]
    );
}

#[test]
fn output_procedure_emits_one_command_per_opcode() {
    let mut executor = loaded(&[
        Opcode::Start(0),
        Opcode::Stop,
        Opcode::Start(9),
        Opcode::Toggle(1),
        Opcode::Toggle(1),
        Opcode::Deactivate(2),
        Opcode::Activate(3),
        Opcode::Toggle(4),
        Opcode::Stop,
        Opcode::Toggle(5),
    ]);
    assert_eq!(executor.execute(9), Ok(()));
    assert_eq!(
        executor.take_emitted(),
        vec![
            Command::ToggleOutput(1),
            Command::ToggleOutput(1),
            Command::DeactivateOutput(2),
            Command::ActivateOutput(3),
            Command::ToggleOutput(4)
        ]
    );
    assert_eq!(executor.current_layer(), 0);
}

#[test]
fn empty_executor_has_no_setup_procedure() {
    let mut executor: Executor<30> = Executor::new();
    assert_eq!(executor.current_layer(), 0);
    assert!(executor.take_emitted().is_empty());
    assert_eq!(executor.execute(0), Err(Fault::MissingProcedure));
    assert_eq!(executor.parse_event(&Event::new_button_trigger(1, Trigger::ShortClick)), Ok(()));
    assert!(executor.take_emitted().is_empty());
    assert_eq!(executor.load_static(&[]), Err(Fault::MissingProcedure));
}

#[test]
fn emit_queues_commands_in_order() {
    let mut executor: Executor<4> = Executor::new();
    executor.emit(Command::ActivateOutput(1));
    executor.emit(Command::Noop);
    executor.emit(Command::DeactivateLayer(2));
    assert_eq!(
        executor.take_emitted(),
        vec![Command::ActivateOutput(1), Command::Noop, Command::DeactivateLayer(2)]
    );
    assert!(executor.take_emitted().is_empty());
}

#[test]
fn load_needs_setup_procedure_at_its_index_entry() {
    let mut executor: Executor<30> = Executor::new();
    assert_eq!(
        executor.load_static(&[Opcode::Noop, Opcode::Start(1), Opcode::Stop]),
        Err(Fault::MissingProcedure)
    );
    // The setup procedure may stand anywhere in memory.
    assert_eq!(
        executor.load_static(&[
            Opcode::Start(1),
            Opcode::Toggle(1),
            Opcode::Stop,
            Opcode::Start(0),
            Opcode::Toggle(2),
            Opcode::Stop
        ]),
        Ok(())
    );
    assert_eq!(executor.take_emitted(), vec![Command::ToggleOutput(2)]);
}

#[test]
fn load_rejects_long_program_and_keeps_the_old_one() {
    let mut executor = loaded(&[Opcode::Start(0), Opcode::Stop, Opcode::Start(1), Opcode::Toggle(7), Opcode::Stop]);
    let mut program = vec![Opcode::Noop; PROGRAM_SIZE + 1];
    program[0] = Opcode::Start(0);
    program[1] = Opcode::Stop;
    assert_eq!(executor.load_static(&program), Err(Fault::ProgramTooLong));
    assert_eq!(executor.execute(1), Ok(()));
    assert_eq!(executor.take_emitted(), vec![Command::ToggleOutput(7)]);
    program.pop();
    assert_eq!(executor.load_static(&program), Ok(()));
    assert_eq!(executor.execute(1), Err(Fault::MissingProcedure));
}

#[test]
fn load_rejects_procedure_outside_the_index() {
    let mut executor = loaded(&[Opcode::Start(0), Opcode::Stop, Opcode::Start(127), Opcode::Toggle(7), Opcode::Stop]);
    assert_eq!(executor.execute(127), Ok(()));
    assert_eq!(executor.take_emitted(), vec![Command::ToggleOutput(7)]);
    assert_eq!(
        executor.load_static(&[Opcode::Start(0), Opcode::Stop, Opcode::Start(128), Opcode::Stop]),
        Err(Fault::ProcedureOutOfRange)
    );
    // Nothing was loaded.
    assert_eq!(executor.execute(127), Ok(()));
    assert_eq!(executor.execute(128), Err(Fault::ProcedureOutOfRange));
    assert_eq!(executor.execute(255), Err(Fault::ProcedureOutOfRange));
}

#[test]
fn load_overwrites_memory_and_keeps_bindings() {
    let mut executor = loaded(&[
        Opcode::Start(0),
        Opcode::BindShortToggle(1, 10),
        Opcode::BindShortCall(2, 1),
        Opcode::Stop,
        Opcode::Start(1),
        Opcode::Toggle(50),
        Opcode::Stop,
    ]);
    assert_eq!(executor.load_static(&[Opcode::Start(0), Opcode::BindShortToggle(3, 30), Opcode::Stop]), Ok(()));
    // Bindings of the first program are still there.
    executor.parse_event(&Event::new_button_trigger(1, Trigger::ShortClick)).unwrap();
    executor.parse_event(&Event::new_button_trigger(3, Trigger::ShortClick)).unwrap();
    assert_eq!(
        executor.take_emitted(),
        vec![Command::ToggleOutput(10), Command::ToggleOutput(30)]
    );
    // Its procedures are not.
    assert_eq!(
        executor.parse_event(&Event::new_button_trigger(2, Trigger::ShortClick)),
        Err(Fault::MissingProcedure)
    );
    assert_eq!(executor.load_static(&[Opcode::Start(0), Opcode::BindClearAll, Opcode::Stop]), Ok(()));
    executor.parse_event(&Event::new_button_trigger(1, Trigger::ShortClick)).unwrap();
    assert!(executor.take_emitted().is_empty());
}

#[test]
fn load_ends_on_default_layer() {
    let mut executor = loaded(&[
        Opcode::Start(0),
        Opcode::LayerPush(3),
        Opcode::LayerPush(4),
        Opcode::BindShortToggle(1, 14),
        Opcode::Stop,
    ]);
    assert_eq!(executor.current_layer(), 0);
    executor.parse_event(&Event::new_button_trigger(1, Trigger::ShortClick)).unwrap();
    assert!(executor.take_emitted().is_empty());
    // The stack is empty again: all of it can be pushed.
    let mut program = vec![Opcode::Start(0)];
    for layer in 0..MAX_LAYER_STACK {
        program.push(Opcode::LayerPush(layer as u8 + 1));
    }
    program.push(Opcode::Stop);
    assert_eq!(executor.load_static(&program), Ok(()));
}

#[test]
fn last_start_marker_of_a_procedure_wins() {
    let mut executor = loaded(&[
        Opcode::Start(0),
        Opcode::Stop,
        Opcode::Start(1),
        Opcode::Toggle(1),
        Opcode::Stop,
        Opcode::Start(1),
        Opcode::Toggle(2),
        Opcode::Stop,
    ]);
    assert_eq!(executor.execute(1), Ok(()));
    assert_eq!(executor.take_emitted(), vec![Command::ToggleOutput(2)]);
}

#[test]
fn call_runs_procedure_and_goes_on() {
    let mut executor = loaded(&[
        Opcode::Start(0),
        Opcode::Stop,
        Opcode::Start(1),
        Opcode::Toggle(1),
        Opcode::Call(2),
        Opcode::Toggle(4),
        Opcode::Call(3),
        Opcode::Stop,
        Opcode::Start(2),
        Opcode::Toggle(2),
        Opcode::Call(3),
        Opcode::Noop,
        Opcode::Stop,
        Opcode::Start(3),
        Opcode::Toggle(3),
        Opcode::Stop,
    ]);
    assert_eq!(executor.execute(1), Ok(()));
    assert_eq!(
        executor.take_emitted(),
        vec![
            Command::ToggleOutput(1),
            Command::ToggleOutput(2),
            Command::ToggleOutput(3),
            Command::ToggleOutput(4),
            Command::ToggleOutput(3)
        ]
    );
}

fn chain(length: u8) -> Vec<Opcode> {
    // Procedure 0 is empty; procedure i calls procedure i + 1, the last one
    // toggles output 1, and each toggles output 2 on its way back.
    let mut program = vec![Opcode::Start(0), Opcode::Stop];
    for proc in 1..=length {
        program.push(Opcode::Start(proc));
        if proc < length {
            program.push(Opcode::Call(proc + 1));
        } else {
            program.push(Opcode::Toggle(1));
        }
        program.push(Opcode::Toggle(2));
        program.push(Opcode::Stop);
    }
    program
}

#[test]
fn calls_nest_up_to_the_depth_limit() {
    let depth = MAX_CALL_DEPTH as u8;
    let mut executor = loaded(&chain(depth));
    assert_eq!(executor.execute(1), Ok(()));
    let mut expected = vec![Command::ToggleOutput(1)];
    for _ in 0..depth {
        expected.push(Command::ToggleOutput(2));
    }
    assert_eq!(executor.take_emitted(), expected);
}

#[test]
fn calls_beyond_the_depth_limit_are_a_fault() {
    let mut executor = loaded(&chain(MAX_CALL_DEPTH as u8 + 1));
    assert_eq!(executor.execute(1), Err(Fault::CallDepthExceeded));
    assert!(executor.take_emitted().is_empty());
    // One level further in, the same chain fits.
    assert_eq!(executor.execute(2), Ok(()));
    assert_eq!(executor.take_emitted().len(), MAX_CALL_DEPTH + 1);
}

#[test]
fn procedure_that_calls_itself_is_a_fault() {
    let mut executor = loaded(&[
        Opcode::Start(0),
        Opcode::Stop,
        Opcode::Start(1),
        Opcode::Toggle(1),
        Opcode::Call(1),
        Opcode::Stop,
    ]);
    assert_eq!(executor.execute(1), Err(Fault::CallDepthExceeded));
    assert_eq!(executor.take_emitted(), vec![Command::ToggleOutput(1); MAX_CALL_DEPTH]);
}

#[test]
fn call_of_missing_procedure_is_a_fault() {
    let mut executor = loaded(&[
        Opcode::Start(0),
        Opcode::Stop,
        Opcode::Start(1),
        Opcode::Toggle(1),
        Opcode::Call(2),
        Opcode::Toggle(2),
        Opcode::Stop,
        Opcode::Start(3),
        Opcode::Call(200),
        Opcode::Stop,
    ]);
    assert_eq!(executor.execute(1), Err(Fault::MissingProcedure));
    assert_eq!(executor.take_emitted(), vec![Command::ToggleOutput(1)]);
    assert_eq!(executor.execute(3), Err(Fault::ProcedureOutOfRange));
}

#[test]
fn start_marker_inside_a_body_is_a_fault() {
    let mut executor = loaded(&[
        Opcode::Start(0),
        Opcode::Stop,
        Opcode::Start(1),
        Opcode::Toggle(1),
        Opcode::Start(2),
        Opcode::Toggle(2),
        Opcode::Stop,
    ]);
    assert_eq!(executor.execute(1), Err(Fault::UnexpectedStart));
    assert_eq!(executor.take_emitted(), vec![Command::ToggleOutput(1)]);
    assert_eq!(executor.execute(2), Ok(()));
    assert_eq!(executor.take_emitted(), vec![Command::ToggleOutput(2)]);
}

#[test]
fn procedure_without_stop_runs_off_memory() {
    let mut executor = loaded(&[
        Opcode::Start(0),
        Opcode::Stop,
        Opcode::Start(1),
        Opcode::Toggle(1),
    ]);
    assert_eq!(executor.execute(1), Err(Fault::ProgramOverrun));
    assert_eq!(executor.take_emitted(), vec![Command::ToggleOutput(1)]);
    // A start marker in the last cell has its body behind memory.
    let mut program = vec![Opcode::Noop; PROGRAM_SIZE];
    program[0] = Opcode::Start(0);
    program[1] = Opcode::Stop;
    program[PROGRAM_SIZE - 1] = Opcode::Start(5);
    assert_eq!(executor.load_static(&program), Ok(()));
    assert_eq!(executor.execute(5), Err(Fault::ProgramOverrun));
    // A stop in the last cell is reached.
    program[PROGRAM_SIZE - 2] = Opcode::Start(5);
    program[PROGRAM_SIZE - 1] = Opcode::Stop;
    assert_eq!(executor.load_static(&program), Ok(()));
    assert_eq!(executor.execute(5), Ok(()));
}

#[test]
fn setup_fault_ends_loading() {
    let mut executor: Executor<2> = Executor::new();
    assert_eq!(
        executor.load_static(&[
            Opcode::Start(0),
            Opcode::Toggle(1),
            Opcode::LayerPush(9),
            Opcode::BindShortToggle(0, 1),
            Opcode::Toggle(2),
            Opcode::Stop
        ]),
        Err(Fault::ReservedInput)
    );
    assert_eq!(executor.take_emitted(), vec![Command::ToggleOutput(1)]);
    // The run stopped where the fault was: the pushed layer is still held.
    assert_eq!(executor.current_layer(), 9);
    assert_eq!(
        executor.load_static(&[
            Opcode::Start(0),
            Opcode::LayerDefault,
            Opcode::BindShortToggle(1, 1),
            Opcode::BindShortToggle(2, 1),
            Opcode::BindShortToggle(1, 2),
            Opcode::BindShortToggle(3, 1),
            Opcode::Stop
        ]),
        Err(Fault::BindingsFull)
    );
    executor.parse_event(&Event::new_button_trigger(1, Trigger::ShortClick)).unwrap();
    assert_eq!(executor.take_emitted(), vec![Command::ToggleOutput(2)]);
}

#[test]
fn layer_push_has_limits() {
    let mut executor = loaded(&[
        Opcode::Start(0),
        Opcode::Stop,
        Opcode::Start(1),
        Opcode::LayerPush(129),
        Opcode::Stop,
        Opcode::Start(2),
        Opcode::LayerPush(128),
        Opcode::Stop,
    ]);
    assert_eq!(executor.execute(1), Err(Fault::LayerOutOfRange));
    assert_eq!(executor.current_layer(), 0);
    for _ in 0..MAX_LAYER_STACK {
        assert_eq!(executor.execute(2), Ok(()));
        assert_eq!(executor.current_layer(), 128);
    }
    assert_eq!(executor.execute(2), Err(Fault::LayerStackFull));
    assert_eq!(executor.current_layer(), 128);
}

#[test]
fn layer_opcodes_move_the_current_layer() {
    let mut executor = loaded(&[
        Opcode::Start(0),
        Opcode::Stop,
        Opcode::Start(1),
        Opcode::LayerPush(3),
        Opcode::LayerPush(4),
        Opcode::Stop,
        Opcode::Start(2),
        Opcode::LayerPop,
        Opcode::Stop,
        Opcode::Start(3),
        Opcode::LayerSet(200),
        Opcode::Stop,
        Opcode::Start(4),
        Opcode::LayerDefault,
        Opcode::Stop,
    ]);
    assert_eq!(executor.execute(1), Ok(()));
    assert_eq!(executor.current_layer(), 4);
    assert_eq!(executor.execute(2), Ok(()));
    assert_eq!(executor.current_layer(), 3);
    assert_eq!(executor.execute(2), Ok(()));
    assert_eq!(executor.current_layer(), 0);
    assert_eq!(executor.execute(2), Ok(()));
    assert_eq!(executor.current_layer(), 0);
    assert_eq!(executor.execute(1), Ok(()));
    assert_eq!(executor.execute(1), Ok(()));
    assert_eq!(executor.execute(3), Ok(()));
    assert_eq!(executor.current_layer(), 200);
    // The set layer is the only one held.
    assert_eq!(executor.execute(2), Ok(()));
    assert_eq!(executor.current_layer(), 0);
    assert_eq!(executor.execute(1), Ok(()));
    assert_eq!(executor.execute(4), Ok(()));
    assert_eq!(executor.current_layer(), 0);
    assert_eq!(executor.execute(2), Ok(()));
    assert_eq!(executor.current_layer(), 0);
}

#[test]
fn every_trigger_can_call_a_procedure() {
    let mut executor = loaded(&[
        Opcode::Start(0),
        Opcode::BindShortCall(1, 1),
        Opcode::BindLongCall(1, 2),
        Opcode::BindActivateCall(1, 3),
        Opcode::BindDeactivateCall(1, 4),
        Opcode::BindLongActivate(1, 5),
        Opcode::BindLongDeactivate(1, 6),
        Opcode::Stop,
        Opcode::Start(1),
        Opcode::Toggle(1),
        Opcode::Stop,
        Opcode::Start(2),
        Opcode::Toggle(2),
        Opcode::Stop,
        Opcode::Start(3),
        Opcode::Toggle(3),
        Opcode::Stop,
        Opcode::Start(4),
        Opcode::Toggle(4),
        Opcode::Stop,
        Opcode::Start(5),
        Opcode::Toggle(5),
        Opcode::Stop,
        Opcode::Start(6),
        Opcode::Toggle(6),
        Opcode::Stop,
    ]);
    for trigger in [
        Trigger::LongDeactivated,
        Trigger::LongActivated,
        Trigger::Deactivated,
        Trigger::Activated,
        Trigger::LongClick,
        Trigger::ShortClick,
    ] {
        executor.parse_event(&Event::new_button_trigger(1, trigger)).unwrap();
    }
    assert_eq!(
        executor.take_emitted(),
        vec![
            Command::ToggleOutput(6),
            Command::ToggleOutput(5),
            Command::ToggleOutput(4),
            Command::ToggleOutput(3),
            Command::ToggleOutput(2),
            Command::ToggleOutput(1)
        ]
    );
}

#[test]
fn release_of_layer_hold_fires_no_binding() {
    let mut executor = loaded(&[
        Opcode::Start(0),
        Opcode::BindLayerHold(5, 7),
        Opcode::BindDeactivateCall(5, 1),
        Opcode::LayerPush(7),
        Opcode::BindDeactivateCall(5, 1),
        Opcode::Stop,
        Opcode::Start(1),
        Opcode::Toggle(1),
        Opcode::Stop,
    ]);
    // Nothing held: the release fires its binding.
    executor.parse_event(&Event::new_button_trigger(5, Trigger::Deactivated)).unwrap();
    assert_eq!(executor.take_emitted(), vec![Command::ToggleOutput(1)]);
    executor.parse_event(&Event::new_button_trigger(5, Trigger::Activated)).unwrap();
    assert_eq!(executor.current_layer(), 7);
    assert!(executor.take_emitted().is_empty());
    // The release that drops the layer stops there.
    executor.parse_event(&Event::new_button_trigger(5, Trigger::Deactivated)).unwrap();
    assert_eq!(executor.current_layer(), 0);
    assert!(executor.take_emitted().is_empty());
    executor.parse_event(&Event::new_button_trigger(5, Trigger::Deactivated)).unwrap();
    assert_eq!(executor.take_emitted(), vec![Command::ToggleOutput(1)]);
}

#[test]
fn layer_holds_beyond_the_stack_are_a_fault() {
    let mut executor = loaded(&[
        Opcode::Start(0),
        Opcode::BindLayerHold(5, 0),
        Opcode::BindLayerHold(6, 7),
        Opcode::Stop,
    ]);
    // Input 5 holds the default layer, so that its binding stays in sight.
    for _ in 0..MAX_LAYER_STACK {
        assert_eq!(executor.parse_event(&Event::new_button_trigger(5, Trigger::Activated)), Ok(()));
        assert_eq!(executor.current_layer(), 0);
    }
    assert_eq!(
        executor.parse_event(&Event::new_button_trigger(5, Trigger::Activated)),
        Err(Fault::LayerStackFull)
    );
    assert_eq!(
        executor.parse_event(&Event::new_button_trigger(6, Trigger::Activated)),
        Err(Fault::LayerStackFull)
    );
    assert_eq!(executor.current_layer(), 0);
    assert_eq!(executor.parse_event(&Event::new_button_trigger(5, Trigger::Deactivated)), Ok(()));
    assert_eq!(executor.parse_event(&Event::new_button_trigger(6, Trigger::Activated)), Ok(()));
    assert_eq!(executor.current_layer(), 7);
    // On layer 7 input 5 has no binding: the event is dropped.
    assert_eq!(executor.parse_event(&Event::new_button_trigger(5, Trigger::Activated)), Ok(()));
    assert_eq!(executor.current_layer(), 7);
}

#[test]
fn event_without_binding_is_dropped() {
    let mut executor = loaded(&[Opcode::Start(0), Opcode::BindShortToggle(1, 10), Opcode::Stop]);
    assert_eq!(executor.parse_event(&Event::new_button_trigger(2, Trigger::ShortClick)), Ok(()));
    assert_eq!(executor.parse_event(&Event::new_button_trigger(1, Trigger::LongClick)), Ok(()));
    assert_eq!(executor.parse_event(&Event::new_button_trigger(1, Trigger::Deactivated)), Ok(()));
    assert_eq!(executor.parse_event(&Event::new_button_trigger(0, Trigger::ShortClick)), Ok(()));
    assert!(executor.take_emitted().is_empty());
    assert_eq!(executor.current_layer(), 0);
}

#[test]
fn fire_carries_out_each_kind_of_action() {
    let mut executor = loaded(&[
        Opcode::Start(0),
        Opcode::Stop,
        Opcode::Start(1),
        Opcode::Deactivate(8),
        Opcode::Stop,
    ]);
    assert_eq!(executor.fire(1, Action::Noop), Ok(()));
    assert!(executor.take_emitted().is_empty());
    assert_eq!(executor.fire(1, Action::Single(Command::ActivateOutput(3))), Ok(()));
    assert_eq!(executor.fire(1, Action::Single(Command::Noop)), Ok(()));
    assert_eq!(executor.fire(1, Action::Proc(1)), Ok(()));
    assert_eq!(
        executor.take_emitted(),
        vec![Command::ActivateOutput(3), Command::Noop, Command::DeactivateOutput(8)]
    );
    assert_eq!(executor.fire(1, Action::Single(Command::ActivateLayer(4))), Ok(()));
    assert_eq!(executor.current_layer(), 4);
    assert!(executor.take_emitted().is_empty());
    assert_eq!(
        executor.fire(1, Action::Single(Command::DeactivateLayer(4))),
        Err(Fault::UnsupportedCommand)
    );
    assert_eq!(executor.current_layer(), 4);
    assert_eq!(executor.fire(1, Action::Proc(2)), Err(Fault::MissingProcedure));
    for _ in 1..MAX_LAYER_STACK {
        assert_eq!(executor.fire(2, Action::Single(Command::ActivateLayer(5))), Ok(()));
    }
    assert_eq!(
        executor.fire(2, Action::Single(Command::ActivateLayer(6))),
        Err(Fault::LayerStackFull)
    );
    assert_eq!(executor.current_layer(), 5);
}
