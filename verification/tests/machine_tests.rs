use simple_machine::gcode::parse;
use simple_machine::machine::{
    Aggregator, BlockKind, Command, CommandEntry, SimpleMachine, SyncEntry, ToolConfig,
    ToolState, classify,
};

fn machine_for(text: &str) -> SimpleMachine {
    SimpleMachine::new(parse(text))
}

#[test]
fn one_unit_move_along_x() {
    let mut m = machine_for("G1 X1.00 Y0 Z0 E0");
    assert_eq!(0, m.process());
    let b = m.last_barrier.unwrap();
    assert_eq!((100, 0, 0, 0), (b.steps_x, b.steps_y, b.steps_z, b.steps_e));
    assert_eq!(100, m.toolstate.x);
    assert_eq!(0, m.toolstate.y);
    assert_eq!(0, m.toolstate.z);
    assert_eq!(0, m.toolstate.e);
    assert_eq!(1, m.pc);
    assert_eq!(1, m.process());
}

#[test]
fn diagonal_half_unit_move() {
    let mut m = machine_for("G0 X0.50 Y0.50 Z0 E0");
    assert_eq!(0, m.process());
    let b = m.last_barrier.unwrap();
    assert_eq!((50, 50, 0, 0), (b.steps_x, b.steps_y, b.steps_z, b.steps_e));
}

#[test]
fn feedrate_then_move() {
    let mut m = machine_for("G1 F2000\nG1 X0.10 Y0");
    assert_eq!(0, m.process());
    let first = m.last_barrier.unwrap();
    assert_eq!((0, 0, 0, 0), (first.steps_x, first.steps_y, first.steps_z, first.steps_e));
    assert_eq!(2_000_000_000, first.rate);
    assert_eq!(0, m.process());
    let second = m.last_barrier.unwrap();
    assert_eq!(2_000_000_000, m.toolstate.feedrate);
    assert_eq!(10, first.steps_x + second.steps_x);
    assert_eq!(0, first.steps_y + second.steps_y);
    assert_eq!(0, first.steps_z + second.steps_z);
    assert_eq!(0, first.steps_e + second.steps_e);
}

#[test]
fn negative_moves() {
    let mut m = machine_for("G1 X-0.03 Y0.03");
    assert_eq!(0, m.process());
    let b = m.last_barrier.unwrap();
    assert_eq!((-3, 3, 0, 0), (b.steps_x, b.steps_y, b.steps_z, b.steps_e));
}

#[test]
fn section_label_moves_nothing() {
    let mut m = machine_for("O100 (section)");
    assert_eq!(0, m.process());
    assert_eq!(None, m.last_barrier);
    assert_eq!(1, m.pc);
    assert_eq!(ToolState::new(), m.toolstate);
}

#[test]
fn half_circle_ccw_arc() {
    let mut m = machine_for("G3 X0 Y10 I0 J5");
    assert_eq!(0, m.process());
    let b = m.last_barrier.unwrap();
    // the cursor ends exactly on the target
    assert_eq!(0, m.toolstate.x);
    assert_eq!(1000, m.toolstate.y);
    assert_eq!(1000, b.steps_y);
    // net X pulses stay within the half-circumference bound, r = 5
    let bound = (std::f64::consts::PI * 5.0 * 100.0).ceil() as i64 + 1;
    assert!(b.steps_x.abs() <= bound);
}

#[test]
fn half_circle_cw_arc_ends_on_target() {
    let mut m = machine_for("G2 X0 Y10 I0 J5");
    assert_eq!(0, m.process());
    // the clockwise sweep takes the long way, but the cursor still ends
    // exactly on the target
    assert_eq!(0, m.toolstate.x);
    assert_eq!(1000, m.toolstate.y);
    let b = m.last_barrier.unwrap();
    assert_eq!((0, 1000), (b.steps_x, b.steps_y));
}

#[test]
fn extruder_moves_like_an_axis() {
    let mut m = machine_for("G1 E0.25");
    assert_eq!(0, m.process());
    let b = m.last_barrier.unwrap();
    assert_eq!((0, 0, 0, 25), (b.steps_x, b.steps_y, b.steps_z, b.steps_e));
    assert_eq!(25, m.toolstate.e);
}

#[test]
fn unsupported_command_is_skipped() {
    let mut m = machine_for("M104 S200\nG1 X0.01");
    assert_eq!(0, m.process());
    assert_eq!(None, m.last_barrier);
    assert_eq!(ToolState::new(), m.toolstate);
    assert_eq!(0, m.process());
    assert_eq!(1, m.toolstate.x);
}

#[test]
fn unsupported_g_major_is_skipped() {
    let mut m = machine_for("G92 X5");
    assert_eq!(0, m.process());
    assert_eq!(None, m.last_barrier);
    assert_eq!(ToolState::new(), m.toolstate);
}

#[test]
fn classify_dispatch() {
    let p = parse("G0 X1\nG1 X1\nG2 X1 I1\nG3 X1 I1\nO7\nT4");
    assert_eq!(BlockKind::Linear, classify(p.get(&0).unwrap()));
    assert_eq!(BlockKind::Linear, classify(p.get(&1).unwrap()));
    assert_eq!(BlockKind::ArcCw, classify(p.get(&2).unwrap()));
    assert_eq!(BlockKind::ArcCcw, classify(p.get(&3).unwrap()));
    assert_eq!(BlockKind::Section, classify(p.get(&4).unwrap()));
    assert_eq!(BlockKind::Unsupported, classify(p.get(&5).unwrap()));
}

#[test]
fn aggregator_counts_pulses_and_publishes_on_done() {
    let mut a = Aggregator::new();
    let out = a.apply(&CommandEntry { command: Command::StepperX, value: 1 });
    assert_eq!(None, out.barrier);
    assert_eq!(1, out.snapshot.steps_x);
    assert_eq!(1, a.sync.steps_x);
    assert_eq!(0, a.gui.steps_x);
    a.apply(&CommandEntry { command: Command::StepperY, value: -1 });
    a.apply(&CommandEntry { command: Command::Feedrate, value: 500_000_000 });
    let done = a.apply(&CommandEntry { command: Command::Done, value: 0 });
    let b = done.barrier.unwrap();
    assert_eq!((1, -1, 0, 0), (b.steps_x, b.steps_y, b.steps_z, b.steps_e));
    assert_eq!(500_000_000, b.rate);
    // the driver-bound counters reset, the rate stays
    assert_eq!(0, a.sync.steps_x);
    assert_eq!(500_000_000, a.sync.rate);
    assert!(!done.quit);
    let quit = a.apply(&CommandEntry { command: Command::Quit, value: 0 });
    assert!(quit.quit);
}

#[test]
fn update_toolstate_applies_steps_and_rate() {
    let mut state = ToolState::new();
    let entry = SyncEntry { steps_x: 3, steps_y: -2, steps_z: 1, steps_e: 0, rate: 7 };
    SimpleMachine::update_toolstate(&entry, &mut state);
    assert_eq!(3, state.x);
    assert_eq!(-2, state.y);
    assert_eq!(1, state.z);
    assert_eq!(0, state.e);
    assert_eq!(7, state.feedrate);
}

#[test]
fn default_configuration() {
    let c = ToolConfig::new();
    assert_eq!(
        (100, 100, 100, 100),
        (c.steps_per_unit_x, c.steps_per_unit_y, c.steps_per_unit_z, c.steps_per_unit_e)
    );
    let t = ToolState::new();
    assert_eq!((0, 0, 0, 0), (t.x, t.y, t.z, t.e));
    assert_eq!(1_000_000_000, t.feedrate);
}

#[test]
fn out_of_range_coordinates_move_nothing() {
    let mut m = machine_for("G1 X2000");
    assert_eq!(0, m.process());
    assert_eq!(None, m.last_barrier);
    assert_eq!(ToolState::new(), m.toolstate);
    assert_eq!(1, m.pc);
}

#[test]
fn missing_program_counter_key_terminates() {
    // sparse keys end the walk where the next counter value is missing
    let mut m = machine_for("N0 G1 X0.01\nN5 G1 X0.02");
    assert_eq!(0, m.process());
    assert_eq!(1, m.process());
    assert_eq!(1, m.toolstate.x);
}
