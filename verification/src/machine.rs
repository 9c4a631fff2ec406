//! The motion pipeline: commands, the pulse aggregator, kinematic state.
//!
//! The interpolators turn one block into an ordered sequence of commands
//! (per-axis unit pulses, feedrate changes, a `Done` barrier). The
//! aggregator consumes commands in arrival order and folds them into two
//! sync accumulators: a driver-bound one published at each `Done`, and a
//! UI-bound one published after every command.

use vstd::prelude::*;
use crate::fixed::FixedResolution;
use crate::fixed::raw_of;
use crate::fixed::lemma_raw_of_bound;
use crate::gcode::GCode;
use crate::gcode::GCodeBlock;
use crate::gcode::GCodeProgram;
use crate::math::dda_offset;
use crate::math::dda_offset_exec;
use crate::math::isqrt_ceil;
use crate::math::sqrt_ceil;
use crate::math::lemma_dda_offset_bound;
use crate::math::lemma_dda_offset_final;
use crate::math::lemma_dda_offset_monotone;
use crate::MICRO;
use crate::RAW_LIMIT;
use vstd::math::abs;

verus! {

/// The kind of one pipeline command.
#[derive(Debug, Clone, Copy, PartialEq, Eq, Structural)]
pub enum Command {
    StepperX,
    StepperY,
    StepperZ,
    StepperE,
    Feedrate,
    Done,
    Quit,
}

/// One pipeline command. For stepper commands the value is the pulse
/// direction (+1 or -1); for `Feedrate` it is the new feedrate in
/// micro-units; otherwise it is 0.
#[derive(Debug, Clone, Copy, PartialEq, Eq, Structural)]
pub struct CommandEntry {
    pub command: Command,
    pub value: i64,
}

/// Signed step counts accumulated since the last reset, and the last
/// feedrate seen, in micro-units.
#[derive(Debug, Clone, Copy, PartialEq, Eq, Structural)]
pub struct SyncEntry {
    pub steps_x: i64,
    pub steps_y: i64,
    pub steps_z: i64,
    pub steps_e: i64,
    pub rate: i64,
}

impl SyncEntry {
    /// A fresh accumulator: no steps, rate 0.
    pub fn new() -> (r: SyncEntry)
        ensures
            r == (SyncEntry { steps_x: 0, steps_y: 0, steps_z: 0, steps_e: 0, rate: 0 }),
    {
        SyncEntry { steps_x: 0, steps_y: 0, steps_z: 0, steps_e: 0, rate: 0 }
    }

    /// All four step counters lie within `m` of zero.
    pub open spec fn steps_bounded(self, m: int) -> bool {
        &&& -m <= self.steps_x <= m
        &&& -m <= self.steps_y <= m
        &&& -m <= self.steps_z <= m
        &&& -m <= self.steps_e <= m
    }
}

/// One command folded into an accumulator, before any reset.
pub open spec fn bump(s: SyncEntry, e: CommandEntry) -> SyncEntry {
    let sig = if e.value < 0 { -1i64 } else if e.value > 0 { 1i64 } else { 0i64 };
    match e.command {
        Command::StepperX => SyncEntry {
            steps_x: vstd::wrapping::i64_specs::wrapping_add(s.steps_x, sig),
            ..s
        },
        Command::StepperY => SyncEntry {
            steps_y: vstd::wrapping::i64_specs::wrapping_add(s.steps_y, sig),
            ..s
        },
        Command::StepperZ => SyncEntry {
            steps_z: vstd::wrapping::i64_specs::wrapping_add(s.steps_z, sig),
            ..s
        },
        Command::StepperE => SyncEntry {
            steps_e: vstd::wrapping::i64_specs::wrapping_add(s.steps_e, sig),
            ..s
        },
        Command::Feedrate => SyncEntry { rate: e.value, ..s },
        Command::Done => s,
        Command::Quit => s,
    }
}

/// The driver-bound accumulator after one command: `Done` publishes and
/// resets the step counters, keeping the rate.
pub open spec fn sync_after(s: SyncEntry, e: CommandEntry) -> SyncEntry {
    if e.command is Done {
        SyncEntry { steps_x: 0, steps_y: 0, steps_z: 0, steps_e: 0, rate: s.rate }
    } else {
        bump(s, e)
    }
}

/// The UI-bound accumulator after one command: published and reset every
/// time, keeping the rate.
pub open spec fn gui_after(g: SyncEntry, e: CommandEntry) -> SyncEntry {
    SyncEntry { steps_x: 0, steps_y: 0, steps_z: 0, steps_e: 0, rate: bump(g, e).rate }
}

/// The two sync accumulators of the pulse aggregator.
#[derive(Debug, Clone, Copy, PartialEq, Eq, Structural)]
pub struct Aggregator {
    pub sync: SyncEntry,
    pub gui: SyncEntry,
}

/// What one aggregated command produced: a barrier entry at `Done`, the
/// UI snapshot, and whether the pipeline is to terminate.
#[derive(Debug, Clone, Copy, PartialEq, Eq, Structural)]
pub struct AggregateOutcome {
    pub barrier: Option<SyncEntry>,
    pub snapshot: SyncEntry,
    pub quit: bool,
}

/// The aggregator state after a whole command sequence.
pub open spec fn agg_after(a: Aggregator, cmds: Seq<CommandEntry>) -> Aggregator
    decreases cmds.len(),
{
    if cmds.len() == 0 {
        a
    } else {
        agg_after(agg_step(a, cmds[0]), cmds.drop_first())
    }
}

pub open spec fn agg_step(a: Aggregator, e: CommandEntry) -> Aggregator {
    Aggregator { sync: sync_after(a.sync, e), gui: gui_after(a.gui, e) }
}

/// The barrier entries a command sequence publishes, in order: one per
/// `Done`, each holding the counts accumulated since the previous reset.
pub open spec fn agg_barriers(a: Aggregator, cmds: Seq<CommandEntry>) -> Seq<SyncEntry>
    decreases cmds.len(),
{
    if cmds.len() == 0 {
        Seq::empty()
    } else {
        let head: Seq<SyncEntry> = if cmds[0].command is Done {
            seq![a.sync]
        } else {
            Seq::empty()
        };
        head + agg_barriers(agg_step(a, cmds[0]), cmds.drop_first())
    }
}

/// How many `Done` barriers a command sequence holds.
pub open spec fn count_done(cmds: Seq<CommandEntry>) -> nat
    decreases cmds.len(),
{
    if cmds.len() == 0 {
        0
    } else {
        (if cmds[0].command is Done { 1nat } else { 0nat }) + count_done(cmds.drop_first())
    }
}

/// Barrier discipline: folding a command sequence publishes exactly one
/// sync entry per `Done` command, whatever the commands around them.
pub proof fn lemma_barrier_discipline(a: Aggregator, cmds: Seq<CommandEntry>)
    ensures
        agg_barriers(a, cmds).len() == count_done(cmds),
    decreases cmds.len(),
{
    if cmds.len() > 0 {
        lemma_barrier_discipline(agg_step(a, cmds[0]), cmds.drop_first());
    }
}

impl Aggregator {
    pub fn new() -> (r: Aggregator)
        ensures
            r.sync == (SyncEntry { steps_x: 0, steps_y: 0, steps_z: 0, steps_e: 0, rate: 0 }),
            r.gui == (SyncEntry { steps_x: 0, steps_y: 0, steps_z: 0, steps_e: 0, rate: 0 }),
    {
        Aggregator { sync: SyncEntry::new(), gui: SyncEntry::new() }
    }

    /// Consume one command: pulses add their sign to both accumulators,
    /// `Feedrate` sets both rates, `Done` publishes the driver-bound entry
    /// and resets its counters, `Quit` asks for termination. The UI-bound
    /// snapshot is published after every command and its counters reset.
    pub fn apply(&mut self, entry: &CommandEntry) -> (r: AggregateOutcome)
        ensures
            final(self).sync == sync_after(old(self).sync, *entry),
            final(self).gui == gui_after(old(self).gui, *entry),
            r.barrier == if entry.command is Done {
                Some(old(self).sync)
            } else {
                Option::<SyncEntry>::None
            },
            r.snapshot == bump(old(self).gui, *entry),
            r.quit == (entry.command is Quit),
    {
        let sigmoid_value: i64 = if entry.value < 0 {
            -1
        } else if entry.value > 0 {
            1
        } else {
            0
        };
        let mut barrier: Option<SyncEntry> = None;
        let mut quit = false;
        match entry.command {
            Command::StepperX => {
                self.sync.steps_x = self.sync.steps_x.wrapping_add(sigmoid_value);
                self.gui.steps_x = self.gui.steps_x.wrapping_add(sigmoid_value);
            }
            Command::StepperY => {
                self.sync.steps_y = self.sync.steps_y.wrapping_add(sigmoid_value);
                self.gui.steps_y = self.gui.steps_y.wrapping_add(sigmoid_value);
            }
            Command::StepperZ => {
                self.sync.steps_z = self.sync.steps_z.wrapping_add(sigmoid_value);
                self.gui.steps_z = self.gui.steps_z.wrapping_add(sigmoid_value);
            }
            Command::StepperE => {
                self.sync.steps_e = self.sync.steps_e.wrapping_add(sigmoid_value);
                self.gui.steps_e = self.gui.steps_e.wrapping_add(sigmoid_value);
            }
            Command::Feedrate => {
                self.sync.rate = entry.value;
                self.gui.rate = entry.value;
            }
            Command::Done => {
                barrier = Some(self.sync);
                self.sync.steps_x = 0;
                self.sync.steps_y = 0;
                self.sync.steps_z = 0;
                self.sync.steps_e = 0;
            }
            Command::Quit => {
                quit = true;
            }
        }
        let snapshot = self.gui;
        self.gui.steps_x = 0;
        self.gui.steps_y = 0;
        self.gui.steps_z = 0;
        self.gui.steps_e = 0;
        AggregateOutcome { barrier, snapshot, quit }
    }
}

/// Real-valued kinematic state, carried exactly: the positions are raw
/// step counts at each axis's resolution, the feedrate is in micro-units.
#[derive(Debug, Clone, Copy, PartialEq, Eq, Structural)]
pub struct ToolState {
    pub x: i64,
    pub y: i64,
    pub z: i64,
    pub e: i64,
    pub feedrate: i64,
}

impl ToolState {
    /// The initial state: the origin, feedrate 1000 units.
    pub fn new() -> (r: ToolState)
        ensures
            r == (ToolState { x: 0, y: 0, z: 0, e: 0, feedrate: 1_000_000_000 }),
    {
        ToolState { x: 0, y: 0, z: 0, e: 0, feedrate: 1_000_000_000 }
    }
}

/// Steps-per-unit of each axis.
#[derive(Debug, Clone, Copy, PartialEq, Eq, Structural)]
pub struct ToolConfig {
    pub steps_per_unit_x: i32,
    pub steps_per_unit_y: i32,
    pub steps_per_unit_z: i32,
    pub steps_per_unit_e: i32,
}

impl ToolConfig {
    /// The default configuration: 100 steps per unit on every axis.
    pub fn new() -> (r: ToolConfig)
        ensures
            r == (ToolConfig {
                steps_per_unit_x: 100,
                steps_per_unit_y: 100,
                steps_per_unit_z: 100,
                steps_per_unit_e: 100,
            }),
    {
        ToolConfig {
            steps_per_unit_x: 100,
            steps_per_unit_y: 100,
            steps_per_unit_z: 100,
            steps_per_unit_e: 100,
        }
    }

    /// Every axis resolution is positive and within the supported range.
    pub open spec fn wf(self) -> bool {
        &&& 1 <= self.steps_per_unit_x <= crate::MAX_RESOLUTION
        &&& 1 <= self.steps_per_unit_y <= crate::MAX_RESOLUTION
        &&& 1 <= self.steps_per_unit_z <= crate::MAX_RESOLUTION
        &&& 1 <= self.steps_per_unit_e <= crate::MAX_RESOLUTION
    }
}

/// The sum of the values of all commands of kind `c`, in other words the
/// net signed pulse count of one axis.
pub open spec fn axis_sum(cmds: Seq<CommandEntry>, c: Command) -> int
    decreases cmds.len(),
{
    if cmds.len() == 0 {
        0
    } else {
        axis_sum(cmds.drop_last(), c) + if cmds.last().command == c {
            cmds.last().value as int
        } else {
            0
        }
    }
}

/// One appended command moves every per-kind sum by its own contribution
/// alone.
pub proof fn lemma_cmds_push(cmds: Seq<CommandEntry>, e: CommandEntry)
    ensures
        forall|c: Command| #[trigger] axis_sum(cmds.push(e), c)
            == axis_sum(cmds, c) + if e.command == c { e.value as int } else { 0 },
{
    assert(cmds.push(e).drop_last() =~= cmds);
    assert(cmds.push(e).last() == e);
}

/// Letters whose tokens name a coordinate and must stay within the raw
/// step limit.
pub open spec fn is_axis_letter(c: char) -> bool {
    c == 'X' || c == 'Y' || c == 'Z' || c == 'E' || c == 'I' || c == 'J'
}

/// A block the interpolators may run: every word well-formed, coordinate
/// words within the raw step limit.
pub open spec fn block_wf(block: Seq<GCode>) -> bool {
    forall|j: int| 0 <= j < block.len() ==> ((#[trigger] block[j]).wf()
        && (is_axis_letter(block[j].command)
            ==> -RAW_LIMIT <= block[j].value_micro() <= RAW_LIMIT))
}

/// Whether the interpolators may run a block, checked at run time.
pub fn block_in_bounds(block: &GCodeBlock) -> (r: bool)
    ensures
        r == block_wf(block@),
{
    let mut j: usize = 0;
    let mut ok = true;
    while j < block.len()
        invariant
            j <= block@.len(),
            ok == (forall|q: int| 0 <= q < j ==> ((#[trigger] block@[q]).wf()
                && (is_axis_letter(block@[q].command)
                    ==> -RAW_LIMIT <= block@[q].value_micro() <= RAW_LIMIT))),
        decreases block@.len() - j,
    {
        let g = &block[j];
        let wf_ok = -1_000_000 < g.minor && g.minor < 1_000_000;
        let c = g.command;
        let axis = c == 'X' || c == 'Y' || c == 'Z' || c == 'E' || c == 'I' || c == 'J';
        let range_ok = if axis && wf_ok {
            let v = g.major as i64 * 1_000_000 + g.minor;
            -RAW_LIMIT <= v && v <= RAW_LIMIT
        } else {
            true
        };
        ok = ok && wf_ok && range_ok;
        j += 1;
    }
    ok
}

/// The last parameter token of the block with the given command letter;
/// the first token is the principal instruction and never counts.
pub open spec fn last_param(block: Seq<GCode>, letter: char) -> Option<GCode>
    decreases block.len(),
{
    if block.len() <= 1 {
        None
    } else if block.last().command == letter {
        Some(block.last())
    } else {
        last_param(block.drop_last(), letter)
    }
}

/// The kinematic state a block asks for: absolute coordinates from the
/// last `X`/`Y`/`Z`/`E` words quantized to raw steps, the feedrate from the
/// last `F` word; anything the block leaves unsaid carries over.
pub open spec fn next_state(ts: ToolState, cfg: ToolConfig, block: Seq<GCode>) -> ToolState {
    ToolState {
        x: match last_param(block, 'X') {
            Some(g) => raw_of(g.value_micro(), cfg.steps_per_unit_x as int) as i64,
            None => ts.x,
        },
        y: match last_param(block, 'Y') {
            Some(g) => raw_of(g.value_micro(), cfg.steps_per_unit_y as int) as i64,
            None => ts.y,
        },
        z: match last_param(block, 'Z') {
            Some(g) => raw_of(g.value_micro(), cfg.steps_per_unit_z as int) as i64,
            None => ts.z,
        },
        e: match last_param(block, 'E') {
            Some(g) => raw_of(g.value_micro(), cfg.steps_per_unit_e as int) as i64,
            None => ts.e,
        },
        feedrate: match last_param(block, 'F') {
            Some(g) => g.value_micro() as i64,
            None => ts.feedrate,
        },
    }
}

/// What a block's principal instruction asks the driver to do.
#[derive(Debug, Clone, Copy, PartialEq, Eq, Structural)]
pub enum BlockKind {
    Linear,
    ArcCw,
    ArcCcw,
    Section,
    Unsupported,
}

pub open spec fn spec_classify(block: Seq<GCode>) -> BlockKind {
    if block.len() == 0 {
        BlockKind::Unsupported
    } else if block[0].command == 'G' {
        if block[0].major == 0 || block[0].major == 1 {
            BlockKind::Linear
        } else if block[0].major == 2 {
            BlockKind::ArcCw
        } else if block[0].major == 3 {
            BlockKind::ArcCcw
        } else {
            BlockKind::Unsupported
        }
    } else if block[0].command == 'O' {
        BlockKind::Section
    } else {
        BlockKind::Unsupported
    }
}

/// Dispatch on the first token: `G0`/`G1` are linear moves, `G2`/`G3`
/// clockwise and counterclockwise arcs, `O` a section label; anything else
/// is unsupported and moves nothing.
pub fn classify(block: &GCodeBlock) -> (k: BlockKind)
    ensures
        k == spec_classify(block@),
{
    if block.len() == 0 {
        return BlockKind::Unsupported;
    }
    let g = &block[0];
    if g.command == 'G' {
        if g.major == 0 || g.major == 1 {
            BlockKind::Linear
        } else if g.major == 2 {
            BlockKind::ArcCw
        } else if g.major == 3 {
            BlockKind::ArcCcw
        } else {
            BlockKind::Unsupported
        }
    } else if g.command == 'O' {
        BlockKind::Section
    } else {
        BlockKind::Unsupported
    }
}

/// Emit unit pulses of kind `which` until `cur` reaches `target`, one raw
/// step at a time, all in the direction of the difference.
fn step_axis(cmds: Vec<CommandEntry>, cur: i64, target: i64, which: Command) -> (r: (
    Vec<CommandEntry>,
    i64,
))
    requires
        which is StepperX || which is StepperY || which is StepperZ || which is StepperE,
        -0x20_0000_0000_0000 <= cur <= 0x20_0000_0000_0000,
        -0x20_0000_0000_0000 <= target <= 0x20_0000_0000_0000,
    ensures
        r.1 == target,
        r.0@.len() >= cmds@.len(),
        forall|i: int| 0 <= i < cmds@.len() ==> (#[trigger] r.0@[i]) == cmds@[i],
        forall|i: int| cmds@.len() <= i < r.0@.len()
            ==> (#[trigger] r.0@[i]).command == which
                && r.0@[i].value == if target >= cur { 1i64 } else { -1i64 },
        forall|c: Command| #[trigger] axis_sum(r.0@, c)
            == axis_sum(cmds@, c) + if c == which { target - cur } else { 0 },
        cur == target ==> r.0@ == cmds@,
        r.0@.len() == cmds@.len() + abs(target - cur),
{
    let mut out = cmds;
    let mut pos = cur;
    let ghost base = out@;
    while pos != target
        invariant
            -0x20_0000_0000_0000 <= pos <= 0x20_0000_0000_0000,
            -0x20_0000_0000_0000 <= target <= 0x20_0000_0000_0000,
            cur <= pos <= target || target <= pos <= cur,
            forall|i: int| 0 <= i < base.len() ==> (#[trigger] out@[i]) == base[i],
            forall|i: int| base.len() <= i < out@.len()
                ==> (#[trigger] out@[i]).command == which
                    && out@[i].value == if target >= cur { 1i64 } else { -1i64 },
            forall|c: Command| #[trigger] axis_sum(out@, c)
                == axis_sum(base, c) + if c == which { pos - cur } else { 0 },
            out@.len() == base.len() + abs(pos - cur),
        decreases abs(target - pos),
    {
        let direction: i64 = if pos < target {
            1
        } else {
            -1
        };
        proof {
            lemma_cmds_push(out@, CommandEntry { command: which, value: direction });
        }
        out.push(CommandEntry { command: which, value: direction });
        pos = pos + direction;
    }
    (out, pos)
}


/// The arc center offset the block asks for: the micro-unit values of the
/// last `I` and `J` words, or 0 where a word is missing.
pub open spec fn center_offset(block: Seq<GCode>, letter: char) -> int {
    match last_param(block, letter) {
        Some(g) => g.value_micro(),
        None => 0,
    }
}

/// The micro-unit `I`/`J` center offsets of a block.
#[verifier::loop_isolation(false)]
fn center_of_block(parameters: &GCodeBlock) -> (c: (i64, i64))
    requires
        block_wf(parameters@),
    ensures
        c.0 == center_offset(parameters@, 'I'),
        c.1 == center_offset(parameters@, 'J'),
        -RAW_LIMIT <= c.0 <= RAW_LIMIT,
        -RAW_LIMIT <= c.1 <= RAW_LIMIT,
{
    let mut ci: i64 = 0;
    let mut cj: i64 = 0;
    if parameters.len() == 0 {
        return (ci, cj);
    }
    let mut j: usize = 1;
    while j < parameters.len()
        invariant
            1 <= j <= parameters@.len(),
            ci == center_offset(parameters@.take(j as int), 'I'),
            cj == center_offset(parameters@.take(j as int), 'J'),
            -RAW_LIMIT <= ci <= RAW_LIMIT,
            -RAW_LIMIT <= cj <= RAW_LIMIT,
        decreases parameters@.len() - j,
    {
        let g = &parameters[j];
        proof {
            assert(parameters@.take(j + 1).drop_last() =~= parameters@.take(j as int));
            assert(parameters@.take(j + 1).last() == parameters@[j as int]);
            assert(parameters@[j as int].wf());
        }
        let value = g.major as i64 * 1_000_000 + g.minor;
        proof {
            assert(value == parameters@[j as int].value_micro());
        }
        if g.command == 'I' {
            ci = value;
        } else if g.command == 'J' {
            cj = value;
        }
        j += 1;
    }
    proof {
        assert(parameters@.take(parameters@.len() as int) =~= parameters@);
    }
    (ci, cj)
}

/// `c / TRIG_SCALE` of the radius: one cartesian component of a point on
/// the circle, never larger than the radius itself.
fn trig_component(c: i64, radius_micro: i64) -> (o: i64)
    requires
        -crate::trig::TRIG_SCALE <= c <= crate::trig::TRIG_SCALE,
        0 <= radius_micro <= 0x8000_0000_0000,
    ensures
        -radius_micro <= o <= radius_micro,
{
    if radius_micro == 0 {
        return 0;
    }
    proof {
        crate::math::lemma_scale_trunc_bound(c as int, radius_micro as int,
            crate::trig::TRIG_SCALE as int);
        assert((if c >= 0 { c as int } else { -(c as int) }) * (radius_micro as int)
            <= 0x4000_0000 * 0x8000_0000_0000) by (nonlinear_arith)
            requires
                -0x4000_0000 <= c <= 0x4000_0000,
                0 <= radius_micro <= 0x8000_0000_0000,
        ;
    }
    let o = crate::math::scale_trunc(c, radius_micro, crate::trig::TRIG_SCALE);
    proof {
        let s = crate::trig::TRIG_SCALE as int;
        let m = if c >= 0 { c as int } else { -(c as int) };
        assert(m * (radius_micro as int) <= s * (radius_micro as int)) by (nonlinear_arith)
            requires m <= s, radius_micro >= 0,
        ;
        vstd::arithmetic::div_mod::lemma_multiply_divide_le(
            m * (radius_micro as int), s, radius_micro as int);
    }
    o
}


/// The rate the last `Feedrate` command of a sequence sets, or the default.
pub open spec fn last_rate(cmds: Seq<CommandEntry>, default: i64) -> i64
    decreases cmds.len(),
{
    if cmds.len() == 0 {
        default
    } else if cmds.last().command is Feedrate {
        cmds.last().value
    } else {
        last_rate(cmds.drop_last(), default)
    }
}

/// Folding one more command is one aggregator step after the fold.
pub proof fn lemma_agg_after_snoc(a: Aggregator, cmds: Seq<CommandEntry>, e: CommandEntry)
    ensures
        agg_after(a, cmds.push(e)) == agg_step(agg_after(a, cmds), e),
    decreases cmds.len(),
{
    if cmds.len() == 0 {
        assert(cmds.push(e)[0] == e);
        assert(cmds.push(e).drop_first() =~= Seq::<CommandEntry>::empty());
        assert(agg_after(agg_step(a, e), Seq::<CommandEntry>::empty()) == agg_step(a, e));
        assert(agg_after(a, Seq::<CommandEntry>::empty()) == a);
    } else {
        assert(cmds.push(e)[0] == cmds[0]);
        assert(cmds.push(e).drop_first() =~= cmds.drop_first().push(e));
        lemma_agg_after_snoc(agg_step(a, cmds[0]), cmds.drop_first(), e);
    }
}

/// The barriers of one more command are those published before, plus one
/// published at a `Done`.
pub proof fn lemma_agg_barriers_snoc(a: Aggregator, cmds: Seq<CommandEntry>, e: CommandEntry)
    ensures
        agg_barriers(a, cmds.push(e)) == agg_barriers(a, cmds) + if e.command is Done {
            seq![agg_after(a, cmds).sync]
        } else {
            Seq::<SyncEntry>::empty()
        },
    decreases cmds.len(),
{
    let tail: Seq<SyncEntry> = if e.command is Done {
        seq![agg_after(a, cmds).sync]
    } else {
        Seq::<SyncEntry>::empty()
    };
    if cmds.len() == 0 {
        assert(cmds.push(e)[0] == e);
        assert(cmds.push(e).drop_first() =~= Seq::<CommandEntry>::empty());
        assert(agg_barriers(agg_step(a, e), Seq::<CommandEntry>::empty())
            == Seq::<SyncEntry>::empty());
        assert(agg_after(a, Seq::<CommandEntry>::empty()) == a);
        assert(agg_barriers(a, Seq::<CommandEntry>::empty()) == Seq::<SyncEntry>::empty());
        assert(agg_barriers(a, cmds.push(e)) =~= agg_barriers(a, cmds) + tail);
    } else {
        assert(cmds.push(e)[0] == cmds[0]);
        assert(cmds.push(e).drop_first() =~= cmds.drop_first().push(e));
        lemma_agg_barriers_snoc(agg_step(a, cmds[0]), cmds.drop_first(), e);
        let head: Seq<SyncEntry> = if cmds[0].command is Done {
            seq![a.sync]
        } else {
            Seq::<SyncEntry>::empty()
        };
        assert(head + (agg_barriers(agg_step(a, cmds[0]), cmds.drop_first()) + tail)
            =~= (head + agg_barriers(agg_step(a, cmds[0]), cmds.drop_first())) + tail);
    }
}

/// Unit pulses keep every per-kind sum within the sequence length.
pub proof fn lemma_axis_sum_bounded(cmds: Seq<CommandEntry>, c: Command)
    requires
        forall|i: int| 0 <= i < cmds.len() && (#[trigger] cmds[i]).command == c
            ==> cmds[i].value == 1i64 || cmds[i].value == -1i64,
    ensures
        -(cmds.len() as int) <= axis_sum(cmds, c) <= cmds.len() as int,
    decreases cmds.len(),
{
    if cmds.len() > 0 {
        let b = cmds.drop_last();
        assert forall|i: int| 0 <= i < b.len() && (#[trigger] b[i]).command == c
            implies b[i].value == 1i64 || b[i].value == -1i64 by {
            assert(b[i] == cmds[i]);
        }
        lemma_axis_sum_bounded(b, c);
    }
}

/// Folding commands with no `Done`, no `Quit`, and unit pulses: the
/// driver-bound counters advance by exactly the per-kind sums, the rates
/// follow the last `Feedrate`, and no barrier is published.
pub proof fn lemma_agg_body(a: Aggregator, cmds: Seq<CommandEntry>, m: int)
    requires
        forall|i: int| 0 <= i < cmds.len() ==> !((#[trigger] cmds[i]).command is Done),
        forall|i: int| 0 <= i < cmds.len() ==> !((#[trigger] cmds[i]).command is Quit),
        forall|i: int| 0 <= i < cmds.len() && ((#[trigger] cmds[i]).command is StepperX
            || cmds[i].command is StepperY || cmds[i].command is StepperZ
            || cmds[i].command is StepperE)
            ==> cmds[i].value == 1i64 || cmds[i].value == -1i64,
        0 <= m,
        a.sync.steps_bounded(m),
        m + cmds.len() < 0x7fff_ffff_ffff_ffff,
    ensures
        agg_after(a, cmds).sync.steps_x == a.sync.steps_x + axis_sum(cmds, Command::StepperX),
        agg_after(a, cmds).sync.steps_y == a.sync.steps_y + axis_sum(cmds, Command::StepperY),
        agg_after(a, cmds).sync.steps_z == a.sync.steps_z + axis_sum(cmds, Command::StepperZ),
        agg_after(a, cmds).sync.steps_e == a.sync.steps_e + axis_sum(cmds, Command::StepperE),
        agg_after(a, cmds).sync.rate == last_rate(cmds, a.sync.rate),
        agg_after(a, cmds).gui.rate == last_rate(cmds, a.gui.rate),
        cmds.len() > 0 ==> agg_after(a, cmds).gui.steps_bounded(0),
        cmds.len() == 0 ==> agg_after(a, cmds).gui == a.gui,
        agg_barriers(a, cmds) == Seq::<SyncEntry>::empty(),
        agg_after(a, cmds).sync.steps_bounded(m + cmds.len()),
    decreases cmds.len(),
{
    if cmds.len() > 0 {
        let b = cmds.drop_last();
        let e = cmds.last();
        assert(cmds =~= b.push(e));
        assert forall|i: int| 0 <= i < b.len() implies (#[trigger] b[i]) == cmds[i] by {}
        lemma_agg_body(a, b, m);
        lemma_agg_after_snoc(a, b, e);
        lemma_agg_barriers_snoc(a, b, e);
        lemma_axis_sum_bounded(b, Command::StepperX);
        lemma_axis_sum_bounded(b, Command::StepperY);
        lemma_axis_sum_bounded(b, Command::StepperZ);
        lemma_axis_sum_bounded(b, Command::StepperE);
        assert(agg_barriers(a, cmds) =~= Seq::<SyncEntry>::empty());
    }
}

/// One block's command train, folded from counters at rest: exactly one
/// barrier, holding the block's pulse sums and the effective feedrate.
pub proof fn lemma_agg_run(a: Aggregator, cmds: Seq<CommandEntry>)
    requires
        cmds.len() >= 1,
        cmds.last().command is Done,
        forall|i: int| 0 <= i < cmds.len() - 1 ==> !((#[trigger] cmds[i]).command is Done),
        forall|i: int| 0 <= i < cmds.len() ==> !((#[trigger] cmds[i]).command is Quit),
        forall|i: int| 0 <= i < cmds.len() && ((#[trigger] cmds[i]).command is StepperX
            || cmds[i].command is StepperY || cmds[i].command is StepperZ
            || cmds[i].command is StepperE)
            ==> cmds[i].value == 1i64 || cmds[i].value == -1i64,
        a.sync.steps_bounded(0),
        a.gui.steps_bounded(0),
        cmds.len() <= 0x100_0000_0000_0000,
    ensures
        ({
            let body = cmds.drop_last();
            &&& agg_barriers(a, cmds).len() == 1
            &&& agg_barriers(a, cmds)[0] == (SyncEntry {
                steps_x: axis_sum(body, Command::StepperX) as i64,
                steps_y: axis_sum(body, Command::StepperY) as i64,
                steps_z: axis_sum(body, Command::StepperZ) as i64,
                steps_e: axis_sum(body, Command::StepperE) as i64,
                rate: last_rate(body, a.sync.rate),
            })
            &&& axis_sum(body, Command::StepperX) == axis_sum(cmds, Command::StepperX)
            &&& axis_sum(body, Command::StepperY) == axis_sum(cmds, Command::StepperY)
            &&& axis_sum(body, Command::StepperZ) == axis_sum(cmds, Command::StepperZ)
            &&& axis_sum(body, Command::StepperE) == axis_sum(cmds, Command::StepperE)
            &&& agg_after(a, cmds).sync == (SyncEntry {
                steps_x: 0,
                steps_y: 0,
                steps_z: 0,
                steps_e: 0,
                rate: last_rate(body, a.sync.rate),
            })
            &&& agg_after(a, cmds).gui.steps_bounded(0)
            &&& agg_after(a, cmds).gui.rate == last_rate(body, a.gui.rate)
        }),
{
    let body = cmds.drop_last();
    let e = cmds.last();
    assert(cmds =~= body.push(e));
    assert forall|i: int| 0 <= i < body.len() implies (#[trigger] body[i]) == cmds[i] by {}
    lemma_agg_body(a, body, 0);
    lemma_agg_after_snoc(a, body, e);
    lemma_agg_barriers_snoc(a, body, e);
    lemma_axis_sum_bounded(body, Command::StepperX);
    lemma_axis_sum_bounded(body, Command::StepperY);
    lemma_axis_sum_bounded(body, Command::StepperZ);
    lemma_axis_sum_bounded(body, Command::StepperE);
    assert(agg_barriers(a, cmds)
        =~= Seq::<SyncEntry>::empty() + seq![agg_after(a, body).sync]);
    assert(agg_barriers(a, cmds)[0] == agg_after(a, body).sync);
}

/// The rate a command train with at most a leading `Feedrate` leaves.
pub proof fn lemma_last_rate_head(cmds: Seq<CommandEntry>, default: i64)
    requires
        forall|i: int| 1 <= i < cmds.len() ==> !((#[trigger] cmds[i]).command is Feedrate),
    ensures
        last_rate(cmds, default) == if cmds.len() >= 1 && cmds[0].command is Feedrate {
            cmds[0].value
        } else {
            default
        },
    decreases cmds.len(),
{
    if cmds.len() > 1 {
        let b = cmds.drop_last();
        assert(cmds.last() == cmds[cmds.len() - 1]);
        assert(!(cmds.last().command is Feedrate));
        assert forall|i: int| 1 <= i < b.len()
            implies !((#[trigger] b[i]).command is Feedrate) by {
            assert(b[i] == cmds[i]);
        }
        lemma_last_rate_head(b, default);
        assert(b[0] == cmds[0]);
    } else if cmds.len() == 1 {
        assert(cmds.last() == cmds[0]);
        assert(cmds.drop_last() =~= Seq::<CommandEntry>::empty());
        assert(last_rate(Seq::<CommandEntry>::empty(), default) == default);
    }
}

/// A parameter found in a well-formed block is itself well formed and, if
/// it names a coordinate, within the raw step limit.
pub proof fn lemma_last_param_props(block: Seq<GCode>, letter: char)
    requires
        block_wf(block),
    ensures
        match last_param(block, letter) {
            Some(g) => g.wf() && g.command == letter && (is_axis_letter(letter)
                ==> -RAW_LIMIT <= g.value_micro() <= RAW_LIMIT),
            None => true,
        },
    decreases block.len(),
{
    if block.len() > 1 {
        if block.last().command == letter {
            assert(block[block.len() - 1].wf());
        } else {
            let b = block.drop_last();
            assert forall|i: int| 0 <= i < b.len() implies ((#[trigger] b[i]).wf()
                && (is_axis_letter(b[i].command)
                    ==> -RAW_LIMIT <= b[i].value_micro() <= RAW_LIMIT)) by {
                assert(b[i] == block[i]);
            }
            lemma_last_param_props(b, letter);
        }
    }
}

/// The state a well-formed block targets stays within machine bounds.
pub proof fn lemma_next_state_in_bounds(ts: ToolState, cfg: ToolConfig, block: Seq<GCode>)
    requires
        cfg.wf(),
        block_wf(block),
        -RAW_LIMIT <= ts.x <= RAW_LIMIT,
        -RAW_LIMIT <= ts.y <= RAW_LIMIT,
        -RAW_LIMIT <= ts.z <= RAW_LIMIT,
        -RAW_LIMIT <= ts.e <= RAW_LIMIT,
        -crate::MAX_VALUE_MICRO <= ts.feedrate <= crate::MAX_VALUE_MICRO,
    ensures
        ({
            let n = next_state(ts, cfg, block);
            &&& -RAW_LIMIT <= n.x <= RAW_LIMIT
            &&& -RAW_LIMIT <= n.y <= RAW_LIMIT
            &&& -RAW_LIMIT <= n.z <= RAW_LIMIT
            &&& -RAW_LIMIT <= n.e <= RAW_LIMIT
            &&& -crate::MAX_VALUE_MICRO <= n.feedrate <= crate::MAX_VALUE_MICRO
        }),
{
    lemma_last_param_props(block, 'X');
    lemma_last_param_props(block, 'Y');
    lemma_last_param_props(block, 'Z');
    lemma_last_param_props(block, 'E');
    lemma_last_param_props(block, 'F');
    match last_param(block, 'X') {
        Some(g) => { lemma_raw_of_bound(g.value_micro(), cfg.steps_per_unit_x as int); }
        None => {}
    }
    match last_param(block, 'Y') {
        Some(g) => { lemma_raw_of_bound(g.value_micro(), cfg.steps_per_unit_y as int); }
        None => {}
    }
    match last_param(block, 'Z') {
        Some(g) => { lemma_raw_of_bound(g.value_micro(), cfg.steps_per_unit_z as int); }
        None => {}
    }
    match last_param(block, 'E') {
        Some(g) => { lemma_raw_of_bound(g.value_micro(), cfg.steps_per_unit_e as int); }
        None => {}
    }
}

/// The planner: the parsed program, the program counter, the kinematic
/// state, the machine configuration, and the pulse aggregator state the
/// driver-side pipeline folds commands into.
pub struct SimpleMachine {
    pub program: GCodeProgram,
    pub pc: i32,
    pub step: i32,
    pub toolstate: ToolState,
    pub toolconfig: ToolConfig,
    pub aggregator: Aggregator,
    pub last_barrier: Option<SyncEntry>,
}

/// The pulse train of one straight-line move appended to `cmds`: per-axis
/// unit pulses along the movement vector from `ts` to `next`, one
/// parametric tick of the movement amplitude at a time, ending exactly at
/// the target. Appended entries are stepper pulses only; each axis's
/// pulses all carry the sign of its movement and sum to it.
#[verifier::rlimit(100)]
fn emit_move_pulses(cmds: Vec<CommandEntry>, ts: ToolState, next: ToolState) -> (r: Vec<
    CommandEntry,
>)
    requires
        -RAW_LIMIT <= ts.x <= RAW_LIMIT,
        -RAW_LIMIT <= ts.y <= RAW_LIMIT,
        -RAW_LIMIT <= ts.z <= RAW_LIMIT,
        -RAW_LIMIT <= ts.e <= RAW_LIMIT,
        -RAW_LIMIT <= next.x <= RAW_LIMIT,
        -RAW_LIMIT <= next.y <= RAW_LIMIT,
        -RAW_LIMIT <= next.z <= RAW_LIMIT,
        -RAW_LIMIT <= next.e <= RAW_LIMIT,
    ensures
        r@.len() >= cmds@.len(),
        forall|i: int| 0 <= i < cmds@.len() ==> (#[trigger] r@[i]) == cmds@[i],
        forall|i: int| cmds@.len() <= i < r@.len()
            ==> (#[trigger] r@[i]).command is StepperX
                || r@[i].command is StepperY
                || r@[i].command is StepperZ
                || r@[i].command is StepperE,
        forall|i: int| cmds@.len() <= i < r@.len() && (#[trigger] r@[i]).command is StepperX
            ==> r@[i].value == if next.x >= ts.x { 1i64 } else { -1i64 },
        forall|i: int| cmds@.len() <= i < r@.len() && (#[trigger] r@[i]).command is StepperY
            ==> r@[i].value == if next.y >= ts.y { 1i64 } else { -1i64 },
        forall|i: int| cmds@.len() <= i < r@.len() && (#[trigger] r@[i]).command is StepperZ
            ==> r@[i].value == if next.z >= ts.z { 1i64 } else { -1i64 },
        forall|i: int| cmds@.len() <= i < r@.len() && (#[trigger] r@[i]).command is StepperE
            ==> r@[i].value == if next.e >= ts.e { 1i64 } else { -1i64 },
        axis_sum(r@, Command::StepperX) == axis_sum(cmds@, Command::StepperX) + next.x - ts.x,
        axis_sum(r@, Command::StepperY) == axis_sum(cmds@, Command::StepperY) + next.y - ts.y,
        axis_sum(r@, Command::StepperZ) == axis_sum(cmds@, Command::StepperZ) + next.z - ts.z,
        axis_sum(r@, Command::StepperE) == axis_sum(cmds@, Command::StepperE) + next.e - ts.e,
        r@.len() <= cmds@.len() + 0x4_0000_0000,
{
    let mut cmds = cmds;
        let ghost base = cmds@;
        let dx = next.x - ts.x;
        let dy = next.y - ts.y;
        let dz = next.z - ts.z;
        let de = next.e - ts.e;
        let dx_abs: u64 = if dx >= 0 { dx as u64 } else { (-dx) as u64 };
        let dy_abs: u64 = if dy >= 0 { dy as u64 } else { (-dy) as u64 };
        let dz_abs: u64 = if dz >= 0 { dz as u64 } else { (-dz) as u64 };
        let de_abs: u64 = if de >= 0 { de as u64 } else { (-de) as u64 };
        proof {
            assert((dx_abs as u128) * (dx_abs as u128) <= 0x8000_0000u128 * 0x8000_0000)
                by (nonlinear_arith)
                requires dx_abs <= 0x8000_0000u64,
            ;
            assert((dy_abs as u128) * (dy_abs as u128) <= 0x8000_0000u128 * 0x8000_0000)
                by (nonlinear_arith)
                requires dy_abs <= 0x8000_0000u64,
            ;
            assert((dz_abs as u128) * (dz_abs as u128) <= 0x8000_0000u128 * 0x8000_0000)
                by (nonlinear_arith)
                requires dz_abs <= 0x8000_0000u64,
            ;
            assert((de_abs as u128) * (de_abs as u128) <= 0x8000_0000u128 * 0x8000_0000)
                by (nonlinear_arith)
                requires de_abs <= 0x8000_0000u64,
            ;
        }
        let a2: u128 = (dx_abs as u128) * (dx_abs as u128) + (dy_abs as u128) * (dy_abs as u128)
            + (dz_abs as u128) * (dz_abs as u128) + (de_abs as u128) * (de_abs as u128);
        let mut cur_x = ts.x;
        let mut cur_y = ts.y;
        let mut cur_z = ts.z;
        let mut cur_e = ts.e;
        if a2 > 0 {
            let n128 = isqrt_ceil(a2);
            proof {
                crate::math::lemma_sqrt_floor(a2 as nat);
                assert(crate::math::sqrt_floor(a2 as nat) <= 0x1_0000_0000) by (nonlinear_arith)
                    requires
                        crate::math::sqrt_floor(a2 as nat) * crate::math::sqrt_floor(a2 as nat)
                            <= a2,
                        a2 <= 4u128 * (0x8000_0000u128 * 0x8000_0000),
                ;
            }
            let n: u64 = n128 as u64;
            let mut s: u64 = 1;
            proof {
                assert(dda_offset(dx_abs as nat, 0, a2 as nat) == 0) by {
                    assert((dx_abs as nat) * 0 == 0) by (nonlinear_arith);
                    assert((0nat * 0) / (a2 as nat) == 0);
                    crate::math::lemma_sqrt_floor_square(0);
                }
                assert(dda_offset(dy_abs as nat, 0, a2 as nat) == 0) by {
                    assert((dy_abs as nat) * 0 == 0) by (nonlinear_arith);
                    assert((0nat * 0) / (a2 as nat) == 0);
                    crate::math::lemma_sqrt_floor_square(0);
                }
                assert(dda_offset(dz_abs as nat, 0, a2 as nat) == 0) by {
                    assert((dz_abs as nat) * 0 == 0) by (nonlinear_arith);
                    assert((0nat * 0) / (a2 as nat) == 0);
                    crate::math::lemma_sqrt_floor_square(0);
                }
                assert(dda_offset(de_abs as nat, 0, a2 as nat) == 0) by {
                    assert((de_abs as nat) * 0 == 0) by (nonlinear_arith);
                    assert((0nat * 0) / (a2 as nat) == 0);
                    crate::math::lemma_sqrt_floor_square(0);
                }
            }
            while s <= n
                invariant
                    1 <= s <= n + 1,
                    n == sqrt_ceil(a2 as nat),
                    n <= 0x1_0000_0001,
                    1 <= a2,
                    dx_abs <= 0x8000_0000,
                    dy_abs <= 0x8000_0000,
                    dz_abs <= 0x8000_0000,
                    de_abs <= 0x8000_0000,
                    (dx_abs as nat) * (dx_abs as nat) <= a2 as nat,
                    (dy_abs as nat) * (dy_abs as nat) <= a2 as nat,
                    (dz_abs as nat) * (dz_abs as nat) <= a2 as nat,
                    (de_abs as nat) * (de_abs as nat) <= a2 as nat,
                    dx == next.x - ts.x && dx_abs == abs(dx as int),
                    dy == next.y - ts.y && dy_abs == abs(dy as int),
                    dz == next.z - ts.z && dz_abs == abs(dz as int),
                    de == next.e - ts.e && de_abs == abs(de as int),
                    -RAW_LIMIT <= ts.x <= RAW_LIMIT && -RAW_LIMIT <= next.x <= RAW_LIMIT,
                    -RAW_LIMIT <= ts.y <= RAW_LIMIT && -RAW_LIMIT <= next.y <= RAW_LIMIT,
                    -RAW_LIMIT <= ts.z <= RAW_LIMIT && -RAW_LIMIT <= next.z <= RAW_LIMIT,
                    -RAW_LIMIT <= ts.e <= RAW_LIMIT && -RAW_LIMIT <= next.e <= RAW_LIMIT,
                    cur_x == if dx >= 0 {
                        ts.x + dda_offset(dx_abs as nat, (s - 1) as nat, a2 as nat)
                    } else {
                        ts.x - dda_offset(dx_abs as nat, (s - 1) as nat, a2 as nat)
                    },
                    cur_y == if dy >= 0 {
                        ts.y + dda_offset(dy_abs as nat, (s - 1) as nat, a2 as nat)
                    } else {
                        ts.y - dda_offset(dy_abs as nat, (s - 1) as nat, a2 as nat)
                    },
                    cur_z == if dz >= 0 {
                        ts.z + dda_offset(dz_abs as nat, (s - 1) as nat, a2 as nat)
                    } else {
                        ts.z - dda_offset(dz_abs as nat, (s - 1) as nat, a2 as nat)
                    },
                    cur_e == if de >= 0 {
                        ts.e + dda_offset(de_abs as nat, (s - 1) as nat, a2 as nat)
                    } else {
                        ts.e - dda_offset(de_abs as nat, (s - 1) as nat, a2 as nat)
                    },
                    -RAW_LIMIT <= cur_x <= RAW_LIMIT,
                    -RAW_LIMIT <= cur_y <= RAW_LIMIT,
                    -RAW_LIMIT <= cur_z <= RAW_LIMIT,
                    -RAW_LIMIT <= cur_e <= RAW_LIMIT,
                    forall|i: int| 0 <= i < base.len() ==> (#[trigger] cmds@[i]) == base[i],
                    cmds@.len() >= base.len(),
                    forall|i: int| base.len() <= i < cmds@.len()
                        ==> (#[trigger] cmds@[i]).command is StepperX
                            || cmds@[i].command is StepperY
                            || cmds@[i].command is StepperZ
                            || cmds@[i].command is StepperE,
                    forall|i: int| base.len() <= i < cmds@.len()
                        && (#[trigger] cmds@[i]).command is StepperX
                        ==> cmds@[i].value == if dx >= 0 { 1i64 } else { -1i64 },
                    forall|i: int| base.len() <= i < cmds@.len()
                        && (#[trigger] cmds@[i]).command is StepperY
                        ==> cmds@[i].value == if dy >= 0 { 1i64 } else { -1i64 },
                    forall|i: int| base.len() <= i < cmds@.len()
                        && (#[trigger] cmds@[i]).command is StepperZ
                        ==> cmds@[i].value == if dz >= 0 { 1i64 } else { -1i64 },
                    forall|i: int| base.len() <= i < cmds@.len()
                        && (#[trigger] cmds@[i]).command is StepperE
                        ==> cmds@[i].value == if de >= 0 { 1i64 } else { -1i64 },
                    axis_sum(cmds@, Command::StepperX)
                        == axis_sum(base, Command::StepperX) + cur_x - ts.x,
                    axis_sum(cmds@, Command::StepperY)
                        == axis_sum(base, Command::StepperY) + cur_y - ts.y,
                    axis_sum(cmds@, Command::StepperZ)
                        == axis_sum(base, Command::StepperZ) + cur_z - ts.z,
                    axis_sum(cmds@, Command::StepperE)
                        == axis_sum(base, Command::StepperE) + cur_e - ts.e,
                    cmds@.len() == base.len() + abs(cur_x - ts.x) + abs(cur_y - ts.y)
                        + abs(cur_z - ts.z) + abs(cur_e - ts.e),
                decreases n + 1 - s,
            {
                let off_x = dda_offset_exec(dx_abs, s, a2);
                let off_y = dda_offset_exec(dy_abs, s, a2);
                let off_z = dda_offset_exec(dz_abs, s, a2);
                let off_e = dda_offset_exec(de_abs, s, a2);
                proof {
                    lemma_dda_offset_bound(dx_abs as nat, s as nat, a2 as nat);
                    lemma_dda_offset_bound(dy_abs as nat, s as nat, a2 as nat);
                    lemma_dda_offset_bound(dz_abs as nat, s as nat, a2 as nat);
                    lemma_dda_offset_bound(de_abs as nat, s as nat, a2 as nat);
                    lemma_dda_offset_monotone(dx_abs as nat, (s - 1) as nat, s as nat, a2 as nat);
                    lemma_dda_offset_monotone(dy_abs as nat, (s - 1) as nat, s as nat, a2 as nat);
                    lemma_dda_offset_monotone(dz_abs as nat, (s - 1) as nat, s as nat, a2 as nat);
                    lemma_dda_offset_monotone(de_abs as nat, (s - 1) as nat, s as nat, a2 as nat);
                }
                let target_x = if dx >= 0 {
                    ts.x + off_x as i64
                } else {
                    ts.x - off_x as i64
                };
                let target_y = if dy >= 0 {
                    ts.y + off_y as i64
                } else {
                    ts.y - off_y as i64
                };
                let target_z = if dz >= 0 {
                    ts.z + off_z as i64
                } else {
                    ts.z - off_z as i64
                };
                let target_e = if de >= 0 {
                    ts.e + off_e as i64
                } else {
                    ts.e - off_e as i64
                };
                proof {
                    if dx >= 0 {
                        assert(ts.x <= cur_x <= target_x);
                    } else {
                        assert(target_x <= cur_x <= ts.x);
                    }
                    if dy >= 0 {
                        assert(ts.y <= cur_y <= target_y);
                    } else {
                        assert(target_y <= cur_y <= ts.y);
                    }
                    if dz >= 0 {
                        assert(ts.z <= cur_z <= target_z);
                    } else {
                        assert(target_z <= cur_z <= ts.z);
                    }
                    if de >= 0 {
                        assert(ts.e <= cur_e <= target_e);
                    } else {
                        assert(target_e <= cur_e <= ts.e);
                    }
                }
                let rx = step_axis(cmds, cur_x, target_x, Command::StepperX);
                cmds = rx.0;
                cur_x = rx.1;
                let ry = step_axis(cmds, cur_y, target_y, Command::StepperY);
                cmds = ry.0;
                cur_y = ry.1;
                let rz = step_axis(cmds, cur_z, target_z, Command::StepperZ);
                cmds = rz.0;
                cur_z = rz.1;
                let re = step_axis(cmds, cur_e, target_e, Command::StepperE);
                cmds = re.0;
                cur_e = re.1;
                s += 1;
            }
            proof {
                lemma_dda_offset_final(dx_abs as nat, a2 as nat);
                lemma_dda_offset_final(dy_abs as nat, a2 as nat);
                lemma_dda_offset_final(dz_abs as nat, a2 as nat);
                lemma_dda_offset_final(de_abs as nat, a2 as nat);
                assert(cur_x == next.x);
                assert(cur_y == next.y);
                assert(cur_z == next.z);
                assert(cur_e == next.e);
            }
        } else {
            proof {
                assert(dx_abs == 0 && dy_abs == 0 && dz_abs == 0 && de_abs == 0)
                    by (nonlinear_arith)
                    requires
                        (dx_abs as u128) * (dx_abs as u128) + (dy_abs as u128) * (dy_abs as u128)
                            + (dz_abs as u128) * (dz_abs as u128)
                            + (de_abs as u128) * (de_abs as u128) == 0,
                ;
            }
        }
        cmds
}

impl SimpleMachine {
    /// The machine's data invariant: a sane configuration, a bounded
    /// position, and aggregator step counters at rest between blocks.
    pub open spec fn wf(self) -> bool {
        &&& self.toolconfig.wf()
        &&& -RAW_LIMIT <= self.toolstate.x <= RAW_LIMIT
        &&& -RAW_LIMIT <= self.toolstate.y <= RAW_LIMIT
        &&& -RAW_LIMIT <= self.toolstate.z <= RAW_LIMIT
        &&& -RAW_LIMIT <= self.toolstate.e <= RAW_LIMIT
        &&& -crate::MAX_VALUE_MICRO <= self.toolstate.feedrate <= crate::MAX_VALUE_MICRO
        &&& self.aggregator.sync.steps_bounded(0)
        &&& self.aggregator.gui.steps_bounded(0)
        &&& -crate::MAX_VALUE_MICRO <= self.aggregator.sync.rate <= crate::MAX_VALUE_MICRO
        &&& -crate::MAX_VALUE_MICRO <= self.aggregator.gui.rate <= crate::MAX_VALUE_MICRO
    }

    /// A machine at the origin of a program: program counter 0, unit step,
    /// fresh toolstate and default configuration.
    pub fn new(program: GCodeProgram) -> (m: SimpleMachine)
        ensures
            m.program@ == program@,
            m.pc == 0,
            m.step == 1,
            m.toolstate == (ToolState { x: 0, y: 0, z: 0, e: 0, feedrate: 1_000_000_000 }),
            m.toolconfig == (ToolConfig {
                steps_per_unit_x: 100,
                steps_per_unit_y: 100,
                steps_per_unit_z: 100,
                steps_per_unit_e: 100,
            }),
            m.aggregator == (Aggregator {
                sync: SyncEntry { steps_x: 0, steps_y: 0, steps_z: 0, steps_e: 0, rate: 0 },
                gui: SyncEntry { steps_x: 0, steps_y: 0, steps_z: 0, steps_e: 0, rate: 0 },
            }),
            m.last_barrier is None,
            m.wf(),
    {
        SimpleMachine {
            program,
            pc: 0,
            step: 1,
            toolstate: ToolState::new(),
            toolconfig: ToolConfig::new(),
            aggregator: Aggregator::new(),
            last_barrier: None,
        }
    }

    /// Apply a sync entry to the kinematic state: positions advance by the
    /// reported step counts, the feedrate is overwritten by the entry's
    /// rate. This is the single point at which coordinates advance.
    pub fn update_toolstate(entry: &SyncEntry, toolstate: &mut ToolState)
        requires
            i64::MIN <= old(toolstate).x + entry.steps_x <= i64::MAX,
            i64::MIN <= old(toolstate).y + entry.steps_y <= i64::MAX,
            i64::MIN <= old(toolstate).z + entry.steps_z <= i64::MAX,
            i64::MIN <= old(toolstate).e + entry.steps_e <= i64::MAX,
        ensures
            final(toolstate).x == old(toolstate).x + entry.steps_x,
            final(toolstate).y == old(toolstate).y + entry.steps_y,
            final(toolstate).z == old(toolstate).z + entry.steps_z,
            final(toolstate).e == old(toolstate).e + entry.steps_e,
            final(toolstate).feedrate == entry.rate,
    {
        toolstate.x = toolstate.x + entry.steps_x;
        toolstate.y = toolstate.y + entry.steps_y;
        toolstate.z = toolstate.z + entry.steps_z;
        toolstate.e = toolstate.e + entry.steps_e;
        toolstate.feedrate = entry.rate;
    }

    /// The kinematic state the block asks for, read off its parameters.
    #[verifier::loop_isolation(false)]
    fn next_of_block(&self, parameters: &GCodeBlock) -> (n: ToolState)
        requires
            self.wf(),
            block_wf(parameters@),
        ensures
            n == next_state(self.toolstate, self.toolconfig, parameters@),
            -RAW_LIMIT <= n.x <= RAW_LIMIT,
            -RAW_LIMIT <= n.y <= RAW_LIMIT,
            -RAW_LIMIT <= n.z <= RAW_LIMIT,
            -RAW_LIMIT <= n.e <= RAW_LIMIT,
            -crate::MAX_VALUE_MICRO <= n.feedrate <= crate::MAX_VALUE_MICRO,
    {
        let ghost ts = self.toolstate;
        let ghost cfg = self.toolconfig;
        let mut next = self.toolstate;
        if parameters.len() == 0 {
            return next;
        }
        let mut j: usize = 1;
        while j < parameters.len()
            invariant
                1 <= j <= parameters@.len(),
                block_wf(parameters@),
                cfg == self.toolconfig,
                cfg.wf(),
                ts == self.toolstate,
                next == next_state(ts, cfg, parameters@.take(j as int)),
                -RAW_LIMIT <= next.x <= RAW_LIMIT,
                -RAW_LIMIT <= next.y <= RAW_LIMIT,
                -RAW_LIMIT <= next.z <= RAW_LIMIT,
                -RAW_LIMIT <= next.e <= RAW_LIMIT,
                -crate::MAX_VALUE_MICRO <= next.feedrate <= crate::MAX_VALUE_MICRO,
                -RAW_LIMIT <= ts.x <= RAW_LIMIT,
                -RAW_LIMIT <= ts.y <= RAW_LIMIT,
                -RAW_LIMIT <= ts.z <= RAW_LIMIT,
                -RAW_LIMIT <= ts.e <= RAW_LIMIT,
                -crate::MAX_VALUE_MICRO <= ts.feedrate <= crate::MAX_VALUE_MICRO,
            decreases parameters@.len() - j,
        {
            let g = &parameters[j];
            proof {
                assert(parameters@.take(j + 1).drop_last() =~= parameters@.take(j as int));
                assert(parameters@.take(j + 1).last() == parameters@[j as int]);
                assert(parameters@[j as int].wf());
            }
            let value = g.major as i64 * 1_000_000 + g.minor;
            proof {
                assert(value == parameters@[j as int].value_micro());
            }
            if g.command == 'X' {
                next.x = FixedResolution::from_units(value, self.toolconfig.steps_per_unit_x)
                    .raw_value;
                proof {
                    lemma_raw_of_bound(value as int, cfg.steps_per_unit_x as int);
                }
            } else if g.command == 'Y' {
                next.y = FixedResolution::from_units(value, self.toolconfig.steps_per_unit_y)
                    .raw_value;
                proof {
                    lemma_raw_of_bound(value as int, cfg.steps_per_unit_y as int);
                }
            } else if g.command == 'Z' {
                next.z = FixedResolution::from_units(value, self.toolconfig.steps_per_unit_z)
                    .raw_value;
                proof {
                    lemma_raw_of_bound(value as int, cfg.steps_per_unit_z as int);
                }
            } else if g.command == 'E' {
                next.e = FixedResolution::from_units(value, self.toolconfig.steps_per_unit_e)
                    .raw_value;
                proof {
                    lemma_raw_of_bound(value as int, cfg.steps_per_unit_e as int);
                }
            } else if g.command == 'F' {
                next.feedrate = value;
            }
            j += 1;
        }
        proof {
            assert(parameters@.take(parameters@.len() as int) =~= parameters@);
        }
        next
    }

    /// A straight-line move to the block's target: a `Feedrate` command
    /// first when the feedrate changes, then per-axis unit pulses along the
    /// movement vector, one parametric tick at a time, and a final `Done`.
    /// The pulses of each axis sum exactly to its raw movement and all
    /// share the sign of that movement.
    #[verifier::loop_isolation(false)]
    #[verifier::rlimit(100)]
    pub fn movement_interpolated(&self, parameters: &GCodeBlock) -> (cmds: Vec<CommandEntry>)
        requires
            self.wf(),
            block_wf(parameters@),
        ensures
            ({
                let ts = self.toolstate;
                let next = next_state(ts, self.toolconfig, parameters@);
                &&& cmds@.len() >= 1
                &&& cmds@.last().command is Done
                &&& forall|i: int| 0 <= i < cmds@.len() - 1
                    ==> !((#[trigger] cmds@[i]).command is Done)
                &&& forall|i: int| 0 <= i < cmds@.len()
                    ==> !((#[trigger] cmds@[i]).command is Quit)
                &&& axis_sum(cmds@, Command::StepperX) == next.x - ts.x
                &&& axis_sum(cmds@, Command::StepperY) == next.y - ts.y
                &&& axis_sum(cmds@, Command::StepperZ) == next.z - ts.z
                &&& axis_sum(cmds@, Command::StepperE) == next.e - ts.e
                &&& forall|i: int| 0 <= i < cmds@.len()
                    && (#[trigger] cmds@[i]).command is StepperX
                    ==> cmds@[i].value == if next.x >= ts.x { 1i64 } else { -1i64 }
                &&& forall|i: int| 0 <= i < cmds@.len()
                    && (#[trigger] cmds@[i]).command is StepperY
                    ==> cmds@[i].value == if next.y >= ts.y { 1i64 } else { -1i64 }
                &&& forall|i: int| 0 <= i < cmds@.len()
                    && (#[trigger] cmds@[i]).command is StepperZ
                    ==> cmds@[i].value == if next.z >= ts.z { 1i64 } else { -1i64 }
                &&& forall|i: int| 0 <= i < cmds@.len()
                    && (#[trigger] cmds@[i]).command is StepperE
                    ==> cmds@[i].value == if next.e >= ts.e { 1i64 } else { -1i64 }
                &&& if next.feedrate != ts.feedrate {
                    cmds@[0].command is Feedrate && cmds@[0].value == next.feedrate
                        && forall|i: int| 1 <= i < cmds@.len()
                            ==> !((#[trigger] cmds@[i]).command is Feedrate)
                } else {
                    forall|i: int| 0 <= i < cmds@.len()
                        ==> !((#[trigger] cmds@[i]).command is Feedrate)
                }
                &&& cmds@.len() <= 0x8_0000_0000
            }),
    {
        let ghost ts = self.toolstate;
        let next = self.next_of_block(parameters);
        let mut cmds: Vec<CommandEntry> = Vec::new();
        if next.feedrate != self.toolstate.feedrate {
            proof {
                lemma_cmds_push(cmds@, CommandEntry {
                    command: Command::Feedrate,
                    value: next.feedrate,
                });
            }
            cmds.push(CommandEntry { command: Command::Feedrate, value: next.feedrate });
        }
        let ghost base = cmds@;
        let cmds = emit_move_pulses(cmds, self.toolstate, next);
        let mut cmds = cmds;
        proof {
            lemma_cmds_push(cmds@, CommandEntry { command: Command::Done, value: 0 });
        }
        cmds.push(CommandEntry { command: Command::Done, value: 0 });
        cmds
    }

    /// A circular arc in the XY plane to the block's target around the
    /// center given by the `I`/`J` offsets: a `Feedrate` command first when
    /// the feedrate changes, then X and Y unit pulses following the angle
    /// sweep from the start angle to the stop angle (clockwise arcs sweep
    /// the long way through a full turn), a final clamp onto the exact
    /// target, and a `Done`. Only X and Y move; each axis's pulses sum
    /// exactly to its raw movement.
    #[verifier::rlimit(100)]
    pub fn movement_arc(&self, parameters: &GCodeBlock, clockwise: bool) -> (cmds: Vec<
        CommandEntry,
    >)
        requires
            self.wf(),
            block_wf(parameters@),
        ensures
            ({
                let ts = self.toolstate;
                let next = next_state(ts, self.toolconfig, parameters@);
                &&& cmds@.len() >= 1
                &&& cmds@.last().command is Done
                &&& forall|i: int| 0 <= i < cmds@.len() - 1
                    ==> !((#[trigger] cmds@[i]).command is Done)
                &&& forall|i: int| 0 <= i < cmds@.len()
                    ==> !((#[trigger] cmds@[i]).command is Quit)
                &&& forall|i: int| 0 <= i < cmds@.len()
                    ==> !((#[trigger] cmds@[i]).command is StepperZ)
                        && !(cmds@[i].command is StepperE)
                &&& axis_sum(cmds@, Command::StepperX) == next.x - ts.x
                &&& axis_sum(cmds@, Command::StepperY) == next.y - ts.y
                &&& axis_sum(cmds@, Command::StepperZ) == 0
                &&& axis_sum(cmds@, Command::StepperE) == 0
                &&& forall|i: int| 0 <= i < cmds@.len()
                    && ((#[trigger] cmds@[i]).command is StepperX
                        || cmds@[i].command is StepperY)
                    ==> (cmds@[i].value == 1i64 || cmds@[i].value == -1i64)
                &&& if next.feedrate != ts.feedrate {
                    cmds@[0].command is Feedrate && cmds@[0].value == next.feedrate
                        && forall|i: int| 1 <= i < cmds@.len()
                            ==> !((#[trigger] cmds@[i]).command is Feedrate)
                } else {
                    forall|i: int| 0 <= i < cmds@.len()
                        ==> !((#[trigger] cmds@[i]).command is Feedrate)
                }
                &&& cmds@.len() <= 0x100_0000_0000_0000
            }),
    {
        let ghost ts = self.toolstate;
        let next = self.next_of_block(parameters);
        let center = center_of_block(parameters);
        let mut cmds: Vec<CommandEntry> = Vec::new();
        if next.feedrate != self.toolstate.feedrate {
            proof {
                lemma_cmds_push(cmds@, CommandEntry {
                    command: Command::Feedrate,
                    value: next.feedrate,
                });
            }
            cmds.push(CommandEntry { command: Command::Feedrate, value: next.feedrate });
        }
        let ghost base = cmds@;
        let res_x = self.toolconfig.steps_per_unit_x as i64;
        let res_y = self.toolconfig.steps_per_unit_y as i64;
        proof {
            assert(res_x * res_y <= 1_000_000_000_000) by (nonlinear_arith)
                requires 1 <= res_x <= 1_000_000, 1 <= res_y <= 1_000_000,
            ;
            assert(1 <= res_x * res_y) by (nonlinear_arith)
                requires 1 <= res_x, 1 <= res_y,
            ;
        }
        let angle_res: i64 = res_x * res_y;
        // start position and center, in micro-units
        proof {
            crate::math::lemma_scale_trunc_bound(self.toolstate.x as int, MICRO as int,
                res_x as int);
            crate::math::lemma_scale_trunc_bound(self.toolstate.y as int, MICRO as int,
                res_y as int);
            assert((if self.toolstate.x >= 0 { self.toolstate.x as int } else {
                -(self.toolstate.x as int)
            }) * (MICRO as int) <= RAW_LIMIT * 1_000_000) by (nonlinear_arith)
                requires -RAW_LIMIT <= self.toolstate.x <= RAW_LIMIT,
            ;
            assert((if self.toolstate.y >= 0 { self.toolstate.y as int } else {
                -(self.toolstate.y as int)
            }) * (MICRO as int) <= RAW_LIMIT * 1_000_000) by (nonlinear_arith)
                requires -RAW_LIMIT <= self.toolstate.y <= RAW_LIMIT,
            ;
        }
        let cur_x_m = crate::math::scale_trunc(self.toolstate.x, MICRO, res_x);
        let cur_y_m = crate::math::scale_trunc(self.toolstate.y, MICRO, res_y);
        let cx_m = cur_x_m + center.0;
        let cy_m = cur_y_m + center.1;
        // radius in micro-units
        let ai: u64 = if center.0 >= 0 { center.0 as u64 } else { (-center.0) as u64 };
        let aj: u64 = if center.1 >= 0 { center.1 as u64 } else { (-center.1) as u64 };
        proof {
            assert((ai as u128) * (ai as u128) <= 0x4000_0000u128 * 0x4000_0000)
                by (nonlinear_arith)
                requires ai <= 0x4000_0000u64,
            ;
            assert((aj as u128) * (aj as u128) <= 0x4000_0000u128 * 0x4000_0000)
                by (nonlinear_arith)
                requires aj <= 0x4000_0000u64,
            ;
        }
        let r2: u128 = (ai as u128) * (ai as u128) + (aj as u128) * (aj as u128);
        let r128 = crate::math::isqrt(r2);
        proof {
            assert(r128 <= 0x1_0000_0000) by (nonlinear_arith)
                requires
                    r128 * r128 <= r2,
                    r2 <= 2u128 * (0x4000_0000u128 * 0x4000_0000),
            ;
        }
        let radius_m: i64 = r128 as i64;
        // target position in micro-units
        proof {
            crate::math::lemma_scale_trunc_bound(next.x as int, MICRO as int, res_x as int);
            crate::math::lemma_scale_trunc_bound(next.y as int, MICRO as int, res_y as int);
            assert((if next.x >= 0 { next.x as int } else { -(next.x as int) })
                * (MICRO as int) <= RAW_LIMIT * 1_000_000) by (nonlinear_arith)
                requires -RAW_LIMIT <= next.x <= RAW_LIMIT,
            ;
            assert((if next.y >= 0 { next.y as int } else { -(next.y as int) })
                * (MICRO as int) <= RAW_LIMIT * 1_000_000) by (nonlinear_arith)
                requires -RAW_LIMIT <= next.y <= RAW_LIMIT,
            ;
        }
        let nx_m = crate::math::scale_trunc(next.x, MICRO, res_x);
        let ny_m = crate::math::scale_trunc(next.y, MICRO, res_y);
        // start and stop angles on the grid
        let theta0 = crate::trig::iatan2(-center.1, -center.0, angle_res);
        let theta1_raw = crate::trig::iatan2(ny_m - cy_m, nx_m - cx_m, angle_res);
        let p = crate::trig::pi_ticks(angle_res);
        let theta1 = if clockwise {
            theta1_raw - 2 * p
        } else {
            theta1_raw
        };
        // sweep the angle one tick at a time, following the circle
        let mut angle = theta0;
        let mut cur_x = self.toolstate.x;
        let mut cur_y = self.toolstate.y;
        while angle != theta1
            invariant
                theta0 <= angle <= theta1 || theta1 <= angle <= theta0,
                -0x2_0000_0000_0000 <= theta0 <= 0x2_0000_0000_0000,
                -0x2_0000_0000_0000 <= theta1 <= 0x2_0000_0000_0000,
                1 <= angle_res <= 1_000_000_000_000,
                1 <= res_x <= 1_000_000,
                1 <= res_y <= 1_000_000,
                -0x8_0000_0000_0000 <= cx_m <= 0x8_0000_0000_0000,
                -0x8_0000_0000_0000 <= cy_m <= 0x8_0000_0000_0000,
                0 <= radius_m <= 0x1_0000_0000,
                -0x10_0000_0000_0000 <= cur_x <= 0x10_0000_0000_0000,
                -0x10_0000_0000_0000 <= cur_y <= 0x10_0000_0000_0000,
                forall|i: int| 0 <= i < base.len() ==> (#[trigger] cmds@[i]) == base[i],
                cmds@.len() >= base.len(),
                forall|i: int| base.len() <= i < cmds@.len()
                    ==> ((#[trigger] cmds@[i]).command is StepperX
                        || cmds@[i].command is StepperY)
                        && (cmds@[i].value == 1i64 || cmds@[i].value == -1i64),
                axis_sum(cmds@, Command::StepperX)
                    == axis_sum(base, Command::StepperX) + cur_x - ts.x,
                axis_sum(cmds@, Command::StepperY)
                    == axis_sum(base, Command::StepperY) + cur_y - ts.y,
                axis_sum(cmds@, Command::StepperZ) == axis_sum(base, Command::StepperZ),
                axis_sum(cmds@, Command::StepperE) == axis_sum(base, Command::StepperE),
                cmds@.len() <= base.len() + 2 * abs(angle - theta0),
            decreases abs(theta1 - angle),
        {
            let direction: i64 = if angle < theta1 {
                1
            } else {
                -1
            };
            angle = angle + direction;
            let cos_v = crate::trig::icos(angle, angle_res);
            let sin_v = crate::trig::isin(angle, angle_res);
            let xoff = trig_component(cos_v, radius_m);
            let yoff = trig_component(sin_v, radius_m);
            let x_m = cx_m + xoff;
            let y_m = cy_m + yoff;
            proof {
                lemma_raw_of_bound(x_m as int, res_x as int);
                lemma_raw_of_bound(y_m as int, res_y as int);
            }
            let tx = crate::math::scale_trunc(x_m, res_x, MICRO);
            let ty = crate::math::scale_trunc(y_m, res_y, MICRO);
            if cur_x != tx {
                let d: i64 = if cur_x < tx {
                    1
                } else {
                    -1
                };
                proof {
                    lemma_cmds_push(cmds@, CommandEntry { command: Command::StepperX, value: d });
                }
                cmds.push(CommandEntry { command: Command::StepperX, value: d });
                cur_x = cur_x + d;
            }
            if cur_y != ty {
                let d: i64 = if cur_y < ty {
                    1
                } else {
                    -1
                };
                proof {
                    lemma_cmds_push(cmds@, CommandEntry { command: Command::StepperY, value: d });
                }
                cmds.push(CommandEntry { command: Command::StepperY, value: d });
                cur_y = cur_y + d;
            }
        }
        // clamp onto the exact target
        let rx = step_axis(cmds, cur_x, next.x, Command::StepperX);
        let mut cmds = rx.0;
        let cur_x = rx.1;
        let ry = step_axis(cmds, cur_y, next.y, Command::StepperY);
        let mut cmds = ry.0;
        let cur_y = ry.1;
        proof {
            lemma_cmds_push(cmds@, CommandEntry { command: Command::Done, value: 0 });
        }
        cmds.push(CommandEntry { command: Command::Done, value: 0 });
        cmds
    }

    /// One driver iteration: look up the block at the program counter
    /// (a missing key is normal termination), dispatch it by its principal
    /// instruction, fold the emitted commands through the pulse aggregator,
    /// receive the one barrier entry of the block and apply it to the
    /// toolstate, and advance the program counter. A block that is not a
    /// motion (a section label, an unsupported command) or whose
    /// coordinates lie outside the machine's raw step limit moves nothing.
    #[verifier::rlimit(100)]
    pub fn process(&mut self) -> (r: i32)
        requires
            old(self).wf(),
        ensures
            final(self).wf(),
            final(self).program == old(self).program,
            final(self).toolconfig == old(self).toolconfig,
            final(self).step == old(self).step,
            r == if old(self).program@.contains_key(old(self).pc) { 0i32 } else { 1i32 },
            !old(self).program@.contains_key(old(self).pc) ==> *final(self) == *old(self),
            old(self).program@.contains_key(old(self).pc) ==> ({
                let block = old(self).program@[old(self).pc]@;
                let kind = spec_classify(block);
                let ts = old(self).toolstate;
                let next = next_state(ts, old(self).toolconfig, block);
                let runs = (kind is Linear || kind is ArcCw || kind is ArcCcw)
                    && block_wf(block);
                let rate = if next.feedrate != ts.feedrate {
                    next.feedrate
                } else {
                    old(self).aggregator.sync.rate
                };
                &&& final(self).pc == vstd::wrapping::i32_specs::wrapping_add(
                    old(self).pc, old(self).step)
                &&& !runs ==> final(self).toolstate == ts
                    && final(self).aggregator == old(self).aggregator
                    && final(self).last_barrier == old(self).last_barrier
                &&& runs ==> ({
                    &&& final(self).toolstate.x == next.x
                    &&& final(self).toolstate.y == next.y
                    &&& final(self).toolstate.z == if kind is Linear { next.z } else { ts.z }
                    &&& final(self).toolstate.e == if kind is Linear { next.e } else { ts.e }
                    &&& final(self).toolstate.feedrate == rate
                    &&& final(self).aggregator.sync == (SyncEntry {
                        steps_x: 0,
                        steps_y: 0,
                        steps_z: 0,
                        steps_e: 0,
                        rate: rate,
                    })
                    &&& final(self).aggregator.gui == (SyncEntry {
                        steps_x: 0,
                        steps_y: 0,
                        steps_z: 0,
                        steps_e: 0,
                        rate: if next.feedrate != ts.feedrate {
                            next.feedrate
                        } else {
                            old(self).aggregator.gui.rate
                        },
                    })
                    &&& final(self).last_barrier == Some(SyncEntry {
                        steps_x: (next.x - ts.x) as i64,
                        steps_y: (next.y - ts.y) as i64,
                        steps_z: (if kind is Linear { next.z - ts.z } else { 0 }) as i64,
                        steps_e: (if kind is Linear { next.e - ts.e } else { 0 }) as i64,
                        rate: rate,
                    })
                })
            }),
    {
        let pc = self.pc;
        if !self.program.contains_key(&pc) {
            return 1;
        }
        let ghost block = self.program@[pc]@;
        let mut cmds_opt: Option<Vec<CommandEntry>> = None;
        match self.program.get(&pc) {
            Some(entry) => {
                if block_in_bounds(entry) {
                    match classify(entry) {
                        BlockKind::Linear => {
                            cmds_opt = Some(self.movement_interpolated(entry));
                        }
                        BlockKind::ArcCw => {
                            cmds_opt = Some(self.movement_arc(entry, true));
                        }
                        BlockKind::ArcCcw => {
                            cmds_opt = Some(self.movement_arc(entry, false));
                        }
                        BlockKind::Section => {}
                        BlockKind::Unsupported => {}
                    }
                }
            }
            None => {
                proof {
                    assert(false);
                }
            }
        }
        match cmds_opt {
            Some(cmds) => {
                let ghost a0 = self.aggregator;
                let ghost mcmds = cmds@;
                proof {
                    assert forall|i: int| 0 <= i < mcmds.len()
                        && ((#[trigger] mcmds[i]).command is StepperX
                            || mcmds[i].command is StepperY
                            || mcmds[i].command is StepperZ
                            || mcmds[i].command is StepperE)
                        implies mcmds[i].value == 1i64 || mcmds[i].value == -1i64 by {}
                }
                let mut barrier_opt: Option<SyncEntry> = None;
                let mut i: usize = 0;
                while i < cmds.len()
                    invariant
                        i <= mcmds.len(),
                        cmds@ == mcmds,
                        self.aggregator == agg_after(a0, mcmds.take(i as int)),
                        barrier_opt == if agg_barriers(a0, mcmds.take(i as int)).len() > 0 {
                            Some(agg_barriers(a0, mcmds.take(i as int)).last())
                        } else {
                            Option::<SyncEntry>::None
                        },
                        self.program == old(self).program,
                        self.pc == old(self).pc,
                        self.step == old(self).step,
                        self.toolstate == old(self).toolstate,
                        self.toolconfig == old(self).toolconfig,
                        self.last_barrier == old(self).last_barrier,
                    decreases mcmds.len() - i,
                {
                    proof {
                        assert(mcmds.take(i + 1) =~= mcmds.take(i as int).push(
                            mcmds[i as int]));
                        lemma_agg_after_snoc(a0, mcmds.take(i as int), mcmds[i as int]);
                        lemma_agg_barriers_snoc(a0, mcmds.take(i as int), mcmds[i as int]);
                    }
                    let out = self.aggregator.apply(&cmds[i]);
                    match out.barrier {
                        Some(b) => {
                            barrier_opt = Some(b);
                        }
                        None => {}
                    }
                    i += 1;
                }
                proof {
                    assert(mcmds.take(mcmds.len() as int) =~= mcmds);
                    lemma_agg_run(a0, mcmds);
                    lemma_last_rate_head(mcmds.drop_last(), a0.sync.rate);
                    lemma_last_rate_head(mcmds.drop_last(), a0.gui.rate);
                    if mcmds.drop_last().len() >= 1 {
                        assert(mcmds.drop_last()[0] == mcmds[0]);
                    }
                    assert forall|i2: int| 1 <= i2 < mcmds.drop_last().len()
                        implies !((#[trigger] mcmds.drop_last()[i2]).command is Feedrate) by {
                        assert(mcmds.drop_last()[i2] == mcmds[i2]);
                    }
                    lemma_next_state_in_bounds(
                        old(self).toolstate, old(self).toolconfig, block);
                }
                let b = barrier_opt.unwrap();
                SimpleMachine::update_toolstate(&b, &mut self.toolstate);
                self.last_barrier = Some(b);
            }
            None => {}
        }
        self.pc = self.pc.wrapping_add(self.step);
        0
    }
}

} // verus!
