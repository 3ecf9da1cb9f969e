//! Whole runs: a rope starts with every knot at the origin, carries out a
//! list of commands, and the places its tail comes to are recorded.

use vstd::prelude::*;
use crate::instruction::Instruction;
use crate::parser::{parse_input, parsed_input, InputError, Rejection};
use crate::position::{points, Point, Pos};
use crate::recorder::TailRecorder;
use crate::rope::{
    follow_heads, lemma_head_walks, lemma_steps_keep_taut, lemma_steps_len, steps, tail_trace, taut,
};

verus! {

/// The two ropes that are simulated.
#[derive(Clone, Copy, Debug, PartialEq, Eq, Structural)]
pub enum RopeMode {
    /// A head and a tail.
    Short,
    /// A head and nine knots that follow it.
    Long,
}

impl RopeMode {
    /// The number of knots, head and tail included.
    pub open spec fn knot_count(self) -> nat {
        match self {
            RopeMode::Short => 2,
            RopeMode::Long => 10,
        }
    }

    /// The number of knots, head and tail included.
    pub fn knots(&self) -> (n: usize)
        ensures
            n == self.knot_count(),
    {
        match self {
            RopeMode::Short => 2,
            RopeMode::Long => 10,
        }
    }
}

/// The state of a run, as contracts speak of it: where the knots are, and
/// every observation of the tail so far, oldest first.
pub struct Run {
    pub rope: Seq<Point>,
    pub seen: Seq<Point>,
}

/// A run before its first command: `knots` knots at the origin, and the tail
/// seen there once.
pub open spec fn start(knots: nat) -> Run {
    Run {
        rope: Seq::new(knots, |i: int| Point::origin()),
        seen: Seq::empty().push(Point::origin()),
    }
}

/// The run after one more command: the rope has taken the command's unit
/// steps, and the tail was observed after each of them.
pub open spec fn after(run: Run, i: Instruction) -> Run {
    Run {
        rope: steps(run.rope, i.unit(), i.count()),
        seen: run.seen + tail_trace(run.rope, i.unit(), i.count()),
    }
}

/// The run after the commands `commands`, carried out in order.
pub open spec fn run_from(run: Run, commands: Seq<Instruction>) -> Run
    decreases commands.len(),
{
    if commands.len() == 0 {
        run
    } else {
        after(run_from(run, commands.drop_last()), commands.last())
    }
}

/// The run of a rope of `knots` knots from its start through `commands`.
pub open spec fn run_all(knots: nat, commands: Seq<Instruction>) -> Run {
    run_from(start(knots), commands)
}

/// Whether command `n` of `commands` can be carried out with machine
/// coordinates from where the commands before it leave the head.
pub open spec fn fits_at(knots: nat, commands: Seq<Instruction>, n: int) -> bool {
    commands[n].fits(run_all(knots, commands.take(n)).rope[0])
}

/// Whether every command can be carried out when its turn comes.
pub open spec fn feasible(knots: nat, commands: Seq<Instruction>) -> bool {
    forall|n: int| 0 <= n < commands.len() ==> #[trigger] fits_at(knots, commands, n)
}

/// Whether command `n` is the first that cannot be carried out.
pub open spec fn stops_at(knots: nat, commands: Seq<Instruction>, n: int) -> bool {
    &&& 0 <= n < commands.len()
    &&& feasible(knots, commands.take(n))
    &&& !fits_at(knots, commands, n)
}

/// A command that would take the head where machine coordinates end.
#[derive(Clone, Copy, Debug, PartialEq, Eq, Structural)]
pub struct OutOfRange {
    /// The command's place in the list, counted from 0.
    pub command: usize,
}

/// Why an input has no answer.
#[derive(Clone, Copy, Debug, PartialEq, Eq, Structural)]
pub enum Failure {
    /// A line is not a command.
    Malformed(InputError),
    /// The command on line `line`, counted from 1, would take the head where
    /// machine coordinates end.
    OutOfRange { line: usize },
}

/// What [`process_instructions`] returns for the text `input` and a rope of
/// `mode`'s length.
///
/// A record, if every line is a command and every command can be carried
/// out: it then holds the observations of the run through those commands.
/// The first line that is not a command, if there is one. Else the line of
/// the first command that cannot be carried out.
pub open spec fn answers(input: Seq<u8>, mode: RopeMode, result: Result<TailRecorder, Failure>) -> bool {
    match result {
        Ok(recorder) => {
            &&& recorder.wf()
            &&& parsed_input(input) matches Ok(commands)
            &&& feasible(mode.knot_count(), commands)
            &&& recorder.observations() == run_all(mode.knot_count(), commands).seen
        },
        Err(Failure::Malformed(error)) => parsed_input(input) == Err::<Seq<Instruction>, Rejection>(
            error@,
        ),
        Err(Failure::OutOfRange { line }) => {
            &&& parsed_input(input) matches Ok(commands)
            &&& stops_at(mode.knot_count(), commands, line - 1)
        },
    }
}

/// A run stays feasible when its next command fits.
pub proof fn lemma_feasible_extends(knots: nat, commands: Seq<Instruction>)
    requires
        commands.len() > 0,
        feasible(knots, commands.drop_last()),
        fits_at(knots, commands, commands.len() - 1),
    ensures
        feasible(knots, commands),
{
    let front = commands.drop_last();
    assert forall|n: int| 0 <= n < commands.len() implies #[trigger] fits_at(
        knots,
        commands,
        n,
    ) by {
        if n < front.len() {
            assert(fits_at(knots, front, n));
            assert(front.take(n) =~= commands.take(n));
        }
    }
}

/// Runs keep the number of knots.
pub proof fn lemma_run_keeps_knots(run: Run, commands: Seq<Instruction>)
    ensures
        run_from(run, commands).rope.len() == run.rope.len(),
    decreases commands.len(),
{
    if commands.len() > 0 {
        lemma_run_keeps_knots(run, commands.drop_last());
        lemma_steps_len(
            run_from(run, commands.drop_last()).rope,
            commands.last().unit(),
            commands.last().count(),
        );
    }
}

/// Carries out `commands` in order on a rope of `mode`'s length that starts
/// at the origin, and returns the record of where its tail has been.
///
/// The run ends at the first command that would take the head where machine
/// coordinates end; nothing is returned of the run so far.
pub fn simulate(commands: &[Instruction], mode: RopeMode) -> (result: Result<
    TailRecorder,
    OutOfRange,
>)
    ensures
        match result {
            Ok(recorder) => {
                &&& recorder.wf()
                &&& feasible(mode.knot_count(), commands@)
                &&& recorder.observations() == run_all(mode.knot_count(), commands@).seen
            },
            Err(error) => stops_at(mode.knot_count(), commands@, error.command as int),
        },
{
    let knots = mode.knots();
    let ghost k = mode.knot_count();
    let mut rope: Vec<Pos> = Vec::new();
    while rope.len() < knots
        invariant
            rope@.len() <= knots,
            forall|j: int| 0 <= j < rope@.len() ==> (#[trigger] rope@[j])@ == Point::origin(),
        decreases knots - rope.len(),
    {
        rope.push(Pos::default());
    }
    let mut recorder = TailRecorder::new();
    let mut n: usize = 0;
    assert(points(rope@) =~= start(k).rope);
    assert(commands@.take(0) =~= Seq::<Instruction>::empty());
    while n < commands.len()
        invariant
            n <= commands.len(),
            k == mode.knot_count(),
            rope@.len() == k,
            recorder.wf(),
            feasible(k, commands@.take(n as int)),
            points(rope@) == run_all(k, commands@.take(n as int)).rope,
            recorder.observations() == run_all(k, commands@.take(n as int)).seen,
        decreases commands.len() - n,
    {
        let command = commands[n];
        let ghost done = commands@.take(n as int);
        let ghost next = commands@.take(n + 1);
        assert(points(rope@)[0] == rope@[0]@);
        if !command.can_move(rope[0]) {
            return Err(OutOfRange { command: n });
        }
        follow_heads(command, rope.as_mut_slice(), &mut recorder);
        proof {
            assert(next.drop_last() =~= done);
            assert(next.take(n as int) =~= done);
            lemma_feasible_extends(k, next);
        }
        n += 1;
    }
    assert(commands@.take(n as int) =~= commands@);
    Ok(recorder)
}

/// Reads `input` as commands, one per line, carries them out on a rope of
/// `mode`'s length that starts at the origin, and returns the record of where
/// its tail has been: its count is the answer.
///
/// The input is read as a whole before the rope moves, so a line that is not
/// a command is reported even if an earlier command could not be carried out.
pub fn process_instructions(input: &[u8], mode: RopeMode) -> (result: Result<
    TailRecorder,
    Failure,
>)
    ensures
        answers(input@, mode, result),
{
    match parse_input(input) {
        Err(error) => Err(Failure::Malformed(error)),
        Ok(commands) => match simulate(commands.as_slice(), mode) {
            Ok(recorder) => Ok(recorder),
            Err(error) => {
                assert(error.command < commands.len());
                Err(Failure::OutOfRange { line: error.command + 1 })
            },
        },
    }
}

/// The vector from where the head starts to where `commands` leave it.
pub open spec fn net_travel(commands: Seq<Instruction>) -> Point
    decreases commands.len(),
{
    if commands.len() == 0 {
        Point::origin()
    } else {
        net_travel(commands.drop_last()).plus(commands.last().displacement())
    }
}

/// The commands that undo `commands`: the opposite of each, last first.
pub open spec fn undone(commands: Seq<Instruction>) -> Seq<Instruction> {
    Seq::new(commands.len(), |i: int| commands[commands.len() - 1 - i].opposite())
}

/// Carrying out one list of commands and then another is carrying out the
/// two lists joined.
pub proof fn lemma_run_joined(run: Run, first: Seq<Instruction>, second: Seq<Instruction>)
    ensures
        run_from(run, first + second) == run_from(run_from(run, first), second),
    decreases second.len(),
{
    if second.len() == 0 {
        assert(first + second =~= first);
    } else {
        lemma_run_joined(run, first, second.drop_last());
        assert((first + second).drop_last() =~= first + second.drop_last());
    }
}

/// The head goes where the commands send it, whatever the other knots do.
pub proof fn lemma_head_after_run(run: Run, commands: Seq<Instruction>)
    requires
        run.rope.len() >= 1,
    ensures
        run_from(run, commands).rope[0] == run.rope[0].plus(net_travel(commands)),
    decreases commands.len(),
{
    if commands.len() > 0 {
        let front = commands.drop_last();
        lemma_head_after_run(run, front);
        lemma_run_keeps_knots(run, front);
        lemma_head_walks(run_from(run, front).rope, commands.last(), commands.last().count());
    }
}

proof fn lemma_net_travel_joined(first: Seq<Instruction>, second: Seq<Instruction>)
    ensures
        net_travel(first + second) == net_travel(first).plus(net_travel(second)),
    decreases second.len(),
{
    if second.len() == 0 {
        assert(first + second =~= first);
    } else {
        lemma_net_travel_joined(first, second.drop_last());
        assert((first + second).drop_last() =~= first + second.drop_last());
    }
}

proof fn lemma_net_travel_undone(commands: Seq<Instruction>)
    ensures
        net_travel(undone(commands)).x == -net_travel(commands).x,
        net_travel(undone(commands)).y == -net_travel(commands).y,
    decreases commands.len(),
{
    if commands.len() > 0 {
        let front = commands.drop_last();
        let back = Seq::<Instruction>::empty().push(commands.last().opposite());
        lemma_net_travel_undone(front);
        lemma_net_travel_joined(back, undone(front));
        assert(undone(commands) =~= back + undone(front));
        assert(net_travel(back.drop_last()) == Point::origin());
    }
}

/// Undoing a list of commands, the opposite of each from the last to the
/// first, brings the head back to where it started. The places seen on the
/// way out stay seen: the record only grows.
pub proof fn lemma_undo_brings_head_back(run: Run, commands: Seq<Instruction>)
    requires
        run.rope.len() >= 1,
    ensures
        run_from(run, commands + undone(commands)).rope[0] == run.rope[0],
        run_from(run, commands).seen.to_set().subset_of(
            run_from(run, commands + undone(commands)).seen.to_set(),
        ),
        run_from(run, commands).seen.to_set().len() <= run_from(
            run,
            commands + undone(commands),
        ).seen.to_set().len(),
{
    lemma_head_after_run(run, commands + undone(commands));
    lemma_net_travel_joined(commands, undone(commands));
    lemma_net_travel_undone(commands);
    lemma_run_joined(run, commands, undone(commands));
    lemma_run_only_adds(run_from(run, commands), undone(commands));
}

/// A run only adds observations: what was seen before the commands is how
/// the observations after them begin, so no place is lost and the count does
/// not shrink.
pub proof fn lemma_run_only_adds(run: Run, commands: Seq<Instruction>)
    ensures
        run.seen.is_prefix_of(run_from(run, commands).seen),
        run.seen.to_set().subset_of(run_from(run, commands).seen.to_set()),
        run.seen.to_set().len() <= run_from(run, commands).seen.to_set().len(),
    decreases commands.len(),
{
    let later = run_from(run, commands).seen;
    if commands.len() > 0 {
        lemma_run_only_adds(run, commands.drop_last());
    }
    assert forall|p: Point| run.seen.to_set().contains(p) implies later.to_set().contains(p) by {
        let i = choose|i: int| 0 <= i < run.seen.len() && run.seen[i] == p;
        assert(later.subrange(0, run.seen.len() as int)[i] == p);
        assert(later[i] == p);
    }
    vstd::seq_lib::seq_to_set_is_finite(later);
    vstd::set_lib::lemma_len_subset(run.seen.to_set(), later.to_set());
}

/// Each command adds as many observations as it has unit steps, repeats
/// included.
pub proof fn lemma_command_is_observed(run: Run, i: Instruction)
    ensures
        after(run, i).seen.len() == run.seen.len() + i.count(),
{
}

/// In a run from the start the origin is the first place seen, and it is
/// never lost.
pub proof fn lemma_run_has_seen_origin(knots: nat, commands: Seq<Instruction>)
    ensures
        run_all(knots, commands).seen[0] == Point::origin(),
        run_all(knots, commands).seen.to_set().contains(Point::origin()),
{
    lemma_run_only_adds(start(knots), commands);
    let seen = run_all(knots, commands).seen;
    assert(seen.subrange(0, 1)[0] == start(knots).seen[0]);
    assert(seen.contains(seen[0]));
}

/// In a run from the start the tail's place is always among the places
/// seen.
pub proof fn lemma_tail_is_seen(knots: nat, commands: Seq<Instruction>)
    requires
        knots >= 1,
    ensures
        run_all(knots, commands).seen.to_set().contains(run_all(knots, commands).rope.last()),
    decreases commands.len(),
{
    let run = run_all(knots, commands);
    if commands.len() == 0 {
        assert(run.seen[0] == run.rope.last());
        assert(run.seen.contains(run.seen[0]));
    } else {
        let earlier = run_all(knots, commands.drop_last());
        let i = commands.last();
        lemma_tail_is_seen(knots, commands.drop_last());
        if i.count() == 0 {
            let p = earlier.rope.last();
            let at = choose|at: int| 0 <= at < earlier.seen.len() && earlier.seen[at] == p;
            assert(run.seen[at] == p);
            assert(run.seen.contains(p));
        } else {
            assert(run.seen[run.seen.len() - 1] == run.rope.last());
            assert(run.seen.contains(run.seen[run.seen.len() - 1]));
        }
    }
}

/// In a run from the start every knot touches the next one after every unit
/// step: after the commands carried out so far, and after each of the first
/// `n` unit steps of whatever command comes next.
pub proof fn lemma_run_stays_taut(knots: nat, commands: Seq<Instruction>, next: Instruction, n: nat)
    ensures
        taut(run_all(knots, commands).rope),
        taut(steps(run_all(knots, commands).rope, next.unit(), n)),
    decreases commands.len(),
{
    if commands.len() > 0 {
        lemma_run_stays_taut(knots, commands.drop_last(), commands.last(), commands.last().count());
    }
    lemma_steps_keep_taut(run_all(knots, commands).rope, next, n);
}

/// At most one command is the first that cannot be carried out.
pub proof fn lemma_stops_once(knots: nat, commands: Seq<Instruction>, m: int, n: int)
    requires
        stops_at(knots, commands, m),
        stops_at(knots, commands, n),
    ensures
        m == n,
{
    if m < n {
        assert(fits_at(knots, commands.take(n), m));
        assert(commands.take(n).take(m) =~= commands.take(m));
    }
    if n < m {
        assert(fits_at(knots, commands.take(m), n));
        assert(commands.take(m).take(n) =~= commands.take(n));
    }
}

/// An input has one outcome. Two results that both are what
/// [`process_instructions`] may return for the same text and rope are the
/// same failure, or records of the same observations and so of the same
/// places and the same count.
pub proof fn lemma_one_outcome(
    input: Seq<u8>,
    mode: RopeMode,
    a: Result<TailRecorder, Failure>,
    b: Result<TailRecorder, Failure>,
)
    requires
        answers(input, mode, a),
        answers(input, mode, b),
    ensures
        a is Ok <==> b is Ok,
        a is Ok ==> a->Ok_0.observations() == b->Ok_0.observations(),
        a is Ok ==> a->Ok_0@ == b->Ok_0@,
        a is Ok ==> a->Ok_0@.len() == b->Ok_0@.len(),
        a is Err ==> a->Err_0 == b->Err_0,
{
    let knots = mode.knot_count();
    match (a, b) {
        (Err(Failure::OutOfRange { line: m }), Err(Failure::OutOfRange { line: n })) => {
            lemma_stops_once(knots, parsed_input(input)->Ok_0, m - 1, n - 1);
        },
        _ => {},
    }
}

} // verus!
