//! The follow rule, and how a whole rope moves when its head is pulled.
//!
//! A rope is a sequence of knots: the first is the head, the last the tail.

use vstd::prelude::*;
use crate::instruction::Instruction;
use crate::position::{gap, points, reach, touching, Point, Pos};
use crate::recorder::TailRecorder;

verus! {

/// One lattice unit in the direction of `d`, or nothing where `d` is zero.
pub open spec fn toward(d: int) -> int {
    if d > 0 {
        1
    } else if d < 0 {
        -1
    } else {
        0
    }
}

/// Where a follower goes when its leader stands at `leader`.
///
/// A follower that touches its leader stays. Any other follower closes in by
/// one unit on each axis on which the two differ: straight along a shared row
/// or column, diagonally otherwise.
pub open spec fn follow(leader: Point, follower: Point) -> Point {
    if touching(leader, follower) {
        follower
    } else {
        Point {
            x: follower.x + toward(leader.x - follower.x),
            y: follower.y + toward(leader.y - follower.y),
        }
    }
}

/// Where knot `i` comes to rest in a rope whose head has just been moved.
///
/// `pulled` holds the moved head in front and the other knots where they
/// were. The head stays where it was put; every other knot follows the place
/// that the knot before it has come to, not the place it left.
pub open spec fn knot_after(pulled: Seq<Point>, i: nat) -> Point
    decreases i,
{
    if i == 0 {
        pulled[0]
    } else {
        follow(knot_after(pulled, (i - 1) as nat), pulled[i as int])
    }
}

/// The rope once every knot has followed, head to tail.
pub open spec fn settled(pulled: Seq<Point>) -> Seq<Point> {
    Seq::new(pulled.len(), |i: int| knot_after(pulled, i as nat))
}

/// One unit step: the head moves by `d`, then the others follow in order.
pub open spec fn unit_step(rope: Seq<Point>, d: Point) -> Seq<Point> {
    if rope.len() == 0 {
        rope
    } else {
        settled(rope.update(0, rope[0].plus(d)))
    }
}

/// The rope after `n` unit steps by `d`.
pub open spec fn steps(rope: Seq<Point>, d: Point, n: nat) -> Seq<Point>
    decreases n,
{
    if n == 0 {
        rope
    } else {
        unit_step(steps(rope, d, (n - 1) as nat), d)
    }
}

/// Where the tail is after each of the first `n` unit steps by `d`, in order.
pub open spec fn tail_trace(rope: Seq<Point>, d: Point, n: nat) -> Seq<Point> {
    Seq::new(n, |j: int| steps(rope, d, (j + 1) as nat).last())
}

/// A rope is taut when every knot touches the next one.
pub open spec fn taut(rope: Seq<Point>) -> bool {
    forall|i: int, j: int|
        0 <= i && j == i + 1 && j < rope.len() ==> touching(#[trigger] rope[i], #[trigger] rope[j])
}

/// Applies the follow rule to `follower`, for a leader that has already moved.
pub fn follow_head(leader: Pos, follower: &mut Pos)
    ensures
        final(follower)@ == follow(leader@, old(follower)@),
{
    let dx: i64 = leader.x as i64 - follower.x as i64;
    let dy: i64 = leader.y as i64 - follower.y as i64;
    if -1 <= dx && dx <= 1 && -1 <= dy && dy <= 1 {
        return ;
    }
    if dx > 0 {
        follower.x = follower.x + 1;
    } else if dx < 0 {
        follower.x = follower.x - 1;
    }
    if dy > 0 {
        follower.y = follower.y + 1;
    } else if dy < 0 {
        follower.y = follower.y - 1;
    }
}

/// Unit steps keep the number of knots.
pub proof fn lemma_steps_len(rope: Seq<Point>, d: Point, n: nat)
    ensures
        steps(rope, d, n).len() == rope.len(),
    decreases n,
{
    if n > 0 {
        lemma_steps_len(rope, d, (n - 1) as nat);
    }
}

/// The head walks straight: after `n` unit steps of a command it has covered
/// what `n` steps in that direction cover, whatever the other knots do.
pub proof fn lemma_head_walks(rope: Seq<Point>, i: Instruction, n: nat)
    requires
        rope.len() >= 1,
    ensures
        steps(rope, i.unit(), n)[0] == rope[0].plus(i.travel(n)),
    decreases n,
{
    if n > 0 {
        let earlier = steps(rope, i.unit(), (n - 1) as nat);
        lemma_head_walks(rope, i, (n - 1) as nat);
        lemma_steps_len(rope, i.unit(), (n - 1) as nat);
        assert(knot_after(earlier.update(0, earlier[0].plus(i.unit())), 0) == earlier[0].plus(
            i.unit(),
        ));
    }
}

/// A follower never moves by more than one unit, on either axis.
pub proof fn lemma_follow_moves_at_most_one(leader: Point, follower: Point)
    ensures
        reach(follow(leader, follower), follower) <= 1,
{
}

/// A follower whose leader is at most two units off touches it after
/// following.
pub proof fn lemma_follow_closes_in(leader: Point, follower: Point)
    requires
        reach(leader, follower) <= 2,
    ensures
        touching(leader, follow(leader, follower)),
{
}

/// In one unit step of a command the head moves by exactly one lattice unit,
/// along the command's axis, and no knot moves by more than one unit.
pub proof fn lemma_unit_step_moves(rope: Seq<Point>, i: Instruction)
    requires
        rope.len() >= 1,
    ensures
        unit_step(rope, i.unit()).len() == rope.len(),
        unit_step(rope, i.unit())[0] == rope[0].plus(i.unit()),
        gap(unit_step(rope, i.unit())[0].x, rope[0].x) + gap(
            unit_step(rope, i.unit())[0].y,
            rope[0].y,
        ) == 1,
        forall|k: int|
            0 <= k < rope.len() ==> reach(#[trigger] unit_step(rope, i.unit())[k], rope[k]) <= 1,
{
    let pulled = rope.update(0, rope[0].plus(i.unit()));
    assert(knot_after(pulled, 0) == pulled[0]);
    assert forall|k: int| 0 <= k < rope.len() implies reach(
        #[trigger] unit_step(rope, i.unit())[k],
        rope[k],
    ) <= 1 by {
        if k > 0 {
            lemma_follow_moves_at_most_one(knot_after(pulled, (k - 1) as nat), pulled[k]);
        }
    }
}

/// A unit step of a command leaves a taut rope taut: afterwards every knot
/// again touches the next one.
pub proof fn lemma_unit_step_keeps_taut(rope: Seq<Point>, i: Instruction)
    requires
        taut(rope),
    ensures
        taut(unit_step(rope, i.unit())),
{
    if rope.len() >= 1 {
        let next = unit_step(rope, i.unit());
        let pulled = rope.update(0, rope[0].plus(i.unit()));
        lemma_unit_step_moves(rope, i);
        assert forall|a: int, b: int| 0 <= a && b == a + 1 && b < next.len() implies touching(
            #[trigger] next[a],
            #[trigger] next[b],
        ) by {
            assert(touching(rope[a], rope[b]));
            assert(reach(next[a], rope[a]) <= 1);
            assert(pulled[b] == rope[b]);
            assert(next[b] == follow(next[a], pulled[b]));
            lemma_follow_closes_in(next[a], rope[b]);
        }
    }
}

/// A taut rope is taut after every unit step of a command.
pub proof fn lemma_steps_keep_taut(rope: Seq<Point>, i: Instruction, n: nat)
    requires
        taut(rope),
    ensures
        taut(steps(rope, i.unit(), n)),
    decreases n,
{
    if n > 0 {
        lemma_steps_keep_taut(rope, i, (n - 1) as nat);
        lemma_unit_step_keeps_taut(steps(rope, i.unit(), (n - 1) as nat), i);
    }
}

/// The set of places seen only grows from one unit step to the next, and so
/// does its count: after `m` unit steps of a command it is within what it is
/// after `n >= m` of them.
pub proof fn lemma_seen_grows(seen: Seq<Point>, rope: Seq<Point>, d: Point, m: nat, n: nat)
    requires
        m <= n,
    ensures
        (seen + tail_trace(rope, d, m)).to_set().subset_of((seen + tail_trace(rope, d, n)).to_set()),
        (seen + tail_trace(rope, d, m)).to_set().len() <= (seen + tail_trace(
            rope,
            d,
            n,
        )).to_set().len(),
{
    let early = seen + tail_trace(rope, d, m);
    let late = seen + tail_trace(rope, d, n);
    assert forall|p: Point| early.to_set().contains(p) implies late.to_set().contains(p) by {
        let i = choose|i: int| 0 <= i < early.len() && early[i] == p;
        assert(late[i] == p);
    }
    vstd::seq_lib::seq_to_set_is_finite(late);
    vstd::set_lib::lemma_len_subset(early.to_set(), late.to_set());
}

/// Carries out one command: the head takes `i`'s unit steps one at a time,
/// after each of them the other knots follow from head to tail, and then the
/// tail's place is recorded.
///
/// The head must be able to carry the command out with machine coordinates;
/// [`Instruction::can_move`] tells.
pub fn follow_heads(i: Instruction, rope: &mut [Pos], tail_history: &mut TailRecorder)
    requires
        old(rope)@.len() >= 1,
        i.fits(old(rope)@[0]@),
        old(tail_history).wf(),
    ensures
        final(rope)@.len() == old(rope)@.len(),
        points(final(rope)@) == steps(points(old(rope)@), i.unit(), i.count()),
        final(tail_history).wf(),
        final(tail_history).observations() == old(tail_history).observations() + tail_trace(
            points(old(rope)@),
            i.unit(),
            i.count(),
        ),
        final(tail_history).observations().len() == old(tail_history).observations().len()
            + i.count(),
        old(tail_history)@.subset_of(final(tail_history)@),
        final(tail_history)@.len() >= old(tail_history)@.len(),
        i.count() > 0 ==> final(tail_history)@.contains(points(final(rope)@).last()),
        taut(points(old(rope)@)) ==> taut(points(final(rope)@)),
{
    let distance = i.distance();
    let len = rope.len();
    let ghost start = points(rope@);
    let ghost seen = tail_history.observations();
    let mut n: u32 = 0;
    assert(tail_history.observations() =~= seen + tail_trace(start, i.unit(), 0));
    while n < distance
        invariant
            n <= distance,
            distance == i.count(),
            len == rope@.len(),
            len == start.len(),
            len >= 1,
            i.fits(start[0]),
            start[0].representable(),
            points(rope@) == steps(start, i.unit(), n as nat),
            tail_history.wf(),
            tail_history.observations() == seen + tail_trace(start, i.unit(), n as nat),
            seen.to_set().subset_of(tail_history@),
            tail_history@.len() >= seen.to_set().len(),
        decreases distance - n,
    {
        let ghost before = points(rope@);
        proof {
            lemma_head_walks(start, i, n as nat);
            assert(before[0] == rope@[0]@);
        }
        match i {
            Instruction::Up(_) => rope[0].y = rope[0].y + 1,
            Instruction::Down(_) => rope[0].y = rope[0].y - 1,
            Instruction::Left(_) => rope[0].x = rope[0].x - 1,
            Instruction::Right(_) => rope[0].x = rope[0].x + 1,
        };
        let ghost pulled = points(rope@);
        assert(pulled =~= before.update(0, before[0].plus(i.unit())));
        let mut k: usize = 0;
        while k < len - 1
            invariant
                len == rope@.len(),
                len == pulled.len(),
                len >= 1,
                k <= len - 1,
                forall|j: int| 0 <= j <= k ==> (#[trigger] rope@[j])@ == knot_after(pulled, j as nat),
                forall|j: int| k < j < len ==> (#[trigger] rope@[j])@ == pulled[j],
            decreases len - k,
        {
            let leader = rope[k];
            follow_head(leader, &mut rope[k + 1]);
            k += 1;
        }
        assert(points(rope@) =~= unit_step(before, i.unit()));
        tail_history.record(rope[len - 1]);
        n += 1;
        proof {
            let d = i.unit();
            assert(tail_trace(start, d, n as nat) =~= tail_trace(start, d, (n - 1) as nat).push(
                steps(start, d, n as nat).last(),
            ));
        }
    }
    proof {
        if taut(start) {
            lemma_steps_keep_taut(start, i, i.count());
        }
        if i.count() > 0 {
            let all = tail_history.observations();
            assert(all[all.len() - 1] == points(rope@).last());
            assert(all.contains(all[all.len() - 1]));
        }
    }
}

} // verus!
