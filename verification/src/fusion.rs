//! What a pass makes of a run of additions and of a run of moves.

use vstd::prelude::*;
use crate::optimizer::{
    emitted, fuse, fusible, idle, lemma_pass_from_shrinks, pass, pass_from, pending_program,
};
use crate::statement::{Instruction, kept_loop, lemma_size_concat, lemma_size_single, size};

verus! {

/// The program that adds each of `values` in turn.
pub open spec fn additions(values: Seq<u8>) -> Seq<Instruction> {
    values.map_values(|value: u8| Instruction::Add(value))
}

/// The sum of `values`.
pub open spec fn total(values: Seq<u8>) -> int
    decreases values.len(),
{
    if values.len() == 0 {
        0
    } else {
        values[0] + total(values.drop_first())
    }
}

/// How far an instruction moves the head to the right; to the left where
/// negative. An instruction that is no move does not move it.
pub open spec fn displacement(instruction: Instruction) -> int {
    match instruction {
        Instruction::MoveRight(shift) => shift as int,
        Instruction::MoveLeft(shift) => -(shift as int),
        _ => 0,
    }
}

/// How far a program of moves moves the head to the right in all.
pub open spec fn net_displacement(program: Seq<Instruction>) -> int
    decreases program.len(),
{
    if program.len() == 0 {
        0
    } else {
        displacement(program[0]) + net_displacement(program.drop_first())
    }
}

/// The sum of the distances of the moves of a program, whatever their
/// direction.
pub open spec fn reach(program: Seq<Instruction>) -> int
    decreases program.len(),
{
    if program.len() == 0 {
        0
    } else {
        let first = displacement(program[0]);
        (if first < 0 {
            -first
        } else {
            first
        }) + reach(program.drop_first())
    }
}

/// Every instruction of the program is a move.
pub open spec fn only_moves(program: Seq<Instruction>) -> bool {
    forall|i: int| 0 <= i < program.len() ==> (#[trigger] program[i]).is_move()
}

/// The one move by `net` cells to the right, or to the left where `net` is
/// negative, as a program: nothing where `net` is zero.
pub open spec fn net_move(net: int) -> Seq<Instruction> {
    if net == 0 {
        Seq::empty()
    } else if net > 0 {
        seq![Instruction::MoveRight(net as usize)]
    } else {
        seq![Instruction::MoveLeft((-net) as usize)]
    }
}

/// A reach is not negative.
pub proof fn lemma_reach_not_negative(program: Seq<Instruction>)
    ensures
        reach(program) >= 0,
    decreases program.len(),
{
    if program.len() > 0 {
        lemma_reach_not_negative(program.drop_first());
    }
}

/// The reach of a single move is its distance.
pub proof fn lemma_reach_single(instruction: Instruction)
    ensures
        reach(seq![instruction]) == if displacement(instruction) < 0 {
            -displacement(instruction)
        } else {
            displacement(instruction)
        },
{
    let alone = seq![instruction];
    assert(alone.drop_first() =~= Seq::<Instruction>::empty());
    assert(reach(alone.drop_first()) == 0);
}

/// A pass over additions, entered with an addition accumulated, gives the
/// one addition of the sum of all of them modulo 256, or nothing where that
/// is zero.
pub proof fn lemma_pass_from_additions(values: Seq<u8>, pending: u8)
    ensures
        pass_from(additions(values), Some(Instruction::Add(pending))) == emitted(
            Some(Instruction::Add(((pending + total(values)) % 256) as u8)),
        ),
    decreases values.len(),
{
    let program = additions(values);
    if values.len() > 0 {
        let rest = values.drop_first();
        assert(program[0] == Instruction::Add(values[0]));
        assert(program.drop_first() =~= additions(rest));
        let sum = ((pending + values[0]) % 256) as u8;
        lemma_pass_from_additions(rest, sum);
        assert((sum + total(rest)) % 256 == (pending + total(values)) % 256) by {
            vstd::arithmetic::div_mod::lemma_add_mod_noop_right(
                total(rest),
                pending + values[0],
                256,
            );
        }
    }
}

/// A run of additions is fused into the one addition of their sum modulo
/// 256, and dropped where that is zero.
pub proof fn lemma_pass_additions(values: Seq<u8>)
    ensures
        pass(additions(values)) == emitted(Some(Instruction::Add((total(values) % 256) as u8))),
{
    let program = additions(values);
    if values.len() > 0 {
        let rest = values.drop_first();
        assert(program[0] == Instruction::Add(values[0]));
        assert(program.drop_first() =~= additions(rest));
        lemma_pass_from_additions(rest, values[0]);
        assert(emitted(None) + pass_from(additions(rest), Some(program[0])) =~= pass_from(
            additions(rest),
            Some(program[0]),
        ));
    }
}

/// A pass over moves, entered with a move accumulated, gives the one move
/// by the net displacement of all of them, or nothing where that is zero,
/// provided that their distances can be summed up in a machine word.
pub proof fn lemma_pass_from_moves(program: Seq<Instruction>, pending: Instruction)
    requires
        only_moves(program),
        pending.is_move(),
        reach(seq![pending]) + reach(program) <= usize::MAX,
    ensures
        pass_from(program, Some(pending)) == net_move(
            displacement(pending) + net_displacement(program),
        ),
    decreases program.len(),
{
    lemma_reach_single(pending);
    lemma_reach_not_negative(program);
    if program.len() > 0 {
        let head = program[0];
        let rest = program.drop_first();
        assert(head.is_move());
        assert(only_moves(rest)) by {
            assert forall|i: int| 0 <= i < rest.len() implies (#[trigger] rest[i]).is_move() by {
                assert(rest[i] == program[i + 1]);
            }
        }
        lemma_reach_not_negative(rest);
        let fused = fuse(pending, head);
        assert(fused is Some && fused->0.is_move() && displacement(fused->0) == displacement(
            pending,
        ) + displacement(head));
        lemma_reach_single(fused->0);
        lemma_pass_from_moves(rest, fused->0);
    }
}

/// A run of moves is fused into the one move by their net displacement,
/// and dropped where that is zero, provided that their distances can be
/// summed up in a machine word.
pub proof fn lemma_pass_moves(program: Seq<Instruction>)
    requires
        only_moves(program),
        reach(program) <= usize::MAX,
    ensures
        pass(program) == net_move(net_displacement(program)),
{
    if program.len() > 0 {
        let head = program[0];
        let rest = program.drop_first();
        assert(head.is_move());
        assert(only_moves(rest)) by {
            assert forall|i: int| 0 <= i < rest.len() implies (#[trigger] rest[i]).is_move() by {
                assert(rest[i] == program[i + 1]);
            }
        }
        lemma_reach_single(head);
        lemma_pass_from_moves(rest, head);
        assert(emitted(None) + pass_from(rest, Some(head)) =~= pass_from(rest, Some(head)));
    }
}


/// The input and output instructions of a program in the order in which
/// they stand, those in the bodies of its loops included.
pub open spec fn io_of(program: Seq<Instruction>) -> Seq<Instruction>
    decreases program,
{
    if program.len() == 0 {
        Seq::empty()
    } else {
        (match program[0] {
            Instruction::PutChar | Instruction::ReadChar => seq![program[0]],
            Instruction::Loop(body) => io_of(body),
            _ => Seq::empty(),
        }) + io_of(program.drop_first())
    }
}

/// The input and output of two programs in a row is that of the first
/// followed by that of the second.
pub proof fn lemma_io_of_concat(first: Seq<Instruction>, second: Seq<Instruction>)
    ensures
        io_of(first + second) == io_of(first) + io_of(second),
    decreases first.len(),
{
    if first.len() == 0 {
        assert(first + second =~= second);
        assert(io_of(first) + io_of(second) =~= io_of(second));
    } else {
        assert((first + second)[0] == first[0]);
        assert((first + second).drop_first() =~= first.drop_first() + second);
        lemma_io_of_concat(first.drop_first(), second);
        assert(io_of(first + second) =~= io_of(first) + io_of(second));
    }
}

/// The input and output of a program of one instruction.
pub proof fn lemma_io_of_single(instruction: Instruction)
    ensures
        io_of(seq![instruction]) == match instruction {
            Instruction::PutChar | Instruction::ReadChar => seq![instruction],
            Instruction::Loop(body) => io_of(body),
            _ => Seq::empty(),
        },
{
    let alone = seq![instruction];
    assert(alone[0] == instruction);
    assert(alone.drop_first() =~= Seq::<Instruction>::empty());
    assert(io_of(alone.drop_first()) =~= Seq::<Instruction>::empty());
    match instruction {
        Instruction::PutChar | Instruction::ReadChar => {
            assert(alone + Seq::<Instruction>::empty() =~= alone);
        },
        Instruction::Loop(body) => {
            assert(io_of(body) + Seq::<Instruction>::empty() =~= io_of(body));
        },
        _ => {
            assert(Seq::<Instruction>::empty() + Seq::<Instruction>::empty()
                =~= Seq::<Instruction>::empty());
        },
    }
}

/// A program of one instruction that is a move or an addition, or of none,
/// has no input or output.
pub proof fn lemma_io_of_emitted(pending: Option<Instruction>)
    requires
        pending is Some ==> fusible(pending->0),
    ensures
        io_of(emitted(pending)) == Seq::<Instruction>::empty(),
{
    if pending is Some {
        lemma_io_of_single(pending->0);
    }
}

/// A pass, entered with an accumulated move or addition, keeps the input
/// and output instructions of a program, and their order.
pub proof fn lemma_pass_from_keeps_io(program: Seq<Instruction>, pending: Option<Instruction>)
    requires
        pending is Some ==> fusible(pending->0),
    ensures
        io_of(pass_from(program, pending)) == io_of(program),
    decreases program,
{
    lemma_io_of_emitted(pending);
    let flushed = emitted(pending);
    if program.len() > 0 {
        let head = program[0];
        let rest = program.drop_first();
        match head {
            Instruction::Loop(body) => {
                let inner = pass_from(body, None);
                let kept = kept_loop(inner);
                lemma_pass_from_keeps_io(body, None);
                lemma_pass_from_keeps_io(rest, None);
                assert(io_of(kept) == io_of(body)) by {
                    if inner.len() > 0 {
                        lemma_io_of_single(Instruction::Loop(inner));
                    }
                }
                lemma_io_of_concat(flushed, kept);
                lemma_io_of_concat(flushed + kept, pass_from(rest, None));
                assert(io_of(pass_from(program, pending)) =~= io_of(program));
            },
            Instruction::PutChar | Instruction::ReadChar => {
                lemma_pass_from_keeps_io(rest, None);
                let alone = seq![head];
                lemma_io_of_single(head);
                assert(program =~= alone + rest);
                lemma_io_of_concat(alone, rest);
                lemma_io_of_concat(flushed, alone);
                lemma_io_of_concat(flushed + alone, pass_from(rest, None));
                assert(io_of(pass_from(program, pending)) =~= io_of(program));
            },
            _ => {
                if pending is Some && fuse(pending->0, head) is Some {
                    lemma_pass_from_keeps_io(rest, fuse(pending->0, head));
                } else {
                    lemma_pass_from_keeps_io(rest, Some(head));
                    lemma_io_of_concat(flushed, pass_from(rest, Some(head)));
                }
                assert(io_of(pass_from(program, pending)) =~= io_of(program));
            },
        }
    }
}

/// A pass keeps the input and output instructions of a program, and their
/// order.
pub proof fn lemma_pass_keeps_io(program: Seq<Instruction>)
    ensures
        io_of(pass(program)) == io_of(program),
{
    lemma_pass_from_keeps_io(program, None);
}

/// Whether a program holds nothing that a pass would drop for itself: no
/// move by zero, no addition of zero, and no loop with an empty body, in the
/// program or in the bodies of its loops.
pub open spec fn trimmed(program: Seq<Instruction>) -> bool
    decreases program,
{
    program.len() > 0 ==> {
        &&& !idle(program[0])
        &&& program[0] matches Instruction::Loop(body) ==> body.len() > 0 && trimmed(body)
        &&& trimmed(program.drop_first())
    }
}

/// A program of one instruction is trimmed where the instruction is not
/// idle and, if it is a loop, has a body that is not empty and is trimmed.
pub proof fn lemma_trimmed_single(instruction: Instruction)
    requires
        !idle(instruction),
        instruction matches Instruction::Loop(body) ==> body.len() > 0 && trimmed(body),
    ensures
        trimmed(seq![instruction]),
{
    let alone = seq![instruction];
    assert(alone[0] == instruction);
    assert(alone.drop_first() =~= Seq::<Instruction>::empty());
    assert(trimmed(alone.drop_first()));
}

/// Two programs in a row are trimmed where both are.
pub proof fn lemma_trimmed_concat(first: Seq<Instruction>, second: Seq<Instruction>)
    requires
        trimmed(first),
        trimmed(second),
    ensures
        trimmed(first + second),
    decreases first.len(),
{
    if first.len() == 0 {
        assert(first + second =~= second);
    } else {
        assert((first + second)[0] == first[0]);
        assert((first + second).drop_first() =~= first.drop_first() + second);
        lemma_trimmed_concat(first.drop_first(), second);
    }
}

/// What a pass, entered with an accumulated move or addition, gives is
/// trimmed.
pub proof fn lemma_pass_from_trimmed(program: Seq<Instruction>, pending: Option<Instruction>)
    requires
        pending is Some ==> fusible(pending->0),
    ensures
        trimmed(pass_from(program, pending)),
    decreases program,
{
    let flushed = emitted(pending);
    assert(trimmed(flushed)) by {
        if flushed.len() > 0 {
            lemma_trimmed_single(pending->0);
        }
    }
    if program.len() > 0 {
        let head = program[0];
        let rest = program.drop_first();
        match head {
            Instruction::Loop(body) => {
                let inner = pass_from(body, None);
                let kept = kept_loop(inner);
                lemma_pass_from_trimmed(body, None);
                lemma_pass_from_trimmed(rest, None);
                assert(trimmed(kept)) by {
                    if inner.len() > 0 {
                        lemma_trimmed_single(Instruction::Loop(inner));
                    }
                }
                lemma_trimmed_concat(flushed, kept);
                lemma_trimmed_concat(flushed + kept, pass_from(rest, None));
            },
            Instruction::PutChar | Instruction::ReadChar => {
                lemma_pass_from_trimmed(rest, None);
                let alone = seq![head];
                lemma_trimmed_single(head);
                lemma_trimmed_concat(flushed, alone);
                lemma_trimmed_concat(flushed + alone, pass_from(rest, None));
            },
            _ => {
                if pending is Some && fuse(pending->0, head) is Some {
                    lemma_pass_from_trimmed(rest, fuse(pending->0, head));
                } else {
                    lemma_pass_from_trimmed(rest, Some(head));
                    lemma_trimmed_concat(flushed, pass_from(rest, Some(head)));
                }
            },
        }
    }
}

/// A pass leaves no move by zero, no addition of zero and no loop with an
/// empty body.
pub proof fn lemma_pass_trimmed(program: Seq<Instruction>)
    ensures
        trimmed(pass(program)),
{
    lemma_pass_from_trimmed(program, None);
}


/// Whether no two neighbours of a program fuse, in the program or in the
/// bodies of its loops.
pub open spec fn settled(program: Seq<Instruction>) -> bool
    decreases program,
{
    program.len() > 0 ==> {
        &&& program[0] matches Instruction::Loop(body) ==> settled(body)
        &&& program.len() > 1 ==> fuse(program[0], program[1]) is None
        &&& settled(program.drop_first())
    }
}

/// Where a pass, entered with an accumulated instruction, gives back what
/// it was given, no two neighbours of that fuse.
pub proof fn lemma_kept_is_settled(program: Seq<Instruction>, pending: Option<Instruction>)
    requires
        pending is Some ==> fusible(pending->0),
        pass_from(program, pending) == pending_program(pending) + program,
    ensures
        settled(pending_program(pending) + program),
    decreases program,
{
    let before = pending_program(pending);
    let flushed = emitted(pending);
    let whole = before + program;
    lemma_size_concat(before, program);
    if pending is Some {
        lemma_size_single(pending->0);
        assert(whole[0] == pending->0);
        assert(whole.drop_first() =~= program);
    } else {
        assert(whole =~= program);
    }
    if program.len() == 0 {
        assert(settled(program));
    } else {
        let head = program[0];
        let rest = program.drop_first();
        assert(program =~= seq![head] + rest);
        lemma_size_single(head);
        lemma_size_concat(seq![head], rest);
        if pending is Some {
            assert(whole[1] == head);
        }
        match head {
            Instruction::Loop(body) => {
                let inner = pass_from(body, None);
                let kept = kept_loop(inner);
                let tail = pass_from(rest, None);
                lemma_pass_from_shrinks(body, None);
                lemma_pass_from_shrinks(rest, None);
                assert(pending_program(None) + body =~= body);
                assert(pending_program(None) + rest =~= rest);
                if inner.len() > 0 {
                    lemma_size_single(Instruction::Loop(inner));
                }
                lemma_size_concat(flushed, kept);
                lemma_size_concat(flushed + kept, tail);
                assert(kept == seq![head]);
                assert(inner == body);
                lemma_kept_is_settled(body, None);
                lemma_kept_is_settled(rest, None);
                assert(settled(program));
            },
            Instruction::PutChar | Instruction::ReadChar => {
                let tail = pass_from(rest, None);
                lemma_pass_from_shrinks(rest, None);
                assert(pending_program(None) + rest =~= rest);
                lemma_size_concat(flushed, seq![head]);
                lemma_size_concat(flushed + seq![head], tail);
                lemma_kept_is_settled(rest, None);
                assert(settled(program));
            },
            _ => {
                if pending is Some && fuse(pending->0, head) is Some {
                    let fused = fuse(pending->0, head);
                    lemma_pass_from_shrinks(rest, fused);
                    lemma_size_single(fused->0);
                    lemma_size_concat(pending_program(fused), rest);
                } else {
                    let tail = pass_from(rest, Some(head));
                    lemma_pass_from_shrinks(rest, Some(head));
                    assert(pending_program(Some(head)) + rest =~= program);
                    lemma_size_concat(flushed, tail);
                    lemma_kept_is_settled(rest, Some(head));
                }
            },
        }
    }
}

/// In a program that a pass leaves as it is, and so in every program that
/// was optimized until nothing changed, no two neighbours fuse: two moves, or
/// two additions, stand side by side only where they are moves in one
/// direction whose sum does not fit the machine word.
pub proof fn lemma_fixed_is_settled(program: Seq<Instruction>)
    requires
        pass(program) == program,
    ensures
        settled(program),
        trimmed(program),
{
    assert(pending_program(None) + program =~= program);
    lemma_kept_is_settled(program, None);
    lemma_pass_trimmed(program);
}

} // verus!
