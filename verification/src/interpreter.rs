use vstd::prelude::*;

use crate::error::RuntimeError;
use crate::preprocessor::{Inst, Instruction};

verus! {

/// The whole mutable state of one execution: the tape, the pointer into it,
/// how much of the input has been consumed, and the bytes written so far.
pub struct Machine {
    pub tape: Seq<u8>,
    pub pointer: int,
    pub in_pos: int,
    pub output: Seq<u8>,
}

/// How a bounded execution ends: normally, with the unused part of the step
/// budget; stuck on a read past the end of the input; or out of steps, in
/// both stuck cases with the machine exactly as it stood.
pub enum RunOutcome {
    Done(Machine, nat),
    InputFailed(Machine),
    OutOfSteps(Machine),
}

/// The semantics of the instruction tree, as a step-budgeted evaluator: every
/// instruction dispatch costs one step, so any execution either finishes,
/// fails on exhausted input, or runs out of steps. A move wraps the pointer
/// around the tape; increment and decrement wrap the cell modulo 256; a write
/// emits `n` copies of the current cell; a read consumes the next input byte;
/// a loop re-runs its body as long as the current cell is non-zero.
pub open spec fn run(instrs: Seq<Inst>, m: Machine, input: Seq<u8>, steps: nat) -> RunOutcome
    decreases steps, instrs.len(),
{
    if instrs.len() == 0 {
        RunOutcome::Done(m, steps)
    } else if steps == 0 {
        RunOutcome::OutOfSteps(m)
    } else {
        let rest = instrs.skip(1);
        let left = (steps - 1) as nat;
        let len = m.tape.len() as int;
        match instrs[0] {
            Inst::MoveRight(n) => run(
                rest,
                Machine {
                    tape: m.tape,
                    pointer: (m.pointer + n) % len,
                    in_pos: m.in_pos,
                    output: m.output,
                },
                input,
                left,
            ),
            Inst::MoveLeft(n) => run(
                rest,
                Machine {
                    tape: m.tape,
                    pointer: (m.pointer - n) % len,
                    in_pos: m.in_pos,
                    output: m.output,
                },
                input,
                left,
            ),
            Inst::Increment(n) => run(
                rest,
                Machine {
                    tape: m.tape.update(m.pointer, (((m.tape[m.pointer] + n) % 256) as u8)),
                    pointer: m.pointer,
                    in_pos: m.in_pos,
                    output: m.output,
                },
                input,
                left,
            ),
            Inst::Decrement(n) => run(
                rest,
                Machine {
                    tape: m.tape.update(m.pointer, (((m.tape[m.pointer] - n) % 256) as u8)),
                    pointer: m.pointer,
                    in_pos: m.in_pos,
                    output: m.output,
                },
                input,
                left,
            ),
            Inst::Write(n) => run(
                rest,
                Machine {
                    tape: m.tape,
                    pointer: m.pointer,
                    in_pos: m.in_pos,
                    output: m.output + Seq::new(n as nat, |k: int| m.tape[m.pointer]),
                },
                input,
                left,
            ),
            Inst::Read => {
                if m.in_pos < input.len() {
                    run(
                        rest,
                        Machine {
                            tape: m.tape.update(m.pointer, input[m.in_pos]),
                            pointer: m.pointer,
                            in_pos: m.in_pos + 1,
                            output: m.output,
                        },
                        input,
                        left,
                    )
                } else {
                    RunOutcome::InputFailed(m)
                }
            },
            Inst::Loop(body) => {
                if m.tape[m.pointer] == 0 {
                    run(rest, m, input, left)
                } else {
                    match run(body, m, input, left) {
                        RunOutcome::Done(m2, left2) => if left2 < steps {
                            run(instrs, m2, input, left2)
                        } else {
                            RunOutcome::OutOfSteps(m2)
                        },
                        other => other,
                    }
                }
            },
        }
    }
}

/// The pointer after a wrapping move of `count` cells to the right on a tape
/// of length `len`.
fn move_right(pointer: usize, count: usize, len: usize) -> (r: usize)
    requires
        0 < len,
        pointer < len,
    ensures
        r == (pointer + count) % (len as int),
        r < len,
{
    let inc = count % len;
    let room = len - pointer;
    proof {
        let p = pointer as int;
        let n = count as int;
        let l = len as int;
        vstd::arithmetic::div_mod::lemma_add_mod_noop_right(p, n, l);
        if inc < room {
            vstd::arithmetic::div_mod::lemma_small_mod((p + n % l) as nat, l as nat);
        } else {
            vstd::arithmetic::div_mod::lemma_mod_sub_multiples_vanish(p + n % l, l);
            vstd::arithmetic::div_mod::lemma_small_mod((p + n % l - l) as nat, l as nat);
        }
    }
    if inc < room {
        pointer + inc
    } else {
        inc - room
    }
}

/// The pointer after a wrapping move of `count` cells to the left on a tape
/// of length `len`.
fn move_left(pointer: usize, count: usize, len: usize) -> (r: usize)
    requires
        0 < len,
        pointer < len,
    ensures
        r == (pointer - count) % (len as int),
        r < len,
{
    let dec = count % len;
    proof {
        let p = pointer as int;
        let n = count as int;
        let l = len as int;
        vstd::arithmetic::div_mod::lemma_sub_mod_noop_right(p, n, l);
        if dec > pointer {
            vstd::arithmetic::div_mod::lemma_mod_add_multiples_vanish(p - n % l, l);
            vstd::arithmetic::div_mod::lemma_small_mod((p - n % l + l) as nat, l as nat);
        } else {
            vstd::arithmetic::div_mod::lemma_small_mod((p - n % l) as nat, l as nat);
        }
    }
    if dec > pointer {
        len - (dec - pointer)
    } else {
        pointer - dec
    }
}

/// The cell after adding `count`, wrapping modulo 256.
fn byte_add(cell: u8, count: usize) -> (r: u8)
    ensures
        r == (cell + count) % 256,
{
    let add = (count % 256) as u16;
    let sum = cell as u16 + add;
    proof {
        let c = cell as int;
        let n = count as int;
        vstd::arithmetic::div_mod::lemma_add_mod_noop_right(c, n, 256);
        if sum >= 256 {
            vstd::arithmetic::div_mod::lemma_mod_sub_multiples_vanish(c + n % 256, 256);
            vstd::arithmetic::div_mod::lemma_small_mod((c + n % 256 - 256) as nat, 256);
        } else {
            vstd::arithmetic::div_mod::lemma_small_mod((c + n % 256) as nat, 256);
        }
    }
    if sum >= 256 {
        (sum - 256) as u8
    } else {
        sum as u8
    }
}

/// The cell after subtracting `count`, wrapping modulo 256.
fn byte_sub(cell: u8, count: usize) -> (r: u8)
    ensures
        r == (cell - count) % 256,
{
    let sub = (count % 256) as u16;
    let c16 = cell as u16;
    proof {
        let c = cell as int;
        let n = count as int;
        vstd::arithmetic::div_mod::lemma_sub_mod_noop_right(c, n, 256);
        if sub > c16 {
            vstd::arithmetic::div_mod::lemma_mod_add_multiples_vanish(c - n % 256, 256);
            vstd::arithmetic::div_mod::lemma_small_mod((c - n % 256 + 256) as nat, 256);
        } else {
            vstd::arithmetic::div_mod::lemma_small_mod((c - n % 256) as nat, 256);
        }
    }
    if sub > c16 {
        (c16 + 256 - sub) as u8
    } else {
        (c16 - sub) as u8
    }
}

/// Executes the given intermediate instructions immediately against the tape,
/// reading from `input` and appending what the program prints to `output`.
/// `steps` bounds the number of instruction dispatches; the result is the
/// unused part of that budget, or the reason the program stopped early, and
/// in every case the final state is exactly the one the semantics `run`
/// prescribes for the same budget.
#[verifier::loop_isolation(false)]
pub fn execute(
    instructions: &Vec<Instruction>,
    tape: &mut Vec<u8>,
    pointer: &mut usize,
    input: &Vec<u8>,
    in_pos: &mut usize,
    output: &mut Vec<u8>,
    steps: u64,
) -> (r: Result<u64, RuntimeError>)
    requires
        old(tape).len() > 0,
        *old(pointer) < old(tape).len(),
        *old(in_pos) <= input.len(),
    ensures
        final(tape).len() == old(tape).len(),
        *final(pointer) < final(tape).len(),
        *final(in_pos) <= input.len(),
        ({
            let pre = Machine {
                tape: old(tape)@,
                pointer: *old(pointer) as int,
                in_pos: *old(in_pos) as int,
                output: old(output)@,
            };
            let post = Machine {
                tape: final(tape)@,
                pointer: *final(pointer) as int,
                in_pos: *final(in_pos) as int,
                output: final(output)@,
            };
            match r {
                Ok(left) => left <= steps && run(instructions.deep_view(), pre, input@, steps as nat)
                    == RunOutcome::Done(post, left as nat),
                Err(RuntimeError::InputExhausted) => run(
                    instructions.deep_view(),
                    pre,
                    input@,
                    steps as nat,
                ) == RunOutcome::InputFailed(post),
                Err(RuntimeError::OutOfSteps) => run(
                    instructions.deep_view(),
                    pre,
                    input@,
                    steps as nat,
                ) == RunOutcome::OutOfSteps(post),
            }
        }),
    decreases steps,
{
    let ghost pre = Machine {
        tape: tape@,
        pointer: *pointer as int,
        in_pos: *in_pos as int,
        output: output@,
    };
    let ghost all = instructions.deep_view();
    let mut steps_left: u64 = steps;
    let mut i: usize = 0;
    proof {
        assert(all.skip(0) =~= all);
    }
    while i < instructions.len()
        invariant
            i <= instructions@.len(),
            steps_left <= steps,
            tape@.len() == pre.tape.len(),
            *pointer < tape@.len(),
            *in_pos <= input@.len(),
            run(all, pre, input@, steps as nat) == run(
                all.skip(i as int),
                (Machine {
                    tape: tape@,
                    pointer: *pointer as int,
                    in_pos: *in_pos as int,
                    output: output@,
                }),
                input@,
                steps_left as nat,
            ),
        decreases steps_left,
    {
        let ghost suffix = all.skip(i as int);
        let ghost cur = Machine {
            tape: tape@,
            pointer: *pointer as int,
            in_pos: *in_pos as int,
            output: output@,
        };
        let ghost sl = steps_left as nat;
        proof {
            assert(all[i as int] == instructions@[i as int].deep_view());
            assert(suffix[0] == all[i as int]);
            assert(suffix.len() > 0);
            assert(suffix.skip(1) =~= all.skip(i as int + 1));
        }
        if steps_left == 0 {
            return Err(RuntimeError::OutOfSteps);
        }
        steps_left = steps_left - 1;
        let instruction = &instructions[i];
        match instruction {
            Instruction::MoveRight(count) => {
                *pointer = move_right(*pointer, *count, tape.len());
                i += 1;
            },
            Instruction::MoveLeft(count) => {
                *pointer = move_left(*pointer, *count, tape.len());
                i += 1;
            },
            Instruction::Increment(count) => {
                let cell = tape[*pointer];
                tape[*pointer] = byte_add(cell, *count);
                i += 1;
            },
            Instruction::Decrement(count) => {
                let cell = tape[*pointer];
                tape[*pointer] = byte_sub(cell, *count);
                i += 1;
            },
            Instruction::Write(count) => {
                let cell = tape[*pointer];
                let cnt = *count;
                let mut k: usize = 0;
                while k < cnt
                    invariant
                        k <= cnt,
                        output@ == cur.output + Seq::new(k as nat, |j: int| cell),
                    decreases cnt - k,
                {
                    output.push(cell);
                    proof {
                        assert(Seq::new(k as nat + 1, |j: int| cell) =~= Seq::new(
                            k as nat,
                            |j: int| cell,
                        ).push(cell));
                        assert(cur.output + Seq::new(k as nat + 1, |j: int| cell) =~= (cur.output
                            + Seq::new(k as nat, |j: int| cell)).push(cell));
                    }
                    k += 1;
                }
                proof {
                    assert(cell == cur.tape[cur.pointer]);
                }
                i += 1;
            },
            Instruction::Read => {
                if *in_pos < input.len() {
                    let b = input[*in_pos];
                    tape[*pointer] = b;
                    *in_pos += 1;
                    i += 1;
                } else {
                    proof {
                        assert(run(suffix, cur, input@, sl) == RunOutcome::InputFailed(cur));
                    }
                    return Err(RuntimeError::InputExhausted);
                }
            },
            Instruction::Loop(body) => {
                proof {
                    crate::preprocessor::lemma_loop_view(body);
                    assert(*instruction == Instruction::Loop(*body));
                }
                let cell = tape[*pointer];
                if cell == 0 {
                    i += 1;
                } else {
                    let res = execute(body, tape, pointer, input, in_pos, output, steps_left);
                    match res {
                        Ok(left) => {
                            proof {
                                assert(run(suffix, cur, input@, sl) == run(
                                    suffix,
                                    (Machine {
                                        tape: tape@,
                                        pointer: *pointer as int,
                                        in_pos: *in_pos as int,
                                        output: output@,
                                    }),
                                    input@,
                                    left as nat,
                                ));
                            }
                            steps_left = left;
                        },
                        Err(e) => {
                            return Err(e);
                        },
                    }
                }
            },
        }
    }
    proof {
        assert(all.skip(instructions@.len() as int) =~= Seq::<Inst>::empty());
    }
    Ok(steps_left)
}

} // verus!
