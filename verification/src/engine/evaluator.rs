//! Execution of a program against a line of text, by backtracking.

use super::{well_formed, Instruction};
use crate::helper::safe_add;
use std::collections::VecDeque;
use vstd::prelude::*;

verus! {

/// Why a run of the machine was given up.
#[derive(Debug)]
pub enum EvalError {
    /// The program counter cannot be moved on.
    PCOverflow,
    /// The position in the line cannot be moved on.
    SPOverflow,
    /// The program counter points at no instruction.
    InvalidPC,
    /// A saved context was needed and there was none.
    InvalidContext,
}

/// Whether `rank` gives every instruction of `prog` a number that is larger
/// than that of each address the instruction passes control to without
/// consuming a character.
pub open spec fn is_ranking(prog: Seq<Instruction>, rank: Seq<nat>) -> bool {
    &&& rank.len() == prog.len()
    &&& forall|pc: int|
        0 <= pc < prog.len() ==> match #[trigger] prog[pc] {
            Instruction::Jump(a) => a < prog.len() ==> rank[a as int] < rank[pc],
            Instruction::Split(a1, a2) => {
                &&& a1 < prog.len() ==> rank[a1 as int] < rank[pc]
                &&& a2 < prog.len() ==> rank[a2 as int] < rank[pc]
            },
            _ => true,
        }
}

/// Whether every cycle of `prog` consumes a character: no path of jumps and
/// branches alone leads from an instruction back to itself.
pub open spec fn progresses(prog: Seq<Instruction>) -> bool {
    exists|rank: Seq<nat>| is_ranking(prog, rank)
}

/// A ranking of `prog`, where there is one.
pub open spec fn rank_of(prog: Seq<Instruction>) -> Seq<nat> {
    choose|rank: Seq<nat>| is_ranking(prog, rank)
}

/// A bound on the number of jumps and branches that the machine can follow
/// from `pc` before it consumes a character or stops.
pub open spec fn weight(prog: Seq<Instruction>, pc: nat) -> nat {
    if pc < prog.len() {
        rank_of(prog)[pc as int] + 1
    } else {
        0
    }
}

/// The number of characters of `line` from position `sp` on.
pub open spec fn remaining(line: Seq<char>, sp: nat) -> nat {
    if sp <= line.len() {
        (line.len() - sp) as nat
    } else {
        0
    }
}

/// The result of the depth-first search from the instruction at `pc` and the
/// position `sp` of `line`.
///
/// `Match` succeeds wherever it is reached. `Char` goes on behind a character
/// that is the expected one and fails on another or at the end of the line.
/// `Split` searches from its first address and, only where that search
/// fails, from its second. A program counter that points behind the program
/// ends the search with an error.
pub open spec fn run(prog: Seq<Instruction>, line: Seq<char>, pc: nat, sp: nat) -> Result<
    bool,
    EvalError,
>
    decreases remaining(line, sp), weight(prog, pc),
    when progresses(prog)
{
    if pc >= prog.len() {
        Err(EvalError::InvalidPC)
    } else {
        match prog[pc as int] {
            Instruction::Char(c) => {
                if sp < line.len() && line[sp as int] == c {
                    run(prog, line, pc + 1, sp + 1)
                } else {
                    Ok(false)
                }
            },
            Instruction::Match => Ok(true),
            Instruction::Jump(a) => run(prog, line, a as nat, sp),
            Instruction::Split(a1, a2) => {
                match run(prog, line, a1 as nat, sp) {
                    Ok(false) => run(prog, line, a2 as nat, sp),
                    r => r,
                }
            },
        }
    }
}

/// A search in a well-formed program never leaves the program: it ends
/// with a match or without one, and not with an error.
pub proof fn lemma_run_stays_inside(prog: Seq<Instruction>, line: Seq<char>, pc: nat, sp: nat)
    requires
        progresses(prog),
        well_formed(prog),
        pc < prog.len(),
    ensures
        run(prog, line, pc, sp) is Ok,
    decreases remaining(line, sp), weight(prog, pc),
{
    assert(is_ranking(prog, rank_of(prog)));
    match prog[pc as int] {
        Instruction::Char(c) => {
            if sp < line.len() && line[sp as int] == c {
                lemma_run_stays_inside(prog, line, pc + 1, sp + 1);
            }
        },
        Instruction::Match => {},
        Instruction::Jump(a) => {
            lemma_run_stays_inside(prog, line, a as nat, sp);
        },
        Instruction::Split(a1, a2) => {
            lemma_run_stays_inside(prog, line, a1 as nat, sp);
            lemma_run_stays_inside(prog, line, a2 as nat, sp);
        },
    }
}

/// Runs the program from `pc` and `sp` by recursion: one call for each
/// branch that is tried.
pub fn eval_depth(inst: &[Instruction], line: &[char], pc: usize, sp: usize) -> (r: Result<
    bool,
    EvalError,
>)
    requires
        progresses(inst@),
    ensures
        r == run(inst@, line@, pc as nat, sp as nat),
    decreases remaining(line@, sp as nat), weight(inst@, pc as nat),
{
    let mut cur_pc = pc;
    let mut cur_sp = sp;
    loop
        invariant
            progresses(inst@),
            run(inst@, line@, cur_pc as nat, cur_sp as nat) == run(
                inst@,
                line@,
                pc as nat,
                sp as nat,
            ),
            remaining(line@, cur_sp as nat) < remaining(line@, sp as nat) || (remaining(
                line@,
                cur_sp as nat,
            ) == remaining(line@, sp as nat) && weight(inst@, cur_pc as nat) <= weight(
                inst@,
                pc as nat,
            )),
        decreases remaining(line@, cur_sp as nat), weight(inst@, cur_pc as nat),
    {
        proof {
            assert(is_ranking(inst@, rank_of(inst@)));
        }
        let next = if cur_pc < inst.len() {
            &inst[cur_pc]
        } else {
            return Err(EvalError::InvalidPC);
        };

        match next {
            Instruction::Char(c) => {
                if cur_sp < line.len() {
                    if *c == line[cur_sp] {
                        let pc_overflow = || -> (e: EvalError)
                            ensures
                                e == EvalError::PCOverflow,
                            {
                                EvalError::PCOverflow
                            };
                        let sp_overflow = || -> (e: EvalError)
                            ensures
                                e == EvalError::SPOverflow,
                            {
                                EvalError::SPOverflow
                            };
                        safe_add(&mut cur_pc, &1, pc_overflow)?;
                        safe_add(&mut cur_sp, &1, sp_overflow)?;
                    } else {
                        return Ok(false);
                    }
                } else {
                    return Ok(false);
                }
            },
            Instruction::Match => {
                return Ok(true);
            },
            Instruction::Jump(addr) => {
                cur_pc = *addr;
            },
            Instruction::Split(addr1, addr2) => {
                if eval_depth(inst, line, *addr1, cur_sp)? || eval_depth(
                    inst,
                    line,
                    *addr2,
                    cur_sp,
                )? {
                    return Ok(true);
                } else {
                    return Ok(false);
                }
            },
        }
    }
}

/// The number of steps of the search from `pc` and `sp` where every branch
/// has to be tried.
pub open spec fn cost(prog: Seq<Instruction>, line: Seq<char>, pc: nat, sp: nat) -> nat
    decreases remaining(line, sp), weight(prog, pc),
    when progresses(prog)
{
    if pc >= prog.len() {
        1
    } else {
        match prog[pc as int] {
            Instruction::Char(c) => {
                if sp < line.len() && line[sp as int] == c {
                    1 + cost(prog, line, pc + 1, sp + 1)
                } else {
                    1
                }
            },
            Instruction::Match => 1,
            Instruction::Jump(a) => 1 + cost(prog, line, a as nat, sp),
            Instruction::Split(a1, a2) => 1 + cost(prog, line, a1 as nat, sp) + cost(
                prog,
                line,
                a2 as nat,
                sp,
            ),
        }
    }
}

/// The costs of the searches from all of the saved contexts `ctx`.
pub open spec fn saved_cost(prog: Seq<Instruction>, line: Seq<char>, ctx: Seq<(nat, nat)>) -> nat
    decreases ctx.len(),
{
    if ctx.len() == 0 {
        0
    } else {
        saved_cost(prog, line, ctx.drop_last()) + cost(prog, line, ctx.last().0, ctx.last().1)
    }
}

/// The result of the search with an explicit stack, from the instruction at
/// `pc`, the position `sp` of `line` and the saved contexts `ctx`, the one
/// saved last at the end.
///
/// `Split` goes on at its first address and saves its second with the
/// current position. Where `Char` fails, the search resumes from the context
/// saved last, and fails where none is saved.
pub open spec fn run_stack(
    prog: Seq<Instruction>,
    line: Seq<char>,
    pc: nat,
    sp: nat,
    ctx: Seq<(nat, nat)>,
) -> Result<bool, EvalError>
    decreases cost(prog, line, pc, sp) + saved_cost(prog, line, ctx),
    when progresses(prog)
{
    if pc >= prog.len() {
        Err(EvalError::InvalidPC)
    } else {
        match prog[pc as int] {
            Instruction::Char(c) => {
                if sp < line.len() && line[sp as int] == c {
                    run_stack(prog, line, pc + 1, sp + 1, ctx)
                } else if ctx.len() == 0 {
                    Ok(false)
                } else {
                    run_stack(prog, line, ctx.last().0, ctx.last().1, ctx.drop_last())
                }
            },
            Instruction::Match => Ok(true),
            Instruction::Jump(a) => run_stack(prog, line, a as nat, sp, ctx),
            Instruction::Split(a1, a2) => {
                proof {
                    assert(ctx.push((a2 as nat, sp)).drop_last() =~= ctx);
                }
                run_stack(prog, line, a1 as nat, sp, ctx.push((a2 as nat, sp)))
            },
        }
    }
}

/// The saved contexts of the machine as pairs of numbers.
pub open spec fn contexts(ctx: Seq<(usize, usize)>) -> Seq<(nat, nat)> {
    Seq::new(ctx.len(), |i: int| (ctx[i].0 as nat, ctx[i].1 as nat))
}

/// The search with a stack from `pc`, `sp` and the saved contexts `ctx` is
/// the recursive search from `pc` and `sp`, followed, only where that one
/// fails, by the search with a stack from the context saved last.
pub proof fn lemma_run_stack(
    prog: Seq<Instruction>,
    line: Seq<char>,
    pc: nat,
    sp: nat,
    ctx: Seq<(nat, nat)>,
)
    requires
        progresses(prog),
    ensures
        run_stack(prog, line, pc, sp, ctx) == match run(prog, line, pc, sp) {
            Ok(false) => if ctx.len() == 0 {
                Ok(false)
            } else {
                run_stack(prog, line, ctx.last().0, ctx.last().1, ctx.drop_last())
            },
            r => r,
        },
    decreases remaining(line, sp), weight(prog, pc),
{
    assert(is_ranking(prog, rank_of(prog)));
    if pc < prog.len() {
        match prog[pc as int] {
            Instruction::Char(c) => {
                if sp < line.len() && line[sp as int] == c {
                    lemma_run_stack(prog, line, pc + 1, sp + 1, ctx);
                }
            },
            Instruction::Match => {},
            Instruction::Jump(a) => {
                lemma_run_stack(prog, line, a as nat, sp, ctx);
            },
            Instruction::Split(a1, a2) => {
                let saved = ctx.push((a2 as nat, sp));
                assert(saved.drop_last() =~= ctx);
                lemma_run_stack(prog, line, a1 as nat, sp, saved);
                lemma_run_stack(prog, line, a2 as nat, sp, ctx);
            },
        }
    }
}

/// The two strategies agree: on a program in which every cycle consumes a
/// character, the search with a stack and the recursive search, both from
/// the start of the program and of the line, have the same result.
pub proof fn lemma_strategies_agree(prog: Seq<Instruction>, line: Seq<char>)
    requires
        progresses(prog),
    ensures
        run_stack(prog, line, 0, 0, Seq::empty()) == run(prog, line, 0, 0),
{
    lemma_run_stack(prog, line, 0, 0, Seq::empty());
}

/// Runs the program on `line` from the start of both: depth-first by
/// recursion where `is_depth` is set, else with an explicit stack of saved
/// contexts.
pub fn eval(inst: &[Instruction], line: &[char], is_depth: bool) -> (r: Result<bool, EvalError>)
    requires
        progresses(inst@),
    ensures
        r == run(inst@, line@, 0, 0),
{
    if is_depth {
        eval_depth(inst, line, 0, 0)
    } else {
        proof {
            lemma_strategies_agree(inst@, line@);
        }
        eval_width(inst, line)
    }
}

/// Takes the context saved last off `ctx` and makes it the current one.
pub fn pop_ctx(pc: &mut usize, sp: &mut usize, ctx: &mut VecDeque<(usize, usize)>) -> (r: Result<
    (),
    EvalError,
>)
    ensures
        old(ctx)@.len() > 0 ==> r is Ok && (*final(pc), *final(sp)) == old(ctx)@.last()
            && final(ctx)@ == old(ctx)@.drop_last(),
        old(ctx)@.len() == 0 ==> r == Err::<(), EvalError>(EvalError::InvalidContext)
            && *final(pc) == *old(pc) && *final(sp) == *old(sp) && final(ctx)@ == old(ctx)@,
{
    if let Some((new_pc, new_sp)) = ctx.pop_back() {
        *pc = new_pc;
        *sp = new_sp;
        Ok(())
    } else {
        Err(EvalError::InvalidContext)
    }
}

proof fn lemma_contexts_push(ctx: Seq<(usize, usize)>, pc: usize, sp: usize)
    ensures
        contexts(ctx.push((pc, sp))) == contexts(ctx).push((pc as nat, sp as nat)),
        contexts(ctx.push((pc, sp))).drop_last() == contexts(ctx),
{
    assert(contexts(ctx.push((pc, sp))) =~= contexts(ctx).push((pc as nat, sp as nat)));
    assert(contexts(ctx).push((pc as nat, sp as nat)).drop_last() =~= contexts(ctx));
}

proof fn lemma_contexts_pop(ctx: Seq<(usize, usize)>)
    requires
        ctx.len() > 0,
    ensures
        contexts(ctx.drop_last()) == contexts(ctx).drop_last(),
        contexts(ctx).last() == (ctx.last().0 as nat, ctx.last().1 as nat),
{
    assert(contexts(ctx.drop_last()) =~= contexts(ctx).drop_last());
}

/// Runs the program on `line` with an explicit stack of saved contexts.
pub fn eval_width(inst: &[Instruction], line: &[char]) -> (r: Result<bool, EvalError>)
    requires
        progresses(inst@),
    ensures
        r == run_stack(inst@, line@, 0, 0, Seq::empty()),
{
    let mut ctx: VecDeque<(usize, usize)> = VecDeque::new();
    let mut pc: usize = 0;
    let mut sp: usize = 0;
    proof {
        assert(contexts(ctx@) =~= Seq::empty());
    }

    loop
        invariant
            progresses(inst@),
            run_stack(inst@, line@, pc as nat, sp as nat, contexts(ctx@)) == run_stack(
                inst@,
                line@,
                0,
                0,
                Seq::empty(),
            ),
        decreases
            cost(inst@, line@, pc as nat, sp as nat) + saved_cost(inst@, line@, contexts(ctx@)),
    {
        let next = if pc < inst.len() {
            &inst[pc]
        } else {
            return Err(EvalError::InvalidPC);
        };

        match next {
            Instruction::Char(c) => {
                if sp < line.len() && *c == line[sp] {
                    let pc_overflow = || -> (e: EvalError)
                        ensures
                            e == EvalError::PCOverflow,
                        {
                            EvalError::PCOverflow
                        };
                    let sp_overflow = || -> (e: EvalError)
                        ensures
                            e == EvalError::SPOverflow,
                        {
                            EvalError::SPOverflow
                        };
                    safe_add(&mut pc, &1, pc_overflow)?;
                    safe_add(&mut sp, &1, sp_overflow)?;
                } else {
                    if ctx.len() == 0 {
                        return Ok(false);
                    } else {
                        proof {
                            lemma_contexts_pop(ctx@);
                        }
                        pop_ctx(&mut pc, &mut sp, &mut ctx)?;
                    }
                }
            },
            Instruction::Match => {
                return Ok(true);
            },
            Instruction::Jump(addr) => {
                pc = *addr;
            },
            Instruction::Split(addr1, addr2) => {
                proof {
                    lemma_contexts_push(ctx@, *addr2, sp);
                }
                pc = *addr1;
                ctx.push_back((*addr2, sp));
                continue ;
            },
        }

        // The current context goes onto the stack and comes back at once.
        if ctx.len() != 0 {
            proof {
                lemma_contexts_push(ctx@, pc, sp);
                assert(ctx@.push((pc, sp)).drop_last() =~= ctx@);
            }
            ctx.push_back((pc, sp));
            pop_ctx(&mut pc, &mut sp, &mut ctx)?;
        }
    }
}

} // verus!
