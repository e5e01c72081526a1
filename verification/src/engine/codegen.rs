//! Compilation of a syntax tree into a program for the matching machine.

use super::parser::{models, Regex, AST};
use super::{valid_targets, well_formed, Instruction};
use crate::helper::safe_add;
use vstd::prelude::*;

verus! {

/// Why no program could be made.
#[derive(Debug)]
pub enum CodeGenError {
    /// The program has more instructions than an address can count.
    PCOverflow,
    /// The branch of a `*` was not found where it had been written.
    FailStar,
    /// The branch or the jump of a `|` was not found where it had been
    /// written.
    FailOr,
    /// The branch of a `?` was not found where it had been written.
    FailQuestion,
}

/// The number of instructions in the code of `e`.
pub open spec fn code_len(e: Regex) -> nat
    decreases e,
{
    match e {
        Regex::Char(_) => 1,
        Regex::Plus(e1) => code_len(*e1) + 1,
        Regex::Star(e1) => code_len(*e1) + 2,
        Regex::Question(e1) => code_len(*e1) + 1,
        Regex::Or(e1, e2) => code_len(*e1) + code_len(*e2) + 2,
        Regex::Concat(v) => code_len_all(v),
    }
}

/// The number of instructions in the codes of all of `v`.
pub open spec fn code_len_all(v: Seq<Regex>) -> nat
    decreases v,
{
    if v.len() == 0 {
        0
    } else {
        code_len_all(v.drop_last()) + code_len(v.last())
    }
}

/// The code of `e` where its first instruction has the address `base`.
///
/// A literal is one `Char`. A concatenation is the codes of its parts in a
/// row. The others, with `L` for `base`:
///
/// ```text
/// e?        L: split L+1, L2     e1|e2   L: split L+1, L2
///              code of e                    code of e1
///          L2:                              jump L3
///                                       L2: code of e2
/// e*        L: split L+1, L2            L3:
///              code of e
///              jump L             e+     L: code of e
///          L2:                              split L, L2
///                                       L2:
/// ```
pub open spec fn code(e: Regex, base: nat) -> Seq<Instruction>
    decreases e,
{
    match e {
        Regex::Char(c) => seq![Instruction::Char(c)],
        Regex::Plus(e1) => code(*e1, base).push(
            Instruction::Split(base as usize, (base + code_len(*e1) + 1) as usize),
        ),
        Regex::Star(e1) => seq![
            Instruction::Split((base + 1) as usize, (base + code_len(*e1) + 2) as usize),
        ] + code(*e1, base + 1).push(Instruction::Jump(base as usize)),
        Regex::Question(e1) => seq![
            Instruction::Split((base + 1) as usize, (base + code_len(*e1) + 1) as usize),
        ] + code(*e1, base + 1),
        Regex::Or(e1, e2) => seq![
            Instruction::Split((base + 1) as usize, (base + code_len(*e1) + 2) as usize),
        ] + code(*e1, base + 1).push(
            Instruction::Jump((base + code_len(*e1) + code_len(*e2) + 2) as usize),
        ) + code(*e2, base + code_len(*e1) + 2),
        Regex::Concat(v) => code_all(v, base),
    }
}

/// The codes of the expressions of `v` in a row, the first at `base`.
pub open spec fn code_all(v: Seq<Regex>, base: nat) -> Seq<Instruction>
    decreases v,
{
    if v.len() == 0 {
        Seq::empty()
    } else {
        code_all(v.drop_last(), base) + code(v.last(), base + code_len_all(v.drop_last()))
    }
}

/// The program of `e`: its code from address 0 on, and a final `Match`.
pub open spec fn program(e: Regex) -> Seq<Instruction> {
    code(e, 0).push(Instruction::Match)
}

/// What compiling `e` gives: its program, unless the program has more
/// instructions than an address can count.
pub open spec fn compiled(e: Regex) -> Result<Seq<Instruction>, CodeGenError> {
    if code_len(e) < usize::MAX {
        Ok(program(e))
    } else {
        Err(CodeGenError::PCOverflow)
    }
}

/// Whether `inst` names only addresses from `lo` to `hi`.
pub open spec fn stays_within(inst: Instruction, lo: int, hi: int) -> bool {
    match inst {
        Instruction::Jump(a) => lo <= a <= hi,
        Instruction::Split(a1, a2) => lo <= a1 <= hi && lo <= a2 <= hi,
        _ => true,
    }
}

/// The state of one compilation: the instructions written so far and the
/// address of the next one.
#[derive(Debug)]
struct Generator {
    pc: usize,
    insts: Vec<Instruction>,
}


proof fn lemma_code_len_all_take(v: Seq<Regex>, k: int, base: nat)
    requires
        0 <= k < v.len(),
    ensures
        code_len_all(v.take(k + 1)) == code_len_all(v.take(k)) + code_len(v[k]),
        code_all(v.take(k + 1), base) == code_all(v.take(k), base) + code(
            v[k],
            base + code_len_all(v.take(k)),
        ),
        code_len_all(v.take(k + 1)) <= code_len_all(v),
    decreases v.len() - k,
{
    assert(v.take(k + 1).drop_last() =~= v.take(k));
    if k + 1 < v.len() {
        lemma_code_len_all_take(v, k + 1, base);
    } else {
        assert(v.take(k + 1) =~= v);
    }
}

/// The code of an expression has as many instructions as `code_len` says.
pub proof fn lemma_code_len(e: Regex, base: nat)
    ensures
        code(e, base).len() == code_len(e),
    decreases e,
{
    match e {
        Regex::Char(_) => {},
        Regex::Plus(e1) => {
            lemma_code_len(*e1, base);
        },
        Regex::Star(e1) => {
            lemma_code_len(*e1, base + 1);
        },
        Regex::Question(e1) => {
            lemma_code_len(*e1, base + 1);
        },
        Regex::Or(e1, e2) => {
            lemma_code_len(*e1, base + 1);
            lemma_code_len(*e2, base + code_len(*e1) + 2);
        },
        Regex::Concat(v) => {
            lemma_code_len_all(v, base);
        },
    }
}

/// The codes of a row of expressions have as many instructions as
/// `code_len_all` says.
pub proof fn lemma_code_len_all(v: Seq<Regex>, base: nat)
    ensures
        code_all(v, base).len() == code_len_all(v),
    decreases v,
{
    if v.len() > 0 {
        lemma_code_len_all(v.drop_last(), base);
        lemma_code_len(v.last(), base + code_len_all(v.drop_last()));
    }
}

/// The code of an expression names only addresses of its own instructions
/// and the address behind them.
pub proof fn lemma_code_stays_within(e: Regex, base: nat)
    requires
        base + code_len(e) <= usize::MAX,
    ensures
        forall|i: int|
            0 <= i < code_len(e) ==> stays_within(
                #[trigger] code(e, base)[i],
                base as int,
                (base + code_len(e)) as int,
            ),
    decreases e,
{
    let hi = base + code_len(e);
    lemma_code_len(e, base);
    match e {
        Regex::Char(c) => {
            assert forall|i: int| 0 <= i < code_len(e) implies stays_within(
                #[trigger] code(e, base)[i],
                base as int,
                hi as int,
            ) by {
                assert(code(e, base)[0] == Instruction::Char(c));
            }
        },
        Regex::Plus(e1) => {
            let n1 = code_len(*e1) as int;
            lemma_code_len(*e1, base);
            lemma_code_stays_within(*e1, base);
            assert forall|i: int| 0 <= i < code_len(e) implies stays_within(
                #[trigger] code(e, base)[i],
                base as int,
                hi as int,
            ) by {
                if i < n1 {
                    assert(code(e, base)[i] == code(*e1, base)[i]);
                }
            }
        },
        Regex::Star(e1) => {
            let n1 = code_len(*e1) as int;
            lemma_code_len(*e1, base + 1);
            lemma_code_stays_within(*e1, base + 1);
            assert forall|i: int| 0 <= i < code_len(e) implies stays_within(
                #[trigger] code(e, base)[i],
                base as int,
                hi as int,
            ) by {
                if 0 < i <= n1 {
                    assert(code(e, base)[i] == code(*e1, base + 1)[i - 1]);
                }
            }
        },
        Regex::Question(e1) => {
            let n1 = code_len(*e1) as int;
            lemma_code_len(*e1, base + 1);
            lemma_code_stays_within(*e1, base + 1);
            assert forall|i: int| 0 <= i < code_len(e) implies stays_within(
                #[trigger] code(e, base)[i],
                base as int,
                hi as int,
            ) by {
                if 0 < i {
                    assert(code(e, base)[i] == code(*e1, base + 1)[i - 1]);
                }
            }
        },
        Regex::Or(e1, e2) => {
            let n1 = code_len(*e1) as int;
            lemma_code_len(*e1, base + 1);
            lemma_code_len(*e2, base + code_len(*e1) + 2);
            lemma_code_stays_within(*e1, base + 1);
            lemma_code_stays_within(*e2, base + code_len(*e1) + 2);
            assert forall|i: int| 0 <= i < code_len(e) implies stays_within(
                #[trigger] code(e, base)[i],
                base as int,
                hi as int,
            ) by {
                if 0 < i <= n1 {
                    assert(code(e, base)[i] == code(*e1, base + 1)[i - 1]);
                } else if i > n1 + 1 {
                    assert(code(e, base)[i] == code(*e2, base + code_len(*e1) + 2)[i - n1 - 2]);
                }
            }
        },
        Regex::Concat(v) => {
            lemma_code_all_stays_within(v, base);
            assert forall|i: int| 0 <= i < code_len(e) implies stays_within(
                #[trigger] code(e, base)[i],
                base as int,
                hi as int,
            ) by {
                assert(code(e, base)[i] == code_all(v, base)[i]);
            }
        },
    }
}

/// The codes of a row of expressions name only addresses of their own
/// instructions and the address behind them.
pub proof fn lemma_code_all_stays_within(v: Seq<Regex>, base: nat)
    requires
        base + code_len_all(v) <= usize::MAX,
    ensures
        forall|i: int|
            0 <= i < code_len_all(v) ==> stays_within(
                #[trigger] code_all(v, base)[i],
                base as int,
                (base + code_len_all(v)) as int,
            ),
    decreases v,
{
    if v.len() > 0 {
        let n1 = code_len_all(v.drop_last());
        lemma_code_len_all(v, base);
        lemma_code_len_all(v.drop_last(), base);
        lemma_code_len(v.last(), base + n1);
        lemma_code_all_stays_within(v.drop_last(), base);
        lemma_code_stays_within(v.last(), base + n1);
        assert forall|i: int| 0 <= i < code_len_all(v) implies stays_within(
            #[trigger] code_all(v, base)[i],
            base as int,
            (base + code_len_all(v)) as int,
        ) by {
            if i < n1 {
                assert(code_all(v, base)[i] == code_all(v.drop_last(), base)[i]);
            } else {
                assert(code_all(v, base)[i] == code(v.last(), base + n1)[i - n1]);
            }
        }
    }
}

/// Every address that the program of an expression names is the address of
/// one of its instructions.
pub proof fn lemma_program_has_valid_targets(e: Regex)
    requires
        code_len(e) < usize::MAX,
    ensures
        valid_targets(program(e)),
{
    lemma_code_len(e, 0);
    lemma_code_stays_within(e, 0);
    assert forall|pc: int| 0 <= pc < program(e).len() implies match #[trigger] program(e)[pc] {
        Instruction::Jump(a) => a < program(e).len(),
        Instruction::Split(a1, a2) => a1 < program(e).len() && a2 < program(e).len(),
        _ => true,
    } by {
        if pc < code_len(e) {
            assert(stays_within(code(e, 0)[pc], 0, code_len(e) as int));
        }
    }
}

/// Equal trees have the same program: what compiling gives depends on
/// nothing but the expression.
pub proof fn lemma_compiling_is_repeatable(a: AST, b: AST)
    requires
        a@ == b@,
    ensures
        compiled(a@) == compiled(b@),
{
}

/// An expression is larger than each of its parts.
proof fn lemma_parts_are_smaller(e: Regex)
    ensures
        match e {
            Regex::Char(_) => true,
            Regex::Plus(e1) => decreases_to!(e => *e1),
            Regex::Star(e1) => decreases_to!(e => *e1),
            Regex::Question(e1) => decreases_to!(e => *e1),
            Regex::Or(e1, e2) => decreases_to!(e => *e1) && decreases_to!(e => *e2),
            Regex::Concat(_) => true,
        },
{
}

/// A concatenation is larger than each of its items.
proof fn lemma_item_is_smaller(v: Seq<Regex>, i: int)
    requires
        0 <= i < v.len(),
    ensures
        decreases_to!(Regex::Concat(v) => v[i]),
{
    let e = Regex::Concat(v);
    assert(decreases_to!(e => e->Concat_0[i]));
}

impl Generator {
    /// The program counter is the number of instructions written.
    spec fn wf(&self) -> bool {
        self.pc == self.insts@.len()
    }

    /// What writing the code of `e` makes of the state `pre`: the code is
    /// appended at the program counter, unless its last address cannot be
    /// counted.
    spec fn emits(pre: Generator, post: Generator, e: Regex, r: Result<(), CodeGenError>) -> bool {
        if pre.pc + code_len(e) <= usize::MAX {
            &&& r is Ok
            &&& post.wf()
            &&& post.pc == pre.pc + code_len(e)
            &&& post.insts@ == pre.insts@ + code(e, pre.pc as nat)
        } else {
            r == Err::<(), CodeGenError>(CodeGenError::PCOverflow)
        }
    }

    /// The state before the first instruction.
    fn new() -> (g: Self)
        ensures
            g.pc == 0,
            g.insts@ == Seq::<Instruction>::empty(),
    {
        Generator { pc: 0, insts: Vec::new() }
    }

    /// Writes the program of `ast`: its code and the final `Match`.
    fn gen_code(&mut self, ast: &AST) -> (r: Result<(), CodeGenError>)
        requires
            old(self).wf(),
        ensures
            old(self).pc + code_len(ast@) < usize::MAX ==> r is Ok && final(self).wf()
                && final(self).insts@ == (old(self).insts@ + code(
                ast@,
                old(self).pc as nat,
            )).push(Instruction::Match),
            old(self).pc + code_len(ast@) >= usize::MAX ==> r == Err::<(), CodeGenError>(
                CodeGenError::PCOverflow,
            ),
    {
        self.gen_expr(ast)?;
        self.inc_pc()?;
        self.insts.push(Instruction::Match);
        Ok(())
    }

    fn gen_expr(&mut self, ast: &AST) -> (r: Result<(), CodeGenError>)
        requires
            old(self).wf(),
        ensures
            Self::emits(*old(self), *final(self), ast@, r),
        decreases ast@, 1int,
    {
        match ast {
            AST::Char(c) => self.gen_char(*c)?,
            AST::Or(e1, e2) => self.gen_or(e1, e2)?,
            AST::Plus(e) => self.gen_plus(e)?,
            AST::Star(e) => self.gen_star(e)?,
            AST::Question(e) => self.gen_question(e)?,
            AST::Concat(v) => {
                proof {
                    assert(ast@->Concat_0 =~= models(v@));
                }
                self.gen_seq(v)?
            },
        }

        Ok(())
    }

    /// Moves the program counter on by one.
    fn inc_pc(&mut self) -> (r: Result<(), CodeGenError>)
        ensures
            final(self).insts == old(self).insts,
            old(self).pc < usize::MAX ==> r is Ok && final(self).pc == old(self).pc + 1,
            old(self).pc == usize::MAX ==> r == Err::<(), CodeGenError>(CodeGenError::PCOverflow)
                && final(self).pc == old(self).pc,
    {
        let overflow = || -> (e: CodeGenError)
            ensures
                e == CodeGenError::PCOverflow,
            {
                CodeGenError::PCOverflow
            };
        safe_add(&mut self.pc, &1, overflow)
    }

    fn gen_seq(&mut self, exprs: &Vec<AST>) -> (r: Result<(), CodeGenError>)
        requires
            old(self).wf(),
        ensures
            Self::emits(*old(self), *final(self), Regex::Concat(models(exprs@)), r),
        decreases Regex::Concat(models(exprs@)), 0int,
    {
        let ghost all = models(exprs@);
        let ghost base = self.pc as nat;
        let ghost start = self.insts@;
        let mut i: usize = 0;
        while i < exprs.len()
            invariant
                i <= exprs.len(),
                all == models(exprs@),
                base == old(self).pc,
                start == old(self).insts@,
                self.wf(),
                self.insts@ == start + code_all(all.take(i as int), base),
                self.pc == base + code_len_all(all.take(i as int)),
                code_len_all(all.take(i as int)) <= code_len_all(all),
            decreases exprs.len() - i,
        {
            proof {
                lemma_code_len_all_take(all, i as int, base);
                lemma_item_is_smaller(all, i as int);
                assert(all[i as int] == exprs[i as int]@);
            }
            self.gen_expr(&exprs[i])?;
            i += 1;
        }
        proof {
            assert(all.take(i as int) =~= all);
        }
        Ok(())
    }

    fn gen_char(&mut self, c: char) -> (r: Result<(), CodeGenError>)
        requires
            old(self).wf(),
        ensures
            Self::emits(*old(self), *final(self), Regex::Char(c), r),
    {
        let inst = Instruction::Char(c);
        self.insts.push(inst);
        proof {
            assert(self.insts@ =~= old(self).insts@ + code(Regex::Char(c), old(self).pc as nat));
        }
        self.inc_pc()?;
        Ok(())
    }
    fn gen_question(&mut self, e: &AST) -> (r: Result<(), CodeGenError>)
        requires
            old(self).wf(),
        ensures
            Self::emits(*old(self), *final(self), Regex::Question(Box::new(e@)), r),
        decreases Regex::Question(Box::new(e@)), 0int,
    {
        // split L1, L2
        let split_addr = self.pc;
        self.inc_pc()?;
        let split = Instruction::Split(self.pc, 0);  // L2 is not known yet
        self.insts.push(split);

        // L1: the code of e
        proof {
            lemma_parts_are_smaller(Regex::Question(Box::new(e@)));
        }
        self.gen_expr(e)?;

        // L2 is where the code of e ends
        let ghost written = self.insts@;
        if split_addr < self.insts.len() {
            match &mut self.insts[split_addr] {
                Instruction::Split(_, l2) => {
                    *l2 = self.pc;
                    proof {
                        lemma_code_len(e@, (old(self).pc + 1) as nat);
                        assert(self.insts@ =~= old(self).insts@ + code(
                            Regex::Question(Box::new(e@)),
                            old(self).pc as nat,
                        ));
                    }
                    Ok(())
                },
                _ => Err(CodeGenError::FailQuestion),
            }
        } else {
            Err(CodeGenError::FailQuestion)
        }
    }

    fn gen_star(&mut self, e: &AST) -> (r: Result<(), CodeGenError>)
        requires
            old(self).wf(),
        ensures
            Self::emits(*old(self), *final(self), Regex::Star(Box::new(e@)), r),
        decreases Regex::Star(Box::new(e@)), 0int,
    {
        // L1: split L2, L3
        let l1 = self.pc;
        self.inc_pc()?;

        let split = Instruction::Split(self.pc, 0);  // L3 is not known yet
        self.insts.push(split);

        // L2: the code of e
        proof {
            lemma_parts_are_smaller(Regex::Star(Box::new(e@)));
        }
        self.gen_expr(e)?;

        // jump L1
        self.inc_pc()?;
        self.insts.push(Instruction::Jump(l1));

        // L3 is the address after the jump
        if l1 < self.insts.len() {
            match &mut self.insts[l1] {
                Instruction::Split(_, l3) => {
                    *l3 = self.pc;
                    proof {
                        lemma_code_len(e@, (old(self).pc + 1) as nat);
                        assert(self.insts@ =~= old(self).insts@ + code(
                            Regex::Star(Box::new(e@)),
                            old(self).pc as nat,
                        ));
                    }
                    Ok(())
                },
                _ => Err(CodeGenError::FailStar),
            }
        } else {
            Err(CodeGenError::FailStar)
        }
    }

    fn gen_plus(&mut self, e: &AST) -> (r: Result<(), CodeGenError>)
        requires
            old(self).wf(),
        ensures
            Self::emits(*old(self), *final(self), Regex::Plus(Box::new(e@)), r),
        decreases Regex::Plus(Box::new(e@)), 0int,
    {
        // L1: the code of e
        let l1 = self.pc;
        proof {
            lemma_parts_are_smaller(Regex::Plus(Box::new(e@)));
        }
        self.gen_expr(e)?;

        // split L1, L2
        self.inc_pc()?;
        let split = Instruction::Split(l1, self.pc);
        self.insts.push(split);
        proof {
            assert(self.insts@ =~= old(self).insts@ + code(
                Regex::Plus(Box::new(e@)),
                old(self).pc as nat,
            ));
        }

        Ok(())
    }

    /// Writes the code of `e1|e2`:
    ///
    /// ```text
    ///     split L1, L2
    /// L1: code of e1
    ///     jump L3
    /// L2: code of e2
    /// L3:
    /// ```
    fn gen_or(&mut self, e1: &AST, e2: &AST) -> (r: Result<(), CodeGenError>)
        requires
            old(self).wf(),
        ensures
            Self::emits(*old(self), *final(self), Regex::Or(Box::new(e1@), Box::new(e2@)), r),
        decreases Regex::Or(Box::new(e1@), Box::new(e2@)), 0int,
    {
        let ghost whole = Regex::Or(Box::new(e1@), Box::new(e2@));
        let ghost base = self.pc as nat;
        proof {
            lemma_parts_are_smaller(whole);
            lemma_code_len(e1@, base + 1);
            lemma_code_len(e2@, base + code_len(e1@) + 2);
        }

        // split L1, L2
        let split_addr = self.pc;
        self.inc_pc()?;
        let split = Instruction::Split(self.pc, 0);  // L2 is not known yet
        self.insts.push(split);

        // L1: the code of e1
        self.gen_expr(e1)?;

        // jump L3
        let jmp_addr = self.pc;
        self.insts.push(Instruction::Jump(0));  // L3 is not known yet

        // L2 is the address after the jump
        self.inc_pc()?;
        if split_addr < self.insts.len() {
            match &mut self.insts[split_addr] {
                Instruction::Split(_, l2) => {
                    *l2 = self.pc;
                },
                _ => {
                    return Err(CodeGenError::FailOr);
                },
            }
        } else {
            return Err(CodeGenError::FailOr);
        }

        // L2: the code of e2
        self.gen_expr(e2)?;

        // L3 is where the code of e2 ends
        if jmp_addr < self.insts.len() {
            match &mut self.insts[jmp_addr] {
                Instruction::Jump(l3) => {
                    *l3 = self.pc;
                },
                _ => {
                    return Err(CodeGenError::FailOr);
                },
            }
        } else {
            return Err(CodeGenError::FailOr);
        }
        proof {
            assert(self.insts@ =~= old(self).insts@ + code(whole, base));
        }

        Ok(())
    }
}

/// Compiles `ast` into its program. The one error is `PCOverflow`, for a
/// program that is too long. A program that is returned ends with `Match`,
/// and every address in it is the address of one of its instructions.
pub fn get_code(ast: &AST) -> (r: Result<Vec<Instruction>, CodeGenError>)
    ensures
        match r {
            Ok(insts) => compiled(ast@) == Ok::<Seq<Instruction>, CodeGenError>(insts@)
                && well_formed(insts@),
            Err(e) => compiled(ast@) == Err::<Seq<Instruction>, CodeGenError>(e),
        },
{
    let mut generator = Generator::new();
    generator.gen_code(ast)?;
    proof {
        lemma_program_has_valid_targets(ast@);
    }
    Ok(generator.insts)
}

} // verus!
