//! Patterns whose repetitions consume input, and why their programs cannot
//! run in a circle without consuming any.

use super::codegen::{code, code_all, code_len, code_len_all, lemma_code_len, lemma_code_len_all, program};
use super::evaluator::{is_ranking, progresses};
use super::parser::{models, Regex, AST};
use super::Instruction;
use vstd::prelude::*;

verus! {

/// Whether `e` matches the empty string.
pub open spec fn nullable(e: Regex) -> bool
    decreases e,
{
    match e {
        Regex::Char(_) => false,
        Regex::Plus(e1) => nullable(*e1),
        Regex::Star(_) => true,
        Regex::Question(_) => true,
        Regex::Or(e1, e2) => nullable(*e1) || nullable(*e2),
        Regex::Concat(v) => nullable_all(v),
    }
}

/// Whether each expression of `v` matches the empty string.
pub open spec fn nullable_all(v: Seq<Regex>) -> bool
    decreases v,
{
    if v.len() == 0 {
        true
    } else {
        nullable_all(v.drop_last()) && nullable(v.last())
    }
}

/// Whether every expression under a `+` or a `*` in `e` consumes at least
/// one character each time it matches.
pub open spec fn productive(e: Regex) -> bool
    decreases e,
{
    match e {
        Regex::Char(_) => true,
        Regex::Plus(e1) => productive(*e1) && !nullable(*e1),
        Regex::Star(e1) => productive(*e1) && !nullable(*e1),
        Regex::Question(e1) => productive(*e1),
        Regex::Or(e1, e2) => productive(*e1) && productive(*e2),
        Regex::Concat(v) => productive_all(v),
    }
}

/// Whether each expression of `v` is productive.
pub open spec fn productive_all(v: Seq<Regex>) -> bool
    decreases v,
{
    if v.len() == 0 {
        true
    } else {
        productive_all(v.drop_last()) && productive(v.last())
    }
}

proof fn lemma_all_take(v: Seq<Regex>, k: int)
    requires
        0 <= k < v.len(),
    ensures
        nullable_all(v.take(k + 1)) == (nullable_all(v.take(k)) && nullable(v[k])),
        productive_all(v.take(k + 1)) == (productive_all(v.take(k)) && productive(v[k])),
{
    assert(v.take(k + 1).drop_last() =~= v.take(k));
}

/// Whether the pattern of `ast` matches the empty string.
pub fn is_nullable(ast: &AST) -> (b: bool)
    ensures
        b == nullable(ast@),
    decreases ast,
{
    match ast {
        AST::Char(_) => false,
        AST::Plus(e) => is_nullable(e),
        AST::Star(_) => true,
        AST::Question(_) => true,
        AST::Or(e1, e2) => is_nullable(e1) || is_nullable(e2),
        AST::Concat(v) => {
            let ghost all = models(v@);
            proof {
                assert(ast@->Concat_0 =~= all);
            }
            let mut i: usize = 0;
            while i < v.len()
                invariant
                    i <= v.len(),
                    all == models(v@),
                    ast@ == Regex::Concat(all),
                    nullable_all(all.take(i as int)),
                    *ast == AST::Concat(*v),
                decreases v.len() - i,
            {
                proof {
                    lemma_all_take(all, i as int);
                    assert(decreases_to!(*ast => (*ast)->Concat_0));
                    assert(decreases_to!(*v => v[i as int]));
                }
                if !is_nullable(&v[i]) {
                    proof {
                        if nullable_all(all) {
                            lemma_nullable_all_prefix(all, i as int + 1);
                        }
                    }
                    return false;
                }
                i += 1;
            }
            proof {
                assert(all.take(i as int) =~= all);
            }
            true
        },
    }
}

/// Whether every repetition in the pattern of `ast` consumes at least one
/// character each time round.
pub fn is_productive(ast: &AST) -> (b: bool)
    ensures
        b == productive(ast@),
    decreases ast,
{
    match ast {
        AST::Char(_) => true,
        AST::Plus(e) => is_productive(e) && !is_nullable(e),
        AST::Star(e) => is_productive(e) && !is_nullable(e),
        AST::Question(e) => is_productive(e),
        AST::Or(e1, e2) => is_productive(e1) && is_productive(e2),
        AST::Concat(v) => {
            let ghost all = models(v@);
            proof {
                assert(ast@->Concat_0 =~= all);
            }
            let mut i: usize = 0;
            while i < v.len()
                invariant
                    i <= v.len(),
                    all == models(v@),
                    ast@ == Regex::Concat(all),
                    productive_all(all.take(i as int)),
                    *ast == AST::Concat(*v),
                decreases v.len() - i,
            {
                proof {
                    lemma_all_take(all, i as int);
                    assert(decreases_to!(*ast => (*ast)->Concat_0));
                    assert(decreases_to!(*v => v[i as int]));
                }
                if !is_productive(&v[i]) {
                    proof {
                        if productive_all(all) {
                            lemma_productive_all_prefix(all, i as int + 1);
                        }
                    }
                    return false;
                }
                i += 1;
            }
            proof {
                assert(all.take(i as int) =~= all);
            }
            true
        },
    }
}

proof fn lemma_nullable_all_prefix(v: Seq<Regex>, k: int)
    requires
        0 <= k <= v.len(),
        nullable_all(v),
    ensures
        nullable_all(v.take(k)),
    decreases v.len(),
{
    if k < v.len() {
        assert(v.drop_last().take(k) =~= v.take(k));
        lemma_nullable_all_prefix(v.drop_last(), k);
    } else {
        assert(v.take(k) =~= v);
    }
}

proof fn lemma_productive_all_prefix(v: Seq<Regex>, k: int)
    requires
        0 <= k <= v.len(),
        productive_all(v),
    ensures
        productive_all(v.take(k)),
    decreases v.len(),
{
    if k < v.len() {
        assert(v.drop_last().take(k) =~= v.take(k));
        lemma_productive_all_prefix(v.drop_last(), k);
    } else {
        assert(v.take(k) =~= v);
    }
}

spec fn larger(a: nat, b: nat) -> nat {
    if a >= b {
        a
    } else {
        b
    }
}

/// The rank of the first instruction of the code of `e`, where the
/// instruction behind the code has the rank `out`; `out` itself where the
/// code is empty.
spec fn entry(e: Regex, out: nat) -> nat
    decreases e,
{
    match e {
        Regex::Char(_) => 0,
        Regex::Plus(e1) => entry(*e1, 0),
        Regex::Star(e1) => larger(entry(*e1, 0), out) + 1,
        Regex::Question(e1) => larger(entry(*e1, out), out) + 1,
        Regex::Or(e1, e2) => larger(entry(*e1, out + 1), entry(*e2, out)) + 1,
        Regex::Concat(v) => entry_all(v, out),
    }
}

spec fn entry_all(v: Seq<Regex>, out: nat) -> nat
    decreases v,
{
    if v.len() == 0 {
        out
    } else {
        entry_all(v.drop_last(), entry(v.last(), out))
    }
}

/// A rank for each instruction of the code of `e`, where the instruction
/// behind the code has the rank `out`.
spec fn ranks(e: Regex, out: nat) -> Seq<nat>
    decreases e,
{
    match e {
        Regex::Char(_) => seq![0nat],
        Regex::Plus(e1) => {
            let s = larger(entry(*e1, 0), out) + 1;
            ranks(*e1, s).push(s)
        },
        Regex::Star(e1) => {
            let s = larger(entry(*e1, 0), out) + 1;
            seq![s] + ranks(*e1, s + 1).push(s + 1)
        },
        Regex::Question(e1) => seq![larger(entry(*e1, out), out) + 1] + ranks(*e1, out),
        Regex::Or(e1, e2) => seq![larger(entry(*e1, out + 1), entry(*e2, out)) + 1] + ranks(
            *e1,
            out + 1,
        ).push(out + 1) + ranks(*e2, out),
        Regex::Concat(v) => ranks_all(v, out),
    }
}

spec fn ranks_all(v: Seq<Regex>, out: nat) -> Seq<nat>
    decreases v,
{
    if v.len() == 0 {
        Seq::empty()
    } else {
        ranks_all(v.drop_last(), entry(v.last(), out)) + ranks(v.last(), out)
    }
}

proof fn lemma_ranks_len(e: Regex, out: nat)
    ensures
        ranks(e, out).len() == code_len(e),
    decreases e,
{
    match e {
        Regex::Char(_) => {},
        Regex::Plus(e1) => {
            lemma_ranks_len(*e1, larger(entry(*e1, 0), out) + 1);
        },
        Regex::Star(e1) => {
            lemma_ranks_len(*e1, larger(entry(*e1, 0), out) + 2);
        },
        Regex::Question(e1) => {
            lemma_ranks_len(*e1, out);
        },
        Regex::Or(e1, e2) => {
            lemma_ranks_len(*e1, out + 1);
            lemma_ranks_len(*e2, out);
        },
        Regex::Concat(v) => {
            lemma_ranks_all_len(v, out);
        },
    }
}

proof fn lemma_ranks_all_len(v: Seq<Regex>, out: nat)
    ensures
        ranks_all(v, out).len() == code_len_all(v),
    decreases v,
{
    if v.len() > 0 {
        lemma_ranks_all_len(v.drop_last(), entry(v.last(), out));
        lemma_ranks_len(v.last(), out);
    }
}

/// An expression that does not match the empty string has code.
proof fn lemma_code_is_not_empty(e: Regex)
    requires
        !nullable(e),
    ensures
        code_len(e) > 0,
    decreases e,
{
    match e {
        Regex::Plus(e1) => {
            lemma_code_is_not_empty(*e1);
        },
        Regex::Concat(v) => {
            lemma_code_all_is_not_empty(v);
        },
        _ => {},
    }
}

proof fn lemma_code_all_is_not_empty(v: Seq<Regex>)
    requires
        !nullable_all(v),
    ensures
        code_len_all(v) > 0,
    decreases v,
{
    if v.len() > 0 {
        if nullable(v.last()) {
            lemma_code_all_is_not_empty(v.drop_last());
        } else {
            lemma_code_is_not_empty(v.last());
        }
    }
}

/// The rank at which the code of an expression starts does not depend on
/// what follows the code, unless the expression matches the empty string.
proof fn lemma_entry_is_fixed(e: Regex, out1: nat, out2: nat)
    requires
        !nullable(e),
    ensures
        entry(e, out1) == entry(e, out2),
    decreases e,
{
    match e {
        Regex::Or(e1, e2) => {
            lemma_entry_is_fixed(*e1, out1 + 1, out2 + 1);
            lemma_entry_is_fixed(*e2, out1, out2);
        },
        Regex::Concat(v) => {
            lemma_entry_all_is_fixed(v, out1, out2);
        },
        _ => {},
    }
}

proof fn lemma_entry_all_is_fixed(v: Seq<Regex>, out1: nat, out2: nat)
    requires
        !nullable_all(v),
    ensures
        entry_all(v, out1) == entry_all(v, out2),
    decreases v,
{
    if v.len() > 0 {
        if nullable(v.last()) {
            lemma_entry_all_is_fixed(
                v.drop_last(),
                entry(v.last(), out1),
                entry(v.last(), out2),
            );
        } else {
            lemma_entry_is_fixed(v.last(), out1, out2);
        }
    }
}

/// A part of a stretch of `s`, given item by item, is a stretch of `s`.
pub proof fn lemma_part<T>(s: Seq<T>, lo: int, hi: int, from: int, to: int, part: Seq<T>)
    requires
        0 <= lo <= from <= to <= hi <= s.len(),
        part.len() == to - from,
        forall|i: int| 0 <= i < to - from ==> s.subrange(lo, hi)[from - lo + i] == #[trigger] part[i],
    ensures
        s.subrange(from, to) == part,
{
    assert forall|i: int| 0 <= i < to - from implies s.subrange(from, to)[i] == part[i] by {
        assert(s.subrange(lo, hi)[from - lo + i] == s[from + i]);
    }
    assert(s.subrange(from, to) =~= part);
}

/// The rank of the instruction at `a`, where the one at `hi` has the rank
/// `out`.
spec fn rank_at(rank: Seq<nat>, hi: int, out: nat, a: int) -> nat {
    if a < hi {
        rank[a]
    } else {
        out
    }
}

/// Whether the instruction at `pc` passes control, without consuming a
/// character, only to addresses from `lo` to `hi` and of a smaller rank.
spec fn ranked_at(
    prog: Seq<Instruction>,
    rank: Seq<nat>,
    lo: int,
    hi: int,
    out: nat,
    pc: int,
) -> bool {
    match prog[pc] {
        Instruction::Jump(a) => lo <= a <= hi && rank_at(rank, hi, out, a as int) < rank[pc],
        Instruction::Split(a1, a2) => {
            &&& lo <= a1 <= hi
            &&& lo <= a2 <= hi
            &&& rank_at(rank, hi, out, a1 as int) < rank[pc]
            &&& rank_at(rank, hi, out, a2 as int) < rank[pc]
        },
        _ => true,
    }
}

spec fn ranked(prog: Seq<Instruction>, rank: Seq<nat>, lo: int, hi: int, out: nat) -> bool {
    forall|pc: int| lo <= pc < hi ==> #[trigger] ranked_at(prog, rank, lo, hi, out, pc)
}

/// Whether `rank` starts at `lo` as the code of `e` asks.
spec fn enters(e: Regex, rank: Seq<nat>, lo: int, out: nat) -> bool {
    if code_len(e) > 0 {
        rank[lo] == entry(e, out)
    } else {
        entry(e, out) == out
    }
}

spec fn enters_all(v: Seq<Regex>, rank: Seq<nat>, lo: int, out: nat) -> bool {
    if code_len_all(v) > 0 {
        rank[lo] == entry_all(v, out)
    } else {
        entry_all(v, out) == out
    }
}

proof fn lemma_segment(e: Regex, prog: Seq<Instruction>, rank: Seq<nat>, lo: int, out: nat)
    requires
        productive(e),
        0 <= lo,
        lo + code_len(e) <= prog.len() == rank.len(),
        prog.len() <= usize::MAX,
        prog.subrange(lo, lo + code_len(e)) == code(e, lo as nat),
        rank.subrange(lo, lo + code_len(e)) == ranks(e, out),
    ensures
        ranked(prog, rank, lo, lo + code_len(e), out),
        enters(e, rank, lo, out),
    decreases e,
{
    let hi = lo + code_len(e);
    let seg = prog.subrange(lo, hi);
    let rk = rank.subrange(lo, hi);
    lemma_code_len(e, lo as nat);
    lemma_ranks_len(e, out);
    match e {
        Regex::Char(c) => {
            assert(prog[lo] == seg[0]);
            assert(rank[lo] == rk[0]);
        },
        Regex::Plus(e1) => {
            let n1 = code_len(*e1) as int;
            let s = larger(entry(*e1, 0), out) + 1;
            lemma_code_len(*e1, lo as nat);
            lemma_ranks_len(*e1, s);
            lemma_code_is_not_empty(*e1);
            lemma_entry_is_fixed(*e1, s, 0);
            lemma_part(prog, lo, hi, lo, lo + n1, code(*e1, lo as nat));
            lemma_part(rank, lo, hi, lo, lo + n1, ranks(*e1, s));
            lemma_segment(*e1, prog, rank, lo, s);
            assert(prog[lo + n1] == seg[n1]);
            assert(rank[lo + n1] == rk[n1]);
            assert forall|pc: int| lo <= pc < hi implies #[trigger] ranked_at(
                prog,
                rank,
                lo,
                hi,
                out,
                pc,
            ) by {
                if pc < lo + n1 {
                    assert(ranked_at(prog, rank, lo, lo + n1, s, pc));
                }
            }
        },
        Regex::Star(e1) => {
            let n1 = code_len(*e1) as int;
            let s = larger(entry(*e1, 0), out) + 1;
            lemma_code_len(*e1, (lo + 1) as nat);
            lemma_ranks_len(*e1, s + 1);
            lemma_code_is_not_empty(*e1);
            lemma_entry_is_fixed(*e1, s + 1, 0);
            lemma_part(prog, lo, hi, lo + 1, lo + 1 + n1, code(*e1, (lo + 1) as nat));
            lemma_part(rank, lo, hi, lo + 1, lo + 1 + n1, ranks(*e1, s + 1));
            lemma_segment(*e1, prog, rank, lo + 1, s + 1);
            assert(prog[lo] == seg[0]);
            assert(rank[lo] == rk[0]);
            assert(prog[lo + 1 + n1] == seg[1 + n1]);
            assert(rank[lo + 1 + n1] == rk[1 + n1]);
            assert forall|pc: int| lo <= pc < hi implies #[trigger] ranked_at(
                prog,
                rank,
                lo,
                hi,
                out,
                pc,
            ) by {
                if lo < pc < lo + 1 + n1 {
                    assert(ranked_at(prog, rank, lo + 1, lo + 1 + n1, s + 1, pc));
                }
            }
        },
        Regex::Question(e1) => {
            let n1 = code_len(*e1) as int;
            lemma_code_len(*e1, (lo + 1) as nat);
            lemma_ranks_len(*e1, out);
            lemma_part(prog, lo, hi, lo + 1, lo + 1 + n1, code(*e1, (lo + 1) as nat));
            lemma_part(rank, lo, hi, lo + 1, lo + 1 + n1, ranks(*e1, out));
            lemma_segment(*e1, prog, rank, lo + 1, out);
            assert(prog[lo] == seg[0]);
            assert(rank[lo] == rk[0]);
            assert forall|pc: int| lo <= pc < hi implies #[trigger] ranked_at(
                prog,
                rank,
                lo,
                hi,
                out,
                pc,
            ) by {
                if lo < pc {
                    assert(ranked_at(prog, rank, lo + 1, hi, out, pc));
                }
            }
        },
        Regex::Or(e1, e2) => {
            let n1 = code_len(*e1) as int;
            let n2 = code_len(*e2) as int;
            let mid = lo + n1 + 2;
            lemma_code_len(*e1, (lo + 1) as nat);
            lemma_code_len(*e2, mid as nat);
            lemma_ranks_len(*e1, out + 1);
            lemma_ranks_len(*e2, out);
            lemma_part(prog, lo, hi, lo + 1, lo + 1 + n1, code(*e1, (lo + 1) as nat));
            lemma_part(rank, lo, hi, lo + 1, lo + 1 + n1, ranks(*e1, out + 1));
            lemma_part(prog, lo, hi, mid, mid + n2, code(*e2, mid as nat));
            lemma_part(rank, lo, hi, mid, mid + n2, ranks(*e2, out));
            lemma_segment(*e1, prog, rank, lo + 1, out + 1);
            lemma_segment(*e2, prog, rank, mid, out);
            assert(prog[lo] == seg[0]);
            assert(rank[lo] == rk[0]);
            assert(prog[lo + 1 + n1] == seg[1 + n1]);
            assert(rank[lo + 1 + n1] == rk[1 + n1]);
            assert forall|pc: int| lo <= pc < hi implies #[trigger] ranked_at(
                prog,
                rank,
                lo,
                hi,
                out,
                pc,
            ) by {
                if lo < pc < lo + 1 + n1 {
                    assert(ranked_at(prog, rank, lo + 1, lo + 1 + n1, out + 1, pc));
                } else if mid <= pc {
                    assert(ranked_at(prog, rank, mid, hi, out, pc));
                }
            }
        },
        Regex::Concat(v) => {
            lemma_segment_all(v, prog, rank, lo, out);
        },
    }
}

proof fn lemma_segment_all(v: Seq<Regex>, prog: Seq<Instruction>, rank: Seq<nat>, lo: int, out: nat)
    requires
        productive_all(v),
        0 <= lo,
        lo + code_len_all(v) <= prog.len() == rank.len(),
        prog.len() <= usize::MAX,
        prog.subrange(lo, lo + code_len_all(v)) == code_all(v, lo as nat),
        rank.subrange(lo, lo + code_len_all(v)) == ranks_all(v, out),
    ensures
        ranked(prog, rank, lo, lo + code_len_all(v), out),
        enters_all(v, rank, lo, out),
    decreases v,
{
    if v.len() > 0 {
        let front = v.drop_last();
        let last = v.last();
        let hi = lo + code_len_all(v);
        let mid = lo + code_len_all(front);
        let n1 = code_len_all(front) as int;
        let n2 = code_len(last) as int;
        let between = entry(last, out);
        let seg = prog.subrange(lo, hi);
        let rk = rank.subrange(lo, hi);
        lemma_code_len_all(front, lo as nat);
        lemma_code_len(last, mid as nat);
        lemma_ranks_all_len(front, between);
        lemma_ranks_len(last, out);
        lemma_part(prog, lo, hi, lo, mid, code_all(front, lo as nat));
        lemma_part(rank, lo, hi, lo, mid, ranks_all(front, between));
        lemma_part(prog, lo, hi, mid, hi, code(last, mid as nat));
        lemma_part(rank, lo, hi, mid, hi, ranks(last, out));
        lemma_segment_all(front, prog, rank, lo, between);
        lemma_segment(last, prog, rank, mid, out);
        assert forall|pc: int| lo <= pc < hi implies #[trigger] ranked_at(
            prog,
            rank,
            lo,
            hi,
            out,
            pc,
        ) by {
            if pc < mid {
                assert(ranked_at(prog, rank, lo, mid, between, pc));
            } else {
                assert(ranked_at(prog, rank, mid, hi, out, pc));
            }
        }
    }
}

/// In the program of a productive expression every cycle consumes a
/// character.
pub proof fn lemma_program_progresses(e: Regex)
    requires
        productive(e),
        code_len(e) < usize::MAX,
    ensures
        progresses(program(e)),
{
    let n = code_len(e) as int;
    let prog = program(e);
    let rank = ranks(e, 0).push(0);
    lemma_code_len(e, 0);
    lemma_ranks_len(e, 0);
    assert(prog.subrange(0, n) =~= code(e, 0));
    assert(rank.subrange(0, n) =~= ranks(e, 0));
    lemma_segment(e, prog, rank, 0, 0);
    assert forall|pc: int| 0 <= pc < prog.len() implies match #[trigger] prog[pc] {
        Instruction::Jump(a) => a < prog.len() ==> rank[a as int] < rank[pc],
        Instruction::Split(a1, a2) => {
            &&& a1 < prog.len() ==> rank[a1 as int] < rank[pc]
            &&& a2 < prog.len() ==> rank[a2 as int] < rank[pc]
        },
        _ => true,
    } by {
        if pc < n {
            assert(ranked_at(prog, rank, 0, n, 0, pc));
        }
    }
    assert(is_ranking(prog, rank));
}

} // verus!
