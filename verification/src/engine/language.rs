//! The strings that an expression matches, and why the program of an
//! expression finds exactly those.

use super::codegen::{
    code, code_all, code_len, code_len_all, lemma_code_len, lemma_code_len_all,
    lemma_program_has_valid_targets, program,
};
use super::evaluator::{lemma_run_stays_inside, progresses, run, EvalError};
use super::parser::Regex;
use super::progress::{
    lemma_part, lemma_program_progresses, nullable, nullable_all, productive, productive_all,
};
use super::{well_formed, Instruction};
use vstd::prelude::*;

verus! {

/// Whether the expression `e` matches the whole of the string `s`.
pub open spec fn matches(e: Regex, s: Seq<char>) -> bool
    decreases e, s.len(), 0nat,
{
    match e {
        Regex::Char(c) => s.len() == 1 && s[0] == c,
        Regex::Plus(e1) => exists|k: int|
            0 <= k <= s.len() && matches(*e1, #[trigger] s.take(k)) && repeats(*e1, s.skip(k)),
        Regex::Star(e1) => repeats(*e1, s),
        Regex::Question(e1) => s.len() == 0 || matches(*e1, s),
        Regex::Or(e1, e2) => matches(*e1, s) || matches(*e2, s),
        Regex::Concat(v) => matches_all(v, s),
    }
}

/// Whether `s` is made of one string for each expression of `v`, in order,
/// each matched by its expression.
pub open spec fn matches_all(v: Seq<Regex>, s: Seq<char>) -> bool
    decreases v, s.len(), 0nat,
{
    if v.len() == 0 {
        s.len() == 0
    } else {
        exists|k: int|
            0 <= k <= s.len() && matches_all(v.drop_last(), #[trigger] s.take(k)) && matches(
                v.last(),
                s.skip(k),
            )
    }
}

/// Whether `s` is made of any number of strings that `e` matches, none of
/// them empty.
pub open spec fn repeats(e: Regex, s: Seq<char>) -> bool
    decreases e, s.len(), 1nat,
{
    s.len() == 0 || exists|k: int|
        0 < k <= s.len() && matches(e, #[trigger] s.take(k)) && repeats(e, s.skip(k))
}

/// Whether `e` matches a start of `line`.
pub open spec fn matches_prefix(e: Regex, line: Seq<char>) -> bool {
    exists|p: int| 0 <= p <= line.len() && matches(e, #[trigger] line.take(p))
}

/// An expression that matches the empty string is nullable.
proof fn lemma_empty_match(e: Regex, s: Seq<char>)
    requires
        matches(e, s),
        s.len() == 0,
    ensures
        nullable(e),
    decreases e,
{
    match e {
        Regex::Plus(e1) => {
            let k = choose|k: int|
                0 <= k <= s.len() && matches(*e1, #[trigger] s.take(k)) && repeats(*e1, s.skip(k));
            lemma_empty_match(*e1, s.take(k));
        },
        Regex::Or(e1, e2) => {
            if matches(*e1, s) {
                lemma_empty_match(*e1, s);
            } else {
                lemma_empty_match(*e2, s);
            }
        },
        Regex::Concat(v) => {
            lemma_empty_match_all(v, s);
        },
        _ => {},
    }
}

proof fn lemma_empty_match_all(v: Seq<Regex>, s: Seq<char>)
    requires
        matches_all(v, s),
        s.len() == 0,
    ensures
        nullable_all(v),
    decreases v,
{
    if v.len() > 0 {
        let k = choose|k: int|
            0 <= k <= s.len() && matches_all(v.drop_last(), #[trigger] s.take(k)) && matches(
                v.last(),
                s.skip(k),
            );
        lemma_empty_match_all(v.drop_last(), s.take(k));
        lemma_empty_match(v.last(), s.skip(k));
    }
}

/// A nullable expression matches the empty string.
proof fn lemma_match_of_nothing(e: Regex)
    requires
        nullable(e),
    ensures
        matches(e, Seq::empty()),
    decreases e,
{
    let s = Seq::<char>::empty();
    match e {
        Regex::Plus(e1) => {
            lemma_match_of_nothing(*e1);
            assert(s.take(0) =~= s);
            assert(s.skip(0) =~= s);
            assert(matches(*e1, s.take(0)) && repeats(*e1, s.skip(0)));
        },
        Regex::Star(e1) => {
            assert(repeats(*e1, s));
        },
        Regex::Or(e1, e2) => {
            if nullable(*e1) {
                lemma_match_of_nothing(*e1);
            } else {
                lemma_match_of_nothing(*e2);
            }
        },
        Regex::Concat(v) => {
            lemma_match_of_nothing_all(v);
        },
        _ => {},
    }
}

proof fn lemma_match_of_nothing_all(v: Seq<Regex>)
    requires
        nullable_all(v),
    ensures
        matches_all(v, Seq::empty()),
    decreases v,
{
    let s = Seq::<char>::empty();
    if v.len() > 0 {
        lemma_match_of_nothing_all(v.drop_last());
        lemma_match_of_nothing(v.last());
        assert(s.take(0) =~= s);
        assert(s.skip(0) =~= s);
        assert(matches_all(v.drop_last(), s.take(0)) && matches(v.last(), s.skip(0)));
    }
}

/// The nullable expressions are those that match the empty string.
pub proof fn lemma_nullable_is_matching_nothing(e: Regex)
    ensures
        nullable(e) == matches(e, Seq::empty()),
{
    if nullable(e) {
        lemma_match_of_nothing(e);
    }
    if matches(e, Seq::empty()) {
        lemma_empty_match(e, Seq::empty());
    }
}

/// Whether the search from `pc` and `sp` finds a match.
spec fn accepts(prog: Seq<Instruction>, line: Seq<char>, pc: int, sp: int) -> bool {
    run(prog, line, pc as nat, sp as nat) == Ok::<bool, EvalError>(true)
}

/// What one instruction does to the search.
proof fn lemma_step(prog: Seq<Instruction>, line: Seq<char>, pc: int, sp: int)
    requires
        progresses(prog),
        well_formed(prog),
        0 <= pc < prog.len(),
        0 <= sp,
    ensures
        match prog[pc] {
            Instruction::Char(c) => accepts(prog, line, pc, sp) == (sp < line.len() && line[sp] == c
                && accepts(prog, line, pc + 1, sp + 1)),
            Instruction::Match => accepts(prog, line, pc, sp),
            Instruction::Jump(a) => accepts(prog, line, pc, sp) == accepts(
                prog,
                line,
                a as int,
                sp,
            ),
            Instruction::Split(a1, a2) => accepts(prog, line, pc, sp) == (accepts(
                prog,
                line,
                a1 as int,
                sp,
            ) || accepts(prog, line, a2 as int, sp)),
        },
{
    match prog[pc] {
        Instruction::Split(a1, a2) => {
            lemma_run_stays_inside(prog, line, a1 as nat, sp as nat);
        },
        _ => {},
    }
}

/// Whether `e` matches the line from `sp` to `p` and the search from `hi`
/// and `p` finds a match.
spec fn via(e: Regex, prog: Seq<Instruction>, line: Seq<char>, hi: int, sp: int, p: int) -> bool {
    sp <= p <= line.len() && matches(e, line.subrange(sp, p)) && accepts(prog, line, hi, p)
}

spec fn through(e: Regex, prog: Seq<Instruction>, line: Seq<char>, hi: int, sp: int) -> bool {
    exists|p: int| #[trigger] via(e, prog, line, hi, sp, p)
}

spec fn via_all(
    v: Seq<Regex>,
    prog: Seq<Instruction>,
    line: Seq<char>,
    hi: int,
    sp: int,
    p: int,
) -> bool {
    sp <= p <= line.len() && matches_all(v, line.subrange(sp, p)) && accepts(prog, line, hi, p)
}

spec fn through_all(v: Seq<Regex>, prog: Seq<Instruction>, line: Seq<char>, hi: int, sp: int) -> bool {
    exists|p: int| #[trigger] via_all(v, prog, line, hi, sp, p)
}

/// The parts of a stretch of the line.
proof fn lemma_stretch(line: Seq<char>, sp: int, p: int, q: int)
    requires
        0 <= sp <= p <= q <= line.len(),
    ensures
        line.subrange(sp, q).take(p - sp) == line.subrange(sp, p),
        line.subrange(sp, q).skip(p - sp) == line.subrange(p, q),
{
    assert(line.subrange(sp, q).take(p - sp) =~= line.subrange(sp, p));
    assert(line.subrange(sp, q).skip(p - sp) =~= line.subrange(p, q));
}

/// The search from the start of the code of `e` finds a match exactly where
/// `e` matches a stretch of the line from `sp` on and the search from behind
/// the code, and from the end of that stretch, finds one.
proof fn lemma_code_matches(e: Regex, prog: Seq<Instruction>, line: Seq<char>, lo: int, sp: int)
    requires
        productive(e),
        progresses(prog),
        well_formed(prog),
        prog.len() <= usize::MAX,
        0 <= lo,
        lo + code_len(e) < prog.len(),
        prog.subrange(lo, lo + code_len(e)) == code(e, lo as nat),
        0 <= sp <= line.len(),
    ensures
        accepts(prog, line, lo, sp) == through(e, prog, line, lo + code_len(e), sp),
    decreases e, line.len() - sp,
{
    let hi = lo + code_len(e);
    let seg = prog.subrange(lo, hi);
    lemma_code_len(e, lo as nat);
    match e {
        Regex::Char(c) => {
            assert(prog[lo] == seg[0]);
            lemma_step(prog, line, lo, sp);
            if accepts(prog, line, lo, sp) {
                assert(via(e, prog, line, hi, sp, sp + 1));
            }
            if through(e, prog, line, hi, sp) {
                let p = choose|p: int| #[trigger] via(e, prog, line, hi, sp, p);
                assert(line.subrange(sp, p)[0] == line[sp]);
            }
        },
        Regex::Plus(e1) => {
            let n1 = code_len(*e1) as int;
            lemma_code_len(*e1, lo as nat);
            lemma_part(prog, lo, hi, lo, lo + n1, code(*e1, lo as nat));
            assert(prog[lo + n1] == seg[n1]);
            lemma_code_matches(*e1, prog, line, lo, sp);
            if accepts(prog, line, lo, sp) {
                let p = choose|p: int| #[trigger] via(*e1, prog, line, lo + n1, sp, p);
                if p == sp {
                    lemma_empty_match(*e1, line.subrange(sp, p));
                }
                lemma_step(prog, line, lo + n1, p);
                if accepts(prog, line, hi, p) {
                    let s = line.subrange(sp, p);
                    lemma_stretch(line, sp, p, p);
                    assert(matches(*e1, s.take(p - sp)));
                    assert(repeats(*e1, s.skip(p - sp)));
                    assert(matches(e, line.subrange(sp, p)));
                    assert(via(e, prog, line, hi, sp, p));
                } else {
                    lemma_code_matches(e, prog, line, lo, p);
                    let q = choose|q: int| #[trigger] via(e, prog, line, hi, p, q);
                    let t = line.subrange(p, q);
                    let k = choose|k: int|
                        0 <= k <= t.len() && matches(*e1, #[trigger] t.take(k)) && repeats(
                            *e1,
                            t.skip(k),
                        );
                    if k == 0 {
                        lemma_empty_match(*e1, t.take(k));
                    }
                    assert(repeats(*e1, t));
                    lemma_stretch(line, sp, p, q);
                    assert(matches(e, line.subrange(sp, q)));
                    assert(via(e, prog, line, hi, sp, q));
                }
            }
            if through(e, prog, line, hi, sp) {
                let q = choose|q: int| #[trigger] via(e, prog, line, hi, sp, q);
                let s = line.subrange(sp, q);
                let k = choose|k: int|
                    0 <= k <= s.len() && matches(*e1, #[trigger] s.take(k)) && repeats(
                        *e1,
                        s.skip(k),
                    );
                let p = sp + k;
                lemma_stretch(line, sp, p, q);
                if k == 0 {
                    lemma_empty_match(*e1, s.take(k));
                }
                lemma_step(prog, line, lo + n1, p);
                let t = line.subrange(p, q);
                if t.len() > 0 {
                    let k2 = choose|k2: int|
                        0 < k2 <= t.len() && matches(*e1, #[trigger] t.take(k2)) && repeats(
                            *e1,
                            t.skip(k2),
                        );
                    assert(matches(e, t));
                    assert(via(e, prog, line, hi, p, q));
                    lemma_code_matches(e, prog, line, lo, p);
                }
                assert(via(*e1, prog, line, lo + n1, sp, p));
            }
        },
        Regex::Star(e1) => {
            let n1 = code_len(*e1) as int;
            lemma_code_len(*e1, (lo + 1) as nat);
            lemma_part(prog, lo, hi, lo + 1, lo + 1 + n1, code(*e1, (lo + 1) as nat));
            assert(prog[lo] == seg[0]);
            assert(prog[lo + 1 + n1] == seg[1 + n1]);
            lemma_step(prog, line, lo, sp);
            lemma_code_matches(*e1, prog, line, lo + 1, sp);
            if accepts(prog, line, lo, sp) {
                if accepts(prog, line, hi, sp) {
                    assert(line.subrange(sp, sp).len() == 0);
                    assert(repeats(*e1, line.subrange(sp, sp)));
                    assert(via(e, prog, line, hi, sp, sp));
                } else {
                    let p = choose|p: int| #[trigger] via(*e1, prog, line, lo + 1 + n1, sp, p);
                    if p == sp {
                        lemma_empty_match(*e1, line.subrange(sp, p));
                    }
                    lemma_step(prog, line, lo + 1 + n1, p);
                    lemma_code_matches(e, prog, line, lo, p);
                    let q = choose|q: int| #[trigger] via(e, prog, line, hi, p, q);
                    lemma_stretch(line, sp, p, q);
                    assert(repeats(*e1, line.subrange(sp, q)));
                    assert(via(e, prog, line, hi, sp, q));
                }
            }
            if through(e, prog, line, hi, sp) {
                let q = choose|q: int| #[trigger] via(e, prog, line, hi, sp, q);
                let s = line.subrange(sp, q);
                assert(repeats(*e1, s));
                if s.len() > 0 {
                    let k = choose|k: int|
                        0 < k <= s.len() && matches(*e1, #[trigger] s.take(k)) && repeats(
                            *e1,
                            s.skip(k),
                        );
                    let p = sp + k;
                    lemma_stretch(line, sp, p, q);
                    assert(via(e, prog, line, hi, p, q));
                    lemma_code_matches(e, prog, line, lo, p);
                    lemma_step(prog, line, lo + 1 + n1, p);
                    assert(via(*e1, prog, line, lo + 1 + n1, sp, p));
                }
            }
        },
        Regex::Question(e1) => {
            let n1 = code_len(*e1) as int;
            lemma_code_len(*e1, (lo + 1) as nat);
            lemma_part(prog, lo, hi, lo + 1, lo + 1 + n1, code(*e1, (lo + 1) as nat));
            assert(prog[lo] == seg[0]);
            lemma_step(prog, line, lo, sp);
            lemma_code_matches(*e1, prog, line, lo + 1, sp);
            if accepts(prog, line, lo, sp) {
                if accepts(prog, line, hi, sp) {
                    assert(line.subrange(sp, sp).len() == 0);
                    assert(via(e, prog, line, hi, sp, sp));
                } else {
                    let p = choose|p: int| #[trigger] via(*e1, prog, line, hi, sp, p);
                    assert(via(e, prog, line, hi, sp, p));
                }
            }
            if through(e, prog, line, hi, sp) {
                let p = choose|p: int| #[trigger] via(e, prog, line, hi, sp, p);
                if line.subrange(sp, p).len() > 0 {
                    assert(via(*e1, prog, line, hi, sp, p));
                }
            }
        },
        Regex::Or(e1, e2) => {
            let n1 = code_len(*e1) as int;
            let n2 = code_len(*e2) as int;
            let mid = lo + n1 + 2;
            lemma_code_len(*e1, (lo + 1) as nat);
            lemma_code_len(*e2, mid as nat);
            lemma_part(prog, lo, hi, lo + 1, lo + 1 + n1, code(*e1, (lo + 1) as nat));
            lemma_part(prog, lo, hi, mid, mid + n2, code(*e2, mid as nat));
            assert(prog[lo] == seg[0]);
            assert(prog[lo + 1 + n1] == seg[1 + n1]);
            lemma_step(prog, line, lo, sp);
            lemma_code_matches(*e1, prog, line, lo + 1, sp);
            lemma_code_matches(*e2, prog, line, mid, sp);
            if accepts(prog, line, lo, sp) {
                if accepts(prog, line, lo + 1, sp) {
                    let p = choose|p: int| #[trigger] via(*e1, prog, line, lo + 1 + n1, sp, p);
                    lemma_step(prog, line, lo + 1 + n1, p);
                    assert(via(e, prog, line, hi, sp, p));
                } else {
                    let p = choose|p: int| #[trigger] via(*e2, prog, line, hi, sp, p);
                    assert(via(e, prog, line, hi, sp, p));
                }
            }
            if through(e, prog, line, hi, sp) {
                let p = choose|p: int| #[trigger] via(e, prog, line, hi, sp, p);
                if matches(*e1, line.subrange(sp, p)) {
                    lemma_step(prog, line, lo + 1 + n1, p);
                    assert(via(*e1, prog, line, lo + 1 + n1, sp, p));
                } else {
                    assert(via(*e2, prog, line, hi, sp, p));
                }
            }
        },
        Regex::Concat(v) => {
            lemma_code_matches_all(v, prog, line, lo, sp);
            if through(e, prog, line, hi, sp) {
                let p = choose|p: int| #[trigger] via(e, prog, line, hi, sp, p);
                assert(via_all(v, prog, line, hi, sp, p));
            }
            if through_all(v, prog, line, hi, sp) {
                let p = choose|p: int| #[trigger] via_all(v, prog, line, hi, sp, p);
                assert(via(e, prog, line, hi, sp, p));
            }
        },
    }
}

proof fn lemma_code_matches_all(
    v: Seq<Regex>,
    prog: Seq<Instruction>,
    line: Seq<char>,
    lo: int,
    sp: int,
)
    requires
        productive_all(v),
        progresses(prog),
        well_formed(prog),
        prog.len() <= usize::MAX,
        0 <= lo,
        lo + code_len_all(v) < prog.len(),
        prog.subrange(lo, lo + code_len_all(v)) == code_all(v, lo as nat),
        0 <= sp <= line.len(),
    ensures
        accepts(prog, line, lo, sp) == through_all(v, prog, line, lo + code_len_all(v), sp),
    decreases v, line.len() - sp,
{
    let hi = lo + code_len_all(v);
    if v.len() == 0 {
        if accepts(prog, line, lo, sp) {
            assert(line.subrange(sp, sp).len() == 0);
            assert(via_all(v, prog, line, hi, sp, sp));
        }
        if through_all(v, prog, line, hi, sp) {
            let p = choose|p: int| #[trigger] via_all(v, prog, line, hi, sp, p);
            assert(line.subrange(sp, p).len() == 0);
        }
    } else {
        let front = v.drop_last();
        let last = v.last();
        let mid = lo + code_len_all(front);
        lemma_code_len_all(v, lo as nat);
        lemma_code_len_all(front, lo as nat);
        lemma_code_len(last, mid as nat);
        lemma_part(prog, lo, hi, lo, mid, code_all(front, lo as nat));
        lemma_part(prog, lo, hi, mid, hi, code(last, mid as nat));
        lemma_code_matches_all(front, prog, line, lo, sp);
        if accepts(prog, line, lo, sp) {
            let p = choose|p: int| #[trigger] via_all(front, prog, line, mid, sp, p);
            lemma_code_matches(last, prog, line, mid, p);
            let q = choose|q: int| #[trigger] via(last, prog, line, hi, p, q);
            lemma_stretch(line, sp, p, q);
            assert(matches_all(v, line.subrange(sp, q)));
            assert(via_all(v, prog, line, hi, sp, q));
        }
        if through_all(v, prog, line, hi, sp) {
            let q = choose|q: int| #[trigger] via_all(v, prog, line, hi, sp, q);
            let s = line.subrange(sp, q);
            let k = choose|k: int|
                0 <= k <= s.len() && matches_all(front, #[trigger] s.take(k)) && matches(
                    last,
                    s.skip(k),
                );
            let p = sp + k;
            lemma_stretch(line, sp, p, q);
            assert(via(last, prog, line, hi, p, q));
            lemma_code_matches(last, prog, line, mid, p);
            assert(via_all(front, prog, line, mid, sp, p));
        }
    }
}

/// The program of a productive expression finds a match on a line exactly
/// where the expression matches a start of the line, with either strategy.
pub proof fn lemma_program_decides(e: Regex, line: Seq<char>)
    requires
        productive(e),
        code_len(e) < usize::MAX,
    ensures
        run(program(e), line, 0, 0) == Ok::<bool, EvalError>(matches_prefix(e, line)),
{
    let prog = program(e);
    let n = code_len(e) as int;
    lemma_code_len(e, 0);
    lemma_program_progresses(e);
    lemma_program_has_valid_targets(e);
    lemma_run_stays_inside(prog, line, 0, 0);
    assert(prog.subrange(0, n) =~= code(e, 0));
    lemma_code_matches(e, prog, line, 0, 0);
    assert(prog[n] == Instruction::Match);
    if accepts(prog, line, 0, 0) {
        let p = choose|p: int| #[trigger] via(e, prog, line, n, 0, p);
        assert(line.subrange(0, p) =~= line.take(p));
        assert(matches(e, line.take(p)));
        assert(matches_prefix(e, line));
    }
    if matches_prefix(e, line) {
        let p = choose|p: int| 0 <= p <= line.len() && matches(e, #[trigger] line.take(p));
        assert(line.subrange(0, p) =~= line.take(p));
        lemma_step(prog, line, n, p);
        assert(via(e, prog, line, n, 0, p));
        assert(accepts(prog, line, 0, 0));
    }
    let r = run(prog, line, 0, 0);
    assert(r == run(prog, line, 0int as nat, 0int as nat));
    assert(r is Ok);
    assert(r->Ok_0 == matches_prefix(e, line));
}

} // verus!
