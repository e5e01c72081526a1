//! Parsing of a pattern into its syntax tree.

use vstd::prelude::*;

verus! {

/// Why a pattern was refused.
#[derive(Debug)]
pub enum ParseError {
    /// A backslash at this position is followed by this character, which
    /// cannot be escaped.
    InvalidEscape(usize, char),
    /// The closing parenthesis at this position closes nothing.
    InvalidRightParen(usize),
    /// The operator at this position has nothing in front of it to apply to.
    NoPrev(usize),
    /// A group is still open where the pattern ends.
    NoRightParen,
    /// The pattern holds no expression.
    Empty,
}

/// The syntax tree of a pattern.
#[derive(Debug)]
pub enum AST {
    Char(char),
    Plus(Box<AST>),
    Star(Box<AST>),
    Question(Box<AST>),
    Or(Box<AST>, Box<AST>),
    Concat(Vec<AST>),
}

/// The mathematical form of a syntax tree.
pub enum Regex {
    Char(char),
    Plus(Box<Regex>),
    Star(Box<Regex>),
    Question(Box<Regex>),
    Or(Box<Regex>, Box<Regex>),
    Concat(Seq<Regex>),
}

/// The mathematical form of `ast`.
pub open spec fn model(ast: AST) -> Regex
    decreases ast,
{
    match ast {
        AST::Char(c) => Regex::Char(c),
        AST::Plus(e) => Regex::Plus(Box::new(model(*e))),
        AST::Star(e) => Regex::Star(Box::new(model(*e))),
        AST::Question(e) => Regex::Question(Box::new(model(*e))),
        AST::Or(e1, e2) => Regex::Or(Box::new(model(*e1)), Box::new(model(*e2))),
        AST::Concat(v) => Regex::Concat(
            Seq::new(
                v.len() as nat,
                |i: int|
                    if 0 <= i < v.len() {
                        model(v[i])
                    } else {
                        Regex::Concat(Seq::empty())
                    },
            ),
        ),
    }
}

impl View for AST {
    type V = Regex;

    open spec fn view(&self) -> Regex {
        model(*self)
    }
}

/// The mathematical forms of the trees in `v`, in order.
pub open spec fn models(v: Seq<AST>) -> Seq<Regex> {
    Seq::new(v.len(), |i: int| model(v[i]))
}

/// The mathematical forms of the saved contexts of the open groups.
pub open spec fn stack_models(stack: Seq<(Vec<AST>, Vec<AST>)>) -> Seq<(Seq<Regex>, Seq<Regex>)> {
    Seq::new(stack.len(), |i: int| (models(stack[i].0@), models(stack[i].1@)))
}

/// The three postfix operators.
pub enum PSQ {
    Plus,
    Star,
    Question,
}

/// Whether the scanner has just read a backslash.
enum ParseState {
    Char,
    Escape,
}

/// What the scanner holds between two characters of the pattern.
pub struct ScanState {
    /// The expressions read since the last `|` or `(`.
    pub seq: Seq<Regex>,
    /// The alternatives completed in the innermost open group.
    pub seq_or: Seq<Regex>,
    /// For each open group, outermost first, the two contexts that were
    /// current where it opened.
    pub stack: Seq<(Seq<Regex>, Seq<Regex>)>,
    /// Whether the last character was a backslash that starts an escape.
    pub escape: bool,
}

/// The characters that may follow a backslash.
pub open spec fn is_escapable(c: char) -> bool {
    c == '\\' || c == '(' || c == ')' || c == '|' || c == '+' || c == '*' || c == '?'
}

/// `e` under the postfix operator `op`.
pub open spec fn repeat(op: PSQ, e: Regex) -> Regex {
    match op {
        PSQ::Plus => Regex::Plus(Box::new(e)),
        PSQ::Star => Regex::Star(Box::new(e)),
        PSQ::Question => Regex::Question(Box::new(e)),
    }
}

/// The tree `e` under the postfix operator `op`.
pub open spec fn wrap(op: PSQ, e: AST) -> AST {
    match op {
        PSQ::Plus => AST::Plus(Box::new(e)),
        PSQ::Star => AST::Star(Box::new(e)),
        PSQ::Question => AST::Question(Box::new(e)),
    }
}

/// The alternation of `branches` and then `last`, nested to the right:
/// `[b1, b2]` and `b3` give `Or(b1, Or(b2, b3))`.
pub open spec fn chain(branches: Seq<Regex>, last: Regex) -> Regex
    decreases branches.len(),
{
    if branches.len() == 0 {
        last
    } else {
        Regex::Or(Box::new(branches[0]), Box::new(chain(branches.drop_first(), last)))
    }
}

/// The expression that a list of alternatives stands for: none for an empty
/// list, the alternative itself where there is one, else the alternation
/// nested to the right.
pub open spec fn fold_or_spec(branches: Seq<Regex>) -> Option<Regex> {
    if branches.len() == 0 {
        None
    } else {
        Some(chain(branches.drop_last(), branches.last()))
    }
}

/// The alternatives of a group or of the whole pattern where it ends: the
/// completed ones, and the current concatenation unless it is empty.
pub open spec fn closed_branches(seq: Seq<Regex>, seq_or: Seq<Regex>) -> Seq<Regex> {
    if seq.len() > 0 {
        seq_or.push(Regex::Concat(seq))
    } else {
        seq_or
    }
}

/// The scanner's state before the first character.
pub open spec fn initial_state() -> ScanState {
    ScanState { seq: Seq::empty(), seq_or: Seq::empty(), stack: Seq::empty(), escape: false }
}

/// The state after the character `c` at position `pos` is read in state `st`,
/// or the error that `c` causes there.
pub open spec fn step(st: ScanState, pos: usize, c: char) -> Result<ScanState, ParseError> {
    if st.escape {
        if is_escapable(c) {
            Ok(ScanState { seq: st.seq.push(Regex::Char(c)), escape: false, ..st })
        } else {
            Err(ParseError::InvalidEscape(pos, c))
        }
    } else if c == '+' || c == '*' || c == '?' {
        if st.seq.len() == 0 {
            Err(ParseError::NoPrev(pos))
        } else {
            let op = if c == '+' {
                PSQ::Plus
            } else if c == '*' {
                PSQ::Star
            } else {
                PSQ::Question
            };
            Ok(ScanState { seq: st.seq.drop_last().push(repeat(op, st.seq.last())), ..st })
        }
    } else if c == '(' {
        Ok(
            ScanState {
                seq: Seq::empty(),
                seq_or: Seq::empty(),
                stack: st.stack.push((st.seq, st.seq_or)),
                escape: false,
            },
        )
    } else if c == ')' {
        if st.stack.len() == 0 {
            Err(ParseError::InvalidRightParen(pos))
        } else {
            let (prev, prev_or) = st.stack.last();
            let seq = match fold_or_spec(closed_branches(st.seq, st.seq_or)) {
                Some(group) => prev.push(group),
                None => prev,
            };
            Ok(ScanState { seq, seq_or: prev_or, stack: st.stack.drop_last(), escape: false })
        }
    } else if c == '|' {
        if st.seq.len() == 0 {
            Err(ParseError::NoPrev(pos))
        } else {
            Ok(ScanState { seq: Seq::empty(), seq_or: st.seq_or.push(Regex::Concat(st.seq)), ..st })
        }
    } else if c == '\\' {
        Ok(ScanState { escape: true, ..st })
    } else {
        Ok(ScanState { seq: st.seq.push(Regex::Char(c)), ..st })
    }
}

/// What the pattern stands for where it ends in state `st`. A backslash that
/// ends the pattern is passed over.
pub open spec fn finish(st: ScanState) -> Result<Regex, ParseError> {
    if st.stack.len() > 0 {
        Err(ParseError::NoRightParen)
    } else {
        match fold_or_spec(closed_branches(st.seq, st.seq_or)) {
            Some(e) => Ok(e),
            None => Err(ParseError::Empty),
        }
    }
}

/// The result of reading `s` from position `i` on, in state `st`: the first
/// error that a character causes, else what the last state stands for.
pub open spec fn scan(s: Seq<char>, i: int, st: ScanState) -> Result<Regex, ParseError>
    decreases s.len() - i,
{
    if 0 <= i < s.len() {
        match step(st, i as usize, s[i]) {
            Ok(next) => scan(s, i + 1, next),
            Err(e) => Err(e),
        }
    } else {
        finish(st)
    }
}

/// The expression that the pattern `s` stands for, or why it stands for none.
pub open spec fn parse_spec(s: Seq<char>) -> Result<Regex, ParseError> {
    scan(s, 0, initial_state())
}

/// The characters of `s`, in order.
pub fn chars_of(s: &str) -> (v: Vec<char>)
    ensures
        v@ == s@,
{
    let mut v: Vec<char> = Vec::new();
    for c in it: s.chars()
        invariant
            it.seq() == s@,
            v@ == it.seq().take(it.index()),
    {
        v.push(c);
    }
    v
}

proof fn lemma_models_push(v: Seq<AST>, a: AST)
    ensures
        models(v.push(a)) == models(v).push(model(a)),
{
    assert(models(v.push(a)) =~= models(v).push(model(a)));
}

proof fn lemma_models_drop_last(v: Seq<AST>)
    requires
        v.len() > 0,
    ensures
        models(v.drop_last()) == models(v).drop_last(),
        models(v).last() == model(v.last()),
{
    assert(models(v.drop_last()) =~= models(v).drop_last());
}

proof fn lemma_model_char(c: char)
    ensures
        model(AST::Char(c)) == Regex::Char(c),
{
}

proof fn lemma_model_concat(v: Vec<AST>)
    ensures
        model(AST::Concat(v)) == Regex::Concat(models(v@)),
{
    assert(model(AST::Concat(v))->Concat_0 =~= models(v@));
}

proof fn lemma_chain_push(branches: Seq<Regex>, x: Regex, last: Regex)
    ensures
        chain(branches.push(x), last) == chain(branches, Regex::Or(Box::new(x), Box::new(last))),
    decreases branches.len(),
{
    if branches.len() == 0 {
        assert(branches.push(x).drop_first() =~= Seq::<Regex>::empty());
        assert(chain(Seq::<Regex>::empty(), last) == last);
    } else {
        assert(branches.push(x).drop_first() =~= branches.drop_first().push(x));
        lemma_chain_push(branches.drop_first(), x, last);
    }
}

/// Wraps the last expression of `seq` in the postfix operator `ast_type`.
/// Fails where `seq` is empty: the operator at `pos` then applies to nothing.
pub fn parse_plus_star_question(seq: &mut Vec<AST>, ast_type: PSQ, pos: usize) -> (r: Result<
    (),
    ParseError,
>)
    ensures
        old(seq)@.len() == 0 ==> r == Err::<(), ParseError>(ParseError::NoPrev(pos))
            && final(seq)@ == old(seq)@,
        old(seq)@.len() > 0 ==> r is Ok
            && final(seq)@ == old(seq)@.drop_last().push(wrap(ast_type, old(seq)@.last())),
{
    if let Some(prev) = seq.pop() {
        let ast = match ast_type {
            PSQ::Plus => AST::Plus(Box::new(prev)),
            PSQ::Star => AST::Star(Box::new(prev)),
            PSQ::Question => AST::Question(Box::new(prev)),
        };
        seq.push(ast);
        Ok(())
    } else {
        Err(ParseError::NoPrev(pos))
    }
}

/// The literal that the escaped character `c` stands for. Only the
/// characters with a meaning of their own can be escaped.
pub fn parse_escape(pos: usize, c: char) -> (r: Result<AST, ParseError>)
    ensures
        r == if is_escapable(c) {
            Ok::<AST, ParseError>(AST::Char(c))
        } else {
            Err::<AST, ParseError>(ParseError::InvalidEscape(pos, c))
        },
{
    match c {
        '\\' | '(' | ')' | '|' | '+' | '*' | '?' => Ok(AST::Char(c)),
        _ => {
            let err = ParseError::InvalidEscape(pos, c);
            Err(err)
        },
    }
}

/// Joins alternatives into one tree: `abc|def|ghi` becomes
/// `Or(abc, Or(def, ghi))`, a single alternative stays as it is.
pub fn fold_or(seq_or: Vec<AST>) -> (r: Option<AST>)
    ensures
        match r {
            Some(ast) => fold_or_spec(models(seq_or@)) == Some(ast@),
            None => fold_or_spec(models(seq_or@)) == None::<Regex>,
        },
{
    let ghost all = seq_or@;
    let mut rest = seq_or;
    if rest.len() > 1 {
        let mut ast = rest.pop().unwrap();
        proof {
            lemma_models_drop_last(all);
        }
        loop
            invariant
                all == seq_or@,
                all.len() > 0,
                fold_or_spec(models(all)) == Some(
                    chain(models(all).drop_last(), models(all).last()),
                ),
                chain(models(rest@), ast@) == chain(models(all).drop_last(), models(all).last()),
            decreases rest.len(),
        {
            let ghost before = rest@;
            let ghost inner = ast@;
            match rest.pop() {
                Some(s) => {
                    proof {
                        lemma_models_drop_last(before);
                        assert(models(before) =~= models(before).drop_last().push(model(s)));
                        lemma_chain_push(models(before).drop_last(), model(s), inner);
                    }
                    ast = AST::Or(Box::new(s), Box::new(ast));
                },
                None => {
                    assert(models(rest@) =~= Seq::<Regex>::empty());
                    assert(fold_or_spec(models(all)) == Some(ast@));
                    return Some(ast);
                },
            }
        }
    } else {
        let r = rest.pop();
        proof {
            if all.len() == 1 {
                lemma_models_drop_last(all);
                assert(models(all).drop_last() =~= Seq::<Regex>::empty());
            }
        }
        r
    }
}

/// The scanner's state in mathematical form.
spec fn state_of(
    seq: Seq<AST>,
    seq_or: Seq<AST>,
    stack: Seq<(Vec<AST>, Vec<AST>)>,
    escape: bool,
) -> ScanState {
    ScanState {
        seq: models(seq),
        seq_or: models(seq_or),
        stack: stack_models(stack),
        escape,
    }
}

proof fn lemma_closed_branches(seq: Vec<AST>, seq_or: Seq<AST>)
    ensures
        closed_branches(models(seq@), models(seq_or)) == if seq@.len() > 0 {
            models(seq_or.push(AST::Concat(seq)))
        } else {
            models(seq_or)
        },
{
    if seq@.len() > 0 {
        lemma_model_concat(seq);
        lemma_models_push(seq_or, AST::Concat(seq));
    }
}

/// Parses the pattern `expr` into its syntax tree.
pub fn parse(expr: &str) -> (r: Result<AST, ParseError>)
    ensures
        match r {
            Ok(ast) => parse_spec(expr@) == Ok::<Regex, ParseError>(ast@),
            Err(e) => parse_spec(expr@) == Err::<Regex, ParseError>(e),
        },
{
    let chars = chars_of(expr);
    let mut seq: Vec<AST> = Vec::new();
    let mut seq_or: Vec<AST> = Vec::new();
    let mut stack: Vec<(Vec<AST>, Vec<AST>)> = Vec::new();
    let mut state = ParseState::Char;
    let mut i: usize = 0;
    proof {
        assert(models(seq@) =~= Seq::<Regex>::empty());
        assert(stack_models(stack@) =~= Seq::<(Seq<Regex>, Seq<Regex>)>::empty());
    }
    while i < chars.len()
        invariant
            chars@ == expr@,
            i <= chars.len(),
            scan(expr@, i as int, state_of(seq@, seq_or@, stack@, state is Escape)) == parse_spec(
                expr@,
            ),
        decreases chars.len() - i,
    {
        let c = chars[i];
        let ghost st = state_of(seq@, seq_or@, stack@, state is Escape);
        let ghost old_seq = seq@;
        match state {
            ParseState::Char => {
                match c {
                    '+' => {
                        proof {
                            if old_seq.len() > 0 {
                                lemma_models_drop_last(old_seq);
                                lemma_models_push(
                                    old_seq.drop_last(),
                                    wrap(PSQ::Plus, old_seq.last()),
                                );
                            }
                        }
                        parse_plus_star_question(&mut seq, PSQ::Plus, i)?;
                    },
                    '*' => {
                        proof {
                            if old_seq.len() > 0 {
                                lemma_models_drop_last(old_seq);
                                lemma_models_push(
                                    old_seq.drop_last(),
                                    wrap(PSQ::Star, old_seq.last()),
                                );
                            }
                        }
                        parse_plus_star_question(&mut seq, PSQ::Star, i)?;
                    },
                    '?' => {
                        proof {
                            if old_seq.len() > 0 {
                                lemma_models_drop_last(old_seq);
                                lemma_models_push(
                                    old_seq.drop_last(),
                                    wrap(PSQ::Question, old_seq.last()),
                                );
                            }
                        }
                        parse_plus_star_question(&mut seq, PSQ::Question, i)?;
                    },
                    '(' => {
                        // The current contexts are saved, and the group starts
                        // with empty ones.
                        stack.push((seq, seq_or));
                        seq = Vec::new();
                        seq_or = Vec::new();
                        proof {
                            assert(stack_models(stack@) =~= st.stack.push((st.seq, st.seq_or)));
                            assert(models(seq@) =~= Seq::<Regex>::empty());
                            assert(models(seq_or@) =~= Seq::<Regex>::empty());
                        }
                    },
                    ')' => {
                        if let Some((mut prev, prev_or)) = stack.pop() {
                            proof {
                                assert(stack_models(stack@) =~= st.stack.drop_last());
                                assert(st.stack.last() == (models(prev@), models(prev_or@)));
                                lemma_closed_branches(seq, seq_or@);
                            }
                            // A group without content, as in "()", leaves nothing.
                            if !seq.is_empty() {
                                seq_or.push(AST::Concat(seq));
                            }
                            if let Some(ast) = fold_or(seq_or) {
                                proof {
                                    lemma_models_push(prev@, ast);
                                }
                                prev.push(ast);
                            }
                            seq = prev;
                            seq_or = prev_or;
                            } else {
                            return Err(ParseError::InvalidRightParen(i));
                        }
                    },
                    '|' => {
                        if seq.is_empty() {
                            return Err(ParseError::NoPrev(i));
                        } else {
                            proof {
                                lemma_model_concat(seq);
                                lemma_models_push(seq_or@, AST::Concat(seq));
                            }
                            seq_or.push(AST::Concat(seq));
                            seq = Vec::new();
                            proof {
                                assert(models(seq@) =~= Seq::<Regex>::empty());
                                }
                        }
                    },
                    '\\' => {
                        state = ParseState::Escape;
                    },
                    _ => {
                        proof {
                            lemma_models_push(seq@, AST::Char(c));
                            lemma_model_char(c);
                        }
                        seq.push(AST::Char(c));
                    },
                };
            },
            ParseState::Escape => {
                let ast = parse_escape(i, c)?;
                proof {
                    lemma_models_push(seq@, ast);
                }
                seq.push(ast);
                state = ParseState::Char;
            },
        }
        proof {
            assert(step(st, i, c) == Ok::<ScanState, ParseError>(
                state_of(seq@, seq_or@, stack@, state is Escape),
            ));
        }
        i += 1;
    }

    if !stack.is_empty() {
        return Err(ParseError::NoRightParen);
    }
    proof {
        assert(stack_models(stack@).len() == 0);
        lemma_closed_branches(seq, seq_or@);
    }
    if !seq.is_empty() {
        seq_or.push(AST::Concat(seq));
    }
    if let Some(ast) = fold_or(seq_or) {
        Ok(ast)
    } else {
        Err(ParseError::Empty)
    }
}

/// A pattern that begins with `+`, `*`, `?` or `|` is refused: the operator
/// at position 0 has nothing in front of it.
pub proof fn lemma_leading_operator_is_refused(s: Seq<char>)
    requires
        s.len() > 0,
        s[0] == '+' || s[0] == '*' || s[0] == '?' || s[0] == '|',
    ensures
        parse_spec(s) == Err::<Regex, ParseError>(ParseError::NoPrev(0)),
{
    assert(step(initial_state(), 0, s[0]) == Err::<ScanState, ParseError>(ParseError::NoPrev(0)));
}

} // verus!
