use vstd::prelude::*;

use crate::token::{
    all_lexable, is_first_bad, is_punct, lex, not_space, token_of, tokens_view, Expected, LexError, Token, TokenKind,
    TokenSpec,
};

verus! {

/// One emitted instruction; the accumulator is the return register.
#[derive(Clone, Copy, Debug, PartialEq, Eq, Structural)]
pub enum Instr {
    /// Load the immediate into the accumulator.
    Mov(i64),
    /// Add the immediate to the accumulator.
    Add(i64),
    /// Subtract the immediate from the accumulator.
    Sub(i64),
}

/// The decimal digits of `n`, most significant first.
pub open spec fn digits(n: nat) -> Seq<char>
    decreases n,
{
    if n < 10 {
        seq![digit_char(n)]
    } else {
        digits(n / 10) + seq![digit_char(n % 10)]
    }
}

pub open spec fn digit_char(d: nat) -> char {
    seq!['0', '1', '2', '3', '4', '5', '6', '7', '8', '9'][d as int]
}

/// `v` written in decimal, with a leading `-` where it is negative.
pub open spec fn decimal(v: int) -> Seq<char> {
    if v < 0 {
        seq!['-'] + digits((-v) as nat)
    } else {
        digits(v as nat)
    }
}

/// The assembly text of an instruction, in Intel syntax on `rax`.
pub open spec fn instr_text(i: Instr) -> Seq<char> {
    match i {
        Instr::Mov(v) => seq!['m', 'o', 'v', ' ', 'r', 'a', 'x', ',', ' '] + decimal(v as int),
        Instr::Add(v) => seq!['a', 'd', 'd', ' ', 'r', 'a', 'x', ',', ' '] + decimal(v as int),
        Instr::Sub(v) => seq!['s', 'u', 'b', ' ', 'r', 'a', 'x', ',', ' '] + decimal(v as int),
    }
}

/// Appends the decimal digits of `n` to `out`.
fn write_digits(out: &mut String, n: u64)
    ensures
        final(out)@ == old(out)@ + digits(n as nat),
    decreases n,
{
    if n >= 10 {
        write_digits(out, n / 10);
    }
    let d = (n % 10) as usize;
    let table = "0123456789";
    proof {
        reveal_strlit("0123456789");
    }
    let c = table.substring_char(d, d + 1);
    assert(c@ =~= seq![digit_char(d as nat)]);
    out.append(c);
    assert(final(out)@ =~= old(out)@ + digits(n as nat));
}

impl Instr {
    /// The instruction as one line of assembly text, such as `add rax, 2`.
    pub fn render(&self) -> (r: String)
        ensures
            r@ == instr_text(*self),
    {
        let (head, v) = match *self {
            Instr::Mov(v) => ("mov rax, ", v),
            Instr::Add(v) => ("add rax, ", v),
            Instr::Sub(v) => ("sub rax, ", v),
        };
        proof {
            reveal_strlit("mov rax, ");
            reveal_strlit("add rax, ");
            reveal_strlit("sub rax, ");
            reveal_strlit("-");
        }
        let mut out = String::from_str(head);
        let mag: u64 = if v < 0 {
            out.append("-");
            (-(v as i128)) as u64
        } else {
            v as u64
        };
        write_digits(&mut out, mag);
        assert(out@ =~= instr_text(*self));
        out
    }
}

/// A token list that does not have the shape `NUMBER (op NUMBER)* END`:
/// the position of the first token out of place, what was expected there
/// and the class of the token found.
#[derive(Clone, Copy, Debug, PartialEq, Eq, Structural)]
pub struct GrammarError {
    pub pos: usize,
    pub expected: Expected,
    pub found: TokenKind,
}

/// Either stage of compiling an input line failed.
#[derive(Clone, Copy, Debug, PartialEq, Eq, Structural)]
pub enum CompileError {
    Lex(LexError),
    Grammar(GrammarError),
}

/// A token list as the lexer builds it: it ends with the end token, and no
/// other token is an end token.
pub open spec fn valid_list(t: Seq<TokenSpec>) -> bool {
    &&& t.len() > 0
    &&& t.last().kind == TokenKind::Eof
    &&& forall|j: int| 0 <= j < t.len() - 1 ==> (#[trigger] t[j]).kind != TokenKind::Eof
}

/// The token at `j` is one the driver accepts there: a number at an even
/// position, an operator or the end at an odd one.
pub open spec fn matches_at(t: Seq<TokenSpec>, j: int) -> bool {
    if j % 2 == 0 {
        t[j].kind == TokenKind::Num
    } else {
        t[j].kind == TokenKind::Eof || is_punct(t[j], '+') || is_punct(t[j], '-')
    }
}

/// The list spells `NUMBER (op NUMBER)* END`.
pub open spec fn well_formed(t: Seq<TokenSpec>) -> bool {
    forall|j: int| 0 <= j < t.len() ==> #[trigger] matches_at(t, j)
}

/// `e` names the first token out of place in `t`.
pub open spec fn is_first_mismatch(t: Seq<TokenSpec>, e: GrammarError) -> bool {
    &&& e.pos < t.len()
    &&& !matches_at(t, e.pos as int)
    &&& forall|j: int| 0 <= j < e.pos ==> #[trigger] matches_at(t, j)
    &&& e.expected == if e.pos % 2 == 0 { Expected::Number } else { Expected::Operator }
    &&& e.found == t[e.pos as int].kind
}

/// The instruction for the `k`-th term: a move for the first, then an add or
/// a subtract by the operator before the term.
pub open spec fn instr_at(t: Seq<TokenSpec>, k: int) -> Instr {
    let v = t[2 * k].val as i64;
    if k == 0 {
        Instr::Mov(v)
    } else if is_punct(t[2 * k - 1], '+') {
        Instr::Add(v)
    } else {
        Instr::Sub(v)
    }
}

/// The instructions emitted for a well-formed list: one per term.
pub open spec fn codegen(t: Seq<TokenSpec>) -> Seq<Instr> {
    Seq::new(t.len() / 2, |k: int| instr_at(t, k))
}

/// The accumulator after one instruction.
pub open spec fn step(acc: int, i: Instr) -> int {
    match i {
        Instr::Mov(v) => v as int,
        Instr::Add(v) => acc + v,
        Instr::Sub(v) => acc - v,
    }
}

/// The accumulator after running the instructions in order from zero.
pub open spec fn exec(s: Seq<Instr>) -> int
    decreases s.len(),
{
    if s.len() == 0 {
        0
    } else {
        step(exec(s.drop_last()), s.last())
    }
}

/// The value of the first `k + 1` terms, taken left to right.
pub open spec fn eval_terms(t: Seq<TokenSpec>, k: int) -> int
    decreases k,
{
    if k <= 0 {
        t[0].val
    } else if is_punct(t[2 * k - 1], '+') {
        eval_terms(t, k - 1) + t[2 * k].val
    } else {
        eval_terms(t, k - 1) - t[2 * k].val
    }
}

/// The value of the expression that the list spells.
pub open spec fn eval(t: Seq<TokenSpec>) -> int {
    eval_terms(t, t.len() / 2 - 1)
}

/// Every value fits in a machine word.
pub open spec fn fits(t: Seq<TokenSpec>) -> bool {
    forall|j: int| 0 <= j < t.len() ==> i64::MIN <= #[trigger] t[j].val <= i64::MAX
}

/// Walks the token list once, checking `NUMBER (op NUMBER)* END`, and
/// emits a move for the first number and an add or subtract per operator
/// and number after it. Nothing is emitted for a list out of shape.
pub fn run(tokens: &Vec<Token>) -> (r: Result<Vec<Instr>, GrammarError>)
    requires
        valid_list(tokens_view(tokens@)),
    ensures
        r is Ok <==> well_formed(tokens_view(tokens@)),
        r matches Ok(v) ==> v@ == codegen(tokens_view(tokens@)),
        r matches Err(e) ==> is_first_mismatch(tokens_view(tokens@), e),
{
    let ghost t = tokens_view(tokens@);
    let n = tokens.len();
    assert(t[0] == tokens@[0]@);
    let first = match tokens[0].expect_number() {
        Ok(v) => v,
        Err(m) => {
            assert(!matches_at(t, 0));
            return Err(GrammarError { pos: 0, expected: m.expected, found: m.found });
        },
    };
    let mut out: Vec<Instr> = Vec::new();
    out.push(Instr::Mov(first));
    assert(matches_at(t, 0));
    let mut i: usize = 1;
    loop
        invariant
            t == tokens_view(tokens@),
            valid_list(t),
            n == t.len(),
            i < n,
            i % 2 == 1,
            forall|j: int| 0 <= j < i ==> #[trigger] matches_at(t, j),
            out@.len() == (i + 1) / 2,
            forall|k: int| 0 <= k < out@.len() ==> out@[k] == #[trigger] instr_at(t, k),
        decreases n - i,
    {
        assert(t[i as int] == tokens@[i as int]@);
        if tokens[i].at_eof() {
            assert(i == n - 1);
            assert(out@ =~= codegen(t));
            return Ok(out);
        }
        let plus = if tokens[i].consume('+').is_ok() {
            true
        } else if tokens[i].consume('-').is_ok() {
            false
        } else {
            assert(!matches_at(t, i as int));
            return Err(GrammarError { pos: i, expected: Expected::Operator, found: tokens[i].kind });
        };
        assert(matches_at(t, i as int));
        assert(t[i + 1] == tokens@[i + 1]@);
        let v = match tokens[i + 1].expect_number() {
            Ok(v) => v,
            Err(m) => {
                assert(!matches_at(t, i + 1));
                return Err(GrammarError { pos: i + 1, expected: m.expected, found: m.found });
            },
        };
        assert(matches_at(t, i + 1));
        let ghost k = out@.len() as int;
        if plus {
            out.push(Instr::Add(v));
        } else {
            out.push(Instr::Sub(v));
        }
        assert(out@[k] == instr_at(t, k));
        i = i + 2;
    }
}

/// Compiles one input line: scans it, then drives the token list. A
/// character outside the alphabet is reported before any grammar check.
pub fn compile(input: &str) -> (r: Result<Vec<Instr>, CompileError>)
    ensures
        !all_lexable(input@) ==> (r matches Err(CompileError::Lex(e)) && is_first_bad(input@, e)),
        all_lexable(input@) ==> (r is Ok <==> well_formed(lex(input@))),
        r matches Ok(v) ==> v@ == codegen(lex(input@)),
        all_lexable(input@) && !well_formed(lex(input@)) ==> (r matches Err(
            CompileError::Grammar(e),
        ) && is_first_mismatch(lex(input@), e)),
{
    match Token::tokenize(input) {
        Err(e) => Err(CompileError::Lex(e)),
        Ok(tokens) => {
            proof {
                lemma_lex_valid(input@);
            }
            match run(&tokens) {
                Ok(v) => Ok(v),
                Err(e) => Err(CompileError::Grammar(e)),
            }
        },
    }
}

/// Every scanned list is a valid list whose values fit in a machine word.
pub proof fn lemma_lex_valid(s: Seq<char>)
    ensures
        valid_list(lex(s)),
        fits(lex(s)),
{
    let f = s.filter(|c: char| not_space(c));
    let t = lex(s);
    assert forall|j: int| 0 <= j < t.len() - 1 implies (#[trigger] t[j]).kind != TokenKind::Eof by {
        assert(t[j] == token_of(f[j]));
    }
    assert forall|j: int| 0 <= j < t.len() implies i64::MIN <= #[trigger] t[j].val <= i64::MAX by {
        if j < t.len() - 1 {
            assert(t[j] == token_of(f[j]));
            let c = f[j];
            if '0' <= c && c <= '9' {
                assert((c as u32) <= ('9' as u32));
                assert((c as u32) >= ('0' as u32));
            }
        }
    }
}

proof fn lemma_exec_terms(t: Seq<TokenSpec>, k: int)
    requires
        fits(t),
        0 <= k,
        2 * k < t.len(),
    ensures
        exec(Seq::new((k + 1) as nat, |j: int| instr_at(t, j))) == eval_terms(t, k),
    decreases k,
{
    let s = Seq::new((k + 1) as nat, |j: int| instr_at(t, j));
    assert(t[2 * k].val == (t[2 * k].val as i64) as int);
    if k > 0 {
        lemma_exec_terms(t, k - 1);
        assert(s.drop_last() =~= Seq::new(k as nat, |j: int| instr_at(t, j)));
    } else {
        assert(s.drop_last() =~= Seq::<Instr>::empty());
    }
}

/// Running the emitted instructions from an empty accumulator leaves the
/// value of the expression, taken left to right with integer `+` and `-`.
pub proof fn lemma_round_trip(t: Seq<TokenSpec>)
    requires
        valid_list(t),
        well_formed(t),
        fits(t),
    ensures
        exec(codegen(t)) == eval(t),
{
    assert(matches_at(t, t.len() - 1));
    assert(t.len() >= 2);
    lemma_exec_terms(t, t.len() / 2 - 1);
    assert(codegen(t) =~= Seq::new((t.len() / 2) as nat, |j: int| instr_at(t, j)));
}

/// For every input line that compiles, running the emitted instructions
/// leaves the value of the expression the line spells.
pub proof fn lemma_compile_round_trip(s: Seq<char>)
    requires
        all_lexable(s),
        well_formed(lex(s)),
    ensures
        exec(codegen(lex(s))) == eval(lex(s)),
{
    lemma_lex_valid(s);
    lemma_round_trip(lex(s));
}

} // verus!
