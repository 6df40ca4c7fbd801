use vstd::prelude::*;

verus! {

/// The class of a lexical unit.
#[derive(Clone, Copy, Debug, PartialEq, Eq, Structural)]
pub enum TokenKind {
    /// A one-character operator: `+` or `-`.
    Reserved,
    /// An integer literal.
    Num,
    /// The end of the input; it closes every token list.
    Eof,
}

/// What a token is, mathematically: its class, its value and its text.
pub ghost struct TokenSpec {
    pub kind: TokenKind,
    pub val: int,
    pub text: Seq<char>,
}

/// One lexical unit of the input.
#[derive(Debug)]
pub struct Token {
    pub kind: TokenKind,
    /// The integer value; meaningful only for `TokenKind::Num`.
    pub val: i64,
    /// The characters the token was scanned from; empty for `TokenKind::Eof`.
    pub text: String,
}

impl View for Token {
    type V = TokenSpec;

    open spec fn view(&self) -> TokenSpec {
        TokenSpec { kind: self.kind, val: self.val as int, text: self.text@ }
    }
}

/// The end-of-input token.
pub open spec fn eof_token() -> TokenSpec {
    TokenSpec { kind: TokenKind::Eof, val: 0, text: Seq::empty() }
}

/// A character that may stand in the input.
pub open spec fn lexable(c: char) -> bool {
    c == ' ' || c == '+' || c == '-' || is_digit(c)
}

pub open spec fn is_digit(c: char) -> bool {
    '0' <= c && c <= '9'
}

pub open spec fn digit_value(c: char) -> int {
    (c as u32) as int - ('0' as u32) as int
}

/// The token that a non-space character scans to: a digit is a one-digit
/// number, anything else an operator.
pub open spec fn token_of(c: char) -> TokenSpec {
    if is_digit(c) {
        TokenSpec { kind: TokenKind::Num, val: digit_value(c), text: seq![c] }
    } else {
        TokenSpec { kind: TokenKind::Reserved, val: 0, text: seq![c] }
    }
}

pub open spec fn not_space(c: char) -> bool {
    c != ' '
}

/// The token list of an input: one token per non-space character, in input
/// order, then the end token.
pub open spec fn lex(s: Seq<char>) -> Seq<TokenSpec> {
    s.filter(|c: char| not_space(c)).map_values(|c: char| token_of(c)).push(eof_token())
}

/// The tokens as mathematical values.
pub open spec fn tokens_view(v: Seq<Token>) -> Seq<TokenSpec> {
    v.map_values(|t: Token| t@)
}

/// A character outside the input alphabet, and its position.
#[derive(Clone, Copy, Debug, PartialEq, Eq, Structural)]
pub struct LexError {
    pub pos: usize,
    pub ch: char,
}

/// `e` names the first character of `s` that may not stand in the input.
pub open spec fn is_first_bad(s: Seq<char>, e: LexError) -> bool {
    &&& e.pos < s.len()
    &&& s[e.pos as int] == e.ch
    &&& !lexable(e.ch)
    &&& forall|j: int| 0 <= j < e.pos ==> lexable(#[trigger] s[j])
}

pub open spec fn all_lexable(s: Seq<char>) -> bool {
    forall|j: int| 0 <= j < s.len() ==> lexable(#[trigger] s[j])
}

/// What a step of the driver asked for.
#[derive(Clone, Copy, Debug, PartialEq, Eq, Structural)]
pub enum Expected {
    /// A number.
    Number,
    /// The operator with this character.
    Punct(char),
    /// One of the operators `+` and `-`.
    Operator,
}

/// A token that did not match what was asked for: what was asked, and the
/// class of the token found.
#[derive(Clone, Copy, Debug, PartialEq, Eq, Structural)]
pub struct Mismatch {
    pub expected: Expected,
    pub found: TokenKind,
}

/// The token is the operator `op`.
pub open spec fn is_punct(t: TokenSpec, op: char) -> bool {
    t.kind == TokenKind::Reserved && t.text.len() > 0 && t.text[0] == op
}

proof fn lemma_lex_step(s: Seq<char>, i: int)
    requires
        0 <= i < s.len(),
    ensures
        s.take(i + 1).filter(|c: char| not_space(c)) == if not_space(s[i]) {
            s.take(i).filter(|c: char| not_space(c)).push(s[i])
        } else {
            s.take(i).filter(|c: char| not_space(c))
        },
{
    reveal(Seq::filter);
    assert(s.take(i + 1).drop_last() =~= s.take(i));
}

/// The number of characters of `s` other than spaces.
pub open spec fn non_space_count(s: Seq<char>) -> nat
    decreases s.len(),
{
    if s.len() == 0 {
        0
    } else {
        non_space_count(s.drop_last()) + if not_space(s.last()) {
            1nat
        } else {
            0nat
        }
    }
}

proof fn lemma_filter_index(s: Seq<char>, p: int)
    requires
        0 <= p < s.len(),
        not_space(s[p]),
    ensures
        s.filter(|c: char| not_space(c)).len() == non_space_count(s),
        non_space_count(s.take(p)) < non_space_count(s),
        s.filter(|c: char| not_space(c))[non_space_count(s.take(p)) as int] == s[p],
    decreases s.len(),
{
    reveal(Seq::filter);
    let d = s.drop_last();
    lemma_filter_len(s);
    if p < s.len() - 1 {
        lemma_filter_index(d, p);
        assert(s.take(p) =~= d.take(p));
    } else {
        assert(s.take(p) =~= d);
        lemma_filter_len(d);
    }
}

proof fn lemma_filter_len(s: Seq<char>)
    ensures
        s.filter(|c: char| not_space(c)).len() == non_space_count(s),
    decreases s.len(),
{
    reveal(Seq::filter);
    if s.len() > 0 {
        lemma_filter_len(s.drop_last());
    }
}

/// Scanning yields one token per non-space character and one end token: the
/// character at `p` gives the token at the position that counts the
/// non-space characters before it, so the tokens keep the input order.
pub proof fn lemma_token_count(s: Seq<char>)
    ensures
        lex(s).len() == non_space_count(s) + 1,
        lex(s).last() == eof_token(),
        forall|p: int|
            0 <= p < s.len() && not_space(s[p]) ==> #[trigger] lex(s)[non_space_count(s.take(p)) as int]
                == token_of(s[p]),
{
    lemma_filter_len(s);
    assert forall|p: int|
        0 <= p < s.len() && not_space(s[p]) implies #[trigger] lex(s)[non_space_count(s.take(p)) as int]
        == token_of(s[p]) by {
        lemma_filter_index(s, p);
    }
}

/// What `Token::tokenize` may return for the input `s`, with the tokens
/// taken as values.
pub open spec fn lexes_to(s: Seq<char>, r: Result<Seq<TokenSpec>, LexError>) -> bool {
    &&& r is Ok <==> all_lexable(s)
    &&& r matches Ok(v) ==> v == lex(s)
    &&& r matches Err(e) ==> is_first_bad(s, e)
}

/// Scanning is deterministic: two outcomes allowed for the same input are
/// the same, in kinds, texts, values and order, or in the error reported.
pub proof fn lemma_lex_deterministic(s: Seq<char>, a: Result<Seq<TokenSpec>, LexError>, b: Result<Seq<TokenSpec>, LexError>)
    requires
        lexes_to(s, a),
        lexes_to(s, b),
    ensures
        a == b,
{
    if let (Err(x), Err(y)) = (a, b) {
        if x.pos < y.pos {
            assert(lexable(s[x.pos as int]));
        } else if y.pos < x.pos {
            assert(lexable(s[y.pos as int]));
        }
    }
}

impl Token {
    /// The end-of-input token: no text, value 0.
    pub fn new() -> (r: Token)
        ensures
            r@ == eof_token(),
    {
        Token { kind: TokenKind::Eof, val: 0, text: String::new() }
    }

    /// Accepts this token where it is the operator `op`.
    pub fn consume(&self, op: char) -> (r: Result<(), Mismatch>)
        ensures
            r is Ok <==> is_punct(self@, op),
            r matches Err(m) ==> m == (Mismatch { expected: Expected::Punct(op), found: self.kind }),
    {
        if self.kind != TokenKind::Reserved || self.text.as_str().unicode_len() == 0
            || self.text.as_str().get_char(0) != op {
            return Err(Mismatch { expected: Expected::Punct(op), found: self.kind });
        }
        Ok(())
    }

    /// The value of this token where it is a number.
    pub fn expect_number(&self) -> (r: Result<i64, Mismatch>)
        ensures
            r is Ok <==> self.kind == TokenKind::Num,
            r matches Ok(v) ==> v == self.val,
            r matches Err(m) ==> m == (Mismatch { expected: Expected::Number, found: self.kind }),
    {
        match self.kind {
            TokenKind::Num => Ok(self.val),
            _ => Err(Mismatch { expected: Expected::Number, found: self.kind }),
        }
    }

    /// Whether this is the end token.
    pub fn at_eof(&self) -> (r: bool)
        ensures
            r == (self.kind == TokenKind::Eof),
    {
        self.kind == TokenKind::Eof
    }

    /// Adds a token of class `kind` and value `val` at the end of `tokens`;
    /// its text is `text`, or empty where none is given.
    pub fn append(tokens: &mut Vec<Token>, kind: TokenKind, val: i64, text: Option<&str>)
        ensures
            tokens_view(final(tokens)@) == tokens_view(old(tokens)@).push(
                TokenSpec {
                    kind,
                    val: val as int,
                    text: match text {
                        Some(t) => t@,
                        None => Seq::empty(),
                    },
                },
            ),
    {
        let text = match text {
            Some(t) => String::from_str(t),
            None => String::new(),
        };
        tokens.push(Token { kind, val, text });
        assert(tokens_view(tokens@) =~= tokens_view(old(tokens)@).push(tokens@.last()@));
    }

    /// Scans `input` left to right: spaces are skipped, `+` and `-` become
    /// operators, a digit becomes a one-digit number, and the end token closes
    /// the list. Any other character is refused, the first one reported.
    pub fn tokenize(input: &str) -> (r: Result<Vec<Token>, LexError>)
        ensures
            r is Ok <==> all_lexable(input@),
            r matches Ok(v) ==> tokens_view(v@) == lex(input@),
            r matches Err(e) ==> is_first_bad(input@, e),
            lexes_to(
                input@,
                match r {
                    Ok(v) => Ok(tokens_view(v@)),
                    Err(e) => Err(e),
                },
            ),
    {
        let n = input.unicode_len();
        let mut tokens: Vec<Token> = Vec::new();
        let mut i: usize = 0;
        while i < n
            invariant
                n == input@.len(),
                i <= n,
                forall|j: int| 0 <= j < i ==> lexable(#[trigger] input@[j]),
                tokens_view(tokens@) == input@.take(i as int).filter(|c: char| not_space(c)).map_values(
                    |c: char| token_of(c),
                ),
            decreases n - i,
        {
            let c = input.get_char(i);
            proof {
                lemma_lex_step(input@, i as int);
            }
            let ghost before = tokens_view(tokens@);
            if c == ' ' {
            } else if c == '+' || c == '-' || ('0' <= c && c <= '9') {
                let text = input.substring_char(i, i + 1);
                assert(text@ =~= seq![c]);
                if c == '+' || c == '-' {
                    Token::append(&mut tokens, TokenKind::Reserved, 0, Some(text));
                } else {
                    let d = (c as u32 - '0' as u32) as i64;
                    Token::append(&mut tokens, TokenKind::Num, d, Some(text));
                }
                assert(tokens_view(tokens@) =~= input@.take(i + 1).filter(|c: char| not_space(c)).map_values(
                    |c: char| token_of(c),
                ));
            } else {
                return Err(LexError { pos: i, ch: c });
            }
            i = i + 1;
        }
        Token::append(&mut tokens, TokenKind::Eof, 0, None);
        assert(input@.take(n as int) =~= input@);
        assert(tokens_view(tokens@) =~= lex(input@));
        Ok(tokens)
    }
}

} // verus!
