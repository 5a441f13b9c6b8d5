use vstd::prelude::*;
use vstd::string::StringSliceAdditionalSpecFns;

verus! {

/// An operator or a bracket of the filter language.
#[derive(Clone, Copy, Debug, PartialEq, Eq, Structural)]
pub enum Op {
    Plus,
    Minus,
    Asterisk,
    Solidus,
    Eq,
    Neq,
    Lt,
    Le,
    Gt,
    Ge,
    And,
    Or,
    Not,
    LeftParenthesis,
    RightParenthesis,
}

/// A token: a number as written, a name, or an operator.
#[derive(Debug)]
pub enum Token {
    Number(Vec<char>),
    Identifier(Vec<char>),
    Op(Op),
}

/// The two comparisons that do not chain.
#[derive(Clone, Copy, Debug, PartialEq, Eq, Structural)]
pub enum Comparison {
    /// `==`, `!=`
    Equality,
    /// `<`, `<=`, `>`, `>=`
    Relational,
}

#[derive(Debug)]
pub enum ParseError {
    ChainedNonAssociative(Comparison),
    EmptyInput,
    InvalidNumber(Vec<char>),
    UnexpectedEoi,
    UnexpectedToken(Vec<char>),
    UnmatchedParenthesis,
}

/// What can go wrong when a filter is evaluated.
#[derive(Debug)]
pub enum EvalError {
    DivisionByZero,
    TypeMismatch,
    UndefinedVariable(Vec<char>),
}

#[derive(Clone, Copy, Debug, PartialEq, Eq, Structural)]
pub enum UnaryOperator {
    Negate,
    Not,
}

#[derive(Clone, Copy, Debug, PartialEq, Eq, Structural)]
pub enum BinaryOperator {
    Add,
    Sub,
    Mul,
    Div,
    Eq,
    Neq,
    Lt,
    Le,
    Gt,
    Ge,
    And,
    Or,
}

/// A filter expression; a number is kept as written.
#[derive(Debug)]
pub enum Expression {
    Name(Vec<char>),
    Number(Vec<char>),
    Boolean(bool),
    Unary { operator: UnaryOperator, expression: Box<Expression> },
    Binary { left: Box<Expression>, operator: BinaryOperator, right: Box<Expression> },
}

pub open spec fn is_space(b: u8) -> bool {
    b == 0x20 || b == 0x09 || b == 0x0a || b == 0x0c || b == 0x0d
}

pub open spec fn is_digit(b: u8) -> bool {
    0x30 <= b <= 0x39
}

pub open spec fn is_ident_start(b: u8) -> bool {
    (0x41 <= b <= 0x5a) || (0x61 <= b <= 0x7a) || b == 0x5f
}

pub open spec fn is_ident_char(b: u8) -> bool {
    is_ident_start(b) || is_digit(b)
}

/// A token, as the language sees it.
pub enum TokenV {
    Number(Seq<char>),
    Identifier(Seq<char>),
    Op(Op),
}

pub open spec fn token_view(t: Token) -> TokenV {
    match t {
        Token::Number(s) => TokenV::Number(s@),
        Token::Identifier(s) => TokenV::Identifier(s@),
        Token::Op(op) => TokenV::Op(op),
    }
}

pub open spec fn tokens_view(ts: Seq<Token>) -> Seq<TokenV> {
    ts.map_values(|t: Token| token_view(t))
}

/// A parse error, as the language sees it.
pub enum ParseErrorV {
    ChainedNonAssociative(Comparison),
    EmptyInput,
    InvalidNumber(Seq<char>),
    UnexpectedEoi,
    UnexpectedToken(Seq<char>),
    UnmatchedParenthesis,
}

pub open spec fn error_view(e: ParseError) -> ParseErrorV {
    match e {
        ParseError::ChainedNonAssociative(c) => ParseErrorV::ChainedNonAssociative(c),
        ParseError::EmptyInput => ParseErrorV::EmptyInput,
        ParseError::InvalidNumber(s) => ParseErrorV::InvalidNumber(s@),
        ParseError::UnexpectedEoi => ParseErrorV::UnexpectedEoi,
        ParseError::UnexpectedToken(s) => ParseErrorV::UnexpectedToken(s@),
        ParseError::UnmatchedParenthesis => ParseErrorV::UnmatchedParenthesis,
    }
}

/// The characters that write an operator.
pub open spec fn op_text(op: Op) -> Seq<char> {
    match op {
        Op::Plus => seq!['+'],
        Op::Minus => seq!['-'],
        Op::Asterisk => seq!['*'],
        Op::Solidus => seq!['/'],
        Op::Eq => seq!['=', '='],
        Op::Neq => seq!['!', '='],
        Op::Lt => seq!['<'],
        Op::Le => seq!['<', '='],
        Op::Gt => seq!['>'],
        Op::Ge => seq!['>', '='],
        Op::And => seq!['&', '&'],
        Op::Or => seq!['|', '|'],
        Op::Not => seq!['!'],
        Op::LeftParenthesis => seq!['('],
        Op::RightParenthesis => seq![')'],
    }
}

/// The text of a token, as error messages show it.
pub open spec fn token_text_v(t: TokenV) -> Seq<char> {
    match t {
        TokenV::Number(s) => s,
        TokenV::Identifier(s) => s,
        TokenV::Op(op) => op_text(op),
    }
}

fn copy_chars(v: &Vec<char>) -> (r: Vec<char>)
    ensures
        r@ == v@,
{
    let mut r: Vec<char> = Vec::new();
    let mut i: usize = 0;
    while i < v.len()
        invariant
            i <= v@.len(),
            r@ == v@.take(i as int),
        decreases v.len() - i,
    {
        r.push(v[i]);
        i = i + 1;
        assert(r@ =~= v@.take(i as int));
    }
    assert(v@.take(v@.len() as int) =~= v@);
    r
}

/// The text of a token, as error messages show it.
pub fn token_text(t: &Token) -> (s: Vec<char>)
    ensures
        s@ == token_text_v(token_view(*t)),
{
    match t {
        Token::Number(s) => copy_chars(s),
        Token::Identifier(s) => copy_chars(s),
        Token::Op(op) => {
            let mut s: Vec<char> = Vec::new();
            match op {
                Op::Plus => s.push('+'),
                Op::Minus => s.push('-'),
                Op::Asterisk => s.push('*'),
                Op::Solidus => s.push('/'),
                Op::Eq => {
                    s.push('=');
                    s.push('=');
                },
                Op::Neq => {
                    s.push('!');
                    s.push('=');
                },
                Op::Lt => s.push('<'),
                Op::Le => {
                    s.push('<');
                    s.push('=');
                },
                Op::Gt => s.push('>'),
                Op::Ge => {
                    s.push('>');
                    s.push('=');
                },
                Op::And => {
                    s.push('&');
                    s.push('&');
                },
                Op::Or => {
                    s.push('|');
                    s.push('|');
                },
                Op::Not => s.push('!'),
                Op::LeftParenthesis => s.push('('),
                Op::RightParenthesis => s.push(')'),
            }
            assert(s@ =~= op_text(*op));
            s
        },
    }
}

/// The first place from `i` on that does not hold a digit.
pub open spec fn digits_end(b: Seq<u8>, i: nat) -> nat
    decreases b.len() - i,
{
    if i < b.len() && is_digit(b[i as int]) {
        digits_end(b, i + 1)
    } else {
        i
    }
}

/// The first place from `i` on that does not hold a letter, digit or underscore.
pub open spec fn ident_end(b: Seq<u8>, i: nat) -> nat
    decreases b.len() - i,
{
    if i < b.len() && is_ident_char(b[i as int]) {
        ident_end(b, i + 1)
    } else {
        i
    }
}

/// The end of the number that starts at `i`: digits, then a point and digits.
pub open spec fn number_end(b: Seq<u8>, i: nat) -> nat {
    let j = digits_end(b, i);
    if j < b.len() && b[j as int] == 0x2e {
        digits_end(b, j + 1)
    } else {
        j
    }
}

/// The bytes `b[i..j]` as characters.
pub open spec fn text_of(b: Seq<u8>, i: nat, j: nat) -> Seq<char> {
    b.subrange(i as int, j as int).map_values(|x: u8| x as char)
}

/// The operator that starts at `i`, and how many bytes it takes.
pub open spec fn op_of(b: Seq<u8>, i: nat) -> Option<(Op, nat)> {
    let c = b[i as int];
    let next: u8 = if i + 1 < b.len() { b[(i + 1) as int] } else { 0 };
    if c == 0x2b {
        Some((Op::Plus, 1))
    } else if c == 0x2d {
        Some((Op::Minus, 1))
    } else if c == 0x2a {
        Some((Op::Asterisk, 1))
    } else if c == 0x2f {
        Some((Op::Solidus, 1))
    } else if c == 0x21 {
        if next == 0x3d { Some((Op::Neq, 2)) } else { Some((Op::Not, 1)) }
    } else if c == 0x3d {
        if next == 0x3d { Some((Op::Eq, 2)) } else { None }
    } else if c == 0x3c {
        if next == 0x3d { Some((Op::Le, 2)) } else { Some((Op::Lt, 1)) }
    } else if c == 0x3e {
        if next == 0x3d { Some((Op::Ge, 2)) } else { Some((Op::Gt, 1)) }
    } else if c == 0x26 {
        if next == 0x26 { Some((Op::And, 2)) } else { None }
    } else if c == 0x7c {
        if next == 0x7c { Some((Op::Or, 2)) } else { None }
    } else if c == 0x28 {
        Some((Op::LeftParenthesis, 1))
    } else if c == 0x29 {
        Some((Op::RightParenthesis, 1))
    } else {
        None
    }
}

pub open spec fn cons_token(t: TokenV, r: Result<Seq<TokenV>, ParseErrorV>) -> Result<Seq<TokenV>, ParseErrorV> {
    match r {
        Ok(ts) => Ok(seq![t] + ts),
        Err(e) => Err(e),
    }
}

pub open spec fn prepend_tokens(p: Seq<TokenV>, r: Result<Seq<TokenV>, ParseErrorV>) -> Result<Seq<TokenV>, ParseErrorV> {
    match r {
        Ok(ts) => Ok(p + ts),
        Err(e) => Err(e),
    }
}

/// The tokens of `b` from `i` on: whitespace is skipped; a number is digits,
/// then a point and digits, and a lone point is an invalid number; a name is
/// a letter or underscore, then letters, digits and underscores; an operator
/// is one of `+ - * / == != < <= > >= && || ! ( )`; any other byte is an
/// unexpected token.
pub open spec fn lex_from(b: Seq<u8>, i: nat) -> Result<Seq<TokenV>, ParseErrorV>
    decreases b.len() - i,
{
    if i >= b.len() {
        Ok(seq![])
    } else {
        let c = b[i as int];
        if is_space(c) {
            lex_from(b, i + 1)
        } else if is_digit(c) || c == 0x2e {
            let j = number_end(b, i);
            if j == i + 1 && c == 0x2e {
                Err(ParseErrorV::InvalidNumber(text_of(b, i, j)))
            } else if i < j <= b.len() {
                cons_token(TokenV::Number(text_of(b, i, j)), lex_from(b, j))
            } else {
                Err(ParseErrorV::InvalidNumber(seq![]))
            }
        } else if is_ident_start(c) {
            let j = ident_end(b, i);
            if i < j <= b.len() {
                cons_token(TokenV::Identifier(text_of(b, i, j)), lex_from(b, j))
            } else {
                Err(ParseErrorV::UnexpectedToken(seq![]))
            }
        } else {
            match op_of(b, i) {
                Some((op, w)) => if 1 <= w && i + w <= b.len() {
                    cons_token(TokenV::Op(op), lex_from(b, i + w))
                } else {
                    Err(ParseErrorV::UnexpectedToken(seq![]))
                },
                None => Err(ParseErrorV::UnexpectedToken(seq![c as char])),
            }
        }
    }
}

pub open spec fn lex_result_view(r: Result<Vec<Token>, ParseError>) -> Result<Seq<TokenV>, ParseErrorV> {
    match r {
        Ok(ts) => Ok(tokens_view(ts@)),
        Err(e) => Err(error_view(e)),
    }
}

fn chars_of(b: &[u8], start: usize, end: usize) -> (s: Vec<char>)
    requires
        start <= end <= b@.len(),
    ensures
        s@ == text_of(b@, start as nat, end as nat),
{
    let mut s: Vec<char> = Vec::new();
    let mut i: usize = start;
    while i < end
        invariant
            start <= i <= end <= b@.len(),
            s@ == text_of(b@, start as nat, i as nat),
        decreases end - i,
    {
        s.push(b[i] as char);
        i = i + 1;
        assert(s@ =~= text_of(b@, start as nat, i as nat));
    }
    s
}

proof fn lemma_prepend_cons(p: Seq<TokenV>, t: TokenV, r: Result<Seq<TokenV>, ParseErrorV>)
    ensures
        prepend_tokens(p, cons_token(t, r)) == prepend_tokens(p.push(t), r),
{
    if let Ok(ts) = r {
        assert(p + (seq![t] + ts) =~= p.push(t) + ts);
    }
}

/// Splits the input into tokens: see [`lex_from`].
pub fn tokenize(input: &str) -> (r: Result<Vec<Token>, ParseError>)
    ensures
        lex_result_view(r) == lex_from(input.spec_bytes(), 0),
{
    let b = input.as_bytes();
    let n = b.len();
    let mut tokens: Vec<Token> = Vec::new();
    let mut i: usize = 0;
    assert(tokens_view(tokens@) =~= Seq::<TokenV>::empty());
    assert(prepend_tokens(Seq::<TokenV>::empty(), lex_from(b@, 0)) =~= lex_from(b@, 0)) by {
        if let Ok(ts) = lex_from(b@, 0) {
            assert(Seq::<TokenV>::empty() + ts =~= ts);
        }
    }
    while i < n
        invariant
            i <= n,
            n == b@.len(),
            b@ == input.spec_bytes(),
            lex_from(b@, 0) == prepend_tokens(tokens_view(tokens@), lex_from(b@, i as nat)),
        decreases n - i,
    {
        let c = b[i];
        let ghost before = tokens_view(tokens@);
        if c == 0x20 || c == 0x09 || c == 0x0a || c == 0x0c || c == 0x0d {
            i = i + 1;
        } else if (0x30 <= c && c <= 0x39) || c == 0x2e {
            let start = i;
            while i < n && 0x30 <= b[i] && b[i] <= 0x39
                invariant
                    start <= i <= n,
                    n == b@.len(),
                    digits_end(b@, start as nat) == digits_end(b@, i as nat),
                decreases n - i,
            {
                i = i + 1;
            }
            assert(digits_end(b@, i as nat) == i);
            if i < n && b[i] == 0x2e {
                i = i + 1;
                let mid = i;
                while i < n && 0x30 <= b[i] && b[i] <= 0x39
                    invariant
                        mid <= i <= n,
                        n == b@.len(),
                        digits_end(b@, mid as nat) == digits_end(b@, i as nat),
                    decreases n - i,
                {
                    i = i + 1;
                }
                assert(digits_end(b@, i as nat) == i);
            }
            assert(number_end(b@, start as nat) == i);
            let text = chars_of(b, start, i);
            if i - start == 1 && c == 0x2e {
                return Err(ParseError::InvalidNumber(text));
            }
            assert(i > start) by {
                if i == start {
                    assert(c == 0x2e || is_digit(c));
                }
            }
            tokens.push(Token::Number(text));
            proof {
                assert(tokens_view(tokens@) =~= before.push(TokenV::Number(text@)));
                lemma_prepend_cons(before, TokenV::Number(text@), lex_from(b@, i as nat));
            }
        } else if (0x41 <= c && c <= 0x5a) || (0x61 <= c && c <= 0x7a) || c == 0x5f {
            let start = i;
            while i < n && ((0x41 <= b[i] && b[i] <= 0x5a) || (0x61 <= b[i] && b[i] <= 0x7a) || b[i] == 0x5f || (0x30
                <= b[i] && b[i] <= 0x39))
                invariant
                    start <= i <= n,
                    n == b@.len(),
                    ident_end(b@, start as nat) == ident_end(b@, i as nat),
                    i == start ==> is_ident_start(b@[start as int]),
                decreases n - i,
            {
                i = i + 1;
            }
            assert(ident_end(b@, i as nat) == i);
            let text = chars_of(b, start, i);
            tokens.push(Token::Identifier(text));
            proof {
                assert(tokens_view(tokens@) =~= before.push(TokenV::Identifier(text@)));
                lemma_prepend_cons(before, TokenV::Identifier(text@), lex_from(b@, i as nat));
            }
        } else {
            let next: u8 = if i + 1 < n { b[i + 1] } else { 0 };
            let (op, width): (Option<Op>, usize) = if c == 0x2b {
                (Some(Op::Plus), 1)
            } else if c == 0x2d {
                (Some(Op::Minus), 1)
            } else if c == 0x2a {
                (Some(Op::Asterisk), 1)
            } else if c == 0x2f {
                (Some(Op::Solidus), 1)
            } else if c == 0x21 {
                if next == 0x3d { (Some(Op::Neq), 2) } else { (Some(Op::Not), 1) }
            } else if c == 0x3d {
                if next == 0x3d { (Some(Op::Eq), 2) } else { (None, 1) }
            } else if c == 0x3c {
                if next == 0x3d { (Some(Op::Le), 2) } else { (Some(Op::Lt), 1) }
            } else if c == 0x3e {
                if next == 0x3d { (Some(Op::Ge), 2) } else { (Some(Op::Gt), 1) }
            } else if c == 0x26 {
                if next == 0x26 { (Some(Op::And), 2) } else { (None, 1) }
            } else if c == 0x7c {
                if next == 0x7c { (Some(Op::Or), 2) } else { (None, 1) }
            } else if c == 0x28 {
                (Some(Op::LeftParenthesis), 1)
            } else if c == 0x29 {
                (Some(Op::RightParenthesis), 1)
            } else {
                (None, 1)
            };
            match op {
                Some(op) => {
                    assert(op_of(b@, i as nat) == Some((op, width as nat)));
                    tokens.push(Token::Op(op));
                    i = i + width;
                    proof {
                        assert(tokens_view(tokens@) =~= before.push(TokenV::Op(op)));
                        lemma_prepend_cons(before, TokenV::Op(op), lex_from(b@, i as nat));
                    }
                },
                None => {
                    assert(op_of(b@, i as nat) is None);
                    let mut text: Vec<char> = Vec::new();
                    text.push(c as char);
                    assert(text@ =~= seq![c as char]);
                    return Err(ParseError::UnexpectedToken(text));
                },
            }
        }
    }
    proof {
        if let Ok(ts) = lex_from(b@, i as nat) {
            assert(tokens_view(tokens@) + ts =~= tokens_view(tokens@));
        }
    }
    Ok(tokens)
}

/// An expression, as the language sees it.
pub enum ExprV {
    Name(Seq<char>),
    Number(Seq<char>),
    Boolean(bool),
    Unary(UnaryOperator, Box<ExprV>),
    Binary(Box<ExprV>, BinaryOperator, Box<ExprV>),
}

pub open spec fn expr_view(e: Expression) -> ExprV
    decreases e,
{
    match e {
        Expression::Name(s) => ExprV::Name(s@),
        Expression::Number(s) => ExprV::Number(s@),
        Expression::Boolean(b) => ExprV::Boolean(b),
        Expression::Unary { operator, expression } => ExprV::Unary(operator, Box::new(expr_view(*expression))),
        Expression::Binary { left, operator, right } => ExprV::Binary(
            Box::new(expr_view(*left)),
            operator,
            Box::new(expr_view(*right)),
        ),
    }
}

/// A parse from a position: the expression and the position after it.
pub type ParsedV = Result<(ExprV, nat), ParseErrorV>;

pub open spec fn parsed_view(r: Result<(Expression, usize), ParseError>) -> ParsedV {
    match r {
        Ok((e, q)) => Ok((expr_view(e), q as nat)),
        Err(e) => Err(error_view(e)),
    }
}

pub open spec fn is_op(ts: Seq<TokenV>, p: nat, op: Op) -> bool {
    p < ts.len() && ts[p as int] == TokenV::Op(op)
}

/// The operator of `rest` found at `p`, if any: `||` for [`sp_or`], `&&`
/// for [`sp_and`], `+ -` for [`sp_term`], `* /` for [`sp_factor`].
pub open spec fn infix_at(ts: Seq<TokenV>, p: nat, level: nat) -> Option<BinaryOperator> {
    if level == 8 {
        if is_op(ts, p, Op::Or) { Some(BinaryOperator::Or) } else { None }
    } else if level == 7 {
        if is_op(ts, p, Op::And) { Some(BinaryOperator::And) } else { None }
    } else if level == 4 {
        if is_op(ts, p, Op::Plus) {
            Some(BinaryOperator::Add)
        } else if is_op(ts, p, Op::Minus) {
            Some(BinaryOperator::Sub)
        } else {
            None
        }
    } else {
        if is_op(ts, p, Op::Asterisk) {
            Some(BinaryOperator::Mul)
        } else if is_op(ts, p, Op::Solidus) {
            Some(BinaryOperator::Div)
        } else {
            None
        }
    }
}

/// The comparison of `sp_comparison` found at `p`, if any: `== !=` at level
/// 6, `< <= > >=` at level 5.
pub open spec fn comparison_at(ts: Seq<TokenV>, p: nat, level: nat) -> Option<BinaryOperator> {
    if level == 6 {
        if is_op(ts, p, Op::Eq) {
            Some(BinaryOperator::Eq)
        } else if is_op(ts, p, Op::Neq) {
            Some(BinaryOperator::Neq)
        } else {
            None
        }
    } else {
        if is_op(ts, p, Op::Lt) {
            Some(BinaryOperator::Lt)
        } else if is_op(ts, p, Op::Le) {
            Some(BinaryOperator::Le)
        } else if is_op(ts, p, Op::Gt) {
            Some(BinaryOperator::Gt)
        } else if is_op(ts, p, Op::Ge) {
            Some(BinaryOperator::Ge)
        } else {
            None
        }
    }
}

/// The grammar, one level per rule:
/// `expr(9) ::= or(8)`, `or ::= and ('||' and)*`, `and(7) ::= eq ('&&' eq)*`,
/// `eq(6) ::= rel (('==' | '!=') rel)?`, `rel(5) ::= sum (('<' | '<=' | '>' | '>=') sum)?`,
/// `sum(4) ::= prod (('+' | '-') prod)*`, `prod(3) ::= unary (('*' | '/') unary)*`,
/// `unary(2) ::= ('-' | '!') unary | primary`,
/// `primary(1) ::= number | identifier | '(' expr ')'`.
/// A comparison followed by another of its kind is an error.
pub open spec fn sp_parse(ts: Seq<TokenV>, pos: nat, level: nat) -> ParsedV
    decreases ts.len() - pos, level, 0nat,
{
    if level >= 9 {
        sp_parse(ts, pos, 8)
    } else if level == 8 || level == 7 || level == 4 || level == 3 {
        match sp_parse(ts, pos, (level - 1) as nat) {
            Err(e) => Err(e),
            Ok((e, q)) => if pos < q <= ts.len() {
                sp_rest(ts, e, q, level)
            } else {
                Err(ParseErrorV::UnexpectedEoi)
            },
        }
    } else if level == 6 || level == 5 {
        match sp_parse(ts, pos, (level - 1) as nat) {
            Err(e) => Err(e),
            Ok((e, p)) => if pos < p <= ts.len() {
                match comparison_at(ts, p, level) {
                    None => Ok((e, p)),
                    Some(op) => match sp_parse(ts, p + 1, (level - 1) as nat) {
                        Err(x) => Err(x),
                        Ok((r, q)) => if comparison_at(ts, q, level) is Some {
                            Err(ParseErrorV::ChainedNonAssociative(
                                if level == 6 { Comparison::Equality } else { Comparison::Relational },
                            ))
                        } else {
                            Ok((ExprV::Binary(Box::new(e), op, Box::new(r)), q))
                        },
                    },
                }
            } else {
                Err(ParseErrorV::UnexpectedEoi)
            },
        }
    } else if level == 2 {
        if is_op(ts, pos, Op::Minus) || is_op(ts, pos, Op::Not) {
            let op = if is_op(ts, pos, Op::Minus) { UnaryOperator::Negate } else { UnaryOperator::Not };
            match sp_parse(ts, pos + 1, 2) {
                Err(x) => Err(x),
                Ok((e, q)) => Ok((ExprV::Unary(op, Box::new(e)), q)),
            }
        } else {
            sp_parse(ts, pos, 1)
        }
    } else {
        if pos >= ts.len() {
            Err(ParseErrorV::UnexpectedEoi)
        } else {
            match ts[pos as int] {
                TokenV::Number(s) => Ok((ExprV::Number(s), pos + 1)),
                TokenV::Identifier(s) => Ok((ExprV::Name(s), pos + 1)),
                TokenV::Op(Op::LeftParenthesis) => match sp_parse(ts, pos + 1, 9) {
                    Err(x) => Err(x),
                    Ok((e, q)) => if is_op(ts, q, Op::RightParenthesis) {
                        Ok((e, q + 1))
                    } else {
                        Err(ParseErrorV::UnmatchedParenthesis)
                    },
                },
                t => Err(ParseErrorV::UnexpectedToken(token_text_v(t))),
            }
        }
    }
}

/// The repetition of a left-associative rule after its first operand `e`,
/// from position `p`.
pub open spec fn sp_rest(ts: Seq<TokenV>, e: ExprV, p: nat, level: nat) -> ParsedV
    decreases ts.len() - p, level, 1nat,
{
    match infix_at(ts, p, level) {
        None => Ok((e, p)),
        Some(op) => if p < ts.len() {
            match sp_parse(ts, p + 1, (level - 1) as nat) {
                Err(x) => Err(x),
                Ok((r, q)) => if p + 1 < q <= ts.len() {
                    sp_rest(ts, ExprV::Binary(Box::new(e), op, Box::new(r)), q, level)
                } else {
                    Err(ParseErrorV::UnexpectedEoi)
                },
            }
        } else {
            Err(ParseErrorV::UnexpectedEoi)
        },
    }
}

/// A whole filter: its tokens form one expression with nothing after it.
pub open spec fn spec_parse(b: Seq<u8>) -> Result<ExprV, ParseErrorV> {
    match lex_from(b, 0) {
        Err(e) => Err(e),
        Ok(ts) => if ts.len() == 0 {
            Err(ParseErrorV::EmptyInput)
        } else {
            match sp_parse(ts, 0, 9) {
                Err(e) => Err(e),
                Ok((e, q)) => if q < ts.len() {
                    Err(ParseErrorV::UnexpectedToken(token_text_v(ts[q as int])))
                } else {
                    Ok(e)
                },
            }
        },
    }
}

fn op_at(tokens: &Vec<Token>, pos: usize, op: Op) -> (r: bool)
    ensures
        r == is_op(tokens_view(tokens@), pos as nat, op),
        r ==> pos < tokens.len(),
{
    if pos < tokens.len() {
        match &tokens[pos] {
            Token::Op(o) => *o == op,
            _ => false,
        }
    } else {
        false
    }
}

fn binary(left: Expression, operator: BinaryOperator, right: Expression) -> (e: Expression)
    ensures
        expr_view(e) == ExprV::Binary(Box::new(expr_view(left)), operator, Box::new(expr_view(right))),
{
    Expression::Binary { left: Box::new(left), operator, right: Box::new(right) }
}

/// `expr`, from token `pos`: see [`sp_parse`].
pub fn parse_expression(tokens: &Vec<Token>, pos: usize) -> (r: Result<(Expression, usize), ParseError>)
    requires
        pos <= tokens@.len(),
    ensures
        parsed_view(r) == sp_parse(tokens_view(tokens@), pos as nat, 9),
        r matches Ok((_, q)) ==> pos < q <= tokens.len(),
    decreases tokens@.len() - pos, 9nat,
{
    parse_level(tokens, pos, 8)
}

fn infix_exec(tokens: &Vec<Token>, p: usize, level: usize) -> (r: Option<BinaryOperator>)
    ensures
        r == infix_at(tokens_view(tokens@), p as nat, level as nat),
        r is Some ==> p < tokens.len(),
{
    if level == 8 {
        if op_at(tokens, p, Op::Or) { Some(BinaryOperator::Or) } else { None }
    } else if level == 7 {
        if op_at(tokens, p, Op::And) { Some(BinaryOperator::And) } else { None }
    } else if level == 4 {
        if op_at(tokens, p, Op::Plus) {
            Some(BinaryOperator::Add)
        } else if op_at(tokens, p, Op::Minus) {
            Some(BinaryOperator::Sub)
        } else {
            None
        }
    } else {
        if op_at(tokens, p, Op::Asterisk) {
            Some(BinaryOperator::Mul)
        } else if op_at(tokens, p, Op::Solidus) {
            Some(BinaryOperator::Div)
        } else {
            None
        }
    }
}

fn comparison_exec(tokens: &Vec<Token>, p: usize, level: usize) -> (r: Option<BinaryOperator>)
    ensures
        r == comparison_at(tokens_view(tokens@), p as nat, level as nat),
{
    if level == 6 {
        if op_at(tokens, p, Op::Eq) {
            Some(BinaryOperator::Eq)
        } else if op_at(tokens, p, Op::Neq) {
            Some(BinaryOperator::Neq)
        } else {
            None
        }
    } else {
        if op_at(tokens, p, Op::Lt) {
            Some(BinaryOperator::Lt)
        } else if op_at(tokens, p, Op::Le) {
            Some(BinaryOperator::Le)
        } else if op_at(tokens, p, Op::Gt) {
            Some(BinaryOperator::Gt)
        } else if op_at(tokens, p, Op::Ge) {
            Some(BinaryOperator::Ge)
        } else {
            None
        }
    }
}

/// Rule `level` of the grammar (1 to 8), from token `pos`: see [`sp_parse`].
fn parse_level(tokens: &Vec<Token>, pos: usize, level: usize) -> (r: Result<(Expression, usize), ParseError>)
    requires
        pos <= tokens@.len(),
        1 <= level <= 8,
    ensures
        parsed_view(r) == sp_parse(tokens_view(tokens@), pos as nat, level as nat),
        r matches Ok((_, q)) ==> pos < q <= tokens.len(),
    decreases tokens@.len() - pos, level, 0nat,
{
    let ghost ts = tokens_view(tokens@);
    proof {
        assert(ts.len() == tokens@.len());
    }
    if level == 8 || level == 7 || level == 4 || level == 3 {
        let (mut e, mut p) = match parse_level(tokens, pos, level - 1) {
            Ok(x) => x,
            Err(err) => return Err(err),
        };
        while infix_exec(tokens, p, level).is_some()
            invariant
                pos < p <= tokens.len(),
                ts == tokens_view(tokens@),
                ts.len() == tokens@.len(),
                level == 8 || level == 7 || level == 4 || level == 3,
                sp_parse(ts, pos as nat, level as nat) == sp_rest(ts, expr_view(e), p as nat, level as nat),
            decreases tokens@.len() - p,
        {
            let op = infix_exec(tokens, p, level).unwrap();
            let ghost ev = expr_view(e);
            let (right, q) = match parse_level(tokens, p + 1, level - 1) {
                Ok(x) => x,
                Err(err) => return Err(err),
            };
            e = binary(e, op, right);
            p = q;
        }
        Ok((e, p))
    } else if level == 6 || level == 5 {
        let (e, p) = match parse_level(tokens, pos, level - 1) {
            Ok(x) => x,
            Err(err) => return Err(err),
        };
        let op = match comparison_exec(tokens, p, level) {
            None => return Ok((e, p)),
            Some(op) => op,
        };
        let (right, q) = match parse_level(tokens, p + 1, level - 1) {
            Ok(x) => x,
            Err(err) => return Err(err),
        };
        if comparison_exec(tokens, q, level).is_some() {
            return Err(ParseError::ChainedNonAssociative(if level == 6 { Comparison::Equality } else { Comparison::Relational }));
        }
        Ok((binary(e, op, right), q))
    } else if level == 2 {
        let operator = if op_at(tokens, pos, Op::Minus) {
            UnaryOperator::Negate
        } else if op_at(tokens, pos, Op::Not) {
            UnaryOperator::Not
        } else {
            return parse_level(tokens, pos, 1);
        };
        match parse_level(tokens, pos + 1, 2) {
            Ok((e, q)) => Ok((Expression::Unary { operator, expression: Box::new(e) }, q)),
            Err(err) => Err(err),
        }
    } else {
        if pos >= tokens.len() {
            return Err(ParseError::UnexpectedEoi);
        }
        assert(ts[pos as int] == token_view(tokens@[pos as int]));
        match &tokens[pos] {
            Token::Number(s) => Ok((Expression::Number(copy_chars(s)), pos + 1)),
            Token::Identifier(s) => Ok((Expression::Name(copy_chars(s)), pos + 1)),
            Token::Op(Op::LeftParenthesis) => {
                let (e, q) = match parse_expression(tokens, pos + 1) {
                    Ok(x) => x,
                    Err(err) => return Err(err),
                };
                if op_at(tokens, q, Op::RightParenthesis) {
                    Ok((e, q + 1))
                } else {
                    Err(ParseError::UnmatchedParenthesis)
                }
            },
            t => Err(ParseError::UnexpectedToken(token_text(t))),
        }
    }
}

/// The names that an expression reads, left to right, repeats included.
pub open spec fn variables_of(e: ExprV) -> Seq<Seq<char>>
    decreases e,
{
    match e {
        ExprV::Name(s) => seq![s],
        ExprV::Unary(_, x) => variables_of(*x),
        ExprV::Binary(l, _, r) => variables_of(*l) + variables_of(*r),
        _ => seq![],
    }
}

pub open spec fn names_view(v: Seq<Vec<char>>) -> Seq<Seq<char>> {
    v.map_values(|s: Vec<char>| s@)
}

impl Expression {
    fn collect_into(&self, out: &mut Vec<Vec<char>>)
        ensures
            names_view(final(out)@) == names_view(old(out)@) + variables_of(expr_view(*self)),
        decreases self,
    {
        let ghost start = names_view(out@);
        match self {
            Expression::Name(s) => {
                out.push(copy_chars(s));
                assert(names_view(out@) =~= start + seq![s@]);
            },
            Expression::Unary { expression, .. } => {
                expression.collect_into(out);
            },
            Expression::Binary { left, right, .. } => {
                left.collect_into(out);
                right.collect_into(out);
                assert(names_view(out@) =~= start + (variables_of(expr_view(**left)) + variables_of(expr_view(**right))));
            },
            _ => {
                assert(names_view(out@) =~= start + variables_of(expr_view(*self)));
            },
        }
    }

    /// The names that the expression reads, left to right, repeats included.
    pub fn collect_variables(&self) -> (names: Vec<Vec<char>>)
        ensures
            names_view(names@) == variables_of(expr_view(*self)),
    {
        let mut names: Vec<Vec<char>> = Vec::new();
        self.collect_into(&mut names);
        assert(names_view(Seq::<Vec<char>>::empty()) =~= Seq::<Seq<char>>::empty());
        assert(Seq::<Seq<char>>::empty() + variables_of(expr_view(*self)) =~= variables_of(expr_view(*self)));
        names
    }
}

pub open spec fn parse_result_view(r: Result<Expression, ParseError>) -> Result<ExprV, ParseErrorV> {
    match r {
        Ok(e) => Ok(expr_view(e)),
        Err(e) => Err(error_view(e)),
    }
}

impl Expression {
    /// Parses a whole filter: see [`spec_parse`].
    pub fn parse(input: &str) -> (r: Result<Expression, ParseError>)
        ensures
            parse_result_view(r) == spec_parse(input.spec_bytes()),
    {
        let tokens = match tokenize(input) {
            Ok(t) => t,
            Err(e) => return Err(e),
        };
        if tokens.len() == 0 {
            return Err(ParseError::EmptyInput);
        }
        let (e, q) = match parse_expression(&tokens, 0) {
            Ok(x) => x,
            Err(err) => return Err(err),
        };
        if q != tokens.len() {
            let text = token_text(&tokens[q]);
            assert(tokens_view(tokens@)[q as int] == token_view(tokens@[q as int]));
            return Err(ParseError::UnexpectedToken(text));
        }
        Ok(e)
    }
}

} // verus!
