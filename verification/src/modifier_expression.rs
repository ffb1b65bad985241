//! Boolean algebra over modifier flags.
//!
//! A step may carry an expression such as `(nightly | beta) & !windows`; it is
//! evaluated against the flags that a package declares. An identifier is true
//! exactly when the package declares it. `!` binds tightest, then `&`, then `|`:
//!
//! ```text
//! expr     := or_expr
//! or_expr  := and_expr ( '|' and_expr )*
//! and_expr := not_expr ( '&' not_expr )*
//! not_expr := '!' not_expr | primary
//! primary  := IDENT | '(' expr ')'
//! ```
//!
//! Identifiers are runs of `[A-Za-z0-9_-]`; blanks, tabs and line breaks
//! separate tokens and mean nothing else. Anything malformed is an error,
//! never a silent `false`.

use vstd::prelude::*;
use crate::text::{chars_of, decimal, decimal_text};

verus! {

/// One token of a modifier expression.
#[derive(Debug, Clone, PartialEq, Eq)]
pub enum Token {
    Identifier(String),
    And,
    Or,
    Not,
    LParen,
    RParen,
}

/// What a [`Token`] stands for: the same token over a character sequence.
pub enum Symbol {
    Identifier(Seq<char>),
    And,
    Or,
    Not,
    LParen,
    RParen,
}

impl View for Token {
    type V = Symbol;

    open spec fn view(&self) -> Symbol {
        match self {
            Token::Identifier(name) => Symbol::Identifier(name@),
            Token::And => Symbol::And,
            Token::Or => Symbol::Or,
            Token::Not => Symbol::Not,
            Token::LParen => Symbol::LParen,
            Token::RParen => Symbol::RParen,
        }
    }
}

/// Why an expression was rejected. Character positions count characters of
/// the text, token positions count tokens, both from zero.
#[derive(Debug, Clone, Copy, PartialEq, Eq)]
pub enum ParseError {
    /// A character that can start no token, at this character position.
    UnexpectedCharacter { character: char, position: usize },
    /// The tokens ended where an identifier or `(` had to follow.
    UnexpectedEnd,
    /// The token at this position is neither an identifier nor `(`.
    ExpectedOperand { position: usize },
    /// A group was opened and the token at this position is not its `)`.
    MissingClosingParenthesis { position: usize },
    /// A whole expression was read and a token is left at this position.
    TrailingToken { position: usize },
}

/// [`ParseError`] with unbounded positions.
pub enum Fault {
    UnexpectedCharacter { character: char, position: nat },
    UnexpectedEnd,
    ExpectedOperand { position: nat },
    MissingClosingParenthesis { position: nat },
    TrailingToken { position: nat },
}

impl View for ParseError {
    type V = Fault;

    open spec fn view(&self) -> Fault {
        match self {
            ParseError::UnexpectedCharacter { character, position } => Fault::UnexpectedCharacter {
                character: *character,
                position: *position as nat,
            },
            ParseError::UnexpectedEnd => Fault::UnexpectedEnd,
            ParseError::ExpectedOperand { position } => Fault::ExpectedOperand {
                position: *position as nat,
            },
            ParseError::MissingClosingParenthesis { position } => Fault::MissingClosingParenthesis {
                position: *position as nat,
            },
            ParseError::TrailingToken { position } => Fault::TrailingToken {
                position: *position as nat,
            },
        }
    }
}

impl ParseError {
    /// The error in words.
    pub open spec fn message_text(&self) -> Seq<char> {
        match self {
            ParseError::UnexpectedCharacter { position, .. } => "Unexpected character at position "@
                + decimal_text(*position as nat),
            ParseError::UnexpectedEnd => "Unexpected end of expression"@,
            ParseError::ExpectedOperand { position } => "Expected identifier or '(' at token "@
                + decimal_text(*position as nat),
            ParseError::MissingClosingParenthesis { position } => "Missing closing parenthesis at token "@
                + decimal_text(*position as nat),
            ParseError::TrailingToken { position } => "Unexpected token at position "@
                + decimal_text(*position as nat),
        }
    }

    /// The error in words.
    pub fn message(&self) -> (r: String)
        ensures
            r@ == self.message_text(),
    {
        match self {
            ParseError::UnexpectedCharacter { position, .. } => "Unexpected character at position ".to_owned().concat(
                decimal(*position).as_str(),
            ),
            ParseError::UnexpectedEnd => "Unexpected end of expression".to_owned(),
            ParseError::ExpectedOperand { position } => "Expected identifier or '(' at token ".to_owned().concat(
                decimal(*position).as_str(),
            ),
            ParseError::MissingClosingParenthesis { position } => "Missing closing parenthesis at token ".to_owned().concat(
                decimal(*position).as_str(),
            ),
            ParseError::TrailingToken { position } => "Unexpected token at position ".to_owned().concat(
                decimal(*position).as_str(),
            ),
        }
    }
}

/// A parsed expression.
pub enum Expr {
    Flag(Seq<char>),
    Not(Box<Expr>),
    And(Box<Expr>, Box<Expr>),
    Or(Box<Expr>, Box<Expr>),
}

/// The truth of `e` when exactly the flags in `flags` are declared.
pub open spec fn holds(e: Expr, flags: Set<Seq<char>>) -> bool
    decreases e,
{
    match e {
        Expr::Flag(name) => flags.contains(name),
        Expr::Not(inner) => !holds(*inner, flags),
        Expr::And(left, right) => holds(*left, flags) && holds(*right, flags),
        Expr::Or(left, right) => holds(*left, flags) || holds(*right, flags),
    }
}

/// The flags that a list of modifiers declares.
pub open spec fn flag_set(modifiers: Seq<String>) -> Set<Seq<char>> {
    Set::new(|name: Seq<char>| exists|i: int| 0 <= i < modifiers.len() && modifiers[i]@ == name)
}

/// Whether `c` only separates tokens: a blank, a tab or a line break.
pub open spec fn is_space(c: char) -> bool {
    c == ' ' || c == '\t' || c == '\n' || c == '\r'
}

/// Whether `c` can stand in an identifier: an ASCII letter or digit, `_` or
/// `-`.
pub open spec fn is_identifier_char(c: char) -> bool {
    ('a' <= c && c <= 'z') || ('A' <= c && c <= 'Z') || ('0' <= c && c <= '9') || c == '_' || c
        == '-'
}

/// The operator or parenthesis that `c` alone denotes.
pub open spec fn punctuation(c: char) -> Option<Symbol> {
    if c == '&' {
        Some(Symbol::And)
    } else if c == '|' {
        Some(Symbol::Or)
    } else if c == '!' {
        Some(Symbol::Not)
    } else if c == '(' {
        Some(Symbol::LParen)
    } else if c == ')' {
        Some(Symbol::RParen)
    } else {
        None
    }
}

/// Where the run of identifier characters that starts at `i` ends.
pub open spec fn identifier_end(s: Seq<char>, i: int) -> int
    decreases s.len() - i,
{
    if 0 <= i < s.len() && is_identifier_char(s[i]) {
        identifier_end(s, i + 1)
    } else {
        i
    }
}

/// An identifier ends within the text, behind its first character, and holds
/// identifier characters only, as many as there are in a row.
pub proof fn lemma_identifier_end(s: Seq<char>, i: int)
    requires
        0 <= i <= s.len(),
    ensures
        i <= identifier_end(s, i) <= s.len(),
        forall|k: int| i <= k < identifier_end(s, i) ==> is_identifier_char(#[trigger] s[k]),
        identifier_end(s, i) < s.len() ==> !is_identifier_char(s[identifier_end(s, i)]),
        i < s.len() && is_identifier_char(s[i]) ==> i < identifier_end(s, i),
    decreases s.len() - i,
{
    if i < s.len() && is_identifier_char(s[i]) {
        lemma_identifier_end(s, i + 1);
    }
}

/// `first` followed by what lexing the rest gives.
pub open spec fn prepend(first: Symbol, rest: Result<Seq<Symbol>, Fault>) -> Result<
    Seq<Symbol>,
    Fault,
> {
    match rest {
        Ok(symbols) => Ok(seq![first] + symbols),
        Err(fault) => Err(fault),
    }
}

/// The tokens of `s` from character `i` on.
pub open spec fn lex_from(s: Seq<char>, i: int) -> Result<Seq<Symbol>, Fault>
    decreases s.len() - i,
{
    if i < 0 || i >= s.len() {
        Ok(Seq::empty())
    } else if is_space(s[i]) {
        lex_from(s, i + 1)
    } else if is_identifier_char(s[i]) {
        proof {
            lemma_identifier_end(s, i);
        }
        let end = identifier_end(s, i);
        prepend(Symbol::Identifier(s.subrange(i, end)), lex_from(s, end))
    } else {
        match punctuation(s[i]) {
            Some(symbol) => prepend(symbol, lex_from(s, i + 1)),
            None => Err(Fault::UnexpectedCharacter { character: s[i], position: i as nat }),
        }
    }
}

/// The tokens of a whole text, or the first character that fits no token.
pub open spec fn lex(s: Seq<char>) -> Result<Seq<Symbol>, Fault> {
    lex_from(s, 0)
}

/// `primary := IDENT | '(' expr ')'` at token `pos`: the expression and the
/// number of tokens it spans.
pub open spec fn parse_primary_at(t: Seq<Symbol>, pos: nat) -> Result<(Expr, nat), Fault>
    decreases t.len() - pos, 0nat,
{
    if pos >= t.len() {
        Err(Fault::UnexpectedEnd)
    } else {
        match t[pos as int] {
            Symbol::Identifier(name) => Ok((Expr::Flag(name), 1)),
            Symbol::LParen => match parse_or_at(t, pos + 1) {
                Ok((inner, span)) => {
                    let close = pos + 1 + span;
                    if close < t.len() && t[close as int] is RParen {
                        Ok((inner, span + 2))
                    } else {
                        Err(Fault::MissingClosingParenthesis { position: close })
                    }
                },
                Err(fault) => Err(fault),
            },
            _ => Err(Fault::ExpectedOperand { position: pos }),
        }
    }
}

/// `not_expr := '!' not_expr | primary` at token `pos`.
pub open spec fn parse_not_at(t: Seq<Symbol>, pos: nat) -> Result<(Expr, nat), Fault>
    decreases t.len() - pos, 1nat,
{
    if pos < t.len() && t[pos as int] is Not {
        match parse_not_at(t, pos + 1) {
            Ok((inner, span)) => Ok((Expr::Not(Box::new(inner)), span + 1)),
            Err(fault) => Err(fault),
        }
    } else {
        parse_primary_at(t, pos)
    }
}

/// `and_expr := not_expr ( '&' not_expr )*` at token `pos`.
pub open spec fn parse_and_at(t: Seq<Symbol>, pos: nat) -> Result<(Expr, nat), Fault>
    decreases t.len() - pos, 2nat,
{
    match parse_not_at(t, pos) {
        Ok((left, span)) => {
            let next = pos + span;
            if next < t.len() && t[next as int] is And {
                match parse_and_at(t, next + 1) {
                    Ok((right, more)) => Ok(
                        (Expr::And(Box::new(left), Box::new(right)), span + 1 + more),
                    ),
                    Err(fault) => Err(fault),
                }
            } else {
                Ok((left, span))
            }
        },
        Err(fault) => Err(fault),
    }
}

/// `or_expr := and_expr ( '|' and_expr )*` at token `pos`.
pub open spec fn parse_or_at(t: Seq<Symbol>, pos: nat) -> Result<(Expr, nat), Fault>
    decreases t.len() - pos, 3nat,
{
    match parse_and_at(t, pos) {
        Ok((left, span)) => {
            let next = pos + span;
            if next < t.len() && t[next as int] is Or {
                match parse_or_at(t, next + 1) {
                    Ok((right, more)) => Ok(
                        (Expr::Or(Box::new(left), Box::new(right)), span + 1 + more),
                    ),
                    Err(fault) => Err(fault),
                }
            } else {
                Ok((left, span))
            }
        },
        Err(fault) => Err(fault),
    }
}

/// The expression that the tokens `t` spell, all of them.
pub open spec fn parse(t: Seq<Symbol>) -> Result<Expr, Fault> {
    match parse_or_at(t, 0) {
        Ok((e, span)) => if span < t.len() {
            Err(Fault::TrailingToken { position: span })
        } else {
            Ok(e)
        },
        Err(fault) => Err(fault),
    }
}

/// What [`evaluate`] returns for a text and a set of declared flags.
pub open spec fn evaluation(text: Seq<char>, flags: Set<Seq<char>>) -> Result<bool, Fault> {
    match lex(text) {
        Ok(t) => match parse(t) {
            Ok(e) => Ok(holds(e, flags)),
            Err(fault) => Err(fault),
        },
        Err(fault) => Err(fault),
    }
}

/// The symbols of a token list.
pub open spec fn symbols(tokens: Seq<Token>) -> Seq<Symbol> {
    tokens.map_values(|t: Token| t@)
}


/// `e` in parentheses.
pub open spec fn grouped(e: Expr) -> Seq<Symbol>
    decreases e, 1nat,
{
    seq![Symbol::LParen] + spelled(e) + seq![Symbol::RParen]
}

/// The tokens that spell `e`, with every operand of an operator in
/// parentheses.
pub open spec fn spelled(e: Expr) -> Seq<Symbol>
    decreases e, 0nat,
{
    match e {
        Expr::Flag(name) => seq![Symbol::Identifier(name)],
        Expr::Not(inner) => seq![Symbol::Not] + grouped(*inner),
        Expr::And(left, right) => grouped(*left) + seq![Symbol::And] + grouped(*right),
        Expr::Or(left, right) => grouped(*left) + seq![Symbol::Or] + grouped(*right),
    }
}

/// The tokens `t` hold `part` from position `pos` on.
pub open spec fn holds_at(t: Seq<Symbol>, pos: nat, part: Seq<Symbol>) -> bool {
    pos + part.len() <= t.len() && forall|k: int|
        0 <= k < part.len() ==> t[pos + k] == #[trigger] part[k]
}

/// Nothing that could continue an expression stands at `pos`: the tokens
/// end there, or a group is closed.
pub open spec fn ends_at(t: Seq<Symbol>, pos: nat) -> bool {
    pos == t.len() || (pos < t.len() && t[pos as int] is RParen)
}

proof fn lemma_holds_at_parts(t: Seq<Symbol>, pos: nat, first: Seq<Symbol>, second: Seq<Symbol>)
    requires
        holds_at(t, pos, first + second),
    ensures
        holds_at(t, pos, first),
        holds_at(t, pos + first.len(), second),
{
    let both = first + second;
    assert forall|k: int| 0 <= k < first.len() implies t[pos + k] == #[trigger] first[k] by {
        assert(both[k] == first[k]);
    }
    assert forall|k: int| 0 <= k < second.len() implies t[pos + first.len() + k]
        == #[trigger] second[k] by {
        assert(both[first.len() + k] == second[k]);
    }
}

/// A group is read as the expression in it.
proof fn lemma_reads_group(e: Expr, t: Seq<Symbol>, pos: nat)
    requires
        holds_at(t, pos, grouped(e)),
    ensures
        parse_primary_at(t, pos) == Ok::<(Expr, nat), Fault>((e, spelled(e).len() + 2)),
        parse_not_at(t, pos) == Ok::<(Expr, nat), Fault>((e, spelled(e).len() + 2)),
        grouped(e).len() == spelled(e).len() + 2,
    decreases e, 1nat,
{
    let inner = spelled(e);
    let open = seq![Symbol::LParen];
    let close = seq![Symbol::RParen];
    assert(grouped(e) == (open + inner) + close);
    lemma_holds_at_parts(t, pos, open + inner, close);
    lemma_holds_at_parts(t, pos, open, inner);
    assert(t[pos + 0int] == open[0]);
    assert(t[pos + open.len() + inner.len() + 0int] == close[0]);
    lemma_reads_spelled(e, t, pos + 1);
    assert(parse_or_at(t, pos + 1) == Ok::<(Expr, nat), Fault>((e, inner.len())));
    assert(parse_primary_at(t, pos) == Ok::<(Expr, nat), Fault>((e, inner.len() + 2)));
}

/// What is spelled at `pos`, with nothing after it that continues it, is
/// read as itself.
proof fn lemma_reads_spelled(e: Expr, t: Seq<Symbol>, pos: nat)
    requires
        holds_at(t, pos, spelled(e)),
        ends_at(t, pos + spelled(e).len()),
    ensures
        parse_or_at(t, pos) == Ok::<(Expr, nat), Fault>((e, spelled(e).len())),
    decreases e, 0nat,
{
    let n = spelled(e).len();
    match e {
        Expr::Flag(name) => {
            assert(t[pos + 0int] == spelled(e)[0]);
            assert(parse_primary_at(t, pos) == Ok::<(Expr, nat), Fault>((e, 1)));
            assert(parse_not_at(t, pos) == Ok::<(Expr, nat), Fault>((e, 1)));
            assert(parse_and_at(t, pos) == Ok::<(Expr, nat), Fault>((e, 1)));
        },
        Expr::Not(inner) => {
            let not = seq![Symbol::Not];
            lemma_holds_at_parts(t, pos, not, grouped(*inner));
            assert(t[pos + 0int] == not[0]);
            lemma_reads_group(*inner, t, pos + 1);
            assert(parse_not_at(t, pos) == Ok::<(Expr, nat), Fault>((e, n)));
            assert(parse_and_at(t, pos) == Ok::<(Expr, nat), Fault>((e, n)));
        },
        Expr::And(left, right) => {
            let and = seq![Symbol::And];
            assert(spelled(e) == (grouped(*left) + and) + grouped(*right));
            lemma_holds_at_parts(t, pos, grouped(*left) + and, grouped(*right));
            lemma_holds_at_parts(t, pos, grouped(*left), and);
            lemma_reads_group(*left, t, pos);
            let a = grouped(*left).len();
            assert(t[pos + a + 0int] == and[0]);
            lemma_reads_group(*right, t, pos + a + 1);
            let b = grouped(*right).len();
            assert(parse_and_at(t, pos + a + 1) == Ok::<(Expr, nat), Fault>((*right, b)));
            assert(parse_and_at(t, pos) == Ok::<(Expr, nat), Fault>((e, n)));
        },
        Expr::Or(left, right) => {
            let or = seq![Symbol::Or];
            assert(spelled(e) == (grouped(*left) + or) + grouped(*right));
            lemma_holds_at_parts(t, pos, grouped(*left) + or, grouped(*right));
            lemma_holds_at_parts(t, pos, grouped(*left), or);
            lemma_reads_group(*left, t, pos);
            let a = grouped(*left).len();
            assert(t[pos + a + 0int] == or[0]);
            lemma_reads_group(*right, t, pos + a + 1);
            let b = grouped(*right).len();
            assert(parse_and_at(t, pos) == Ok::<(Expr, nat), Fault>((*left, a)));
            assert(parse_and_at(t, pos + a + 1) == Ok::<(Expr, nat), Fault>((*right, b)));
            assert(parse_or_at(t, pos + a + 1) == Ok::<(Expr, nat), Fault>((*right, b)));
        },
    }
}

/// Every expression can be written down: spelled out with its operands in
/// parentheses, it is read back as itself.
pub proof fn lemma_spelled_is_read(e: Expr)
    ensures
        parse(spelled(e)) == Ok::<Expr, Fault>(e),
{
    let t = spelled(e);
    assert(holds_at(t, 0, t));
    lemma_reads_spelled(e, t, 0);
}

/// The tokens `prefix` followed by what lexing the rest gives.
pub open spec fn continued(prefix: Seq<Symbol>, rest: Result<Seq<Symbol>, Fault>) -> Result<
    Seq<Symbol>,
    Fault,
> {
    match rest {
        Ok(more) => Ok(prefix + more),
        Err(fault) => Err(fault),
    }
}

/// How an executable parse result `r`, with the position before and after it,
/// matches the outcome `model` of the grammar.
pub open spec fn agrees(
    model: Result<(Expr, nat), Fault>,
    flags: Set<Seq<char>>,
    r: Result<bool, ParseError>,
    before: usize,
    after: usize,
) -> bool {
    match model {
        Ok((e, span)) => r == Ok::<bool, ParseError>(holds(e, flags)) && after == before + span,
        Err(fault) => r matches Err(e) && e@ == fault,
    }
}

fn is_space_char(c: char) -> (b: bool)
    ensures
        b == is_space(c),
{
    c == ' ' || c == '\t' || c == '\n' || c == '\r'
}

fn is_identifier(c: char) -> (b: bool)
    ensures
        b == is_identifier_char(c),
{
    ('a' <= c && c <= 'z') || ('A' <= c && c <= 'Z') || ('0' <= c && c <= '9') || c == '_' || c
        == '-'
}

/// Splits `expr` into tokens, or reports the first character that can start
/// none.
pub fn tokenize(expr: &str) -> (r: Result<Vec<Token>, ParseError>)
    ensures
        match r {
            Ok(tokens) => lex(expr@) == Ok::<Seq<Symbol>, Fault>(symbols(tokens@)),
            Err(e) => lex(expr@) == Err::<Seq<Symbol>, Fault>(e@),
        },
{
    let chars = chars_of(expr);
    let n = chars.len();
    let mut tokens: Vec<Token> = Vec::new();
    let mut i: usize = 0;
    assert(symbols(tokens@) =~= Seq::<Symbol>::empty());
    assert(lex_from(expr@, 0) == continued(symbols(tokens@), lex_from(expr@, 0))) by {
        match lex_from(expr@, 0) {
            Ok(more) => assert(Seq::<Symbol>::empty() + more =~= more),
            Err(_) => {},
        }
    }
    while i < n
        invariant
            n == chars.len(),
            chars@ == expr@,
            i <= n,
            lex(expr@) == continued(symbols(tokens@), lex_from(expr@, i as int)),
        decreases n - i,
    {
        let c = chars[i];
        let ghost before = symbols(tokens@);
        if is_space_char(c) {
            i += 1;
        } else if is_identifier(c) {
            let start = i;
            i += 1;
            while i < n && is_identifier(chars[i])
                invariant
                    n == chars.len(),
                    chars@ == expr@,
                    start < i <= n,
                    identifier_end(expr@, start as int) == identifier_end(expr@, i as int),
                decreases n - i,
            {
                i += 1;
            }
            let name = expr.substring_char(start, i).to_owned();
            tokens.push(Token::Identifier(name));
            proof {
                let symbol = Symbol::Identifier(expr@.subrange(start as int, i as int));
                assert(symbols(tokens@) =~= before + seq![symbol]);
                match lex_from(expr@, i as int) {
                    Ok(more) => assert((before + seq![symbol]) + more =~= before + (seq![symbol]
                        + more)),
                    Err(_) => {},
                }
            }
        } else {
            let token = if c == '&' {
                Token::And
            } else if c == '|' {
                Token::Or
            } else if c == '!' {
                Token::Not
            } else if c == '(' {
                Token::LParen
            } else if c == ')' {
                Token::RParen
            } else {
                return Err(ParseError::UnexpectedCharacter { character: c, position: i });
            };
            tokens.push(token);
            i += 1;
            proof {
                let symbol = punctuation(c)->0;
                assert(symbols(tokens@) =~= before + seq![symbol]);
                match lex_from(expr@, i as int) {
                    Ok(more) => assert((before + seq![symbol]) + more =~= before + (seq![symbol]
                        + more)),
                    Err(_) => {},
                }
            }
        }
    }
    assert(symbols(tokens@) + Seq::<Symbol>::empty() =~= symbols(tokens@));
    Ok(tokens)
}

/// Whether `name` is one of `modifiers`.
pub fn is_declared(modifiers: &[String], name: &String) -> (b: bool)
    ensures
        b == flag_set(modifiers@).contains(name@),
{
    let mut i: usize = 0;
    while i < modifiers.len()
        invariant
            i <= modifiers@.len(),
            forall|k: int| 0 <= k < i ==> modifiers@[k]@ != name@,
        decreases modifiers@.len() - i,
    {
        if modifiers[i] == *name {
            return true;
        }
        i += 1;
    }
    false
}

/// Reads a primary at `*pos` and leaves `*pos` behind it.
pub fn parse_primary(tokens: &[Token], pos: &mut usize, modifiers: &[String]) -> (r: Result<
    bool,
    ParseError,
>)
    ensures
        agrees(
            parse_primary_at(symbols(tokens@), *old(pos) as nat),
            flag_set(modifiers@),
            r,
            *old(pos),
            *final(pos),
        ),
        r is Ok ==> *final(pos) <= tokens@.len(),
    decreases tokens@.len() - *old(pos), 0nat,
{
    if *pos >= tokens.len() {
        return Err(ParseError::UnexpectedEnd);
    }
    let at = *pos;
    match &tokens[at] {
        Token::Identifier(name) => {
            *pos = at + 1;
            Ok(is_declared(modifiers, name))
        },
        Token::LParen => {
            *pos = at + 1;
            let inner = parse_or(tokens, pos, modifiers)?;
            let close = *pos;
            if close >= tokens.len() {
                return Err(ParseError::MissingClosingParenthesis { position: close });
            }
            match &tokens[close] {
                Token::RParen => {
                    *pos = close + 1;
                    Ok(inner)
                },
                _ => Err(ParseError::MissingClosingParenthesis { position: close }),
            }
        },
        _ => Err(ParseError::ExpectedOperand { position: at }),
    }
}

/// Reads a negation chain and its primary at `*pos`.
pub fn parse_not(tokens: &[Token], pos: &mut usize, modifiers: &[String]) -> (r: Result<
    bool,
    ParseError,
>)
    ensures
        agrees(
            parse_not_at(symbols(tokens@), *old(pos) as nat),
            flag_set(modifiers@),
            r,
            *old(pos),
            *final(pos),
        ),
        r is Ok ==> *final(pos) <= tokens@.len(),
    decreases tokens@.len() - *old(pos), 1nat,
{
    let at = *pos;
    if at < tokens.len() {
        if let Token::Not = &tokens[at] {
            *pos = at + 1;
            let inner = parse_not(tokens, pos, modifiers)?;
            return Ok(!inner);
        }
    }
    parse_primary(tokens, pos, modifiers)
}

/// Reads a conjunction at `*pos`.
pub fn parse_and(tokens: &[Token], pos: &mut usize, modifiers: &[String]) -> (r: Result<
    bool,
    ParseError,
>)
    ensures
        agrees(
            parse_and_at(symbols(tokens@), *old(pos) as nat),
            flag_set(modifiers@),
            r,
            *old(pos),
            *final(pos),
        ),
        r is Ok ==> *final(pos) <= tokens@.len(),
    decreases tokens@.len() - *old(pos), 2nat,
{
    let ghost t = symbols(tokens@);
    let ghost flags = flag_set(modifiers@);
    let ghost start = *pos as nat;
    // `operand` is where the operand read last began, `prefix` the
    // conjunction of the operands before it.
    let ghost mut operand = start;
    let ghost mut prefix = true;
    let mut result = parse_not(tokens, pos, modifiers)?;
    loop
        invariant
            t == symbols(tokens@),
            flags == flag_set(modifiers@),
            start <= operand <= *pos <= tokens@.len(),
            start == *old(pos),
            parse_not_at(t, operand) matches Ok((e, span)) && operand + span == *pos && result == (
            prefix && holds(e, flags)),
            match parse_and_at(t, operand) {
                Ok((e, span)) => parse_and_at(t, start) matches Ok((whole, total)) && start + total
                    == operand + span && holds(whole, flags) == (prefix && holds(e, flags)),
                Err(fault) => parse_and_at(t, start) == Err::<(Expr, nat), Fault>(fault),
            },
        decreases tokens@.len() - *pos,
    {
        let at = *pos;
        if at >= tokens.len() {
            return Ok(result);
        }
        match &tokens[at] {
            Token::And => {},
            _ => {
                return Ok(result);
            },
        }
        *pos = at + 1;
        proof {
            operand = (at + 1) as nat;
            prefix = result;
        }
        let right = parse_not(tokens, pos, modifiers)?;
        result = result && right;
    }
}

/// Reads a disjunction at `*pos`.
pub fn parse_or(tokens: &[Token], pos: &mut usize, modifiers: &[String]) -> (r: Result<
    bool,
    ParseError,
>)
    ensures
        agrees(
            parse_or_at(symbols(tokens@), *old(pos) as nat),
            flag_set(modifiers@),
            r,
            *old(pos),
            *final(pos),
        ),
        r is Ok ==> *final(pos) <= tokens@.len(),
    decreases tokens@.len() - *old(pos), 3nat,
{
    let ghost t = symbols(tokens@);
    let ghost flags = flag_set(modifiers@);
    let ghost start = *pos as nat;
    let ghost mut operand = start;
    let ghost mut prefix = false;
    let mut result = parse_and(tokens, pos, modifiers)?;
    loop
        invariant
            t == symbols(tokens@),
            flags == flag_set(modifiers@),
            start <= operand <= *pos <= tokens@.len(),
            start == *old(pos),
            parse_and_at(t, operand) matches Ok((e, span)) && operand + span == *pos && result == (
            prefix || holds(e, flags)),
            match parse_or_at(t, operand) {
                Ok((e, span)) => parse_or_at(t, start) matches Ok((whole, total)) && start + total
                    == operand + span && holds(whole, flags) == (prefix || holds(e, flags)),
                Err(fault) => parse_or_at(t, start) == Err::<(Expr, nat), Fault>(fault),
            },
        decreases tokens@.len() - *pos,
    {
        let at = *pos;
        if at >= tokens.len() {
            return Ok(result);
        }
        match &tokens[at] {
            Token::Or => {},
            _ => {
                return Ok(result);
            },
        }
        *pos = at + 1;
        proof {
            operand = (at + 1) as nat;
            prefix = result;
        }
        let right = parse_and(tokens, pos, modifiers)?;
        result = result || right;
    }
}

/// Evaluates a modifier expression against the flags a package declares.
///
/// `Ok(b)` exactly when the text is a well-formed expression, and then `b` is
/// its truth with each identifier true if and only if it is one of
/// `modifiers`. Every other text gives the error that [`evaluation`] names.
pub fn evaluate(expression: &str, modifiers: &[String]) -> (r: Result<bool, ParseError>)
    ensures
        match evaluation(expression@, flag_set(modifiers@)) {
            Ok(value) => r == Ok::<bool, ParseError>(value),
            Err(fault) => r matches Err(e) && e@ == fault,
        },
{
    let tokens = tokenize(expression)?;
    let mut pos: usize = 0;
    let result = parse_or(tokens.as_slice(), &mut pos, modifiers)?;
    if pos < tokens.len() {
        return Err(ParseError::TrailingToken { position: pos });
    }
    Ok(result)
}

} // verus!
