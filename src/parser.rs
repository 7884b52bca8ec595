//! Recursive-descent parser from a pattern to its syntax tree.
//!
//! ```text
//! Regexp        := Concatenation ("|" Regexp)?
//! Concatenation := Primary+
//! Primary       := Empty | Group | Char | Dot
//! Group         := "(" Regexp ")" Quantifier?
//! Char          := Character Quantifier?
//! Dot           := "." Quantifier?
//! Quantifier    := "?" | "*" | "+"
//! ```

use vstd::prelude::*;
use crate::scanner::{
    Scanner, char_at, is_escapable, lemma_simple_step, name_of, reads_tokens, simple_tokens, lemma_literal_step, literal_text, reads_literally, structure_only,
};
use crate::syntax_tree::{
    ExpressionType, ParsedRegexp, Quantifier, quantifier_of, all_wf, is_literal_tree, lemma_all_only_empty,
    lemma_all_wf, literal_of,
};
use crate::text::{push_str, string_of};
use crate::tokens::{Token, TokenName};

verus! {

/// What is wrong with a pattern.
#[derive(Debug, Clone, Copy, PartialEq, Eq, Structural)]
pub enum ErrorKind {
    /// A `\` ends the pattern.
    UnaryEscape,
    /// A `)` with no `(` before it.
    UnbalancedRightParen,
    /// A group is not closed by `)`.
    ExpectedRightParen,
    /// Nothing follows a `(`.
    ExpectedExpressionAfterLeftParen,
    /// An operator stands where an expression is expected.
    ExpectedExpressionBefore { found: char },
}

/// A lexical or syntax error, and the source offset where it was found (the
/// source's length where the pattern ended too early).
#[derive(Debug, Clone, Copy, PartialEq, Eq, Structural)]
pub struct PatternError {
    pub kind: ErrorKind,
    pub position: usize,
}

/// The character of a decimal digit.
pub open spec fn digit_char(d: nat) -> char {
    if d == 0 {
        '0'
    } else if d == 1 {
        '1'
    } else if d == 2 {
        '2'
    } else if d == 3 {
        '3'
    } else if d == 4 {
        '4'
    } else if d == 5 {
        '5'
    } else if d == 6 {
        '6'
    } else if d == 7 {
        '7'
    } else if d == 8 {
        '8'
    } else {
        '9'
    }
}

/// `n` written in decimal.
pub open spec fn decimal(n: nat) -> Seq<char>
    decreases n,
{
    if n < 10 {
        seq![digit_char(n)]
    } else {
        decimal(n / 10).push(digit_char(n % 10))
    }
}

/// What an error kind says.
pub open spec fn description(kind: ErrorKind) -> Seq<char> {
    match kind {
        ErrorKind::UnaryEscape => "unary operator \\ with no operand"@,
        ErrorKind::UnbalancedRightParen => "unbalanced ), used without a matching ("@,
        ErrorKind::ExpectedRightParen => "expected ) after expression"@,
        ErrorKind::ExpectedExpressionAfterLeftParen => "expected expression after ("@,
        ErrorKind::ExpectedExpressionBefore { found } => "expected expression before "@.push(found),
    }
}

/// The report of an error in `source`: what is wrong and where, the source, and a
/// caret under the offending position.
pub open spec fn message_text(e: PatternError, source: Seq<char>) -> Seq<char> {
    "syntax error in position "@ + decimal(e.position as nat) + ": "@ + description(e.kind) + "\n"@
        + source + "\n"@ + Seq::new(e.position as nat, |i: int| ' ') + "^"@
}

fn digit(d: usize) -> (r: char)
    requires
        d < 10,
    ensures
        r == digit_char(d as nat),
{
    if d == 0 {
        '0'
    } else if d == 1 {
        '1'
    } else if d == 2 {
        '2'
    } else if d == 3 {
        '3'
    } else if d == 4 {
        '4'
    } else if d == 5 {
        '5'
    } else if d == 6 {
        '6'
    } else if d == 7 {
        '7'
    } else if d == 8 {
        '8'
    } else {
        '9'
    }
}

fn push_decimal(out: &mut Vec<char>, n: usize)
    ensures
        final(out)@ == old(out)@ + decimal(n as nat),
    decreases n,
{
    if n >= 10 {
        push_decimal(out, n / 10);
    }
    out.push(digit(n % 10));
    proof {
        assert(final(out)@ =~= old(out)@ + decimal(n as nat));
    }
}

impl PatternError {
    /// A readable report of the error in `source`, with a caret under its position.
    pub fn message(&self, source: &str) -> (r: String)
        ensures
            r@ == message_text(*self, source@),
    {
        let mut out: Vec<char> = Vec::new();
        push_str(&mut out, "syntax error in position ");
        push_decimal(&mut out, self.position);
        push_str(&mut out, ": ");
        match self.kind {
            ErrorKind::UnaryEscape => push_str(&mut out, "unary operator \\ with no operand"),
            ErrorKind::UnbalancedRightParen => push_str(&mut out, "unbalanced ), used without a matching ("),
            ErrorKind::ExpectedRightParen => push_str(&mut out, "expected ) after expression"),
            ErrorKind::ExpectedExpressionAfterLeftParen => push_str(&mut out, "expected expression after ("),
            ErrorKind::ExpectedExpressionBefore { found } => {
                push_str(&mut out, "expected expression before ");
                out.push(found);
            },
        }
        push_str(&mut out, "\n");
        push_str(&mut out, source);
        push_str(&mut out, "\n");
        let ghost head = out@;
        let mut i: usize = 0;
        while i < self.position
            invariant
                i <= self.position,
                out@ == head + Seq::new(i as nat, |k: int| ' '),
            decreases self.position - i,
        {
            out.push(' ');
            i += 1;
            proof {
                assert(out@ =~= head + Seq::new(i as nat, |k: int| ' '));
            }
        }
        push_str(&mut out, "^");
        proof {
            assert(out@ =~= message_text(*self, source@));
        }
        string_of(&out)
    }
}

/// The quantifier that a character stands for, if it is `?`, `*` or `+`.
pub open spec fn quantifier_char(c: char) -> Option<Quantifier> {
    if c == '?' {
        Some(Quantifier::ZeroOrOne)
    } else if c == '*' {
        Some(Quantifier::ZeroOrMore)
    } else if c == '+' {
        Some(Quantifier::OneOrMore)
    } else {
        None
    }
}

/// The node of a pattern that is one ordinary character or a dot, with an optional
/// quantifier after it (`a`, `.`, `a*`, `.+`); `None` for any other pattern.
pub open spec fn single_char_pattern(src: Seq<char>) -> Option<ExpressionType> {
    if src.len() == 0 || src.len() > 2 || (src[0] != '.' && is_escapable(src[0])) {
        None
    } else {
        let value = if src[0] == '.' {
            None
        } else {
            Some(src[0])
        };
        if src.len() == 1 {
            Some(ExpressionType::CharacterExpression { value, quantifier: Quantifier::Once })
        } else {
            match quantifier_char(src[1]) {
                Some(quantifier) => Some(ExpressionType::CharacterExpression { value, quantifier }),
                None => None,
            }
        }
    }
}

/// The quantifier that a token kind stands for, `Once` for any other.
pub open spec fn quantifier_of_name(name: TokenName) -> Quantifier {
    match name {
        TokenName::Mark => Quantifier::ZeroOrOne,
        TokenName::Star => Quantifier::ZeroOrMore,
        TokenName::Plus => Quantifier::OneOrMore,
        _ => Quantifier::Once,
    }
}

/// How many tokens the unit at the front of `toks` takes: its character or dot, and
/// the quantifier after it if there is one.
pub open spec fn unit_len(toks: Seq<TokenName>) -> int {
    if toks.len() > 1 && quantifier_of_name(toks[1]) != Quantifier::Once {
        2
    } else {
        1
    }
}

/// The primaries that a token list spells when it is a run of characters and dots,
/// each with an optional quantifier (the grammar's `Char` and `Dot`); `None` when a
/// token is anything else or a quantifier has nothing before it.
pub open spec fn units_of(toks: Seq<TokenName>) -> Option<Seq<ExpressionType>>
    decreases toks.len(),
{
    if toks.len() == 0 {
        Some(Seq::empty())
    } else {
        let value: Option<Option<char>> = match toks[0] {
            TokenName::Dot => Some(None),
            TokenName::Character { value, .. } => Some(Some(value)),
            _ => None,
        };
        if value is None {
            None
        } else {
            let q = if toks.len() > 1 {
                quantifier_of_name(toks[1])
            } else {
                Quantifier::Once
            };
            match units_of(toks.subrange(unit_len(toks), toks.len() as int)) {
                Some(u) => Some(seq![ExpressionType::CharacterExpression { value: value->0, quantifier: q }] + u),
                None => None,
            }
        }
    }
}

/// The primaries of a pattern made of characters, escaped characters and dots, each
/// with an optional quantifier (`a+b`, `a?b`, `.*x`); `None` for any other pattern.
pub open spec fn simple_pattern(src: Seq<char>) -> Option<Seq<ExpressionType>> {
    match simple_tokens(src) {
        Some(t) => units_of(t),
        None => None,
    }
}

/// The tree of a non-empty run of primaries: the one node, or their concatenation.
pub open spec fn is_units_tree(t: ParsedRegexp, units: Seq<ExpressionType>) -> bool {
    if units.len() == 1 {
        t.expression_type == units[0] && t.children@.len() == 0
    } else {
        &&& t.expression_type == ExpressionType::Concatenation
        &&& t.children@.len() == units.len()
        &&& forall|i: int|
            0 <= i < units.len() ==> (#[trigger] t.children@[i]).expression_type == units[i]
                && t.children@[i].children@.len() == 0
    }
}

/// Whether a token can begin an expression.
pub open spec fn starts_expression(name: TokenName) -> bool {
    match name {
        TokenName::Empty | TokenName::Dot | TokenName::Character { .. } | TokenName::LeftParen => true,
        _ => false,
    }
}

/// The error of a pattern whose first character cannot begin it: a `)` with no group
/// open, or a quantifier with nothing before it.
pub open spec fn first_char_error(src: Seq<char>) -> Option<PatternError> {
    if src.len() == 0 {
        None
    } else if src[0] == ')' {
        Some(PatternError { kind: ErrorKind::UnbalancedRightParen, position: 0 })
    } else if quantifier_char(src[0]) is Some {
        Some(PatternError { kind: ErrorKind::ExpectedExpressionBefore { found: src[0] }, position: 0 })
    } else {
        None
    }
}

/// The character that an operator token was scanned from.
pub open spec fn operator_char(name: TokenName) -> char {
    match name {
        TokenName::LeftParen => '(',
        TokenName::RightParen => ')',
        TokenName::Pipe => '|',
        TokenName::Mark => '?',
        TokenName::Star => '*',
        TokenName::Plus => '+',
        TokenName::Dot => '.',
        TokenName::Character { value, .. } => value,
        TokenName::Empty => '\0',
    }
}

fn operator_char_of(name: TokenName) -> (r: char)
    ensures
        r == operator_char(name),
{
    match name {
        TokenName::LeftParen => '(',
        TokenName::RightParen => ')',
        TokenName::Pipe => '|',
        TokenName::Mark => '?',
        TokenName::Star => '*',
        TokenName::Plus => '+',
        TokenName::Dot => '.',
        TokenName::Character { value, .. } => value,
        TokenName::Empty => '\0',
    }
}

pub struct Parser {
    scanner: Scanner,
    /// The token to be processed next; after any subexpression is parsed it is the
    /// first token past it.
    current: Option<Token>,
    /// Offsets of the `(` whose `)` has not come yet.
    grouping_marks: Vec<usize>,
}

impl Parser {
    pub closed spec fn wf(&self) -> bool {
        &&& self.scanner.wf()
        &&& structure_only(self.scanner.source_chars()) ==> self.current is None || (!(self.current->0.name is Character)
            && !(self.current->0.name is Dot))
    }

    /// Made smaller by every token consumed.
    pub closed spec fn measure(&self) -> nat {
        match self.current {
            None => 0,
            Some(_) => 1 + self.scanner.remaining(),
        }
    }

    pub closed spec fn current_token(&self) -> Option<Token> {
        self.current
    }

    /// The parser reads a source that holds only literal characters, and `rest` is the
    /// text from the current token on.
    spec fn literal_mode(&self, rest: Seq<char>) -> bool {
        &&& self.wf()
        &&& match self.current {
            Some(t) => {
                &&& rest.len() > 0
                &&& t.name is Character
                &&& t.name->Character_value == rest[0]
                &&& reads_literally(self.scanner, rest.drop_first())
            },
            None => rest.len() == 0,
        }
    }

    /// The parser reads the empty source: `asked` tells whether the `Empty` token it
    /// holds has been handed out (and is the current token).
    spec fn empty_source(&self, asked: bool) -> bool {
        &&& self.wf()
        &&& self.scanner.source_chars().len() == 0
        &&& self.scanner.cursor() == 0
        &&& self.scanner.empty_asked() == asked
        &&& if asked {
            self.current == Some(Token { name: TokenName::Empty, position: 0 })
        } else {
            self.current is None
        }
    }

    /// The parser reads a one-character pattern (see `single_char_pattern`) and holds
    /// its first token.
    spec fn single_mode(&self) -> bool {
        let src = self.scanner.source_chars();
        let e = single_char_pattern(src);
        &&& self.wf()
        &&& e is Some
        &&& self.scanner.cursor() == 1
        &&& !self.scanner.empty_asked()
        &&& self.current is Some
        &&& self.current->0.name == if src[0] == '.' {
            TokenName::Dot
        } else {
            TokenName::Character { value: src[0], is_escaped_metacharacter: false }
        }
    }

    /// The parser has read the character of a one-character pattern and holds the
    /// quantifier after it, if any.
    spec fn quantifier_mode(&self) -> bool {
        let src = self.scanner.source_chars();
        &&& self.wf()
        &&& single_char_pattern(src) is Some
        &&& !self.scanner.empty_asked()
        &&& self.scanner.cursor() == src.len()
        &&& if src.len() == 1 {
            self.current is None
        } else {
            &&& self.current is Some
            &&& quantifier_of(self.current) == single_char_pattern(src)->0->CharacterExpression_quantifier
        }
    }

    /// The parser reads a simple source and `toks` are the tokens from the current one on.
    spec fn tok_mode(&self, toks: Seq<TokenName>) -> bool {
        &&& self.wf()
        &&& match self.current {
            Some(t) => toks.len() > 0 && t.name == toks[0] && reads_tokens(self.scanner, toks.drop_first()),
            None => toks.len() == 0,
        }
    }

    proof fn lemma_tok_mode_unique(&self, a: Seq<TokenName>, b: Seq<TokenName>)
        requires
            self.tok_mode(a),
            self.tok_mode(b),
        ensures
            a == b,
    {
        if self.current is Some {
            assert(a =~= seq![a[0]] + a.drop_first());
            assert(b =~= seq![b[0]] + b.drop_first());
        } else {
            assert(a =~= b);
        }
    }

    /// The text left is a function of the state.
    proof fn lemma_literal_mode_unique(&self, a: Seq<char>, b: Seq<char>)
        requires
            self.literal_mode(a),
            self.literal_mode(b),
        ensures
            a == b,
    {
        if self.current is Some {
            assert(a =~= seq![a[0]] + a.drop_first());
            assert(b =~= seq![b[0]] + b.drop_first());
        } else {
            assert(a =~= b);
        }
    }

    fn new(source: &str) -> (r: Parser)
        ensures
            r.wf(),
            r.current_token() is None,
            r.scanner.source_chars() == source@,
            r.scanner.cursor() == 0,
            !r.scanner.empty_asked(),
            !r.scanner.escaped_before(),
            r.grouping_marks@.len() == 0,
    {
        Parser { scanner: Scanner::new(source), current: None, grouping_marks: Vec::new() }
    }

    /// An error at the current token, or at the end of the source when none is left.
    fn error_here(&self, kind: ErrorKind) -> (r: PatternError)
        ensures
            r.kind == kind,
            r.position == match self.current {
                Some(t) => t.position as int,
                None => self.scanner.source_chars().len() as int,
            },
    {
        let position = match &self.current {
            Some(token) => token.position,
            None => self.scanner.source_len(),
        };
        PatternError { kind, position }
    }

    /// The source offset of the current token, or the source's length at the end.
    fn position_here(&self) -> usize {
        match &self.current {
            Some(token) => token.position,
            None => self.scanner.source_len(),
        }
    }

    /// The source text from offset `start` to the current token.
    fn text_since(&self, start: usize) -> String {
        self.scanner.source_text(start, self.position_here())
    }

    /// Reads the next token into `current`, keeping count of open groups.
    fn advance(&mut self) -> (r: Result<(), PatternError>)
        requires
            old(self).wf(),
        ensures
            final(self).wf(),
            final(self).scanner.source_chars() == old(self).scanner.source_chars(),
            forall|toks: Seq<TokenName>| #[trigger]
                reads_tokens(old(self).scanner, toks) ==> r is Ok && final(self).tok_mode(toks),
            r is Ok && old(self).current_token() is Some ==> final(self).measure() < old(self).measure(),
            forall|rest: Seq<char>| #[trigger]
                reads_literally(old(self).scanner, rest) ==> r is Ok && final(self).literal_mode(rest),
            old(self).scanner.source_chars().len() == 0 && old(self).scanner.cursor() == 0 ==> r is Ok
                && final(self).empty_source(!old(self).scanner.empty_asked()),
            single_char_pattern(old(self).scanner.source_chars()) is Some && old(self).scanner.cursor() == 0
                && !old(self).scanner.empty_asked() && !old(self).scanner.escaped_before() ==> r is Ok
                && final(self).single_mode(),
            old(self).single_mode() ==> r is Ok && final(self).quantifier_mode(),
            old(self).quantifier_mode() && old(self).current is Some ==> r is Ok && final(self).current is None,
            r is Err && r->Err_0.kind != ErrorKind::UnaryEscape ==> {
                &&& r->Err_0.kind == ErrorKind::UnbalancedRightParen
                &&& final(self).current is Some
                &&& final(self).current->0.name == TokenName::RightParen
                &&& r->Err_0.position == final(self).current->0.position
                &&& old(self).grouping_marks@.len() == 0
            },
            r is Ok && final(self).current is Some && final(self).current->0.name == TokenName::RightParen
                ==> old(self).grouping_marks@.len() > 0 && final(self).grouping_marks@
                == old(self).grouping_marks@.drop_last(),
            r is Ok && final(self).current is Some && final(self).current->0.name == TokenName::LeftParen
                ==> final(self).grouping_marks@ == old(self).grouping_marks@.push(final(self).current->0.position),
            r is Ok && !(final(self).current is Some && (final(self).current->0.name == TokenName::LeftParen
                || final(self).current->0.name == TokenName::RightParen)) ==> final(self).grouping_marks@
                == old(self).grouping_marks@,
            ({
                let src = old(self).scanner.source_chars();
                old(self).scanner.cursor() == 0 && !old(self).scanner.empty_asked() && !old(self).scanner.escaped_before()
                    && src.len() > 0 && old(self).grouping_marks@.len() == 0 ==> {
                    &&& src[0] == ')' ==> r == Err::<(), PatternError>(
                        PatternError { kind: ErrorKind::UnbalancedRightParen, position: 0 },
                    )
                    &&& quantifier_char(src[0]) is Some ==> r is Ok && final(self).current == Some(
                        Token { name: name_of(src[0]), position: 0 },
                    )
                }
            }),
    {
        match self.scanner.next() {
            Err(e) => {
                return Err(PatternError { kind: ErrorKind::UnaryEscape, position: e.position });
            },
            Ok(token) => {
                self.current = token;
            },
        }
        if self.check(TokenName::RightParen) {
            if self.grouping_marks.pop().is_none() {
                return Err(self.error_here(ErrorKind::UnbalancedRightParen));
            }
        } else if let Some(token) = &self.current {
            if token.name == TokenName::LeftParen {
                self.grouping_marks.push(token.position);
            }
        }
        Ok(())
    }

    /// Whether the current token is of the given kind.
    fn check(&self, expected: TokenName) -> (r: bool)
        ensures
            r == (self.current_token() is Some && self.current_token()->0.name == expected),
    {
        match &self.current {
            Some(token) => token.name == expected,
            None => false,
        }
    }

    /// Moves past the current token if it is of the given kind, else fails with `kind`.
    fn consume(&mut self, expected: TokenName, kind: ErrorKind) -> (r: Result<(), PatternError>)
        requires
            old(self).wf(),
        ensures
            final(self).wf(),
            final(self).scanner.source_chars() == old(self).scanner.source_chars(),
            r is Ok ==> final(self).measure() < old(self).measure(),
            r is Err && !(old(self).current_token() is Some && old(self).current_token()->0.name
                == expected) ==> r->Err_0.kind == kind,
    {
        if !self.check(expected) {
            return Err(self.error_here(kind));
        }
        self.advance()
    }

    /// Moves past a quantifier token, if the current token is one, and returns it.
    fn consume_quantifier(&mut self) -> (r: Result<Quantifier, PatternError>)
        requires
            old(self).wf(),
        ensures
            final(self).wf(),
            final(self).scanner.source_chars() == old(self).scanner.source_chars(),
            forall|toks: Seq<TokenName>| #[trigger]
                old(self).tok_mode(toks) ==> r is Ok && r->Ok_0 == (if toks.len() > 0 {
                    quantifier_of_name(toks[0])
                } else {
                    Quantifier::Once
                }) && final(self).tok_mode(
                    if toks.len() > 0 && quantifier_of_name(toks[0]) != Quantifier::Once {
                        toks.drop_first()
                    } else {
                        toks
                    },
                ),
            r is Ok ==> final(self).measure() <= old(self).measure(),
            r is Ok ==> r->Ok_0 == quantifier_of(old(self).current_token()),
            forall|rest: Seq<char>| #[trigger]
                old(self).literal_mode(rest) ==> r == Ok::<Quantifier, PatternError>(Quantifier::Once)
                    && final(self).literal_mode(rest),
            old(self).quantifier_mode() ==> r == Ok::<Quantifier, PatternError>(
                single_char_pattern(old(self).scanner.source_chars())->0->CharacterExpression_quantifier,
            ) && final(self).current is None,
            quantifier_of(old(self).current_token()) == Quantifier::Once ==> r == Ok::<Quantifier, PatternError>(
                Quantifier::Once,
            ) && *final(self) == *old(self),
            quantifier_of(old(self).current_token()) != Quantifier::Once && r is Ok ==> final(self).measure()
                < old(self).measure(),
    {
        let quantifier = Quantifier::from(&self.current);
        if !matches!(quantifier, Quantifier::Once) {
            self.advance()?;
        }
        Ok(quantifier)
    }
    /// Regexp := Concatenation ("|" Regexp)?
    fn parse_expression(&mut self) -> (r: Result<Option<ParsedRegexp>, PatternError>)
        requires
            old(self).wf(),
        ensures
            final(self).wf(),
            final(self).scanner.source_chars() == old(self).scanner.source_chars(),
            old(self).current_token() is None ==> r == Ok::<Option<ParsedRegexp>, PatternError>(None),
            old(self).current_token() is Some && !starts_expression(old(self).current_token()->0.name) ==> r
                == Err::<Option<ParsedRegexp>, PatternError>(
                PatternError {
                    kind: ErrorKind::ExpectedExpressionBefore {
                        found: operator_char(old(self).current_token()->0.name),
                    },
                    position: old(self).current_token()->0.position,
                },
            ),
            old(self).single_mode() ==> r is Ok && r->Ok_0 is Some && r->Ok_0->0.expression_type
                == single_char_pattern(old(self).scanner.source_chars())->0 && final(self).current is None,
            structure_only(old(self).scanner.source_chars()) && r is Ok && r->Ok_0 is Some ==> r->Ok_0->0.matches_only_empty(),
            r is Ok ==> final(self).measure() <= old(self).measure(),
            r is Ok && r->Ok_0 is Some ==> r->Ok_0->0.wf() && final(self).measure() < old(self).measure(),
            forall|rest: Seq<char>| #[trigger]
                old(self).literal_mode(rest) && rest.len() > 0 ==> r is Ok && r->Ok_0 is Some
                    && is_literal_tree(r->Ok_0->0, rest) && final(self).literal_mode(Seq::empty()),
            old(self).empty_source(true) ==> r is Ok && r->Ok_0 is Some && is_literal_tree(
                r->Ok_0->0,
                Seq::empty(),
            ) && final(self).empty_source(false),
            forall|toks: Seq<TokenName>| #[trigger]
                old(self).tok_mode(toks) && units_of(toks) is Some && toks.len() > 0 ==> r is Ok && r->Ok_0 is Some
                    && is_units_tree(r->Ok_0->0, units_of(toks)->0) && final(self).tok_mode(Seq::empty()),
        decreases old(self).measure(), 3int,
    {
        let token = match &self.current {
            None => {
                return Ok(None);
            },
            Some(token) => *token,
        };
        match token.name {
            TokenName::Empty | TokenName::Dot | TokenName::Character { .. } | TokenName::LeftParen => {},
            _ => {
                return Err(
                    PatternError {
                        kind: ErrorKind::ExpectedExpressionBefore { found: operator_char_of(token.name) },
                        position: token.position,
                    },
                );
            },
        }
        let mut children: Vec<ParsedRegexp> = Vec::new();
        if let Some(concatenation) = self.parse_concatenation()? {
            children.push(concatenation);
            if self.check(TokenName::Pipe) {
                self.advance()?;
                if let Some(expression) = self.parse_expression()? {
                    children.push(expression);
                }
            }
        }
        if children.len() == 0 {
            Ok(None)
        } else if children.len() == 1 {
            Ok(children.pop())
        } else {
            proof {
                lemma_all_wf(children@, 0);
            }
            proof {
                lemma_all_only_empty(children@, 0);
            }
            let mut alternation = ParsedRegexp::new(ExpressionType::Alternation);
            alternation.children = children;
            alternation.pattern = self.text_since(token.position);
            Ok(Some(alternation))
        }
    }

    /// Concatenation := Primary+
    fn parse_concatenation(&mut self) -> (r: Result<Option<ParsedRegexp>, PatternError>)
        requires
            old(self).wf(),
        ensures
            final(self).wf(),
            final(self).scanner.source_chars() == old(self).scanner.source_chars(),
            old(self).single_mode() ==> r is Ok && r->Ok_0 is Some && r->Ok_0->0.expression_type
                == single_char_pattern(old(self).scanner.source_chars())->0 && final(self).current is None,
            structure_only(old(self).scanner.source_chars()) && r is Ok && r->Ok_0 is Some ==> r->Ok_0->0.matches_only_empty(),
            r is Ok ==> final(self).measure() <= old(self).measure(),
            r is Ok && r->Ok_0 is Some ==> r->Ok_0->0.wf() && final(self).measure() < old(self).measure(),
            forall|rest: Seq<char>| #[trigger]
                old(self).literal_mode(rest) && rest.len() > 0 ==> r is Ok && r->Ok_0 is Some
                    && is_literal_tree(r->Ok_0->0, rest) && final(self).literal_mode(Seq::empty()),
            old(self).empty_source(true) ==> r is Ok && r->Ok_0 is Some && is_literal_tree(
                r->Ok_0->0,
                Seq::empty(),
            ) && final(self).empty_source(false),
            forall|toks: Seq<TokenName>| #[trigger]
                old(self).tok_mode(toks) && units_of(toks) is Some && toks.len() > 0 ==> r is Ok && r->Ok_0 is Some
                    && is_units_tree(r->Ok_0->0, units_of(toks)->0) && final(self).tok_mode(Seq::empty()),
        decreases old(self).measure(), 2int,
    {
        let ghost start = self.measure();
        let ghost lit: Seq<char> = if exists|r: Seq<char>| old(self).literal_mode(r) {
            choose|r: Seq<char>| old(self).literal_mode(r)
        } else {
            Seq::empty()
        };
        let ghost active = old(self).literal_mode(lit) && lit.len() > 0;
        let first = self.position_here();
        let mut children: Vec<ParsedRegexp> = Vec::new();
        proof {
            if active {
                assert(lit.subrange(0, lit.len() as int) =~= lit);
            }
            assert forall|rest: Seq<char>| old(self).literal_mode(rest) implies rest == lit by {
                old(self).lemma_literal_mode_unique(rest, lit);
            }
        }
        let ghost tk: Seq<TokenName> = if exists|r: Seq<TokenName>| old(self).tok_mode(r) {
            choose|r: Seq<TokenName>| old(self).tok_mode(r)
        } else {
            Seq::empty()
        };
        let ghost us: Seq<ExpressionType> = units_of(tk)->0;
        let ghost simple = old(self).tok_mode(tk) && units_of(tk) is Some && tk.len() > 0;
        let ghost mut rem: Seq<TokenName> = tk;
        proof {
            assert forall|r: Seq<TokenName>| old(self).tok_mode(r) implies r == tk by {
                old(self).lemma_tok_mode_unique(r, tk);
            }
            if simple {
                assert(us.subrange(0, us.len() as int) =~= us);
            }
        }
        loop
            invariant
                self.wf(),
                forall|r: Seq<TokenName>| #[trigger] old(self).tok_mode(r) ==> r == tk,
                simple == (old(self).tok_mode(tk) && units_of(tk) is Some && tk.len() > 0),
                us == units_of(tk)->0,
                simple ==> self.tok_mode(rem) && children@.len() <= us.len() && units_of(rem) == Some(
                    us.subrange(children@.len() as int, us.len() as int),
                ),
                simple ==> forall|k: int|
                    0 <= k < children@.len() ==> (#[trigger] children@[k]).expression_type == us[k]
                        && children@[k].children@.len() == 0,
                old(self).single_mode() ==> (children@.len() == 0 && self.single_mode()) || (children@.len() == 1
                    && children@[0].expression_type == single_char_pattern(old(self).scanner.source_chars())->0 && self.current is None),
                self.scanner.source_chars() == old(self).scanner.source_chars(),
                structure_only(old(self).scanner.source_chars()) ==> forall|k: int|
                    0 <= k < children@.len() ==> #[trigger] children@[k].matches_only_empty(),
                self.measure() <= start,
                start == old(self).measure(),
                children@.len() > 0 ==> self.measure() < start,
                forall|i: int| 0 <= i < children@.len() ==> #[trigger] children@[i].wf(),
                forall|i: int| 0 <= i < children@.len() ==> #[trigger] children@[i].is_primary(),
                forall|rest: Seq<char>| #[trigger] old(self).literal_mode(rest) ==> rest == lit,
                active == (old(self).literal_mode(lit) && lit.len() > 0),
                old(self).empty_source(true) ==> if children@.len() == 0 {
                    self.empty_source(true)
                } else {
                    children@.len() == 1 && children@[0].expression_type == ExpressionType::EmptyExpression
                        && children@[0].children@.len() == 0 && self.empty_source(false)
                },
                active ==> children@.len() <= lit.len() && self.literal_mode(
                    lit.subrange(children@.len() as int, lit.len() as int),
                ),
                active ==> forall|k: int|
                    0 <= k < children@.len() ==> literal_of(&#[trigger] children@[k]) == Some(lit[k])
                        && children@[k].children@.len() == 0,
            ensures
                self.wf(),
                forall|r: Seq<TokenName>| #[trigger] old(self).tok_mode(r) ==> r == tk,
                simple == (old(self).tok_mode(tk) && units_of(tk) is Some && tk.len() > 0),
                us == units_of(tk)->0,
                simple ==> self.tok_mode(rem) && children@.len() <= us.len() && units_of(rem) == Some(
                    us.subrange(children@.len() as int, us.len() as int),
                ),
                simple ==> forall|k: int|
                    0 <= k < children@.len() ==> (#[trigger] children@[k]).expression_type == us[k]
                        && children@[k].children@.len() == 0,
                simple ==> children@.len() == us.len() && self.tok_mode(Seq::empty()),
                old(self).single_mode() ==> children@.len() == 1 && children@[0].expression_type == single_char_pattern(old(self).scanner.source_chars())->0
                    && self.current is None,
                self.scanner.source_chars() == old(self).scanner.source_chars(),
                structure_only(old(self).scanner.source_chars()) ==> forall|k: int|
                    0 <= k < children@.len() ==> #[trigger] children@[k].matches_only_empty(),
                self.measure() <= start,
                children@.len() > 0 ==> self.measure() < start,
                forall|i: int| 0 <= i < children@.len() ==> #[trigger] children@[i].wf(),
                forall|i: int| 0 <= i < children@.len() ==> #[trigger] children@[i].is_primary(),
                forall|rest: Seq<char>| #[trigger] old(self).literal_mode(rest) ==> rest == lit,
                active == (old(self).literal_mode(lit) && lit.len() > 0),
                active ==> forall|k: int|
                    0 <= k < children@.len() ==> literal_of(&#[trigger] children@[k]) == Some(lit[k])
                        && children@[k].children@.len() == 0,
                active ==> children@.len() == lit.len() && self.literal_mode(Seq::empty()),
                old(self).empty_source(true) ==> children@.len() == 1 && children@[0].expression_type
                    == ExpressionType::EmptyExpression && children@[0].children@.len() == 0
                    && self.empty_source(false),
            decreases self.measure(),
        {
            let ghost i = children@.len();
            let ghost rem_h = rem;
            match self.parse_primary()? {
                Some(primary) => {
                    children.push(primary);
                    proof {
                        if simple {
                            rem = rem_h.subrange(unit_len(rem_h), rem_h.len() as int);
                            assert(units_of(rem_h) == Some(seq![us[i as int]] + units_of(rem)->0));
                            assert(us.subrange(i as int, us.len() as int).drop_first() =~= us.subrange(
                                i + 1int,
                                us.len() as int,
                            ));
                            assert((seq![us[i as int]] + units_of(rem)->0).drop_first() =~= units_of(rem)->0);
                        }
                    }
                    proof {
                        if active {
                            assert(lit.subrange(i as int, lit.len() as int).drop_first() =~= lit.subrange(
                                i + 1int,
                                lit.len() as int,
                            ));
                        }
                    }
                },
                None => {
                    proof {
                        if active {
                            assert(lit.subrange(i as int, lit.len() as int) =~= Seq::<char>::empty());
                        }
                        if simple {
                            assert(us.subrange(i as int, us.len() as int).len() == 0);
                        }
                    }
                    break;
                },
            }
        }
        if children.len() == 0 {
            Ok(None)
        } else if children.len() == 1 {
            Ok(children.pop())
        } else {
            proof {
                lemma_all_wf(children@, 0);
            }
            proof {
                lemma_all_only_empty(children@, 0);
            }
            let mut concatenation = ParsedRegexp::new(ExpressionType::Concatenation);
            concatenation.children = children;
            concatenation.pattern = self.text_since(first);
            Ok(Some(concatenation))
        }
    }

    /// Primary := Empty | Group | Char | Dot. `Ok(None)` where the current token ends
    /// a concatenation (`|`, `)` or the end); an error where it is a quantifier, which
    /// has nothing left to apply to.
    fn parse_primary(&mut self) -> (r: Result<Option<ParsedRegexp>, PatternError>)
        requires
            old(self).wf(),
        ensures
            final(self).wf(),
            final(self).scanner.source_chars() == old(self).scanner.source_chars(),
            forall|toks: Seq<TokenName>| #[trigger]
                old(self).tok_mode(toks) && units_of(toks) is Some ==> if toks.len() == 0 {
                    r == Ok::<Option<ParsedRegexp>, PatternError>(None) && final(self).tok_mode(toks)
                } else {
                    &&& r is Ok
                    &&& r->Ok_0 is Some
                    &&& r->Ok_0->0.expression_type == units_of(toks)->0[0]
                    &&& r->Ok_0->0.children@.len() == 0
                    &&& final(self).tok_mode(toks.subrange(unit_len(toks), toks.len() as int))
                },
            old(self).current_token() is Some && (old(self).current_token()->0.name == TokenName::Mark
                || old(self).current_token()->0.name == TokenName::Star || old(self).current_token()->0.name
                == TokenName::Plus) ==> r == Err::<Option<ParsedRegexp>, PatternError>(
                PatternError {
                    kind: ErrorKind::ExpectedExpressionBefore {
                        found: operator_char(old(self).current_token()->0.name),
                    },
                    position: old(self).current_token()->0.position,
                },
            ),
            old(self).current_token() is Some && (old(self).current_token()->0.name == TokenName::Pipe
                || old(self).current_token()->0.name == TokenName::RightParen) ==> r == Ok::<
                Option<ParsedRegexp>,
                PatternError,
            >(None) && *final(self) == *old(self),
            old(self).single_mode() ==> r is Ok && r->Ok_0 is Some && r->Ok_0->0.expression_type
                == single_char_pattern(old(self).scanner.source_chars())->0 && final(self).current is None,
            old(self).current is None ==> r == Ok::<Option<ParsedRegexp>, PatternError>(None)
                && final(self).current is None,
            structure_only(old(self).scanner.source_chars()) && r is Ok && r->Ok_0 is Some ==> r->Ok_0->0.matches_only_empty(),
            r is Ok ==> final(self).measure() <= old(self).measure(),
            r is Ok && r->Ok_0 is Some ==> r->Ok_0->0.wf() && r->Ok_0->0.is_primary() && final(self).measure() < old(self).measure(),
            forall|rest: Seq<char>| #[trigger]
                old(self).literal_mode(rest) ==> if rest.len() == 0 {
                    r == Ok::<Option<ParsedRegexp>, PatternError>(None) && final(self).literal_mode(rest)
                } else {
                    &&& r is Ok
                    &&& r->Ok_0 is Some
                    &&& literal_of(&r->Ok_0->0) == Some(rest[0])
                    &&& r->Ok_0->0.children@.len() == 0
                    &&& final(self).literal_mode(rest.drop_first())
                },
            old(self).empty_source(true) ==> r is Ok && r->Ok_0 is Some && r->Ok_0->0.expression_type
                == ExpressionType::EmptyExpression && r->Ok_0->0.children@.len() == 0
                && final(self).empty_source(false),
            old(self).empty_source(false) ==> r == Ok::<Option<ParsedRegexp>, PatternError>(None)
                && final(self).empty_source(false),
        decreases old(self).measure(), 1int,
    {
        let token = match &self.current {
            None => {
                return Ok(None);
            },
            Some(token) => *token,
        };
        match token.name {
            TokenName::Empty => self.parse_the_empty_expression(),
            TokenName::Dot => self.parse_the_dot_expression(),
            TokenName::Character { value, .. } => self.parse_character_expression(value),
            TokenName::LeftParen => self.parse_group(),
            TokenName::Mark | TokenName::Star | TokenName::Plus => Err(
                PatternError {
                    kind: ErrorKind::ExpectedExpressionBefore { found: operator_char_of(token.name) },
                    position: token.position,
                },
            ),
            _ => Ok(None),
        }
    }

    /// Group := "(" Regexp ")" Quantifier?
    fn parse_group(&mut self) -> (r: Result<Option<ParsedRegexp>, PatternError>)
        requires
            old(self).wf(),
            old(self).current_token() is Some,
        ensures
            final(self).wf(),
            r is Ok ==> r->Ok_0->0.expression_type is Group && r->Ok_0->0.children@.len() == 1,
            final(self).scanner.source_chars() == old(self).scanner.source_chars(),
            structure_only(old(self).scanner.source_chars()) && r is Ok && r->Ok_0 is Some ==> r->Ok_0->0.matches_only_empty(),
            r is Ok ==> r->Ok_0 is Some && r->Ok_0->0.wf() && r->Ok_0->0.is_primary() && final(self).measure() < old(self).measure(),
        decreases old(self).measure(), 0int,
    {
        let first = self.position_here();
        self.advance()?;
        match self.parse_expression()? {
            Some(inner) => {
                self.consume(TokenName::RightParen, ErrorKind::ExpectedRightParen)?;
                let quantifier = self.consume_quantifier()?;
                let mut group = ParsedRegexp::new(ExpressionType::Group { quantifier });
                group.children.push(inner);
                group.pattern = self.text_since(first);
                Ok(Some(group))
            },
            None => Err(self.error_here(ErrorKind::ExpectedExpressionAfterLeftParen)),
        }
    }

    /// Empty := the `Empty` token
    fn parse_the_empty_expression(&mut self) -> (r: Result<Option<ParsedRegexp>, PatternError>)
        requires
            old(self).wf(),
            old(self).current_token() is Some,
        ensures
            final(self).wf(),
            final(self).scanner.source_chars() == old(self).scanner.source_chars(),
            structure_only(old(self).scanner.source_chars()) && r is Ok && r->Ok_0 is Some ==> r->Ok_0->0.matches_only_empty(),
            r is Ok ==> r->Ok_0 is Some && r->Ok_0->0.wf() && r->Ok_0->0.is_primary()
                && r->Ok_0->0.expression_type == ExpressionType::EmptyExpression
                && r->Ok_0->0.children@.len() == 0
                && final(self).measure() < old(self).measure(),
            old(self).empty_source(true) ==> r is Ok && final(self).empty_source(false),
    {
        self.advance()?;
        Ok(Some(ParsedRegexp::new(ExpressionType::EmptyExpression)))
    }

    /// Dot := "." Quantifier?
    fn parse_the_dot_expression(&mut self) -> (r: Result<Option<ParsedRegexp>, PatternError>)
        requires
            old(self).wf(),
            old(self).current_token() is Some,
        ensures
            final(self).wf(),
            final(self).scanner.source_chars() == old(self).scanner.source_chars(),
            forall|toks: Seq<TokenName>| #[trigger]
                old(self).tok_mode(toks) && toks.len() > 0 ==> r is Ok && r->Ok_0 is Some && r->Ok_0->0.expression_type == (
                ExpressionType::CharacterExpression {
                    value: None,
                    quantifier: if toks.len() > 1 {
                        quantifier_of_name(toks[1])
                    } else {
                        Quantifier::Once
                    },
                }) && r->Ok_0->0.children@.len() == 0 && final(self).tok_mode(
                    toks.subrange(unit_len(toks), toks.len() as int),
                ),
            old(self).single_mode() && old(self).current->0.name == TokenName::Dot ==> r is Ok && r->Ok_0 is Some
                && r->Ok_0->0.expression_type == single_char_pattern(old(self).scanner.source_chars())->0 && final(self).current is None,
            r is Ok ==> r->Ok_0 is Some && r->Ok_0->0.wf() && r->Ok_0->0.is_primary() && final(self).measure() < old(self).measure(),
    {
        let first = self.position_here();
        let ghost s0 = *self;
        self.advance()?;
        let ghost s1 = *self;
        let quantifier = self.consume_quantifier()?;
        proof {
            assert forall|toks: Seq<TokenName>| s0.tok_mode(toks) && toks.len() > 0 implies s1.tok_mode(toks.drop_first()) && (
            toks.len() > 1 ==> toks.drop_first()[0] == toks[1]) && toks.subrange(unit_len(toks), toks.len() as int) == (
            if toks.drop_first().len() > 0 && quantifier_of_name(toks.drop_first()[0]) != Quantifier::Once {
                toks.drop_first().drop_first()
            } else {
                toks.drop_first()
            }) by {
                assert(reads_tokens(s0.scanner, toks.drop_first()));
                assert(toks.subrange(1, toks.len() as int) =~= toks.drop_first());
                if toks.len() > 1 {
                    assert(toks.subrange(2, toks.len() as int) =~= toks.drop_first().drop_first());
                }
            }
        }
        let mut dot = ParsedRegexp::new(ExpressionType::CharacterExpression { value: None, quantifier });
        dot.pattern = self.text_since(first);
        Ok(Some(dot))
    }

    /// Char := Character Quantifier?
    fn parse_character_expression(&mut self, value: char) -> (r: Result<
        Option<ParsedRegexp>,
        PatternError,
    >)
        requires
            old(self).wf(),
            old(self).current_token() is Some,
        ensures
            final(self).wf(),
            final(self).scanner.source_chars() == old(self).scanner.source_chars(),
            forall|toks: Seq<TokenName>| #[trigger]
                old(self).tok_mode(toks) && toks.len() > 0 ==> r is Ok && r->Ok_0 is Some && r->Ok_0->0.expression_type == (
                ExpressionType::CharacterExpression {
                    value: Some(value),
                    quantifier: if toks.len() > 1 {
                        quantifier_of_name(toks[1])
                    } else {
                        Quantifier::Once
                    },
                }) && r->Ok_0->0.children@.len() == 0 && final(self).tok_mode(
                    toks.subrange(unit_len(toks), toks.len() as int),
                ),
            old(self).single_mode() && old(self).current->0.name == (TokenName::Character {
                value,
                is_escaped_metacharacter: false,
            }) ==> r is Ok && r->Ok_0 is Some && r->Ok_0->0.expression_type == single_char_pattern(old(self).scanner.source_chars())->0
                && final(self).current is None,
            r is Ok ==> r->Ok_0 is Some && r->Ok_0->0.wf() && r->Ok_0->0.is_primary() && final(self).measure() < old(self).measure(),
            forall|rest: Seq<char>| #[trigger]
                old(self).literal_mode(rest) ==> r is Ok && r->Ok_0 is Some && literal_of(&r->Ok_0->0)
                    == Some(value) && r->Ok_0->0.children@.len() == 0 && final(self).literal_mode(
                    rest.drop_first(),
                ),
    {
        let first = self.position_here();
        let ghost s0 = *self;
        self.advance()?;
        let ghost s1 = *self;
        let quantifier = self.consume_quantifier()?;
        proof {
            assert forall|toks: Seq<TokenName>| s0.tok_mode(toks) && toks.len() > 0 implies s1.tok_mode(toks.drop_first()) && (
            toks.len() > 1 ==> toks.drop_first()[0] == toks[1]) && toks.subrange(unit_len(toks), toks.len() as int) == (
            if toks.drop_first().len() > 0 && quantifier_of_name(toks.drop_first()[0]) != Quantifier::Once {
                toks.drop_first().drop_first()
            } else {
                toks.drop_first()
            }) by {
                assert(reads_tokens(s0.scanner, toks.drop_first()));
                assert(toks.subrange(1, toks.len() as int) =~= toks.drop_first());
                if toks.len() > 1 {
                    assert(toks.subrange(2, toks.len() as int) =~= toks.drop_first().drop_first());
                }
            }
        }
        let mut character = ParsedRegexp::new(
            ExpressionType::CharacterExpression { value: Some(value), quantifier },
        );
        character.pattern = self.text_since(first);
        Ok(Some(character))
    }

    /// The whole pattern: one expression, and no token left after it.
    fn parse_source(&mut self) -> (r: Result<ParsedRegexp, PatternError>)
        requires
            old(self).wf(),
        ensures
            r is Ok ==> r->Ok_0.wf(),
            ({
                let src = old(self).scanner.source_chars();
                old(self).scanner.cursor() == 0 && !old(self).scanner.empty_asked()
                    && !old(self).scanner.escaped_before() && src.len() > 0 && literal_text(src) is Some
                    ==> r is Ok && is_literal_tree(r->Ok_0, literal_text(src)->0)
            }),
            old(self).scanner.source_chars().len() == 0 && old(self).scanner.cursor() == 0
                && !old(self).scanner.empty_asked() ==> r is Ok && is_literal_tree(r->Ok_0, Seq::empty()),
            structure_only(old(self).scanner.source_chars()) && r is Ok ==> r->Ok_0.matches_only_empty(),
            old(self).scanner.cursor() == 0 && !old(self).scanner.empty_asked() && !old(self).scanner.escaped_before()
                && old(self).scanner.source_chars().len() > 0 && simple_pattern(old(self).scanner.source_chars()) is Some
                ==> r is Ok && is_units_tree(r->Ok_0, simple_pattern(old(self).scanner.source_chars())->0),
            old(self).scanner.cursor() == 0 && !old(self).scanner.empty_asked() && !old(self).scanner.escaped_before()
                && old(self).grouping_marks@.len() == 0 && first_char_error(old(self).scanner.source_chars()) is Some
                ==> r == Err::<ParsedRegexp, PatternError>(first_char_error(old(self).scanner.source_chars())->0),
            single_char_pattern(old(self).scanner.source_chars()) is Some && old(self).scanner.cursor() == 0
                && !old(self).scanner.empty_asked() && !old(self).scanner.escaped_before() ==> r is Ok
                && r->Ok_0.expression_type == single_char_pattern(old(self).scanner.source_chars())->0,
    {
        proof {
            let src = self.scanner.source_chars();
            if self.scanner.cursor() == 0 && !self.scanner.empty_asked() && !self.scanner.escaped_before()
                && src.len() > 0 && literal_text(src) is Some {
                assert(src.subrange(0, src.len() as int) =~= src);
                assert(char_at(src, -1) == '\0');
                lemma_literal_step(src, 0, literal_text(src)->0);
                assert(reads_literally(self.scanner, literal_text(src)->0));
            }
            if self.scanner.cursor() == 0 && !self.scanner.empty_asked() && !self.scanner.escaped_before()
                && src.len() > 0 && simple_pattern(src) is Some {
                assert(src.subrange(0, src.len() as int) =~= src);
                assert(char_at(src, -1) == '\0');
                lemma_simple_step(src, 0, simple_tokens(src)->0);
                assert(reads_tokens(self.scanner, simple_tokens(src)->0));
            }
        }
        self.advance()?;
        match self.parse_expression()? {
            Some(expression) => match &self.current {
                Some(token) => Err(
                    PatternError {
                        kind: ErrorKind::ExpectedExpressionBefore { found: operator_char_of(token.name) },
                        position: token.position,
                    },
                ),
                None => Ok(expression),
            },
            None => Ok(ParsedRegexp::new(ExpressionType::EmptyExpression)),
        }
    }
}

/// Parses a pattern into its syntax tree, or says what is wrong with it. A pattern of
/// literal characters only becomes the tree of the text they spell, the empty pattern
/// the empty expression, a pattern of parentheses and pipes only a tree that matches
/// nothing but the empty string, and a one-character pattern its character node.
pub fn parse(source: &str) -> (r: Result<ParsedRegexp, PatternError>)
    ensures
        r is Ok ==> r->Ok_0.wf(),
        source@.len() > 0 && literal_text(source@) is Some ==> r is Ok && is_literal_tree(
            r->Ok_0,
            literal_text(source@)->0,
        ),
        source@.len() == 0 ==> r is Ok && is_literal_tree(r->Ok_0, Seq::empty()),
        structure_only(source@) && r is Ok ==> r->Ok_0.matches_only_empty(),
        first_char_error(source@) is Some ==> r == Err::<ParsedRegexp, PatternError>(first_char_error(source@)->0),
        source@.len() > 0 && simple_pattern(source@) is Some ==> r is Ok && is_units_tree(
            r->Ok_0,
            simple_pattern(source@)->0,
        ),
        single_char_pattern(source@) is Some ==> r is Ok && r->Ok_0.expression_type == single_char_pattern(
            source@,
        )->0,
{
    Parser::new(source).parse_source()
}

} // verus!
