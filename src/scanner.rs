//! Splits a pattern into tokens, one token per request.

use vstd::prelude::*;
use crate::tokens::{Token, TokenName};
use crate::text::{chars_of, string_of};

verus! {

/// The character at `i`, or `'\0'` where `i` lies outside `src`.
pub open spec fn char_at(src: Seq<char>, i: int) -> char {
    if 0 <= i < src.len() {
        src[i]
    } else {
        '\0'
    }
}

/// The characters that `\` can escape: the seven metacharacters and `\` itself.
pub open spec fn is_escapable(c: char) -> bool {
    c == '(' || c == ')' || c == '|' || c == '?' || c == '*' || c == '+' || c == '.' || c == '\\'
}

/// The token kind of a character that stands alone (not part of an escape).
pub open spec fn name_of(c: char) -> TokenName {
    if c == '(' {
        TokenName::LeftParen
    } else if c == ')' {
        TokenName::RightParen
    } else if c == '|' {
        TokenName::Pipe
    } else if c == '?' {
        TokenName::Mark
    } else if c == '*' {
        TokenName::Star
    } else if c == '+' {
        TokenName::Plus
    } else if c == '.' {
        TokenName::Dot
    } else {
        TokenName::Character { value: c, is_escaped_metacharacter: false }
    }
}

/// Whether an `Empty` token belongs at offset `cur` of `src`. `after_escape` tells that
/// the character before `cur` was the operand of a `\`, so that it is no metacharacter.
pub open spec fn empty_due(src: Seq<char>, cur: int, after_escape: bool) -> bool {
    let peek = char_at(src, cur);
    let prev_pipe = !after_escape && char_at(src, cur - 1) == '|';
    let prev_open = !after_escape && char_at(src, cur - 1) == '(';
    ||| src.len() == 0
    ||| (cur == 0 && peek == '|')
    ||| (cur == src.len() && prev_pipe)
    ||| (prev_pipe && peek == '|')
    ||| (prev_open && (peek == '|' || peek == ')'))
    ||| (prev_pipe && peek == ')')
}

/// The text that `src` spells when it holds only literal characters: ordinary ones,
/// and metacharacters or `\` escaped by `\`. `None` when it holds anything else.
pub open spec fn literal_text(src: Seq<char>) -> Option<Seq<char>>
    decreases src.len(),
{
    if src.len() == 0 {
        Some(Seq::empty())
    } else if src[0] == '\\' {
        if src.len() >= 2 && is_escapable(src[1]) {
            match literal_text(src.subrange(2, src.len() as int)) {
                Some(t) => Some(seq![src[1]] + t),
                None => None,
            }
        } else {
            None
        }
    } else if is_escapable(src[0]) {
        None
    } else {
        match literal_text(src.subrange(1, src.len() as int)) {
            Some(t) => Some(seq![src[0]] + t),
            None => None,
        }
    }
}

/// The tokens of a source with no unescaped `(`, `)` or `|` and no trailing `\`:
/// one token per character, or per escape pair. `None` for any other source.
pub open spec fn simple_tokens(src: Seq<char>) -> Option<Seq<TokenName>>
    decreases src.len(),
{
    if src.len() == 0 {
        Some(Seq::empty())
    } else if src[0] == '\\' {
        if src.len() >= 2 && is_escapable(src[1]) {
            match simple_tokens(src.subrange(2, src.len() as int)) {
                Some(t) => Some(seq![TokenName::Character { value: src[1], is_escaped_metacharacter: true }] + t),
                None => None,
            }
        } else {
            None
        }
    } else if src[0] == '(' || src[0] == ')' || src[0] == '|' {
        None
    } else {
        match simple_tokens(src.subrange(1, src.len() as int)) {
            Some(t) => Some(seq![name_of(src[0])] + t),
            None => None,
        }
    }
}

/// One token at the front of a simple source.
pub proof fn lemma_simple_step(src: Seq<char>, cur: int, toks: Seq<TokenName>)
    requires
        0 <= cur <= src.len(),
        simple_tokens(src.subrange(cur, src.len() as int)) == Some(toks),
    ensures
        toks.len() == 0 <==> cur == src.len(),
        cur < src.len() && src[cur] == '\\' ==> cur + 1 < src.len() && is_escapable(src[cur + 1])
            && toks[0] == (TokenName::Character { value: src[cur + 1], is_escaped_metacharacter: true })
            && simple_tokens(src.subrange(cur + 2, src.len() as int)) == Some(toks.drop_first()),
        cur < src.len() && src[cur] != '\\' ==> src[cur] != '(' && src[cur] != ')' && src[cur] != '|'
            && toks[0] == name_of(src[cur]) && simple_tokens(src.subrange(cur + 1, src.len() as int)) == Some(
            toks.drop_first(),
        ),
{
    let tail = src.subrange(cur, src.len() as int);
    if cur < src.len() {
        assert(tail[0] == src[cur]);
        if src[cur] == '\\' {
            assert(tail.subrange(2, tail.len() as int) =~= src.subrange(cur + 2, src.len() as int));
            assert(tail[1] == src[cur + 1]);
            let t = simple_tokens(src.subrange(cur + 2, src.len() as int))->0;
            assert((seq![TokenName::Character { value: src[cur + 1], is_escaped_metacharacter: true }] + t).drop_first() =~= t);
        } else {
            assert(tail.subrange(1, tail.len() as int) =~= src.subrange(cur + 1, src.len() as int));
            let t = simple_tokens(src.subrange(cur + 1, src.len() as int))->0;
            assert((seq![name_of(src[cur])] + t).drop_first() =~= t);
        }
    }
}

/// `src` is made of parentheses and pipes only, so it holds no character to match.
pub open spec fn structure_only(src: Seq<char>) -> bool {
    forall|i: int| 0 <= i < src.len() ==> #[trigger] src[i] == '(' || src[i] == ')' || src[i] == '|'
}

/// One literal character at the front of a literal text.
pub proof fn lemma_literal_step(src: Seq<char>, cur: int, rest: Seq<char>)
    requires
        0 <= cur <= src.len(),
        literal_text(src.subrange(cur, src.len() as int)) == Some(rest),
    ensures
        rest.len() == 0 <==> cur == src.len(),
        cur < src.len() && src[cur] == '\\' ==> cur + 1 < src.len() && is_escapable(src[cur + 1])
            && rest[0] == src[cur + 1] && literal_text(src.subrange(cur + 2, src.len() as int)) == Some(
            rest.drop_first(),
        ),
        cur < src.len() && src[cur] != '\\' ==> !is_escapable(src[cur]) && rest[0] == src[cur]
            && literal_text(src.subrange(cur + 1, src.len() as int)) == Some(rest.drop_first()),
{
    let tail = src.subrange(cur, src.len() as int);
    if cur < src.len() {
        assert(tail[0] == src[cur]);
        if src[cur] == '\\' {
            assert(tail.subrange(2, tail.len() as int) =~= src.subrange(cur + 2, src.len() as int));
            assert(tail[1] == src[cur + 1]);
            let t = literal_text(src.subrange(cur + 2, src.len() as int))->0;
            assert((seq![src[cur + 1]] + t).drop_first() =~= t);
        } else {
            assert(tail.subrange(1, tail.len() as int) =~= src.subrange(cur + 1, src.len() as int));
            let t = literal_text(src.subrange(cur + 1, src.len() as int))->0;
            assert((seq![src[cur]] + t).drop_first() =~= t);
        }
    }
}

/// A `\` with nothing after it, at `position` of the source.
#[derive(Debug, Clone, Copy, PartialEq, Eq, Structural)]
pub struct TrailingEscape {
    pub position: usize,
}

/// A lazy producer of the tokens of a pattern.
pub struct Scanner {
    /// The pattern's characters.
    source: Vec<char>,
    /// Offset of the character to be scanned next.
    current: usize,
    /// Set once the question "is an `Empty` token due here?" has been asked at
    /// `current`, so that at most one `Empty` token comes from one offset.
    found_empty_string: bool,
    /// Set when the character before `current` was the operand of a `\`.
    after_escape: bool,
}

/// The scanner stands between two tokens of a non-empty source that holds only literal
/// characters, and `rest` is the text that is left; the character before it is no
/// unescaped `|` or `(`.
pub open spec fn reads_literally(sc: Scanner, rest: Seq<char>) -> bool {
    let src = sc.source_chars();
    let cur = sc.cursor();
    &&& sc.wf()
    &&& 0 <= cur <= src.len()
    &&& src.len() > 0
    &&& literal_text(src.subrange(cur, src.len() as int)) == Some(rest)
    &&& !sc.empty_asked()
    &&& (sc.escaped_before() || (char_at(src, cur - 1) != '|' && char_at(src, cur - 1) != '('))
}

/// The scanner stands between two tokens of a non-empty simple source (see
/// `simple_tokens`), `toks` are the tokens left, and the character before it is no
/// unescaped `|` or `(`.
pub open spec fn reads_tokens(sc: Scanner, toks: Seq<TokenName>) -> bool {
    let src = sc.source_chars();
    let cur = sc.cursor();
    &&& sc.wf()
    &&& 0 <= cur <= src.len()
    &&& src.len() > 0
    &&& simple_tokens(src.subrange(cur, src.len() as int)) == Some(toks)
    &&& !sc.empty_asked()
    &&& (sc.escaped_before() || (char_at(src, cur - 1) != '|' && char_at(src, cur - 1) != '('))
}

impl Scanner {
    pub closed spec fn source_chars(&self) -> Seq<char> {
        self.source@
    }

    pub closed spec fn cursor(&self) -> int {
        self.current as int
    }

    pub closed spec fn empty_asked(&self) -> bool {
        self.found_empty_string
    }

    pub closed spec fn escaped_before(&self) -> bool {
        self.after_escape
    }

    pub closed spec fn wf(&self) -> bool {
        self.current <= self.source@.len()
    }

    /// A measure that every token handed out makes smaller.
    pub closed spec fn remaining(&self) -> nat {
        (3 * (self.source@.len() - self.current) + if self.found_empty_string {
            0int
        } else {
            1int
        }) as nat
    }

    pub fn new(source: &str) -> (r: Scanner)
        ensures
            r.wf(),
            r.source_chars() == source@,
            r.cursor() == 0,
            !r.empty_asked(),
            !r.escaped_before(),
    {
        Scanner { source: chars_of(source), current: 0, found_empty_string: false, after_escape: false }
    }

    /// The number of characters in the pattern.
    pub fn source_len(&self) -> (r: usize)
        ensures
            r == self.source_chars().len(),
    {
        self.source.len()
    }

    /// The source's characters from offset `from` up to `to`, or nothing where that is
    /// no range of the source.
    pub fn source_text(&self, from: usize, to: usize) -> (r: String)
        ensures
            r@ == if from <= to <= self.source_chars().len() {
                self.source_chars().subrange(from as int, to as int)
            } else {
                Seq::empty()
            },
    {
        let mut text: Vec<char> = Vec::new();
        if from <= to && to <= self.source.len() {
            let mut i: usize = from;
            while i < to
                invariant
                    from <= i <= to <= self.source@.len(),
                    text@ == self.source@.subrange(from as int, i as int),
                decreases to - i,
            {
                text.push(self.source[i]);
                i += 1;
                proof {
                    assert(text@ =~= self.source@.subrange(from as int, i as int));
                }
            }
        }
        string_of(&text)
    }

    /// The pattern this scanner reads.
    pub fn get_source_string(&self) -> (r: String)
        ensures
            r@ == self.source_chars(),
    {
        string_of(&self.source)
    }

    /// The character at `index + offset`, or `'\0'` where that lies outside the source.
    fn get(&self, index: usize, offset: isize) -> (r: char)
        ensures
            r == char_at(self.source@, index + offset),
    {
        if offset < 0 {
            let back: usize = (-(offset + 1)) as usize + 1;
            if index < back {
                return '\0';
            }
            let i = index - back;
            if i < self.source.len() {
                self.source[i]
            } else {
                '\0'
            }
        } else {
            let ahead = offset as usize;
            if index >= self.source.len() || ahead >= self.source.len() - index {
                '\0'
            } else {
                self.source[index + ahead]
            }
        }
    }

    /// Moves one character forward, unless the end is reached.
    fn advance(&mut self)
        requires
            old(self).wf(),
        ensures
            final(self).wf(),
            final(self).source@ == old(self).source@,
            final(self).found_empty_string == old(self).found_empty_string,
            final(self).after_escape == old(self).after_escape,
            final(self).current == if old(self).current < old(self).source@.len() {
                old(self).current + 1
            } else {
                old(self).current as int
            },
    {
        if self.current < self.source.len() {
            self.current += 1;
        }
    }

    /// Whether characters are left to scan.
    fn has_next(&self) -> (r: bool)
        ensures
            r == (self.current < self.source@.len()),
    {
        self.current < self.source.len()
    }

    /// The character before the current one.
    fn previous(&self) -> (r: char)
        ensures
            r == char_at(self.source@, self.current - 1),
    {
        self.get(self.current, -1)
    }

    /// The current character.
    fn peek(&self) -> (r: char)
        ensures
            r == char_at(self.source@, self.current as int),
    {
        self.get(self.current, 0)
    }

    /// The character after the current one.
    fn next_char(&self) -> (r: char)
        ensures
            r == char_at(self.source@, self.current + 1),
    {
        self.get(self.current, 1)
    }
    /// The next token, `Ok(None)` at the end of the source, or an error for a `\`
    /// that ends the source. An `Empty` token is handed out, without moving, where
    /// `empty_due` holds and none was handed out at this offset yet.
    pub fn next(&mut self) -> (r: Result<Option<Token>, TrailingEscape>)
        requires
            old(self).wf(),
        ensures
            final(self).wf(),
            final(self).source_chars() == old(self).source_chars(),
            ({
                let src = old(self).source_chars();
                let cur = old(self).cursor();
                if !old(self).empty_asked() && empty_due(src, cur, old(self).escaped_before()) {
                    &&& r == Ok::<Option<Token>, TrailingEscape>(
                        Some(Token { name: TokenName::Empty, position: cur as usize }),
                    )
                    &&& final(self).cursor() == cur
                    &&& final(self).empty_asked()
                    &&& final(self).escaped_before() == old(self).escaped_before()
                } else if cur >= src.len() {
                    &&& r == Ok::<Option<Token>, TrailingEscape>(None)
                    &&& final(self).cursor() == cur
                    &&& !final(self).empty_asked()
                } else if src[cur] == '\\' && cur + 1 >= src.len() {
                    r == Err::<Option<Token>, TrailingEscape>(TrailingEscape { position: cur as usize })
                } else if src[cur] == '\\' && is_escapable(src[cur + 1]) {
                    &&& r == Ok::<Option<Token>, TrailingEscape>(
                        Some(
                            Token {
                                name: TokenName::Character {
                                    value: src[cur + 1],
                                    is_escaped_metacharacter: true,
                                },
                                position: cur as usize,
                            },
                        ),
                    )
                    &&& final(self).cursor() == cur + 2
                    &&& !final(self).empty_asked()
                    &&& final(self).escaped_before()
                } else {
                    &&& r == Ok::<Option<Token>, TrailingEscape>(
                        Some(Token { name: name_of(src[cur]), position: cur as usize }),
                    )
                    &&& final(self).cursor() == cur + 1
                    &&& !final(self).empty_asked()
                    &&& !final(self).escaped_before()
                }
            }),
            r is Ok && r->Ok_0 is Some ==> final(self).remaining() < old(self).remaining(),
            structure_only(old(self).source_chars()) && r is Ok && r->Ok_0 is Some ==> !(r->Ok_0->0.name is Character)
                && !(r->Ok_0->0.name is Dot),
            forall|toks: Seq<TokenName>| #[trigger]
                reads_tokens(*old(self), toks) ==> if toks.len() == 0 {
                    r == Ok::<Option<Token>, TrailingEscape>(None) && final(self).cursor() == old(self).cursor()
                } else {
                    &&& r is Ok
                    &&& r->Ok_0 is Some
                    &&& r->Ok_0->0.name == toks[0]
                    &&& r->Ok_0->0.name != TokenName::LeftParen
                    &&& r->Ok_0->0.name != TokenName::RightParen
                    &&& reads_tokens(*final(self), toks.drop_first())
                },
            forall|rest: Seq<char>| #[trigger]
                reads_literally(*old(self), rest) ==> if rest.len() == 0 {
                    r == Ok::<Option<Token>, TrailingEscape>(None) && final(self).cursor() == old(self).cursor()
                } else {
                    &&& r is Ok
                    &&& r->Ok_0 is Some
                    &&& r->Ok_0->0.name is Character
                    &&& r->Ok_0->0.name->Character_value == rest[0]
                    &&& reads_literally(*final(self), rest.drop_first())
                },
    {
        proof {
            let src = self.source@;
            let cur = self.current as int;
            let lit = literal_text(src.subrange(cur, src.len() as int));
            if lit is Some {
                lemma_literal_step(src, cur, lit->0);
            }
            let toks = simple_tokens(src.subrange(cur, src.len() as int));
            if toks is Some {
                lemma_simple_step(src, cur, toks->0);
            }
        }
        let peek = self.peek();
        let prev = self.previous();
        if !self.found_empty_string {
            self.found_empty_string = true;
            let prev_pipe = !self.after_escape && prev == '|';
            let prev_open = !self.after_escape && prev == '(';
            if self.source.len() == 0
                || (self.current == 0 && peek == '|')
                || (self.current == self.source.len() && prev_pipe)
                || (prev_pipe && peek == '|')
                || (prev_open && (peek == '|' || peek == ')'))
                || (prev_pipe && peek == ')')
            {
                return Ok(Some(Token { name: TokenName::Empty, position: self.current }));
            }
        }
        self.found_empty_string = false;
        if !self.has_next() {
            return Ok(None);
        }
        let position = self.current;
        let name = match peek {
            '(' => TokenName::LeftParen,
            ')' => TokenName::RightParen,
            '|' => TokenName::Pipe,
            '?' => TokenName::Mark,
            '*' => TokenName::Star,
            '+' => TokenName::Plus,
            '.' => TokenName::Dot,
            '\\' => {
                if self.source.len() - self.current <= 1 {
                    return Err(TrailingEscape { position });
                }
                let operand = self.next_char();
                if operand == '(' || operand == ')' || operand == '|' || operand == '?' || operand
                    == '*' || operand == '+' || operand == '.' || operand == '\\' {
                    self.advance();
                    self.advance();
                    self.after_escape = true;
                    return Ok(
                        Some(
                            Token {
                                name: TokenName::Character {
                                    value: operand,
                                    is_escaped_metacharacter: true,
                                },
                                position,
                            },
                        ),
                    );
                }
                TokenName::Character { value: peek, is_escaped_metacharacter: false }
            },
            _ => TokenName::Character { value: peek, is_escaped_metacharacter: false },
        };
        self.advance();
        self.after_escape = false;
        Ok(Some(Token { name, position }))
    }
}

} // verus!
