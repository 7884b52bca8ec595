//! The syntax tree that the parser builds and the matcher walks.

use vstd::prelude::*;
use crate::text::{push_str, string_of};
use crate::tokens::{Token, TokenName};

verus! {

/// How many times a subexpression may repeat. Every quantifier is greedy.
#[derive(Debug, Clone, Copy, PartialEq, Eq, Structural)]
pub enum Quantifier {
    /// exactly once (no quantifier written)
    Once,
    /// `?`
    ZeroOrOne,
    /// `*`
    ZeroOrMore,
    /// `+`
    OneOrMore,
}

/// The quantifier that a token stands for, `Once` for any other token.
pub open spec fn quantifier_of(token: Option<Token>) -> Quantifier {
    match token {
        Some(t) => match t.name {
            TokenName::Mark => Quantifier::ZeroOrOne,
            TokenName::Star => Quantifier::ZeroOrMore,
            TokenName::Plus => Quantifier::OneOrMore,
            _ => Quantifier::Once,
        },
        None => Quantifier::Once,
    }
}

impl<'a> From<&'a Option<Token>> for Quantifier {
    /// The quantifier that the current token stands for.
    fn from(token: &'a Option<Token>) -> (r: Quantifier) {
        match token {
            Some(tok) => match tok.name {
                TokenName::Mark => Quantifier::ZeroOrOne,
                TokenName::Star => Quantifier::ZeroOrMore,
                TokenName::Plus => Quantifier::OneOrMore,
                _ => Quantifier::Once,
            },
            None => Quantifier::Once,
        }
    }
}

impl<'a> vstd::std_specs::convert::FromSpecImpl<&'a Option<Token>> for Quantifier {
    open spec fn obeys_from_spec() -> bool {
        true
    }

    open spec fn from_spec(token: &'a Option<Token>) -> Quantifier {
        quantifier_of(*token)
    }
}

impl Quantifier {
    /// The quantifier as written in a pattern (empty for `Once`).
    pub fn as_str(&self) -> (r: &'static str)
        ensures
            r@ == match self {
                Quantifier::Once => ""@,
                Quantifier::ZeroOrOne => "?"@,
                Quantifier::ZeroOrMore => "*"@,
                Quantifier::OneOrMore => "+"@,
            },
    {
        match self {
            Quantifier::Once => "",
            Quantifier::ZeroOrOne => "?",
            Quantifier::ZeroOrMore => "*",
            Quantifier::OneOrMore => "+",
        }
    }
}

/// The kind of a node of the syntax tree.
#[derive(Debug, Clone, Copy, PartialEq, Eq, Structural)]
pub enum ExpressionType {
    /// Matches the empty string.
    EmptyExpression,
    /// Matches one given character, or any character when `value` is `None` (the dot).
    CharacterExpression { value: Option<char>, quantifier: Quantifier },
    /// Its children, one after another.
    Concatenation,
    /// The first of its children, in order, that matches.
    Alternation,
    /// Its one child, repeated as the quantifier says.
    Group { quantifier: Quantifier },
}

/// A node of the syntax tree, with its children in order.
pub struct ParsedRegexp {
    pub expression_type: ExpressionType,
    /// The text of the pattern that this node was parsed from.
    pub pattern: String,
    pub children: Vec<ParsedRegexp>,
}

/// The character of a node that matches exactly one given character.
pub open spec fn literal_of(node: &ParsedRegexp) -> Option<char> {
    match node.expression_type {
        ExpressionType::CharacterExpression { value: Some(c), quantifier: Quantifier::Once } => Some(c),
        _ => None,
    }
}

/// The tree of a run of literal characters `s`: the empty expression, one literal
/// character, or a concatenation of literal characters.
pub open spec fn is_literal_tree(t: ParsedRegexp, s: Seq<char>) -> bool {
    if s.len() == 0 {
        t.expression_type == ExpressionType::EmptyExpression && t.children@.len() == 0
    } else if s.len() == 1 {
        literal_of(&t) == Some(s[0]) && t.children@.len() == 0
    } else {
        &&& t.expression_type == ExpressionType::Concatenation
        &&& t.children@.len() == s.len()
        &&& forall|i: int|
            0 <= i < s.len() ==> literal_of(&#[trigger] t.children@[i]) == Some(s[i]) && t.children@[i].children@.len()
                == 0
    }
}

impl Clone for ParsedRegexp {
    /// A copy of the whole tree (see `deep_copy`).
    fn clone(&self) -> (r: ParsedRegexp)
        ensures
            r.same_tree(self),
    {
        self.deep_copy()
    }
}

/// Every node of `s` from `k` on is well formed.
pub open spec fn all_wf(s: Seq<ParsedRegexp>, k: nat) -> bool
    decreases s, 0int, s.len() - k,
{
    k >= s.len() || (s[k as int].wf() && all_wf(s, (k + 1) as nat))
}

/// Some node of `s` from `k` on is backtrackable.
pub open spec fn any_backtrackable(s: Seq<ParsedRegexp>, k: nat) -> bool
    decreases s, 0int, s.len() - k,
{
    k < s.len() && (s[k as int].backtrackable() || any_backtrackable(s, (k + 1) as nat))
}

/// Every node of `s` from `k` on matches nothing but the empty string.
pub open spec fn all_only_empty(s: Seq<ParsedRegexp>, k: nat) -> bool
    decreases s, 0int, s.len() - k,
{
    k >= s.len() || (s[k as int].matches_only_empty() && all_only_empty(s, (k + 1) as nat))
}

pub proof fn lemma_all_only_empty(s: Seq<ParsedRegexp>, k: nat)
    requires
        0 <= k <= s.len(),
    ensures
        all_only_empty(s, k) <==> forall|i: int| k <= i < s.len() ==> #[trigger] s[i].matches_only_empty(),
    decreases s.len() - k,
{
    if k < s.len() {
        lemma_all_only_empty(s, (k + 1) as nat);
        assert(all_only_empty(s, k) == (s[k as int].matches_only_empty() && all_only_empty(
            s,
            (k + 1) as nat,
        )));
    }
}

/// From `k` on, the nodes of `s` and `t` are pairwise the same tree.
pub open spec fn same_trees(s: Seq<ParsedRegexp>, t: Seq<ParsedRegexp>, k: nat) -> bool
    decreases s, 0int, s.len() - k,
{
    k >= s.len() || (k < t.len() && s[k as int].same_tree(&t[k as int]) && same_trees(s, t, (k + 1) as nat))
}

pub proof fn lemma_all_wf(s: Seq<ParsedRegexp>, k: nat)
    requires
        0 <= k <= s.len(),
    ensures
        all_wf(s, k) <==> forall|i: int| k <= i < s.len() ==> #[trigger] s[i].wf(),
    decreases s.len() - k,
{
    if k < s.len() {
        lemma_all_wf(s, (k + 1) as nat);
        assert(all_wf(s, k) == (s[k as int].wf() && all_wf(s, (k + 1) as nat)));
    }
}

pub proof fn lemma_same_trees(s: Seq<ParsedRegexp>, t: Seq<ParsedRegexp>, k: nat)
    requires
        0 <= k <= s.len(),
        s.len() == t.len(),
    ensures
        same_trees(s, t, k) <==> forall|i: int| k <= i < s.len() ==> #[trigger] s[i].same_tree(&t[i]),
    decreases s.len() - k,
{
    if k < s.len() {
        lemma_same_trees(s, t, (k + 1) as nat);
        assert(same_trees(s, t, k) == (s[k as int].same_tree(&t[k as int]) && same_trees(
            s,
            t,
            (k + 1) as nat,
        )));
    }
}

/// The lines that `debug_as_strings` gives the first `n` children of a node.
pub open spec fn children_lines(s: Seq<ParsedRegexp>, n: nat) -> Seq<char>
    decreases n,
{
    if n == 0 || n > s.len() {
        Seq::empty()
    } else {
        children_lines(s, (n - 1) as nat) + "    "@ + s[n - 1].pattern@ + ",\n"@
    }
}

impl ParsedRegexp {
    /// A node that can stand in a concatenation: the empty expression, a character,
    /// a dot or a group.
    pub open spec fn is_primary(&self) -> bool {
        match self.expression_type {
            ExpressionType::EmptyExpression => true,
            ExpressionType::CharacterExpression { .. } => true,
            ExpressionType::Group { .. } => true,
            _ => false,
        }
    }

    /// The shape that the grammar gives a tree: leaves have no children, a group has
    /// one, an alternation or a concatenation at least two, and a concatenation's
    /// children are primaries.
    pub open spec fn wf(&self) -> bool
        decreases self, 1int,
    {
        match self.expression_type {
            ExpressionType::EmptyExpression => self.children@.len() == 0,
            ExpressionType::CharacterExpression { .. } => self.children@.len() == 0,
            ExpressionType::Group { .. } => self.children@.len() == 1 && self.children@[0].wf(),
            ExpressionType::Alternation => self.children@.len() >= 2 && all_wf(self.children@, 0),
            ExpressionType::Concatenation => {
                &&& self.children@.len() >= 2
                &&& all_wf(self.children@, 0)
                &&& forall|i: int| 0 <= i < self.children@.len() ==> #[trigger] self.children@[i].is_primary()
            },
        }
    }

    /// Whether the node's match can be contracted: a quantified character or dot, a
    /// quantified group or one whose inner expression can, an alternation or a
    /// concatenation with a child that can.
    pub open spec fn backtrackable(&self) -> bool
        decreases self, 1int,
    {
        match self.expression_type {
            ExpressionType::EmptyExpression => false,
            ExpressionType::CharacterExpression { quantifier, .. } => quantifier != Quantifier::Once,
            ExpressionType::Group { quantifier } => quantifier != Quantifier::Once || (
            self.children@.len() > 0 && self.children@[0].backtrackable()),
            ExpressionType::Alternation => any_backtrackable(self.children@, 0),
            ExpressionType::Concatenation => any_backtrackable(self.children@, 0),
        }
    }

    /// A tree without characters or dots: it can match the empty string only.
    pub open spec fn matches_only_empty(&self) -> bool
        decreases self, 1int,
    {
        match self.expression_type {
            ExpressionType::EmptyExpression => true,
            ExpressionType::CharacterExpression { .. } => false,
            ExpressionType::Group { .. } => self.children@.len() > 0
                && self.children@[0].matches_only_empty(),
            ExpressionType::Alternation => all_only_empty(self.children@, 0),
            ExpressionType::Concatenation => all_only_empty(self.children@, 0),
        }
    }

    /// Two trees with the same kinds, texts and shape.
    pub open spec fn same_tree(&self, other: &ParsedRegexp) -> bool
        decreases self, 1int,
    {
        &&& self.expression_type == other.expression_type
        &&& self.pattern@ == other.pattern@
        &&& self.children@.len() == other.children@.len()
        &&& same_trees(self.children@, other.children@, 0)
    }

    /// A node of the given kind, with no text and no children.
    pub fn new(tag: ExpressionType) -> (r: ParsedRegexp)
        ensures
            r.expression_type == tag,
            r.pattern@.len() == 0,
            r.children@.len() == 0,
    {
        ParsedRegexp { expression_type: tag, pattern: String::new(), children: Vec::new() }
    }

    /// What `debug_as_strings` shows of a node: its text and its children's texts.
    pub open spec fn debug_text(&self) -> Seq<char> {
        "ParsedRegexp {\n"@ + "  pattern: "@ + self.pattern@ + ",\n"@ + "  children = {"@ + if self.children@.len()
            == 0 {
            Seq::empty()
        } else {
            "\n"@ + children_lines(self.children@, self.children@.len())
        } + "  },\n"@ + "}"@
    }

    /// A readable account of the node, its text and its children's texts.
    pub fn debug_as_strings(&self) -> (r: String)
        ensures
            r@ == self.debug_text(),
    {
        let mut out: Vec<char> = Vec::new();
        push_str(&mut out, "ParsedRegexp {\n");
        push_str(&mut out, "  pattern: ");
        push_str(&mut out, self.pattern.as_str());
        push_str(&mut out, ",\n");
        push_str(&mut out, "  children = {");
        let ghost head = out@;
        let mut lines: Vec<char> = Vec::new();
        if self.children.len() > 0 {
            push_str(&mut lines, "\n");
            let ghost newline = lines@;
            let mut i: usize = 0;
            while i < self.children.len()
                invariant
                    i <= self.children@.len(),
                    lines@ == newline + children_lines(self.children@, i as nat),
                decreases self.children@.len() - i,
            {
                push_str(&mut lines, "    ");
                push_str(&mut lines, self.children[i].pattern.as_str());
                push_str(&mut lines, ",\n");
                i += 1;
                proof {
                    assert(lines@ =~= newline + children_lines(self.children@, i as nat));
                }
            }
        }
        let ghost middle = lines@;
        let mut k: usize = 0;
        while k < lines.len()
            invariant
                k <= lines@.len(),
                lines@ == middle,
                out@ == head + middle.subrange(0, k as int),
            decreases lines@.len() - k,
        {
            out.push(lines[k]);
            k += 1;
            proof {
                assert(out@ =~= head + middle.subrange(0, k as int));
            }
        }
        proof {
            assert(middle.subrange(0, middle.len() as int) =~= middle);
        }
        push_str(&mut out, "  },\n");
        push_str(&mut out, "}");
        proof {
            assert(out@ =~= self.debug_text());
        }
        string_of(&out)
    }

    /// The text of the pattern that this node was parsed from.
    pub fn pattern_string(&self) -> (r: String)
        ensures
            r@ == self.pattern@,
    {
        self.pattern.clone()
    }

    /// A copy of the whole tree.
    pub fn deep_copy(&self) -> (r: ParsedRegexp)
        ensures
            r.same_tree(self),
        decreases self,
    {
        let mut children: Vec<ParsedRegexp> = Vec::new();
        let mut i: usize = 0;
        while i < self.children.len()
            invariant
                i <= self.children@.len(),
                children@.len() == i,
                forall|j: int| 0 <= j < i ==> #[trigger] children@[j].same_tree(&self.children@[j]),
            decreases self.children@.len() - i,
        {
            let child = self.children[i].deep_copy();
            children.push(child);
            i += 1;
        }
        let r = ParsedRegexp {
            expression_type: self.expression_type,
            pattern: self.pattern.clone(),
            children,
        };
        proof {
            lemma_same_trees(r.children@, self.children@, 0);
        }
        r
    }

    /// Whether the node can be contracted on backtracking (see `backtrackable`).
    pub fn supports_backtracking(&self) -> (r: bool)
        ensures
            r == self.backtrackable(),
        decreases self,
    {
        match self.expression_type {
            ExpressionType::EmptyExpression => false,
            ExpressionType::CharacterExpression { quantifier, .. } => !matches!(quantifier, Quantifier::Once),
            ExpressionType::Group { quantifier } => {
                if !matches!(quantifier, Quantifier::Once) {
                    true
                } else if self.children.len() > 0 {
                    self.children[0].supports_backtracking()
                } else {
                    false
                }
            },
            ExpressionType::Alternation | ExpressionType::Concatenation => {
                let mut i: usize = 0;
                while i < self.children.len()
                    invariant
                        i <= self.children@.len(),
                        self.backtrackable() == any_backtrackable(self.children@, i as nat),
                    decreases self.children@.len() - i,
                {
                    if self.children[i].supports_backtracking() {
                        return true;
                    }
                    i += 1;
                }
                false
            },
        }
    }
}

} // verus!
