//! The language of a syntax tree: which strings each node can match.

use vstd::prelude::*;
use crate::syntax_tree::{ExpressionType, ParsedRegexp, Quantifier};

verus! {

/// `s` is a run of the character (of any characters for the dot) that the
/// quantifier allows: one, at most one, any number, or at least one.
pub open spec fn char_run(value: Option<char>, quantifier: Quantifier, s: Seq<char>) -> bool {
    &&& forall|i: int| 0 <= i < s.len() ==> value is None || #[trigger] s[i] == value->0
    &&& match quantifier {
        Quantifier::Once => s.len() == 1,
        Quantifier::ZeroOrOne => s.len() <= 1,
        Quantifier::ZeroOrMore => true,
        Quantifier::OneOrMore => s.len() >= 1,
    }
}

/// `s` is in the language of `node`.
pub open spec fn in_lang(node: &ParsedRegexp, s: Seq<char>) -> bool
    decreases node, 3int, 0int, 0int, 0int,
{
    match node.expression_type {
        ExpressionType::EmptyExpression => s.len() == 0,
        ExpressionType::CharacterExpression { value, quantifier } => char_run(value, quantifier, s),
        ExpressionType::Group { quantifier } => node.children@.len() > 0 && match quantifier {
            Quantifier::Once => in_lang(&node.children@[0], s),
            Quantifier::ZeroOrOne => s.len() == 0 || in_lang(&node.children@[0], s),
            Quantifier::ZeroOrMore => star(node, s),
            Quantifier::OneOrMore => if s.len() == 0 {
                in_lang(&node.children@[0], s)
            } else {
                star(node, s)
            },
        },
        ExpressionType::Alternation => any_lang(node, 0, s),
        ExpressionType::Concatenation => concat_lang(node, 0, s),
    }
}

/// `s` is a concatenation of non-empty strings of the language of the group's child.
pub open spec fn star(group: &ParsedRegexp, s: Seq<char>) -> bool
    decreases group, 2int, s.len(), 1int, 0int,
{
    s.len() == 0 || star_from(group, s, 1)
}

/// Some `j` from `from` on splits `s` into a string of the child's language and a
/// string of `star`.
pub open spec fn star_from(group: &ParsedRegexp, s: Seq<char>, from: nat) -> bool
    decreases group, 2int, s.len(), 0int, s.len() - from,
{
    &&& from <= s.len()
    &&& 0 < from
    &&& group.children@.len() > 0
    &&& {
        ||| (in_lang(&group.children@[0], s.subrange(0, from as int)) && star(
            group,
            s.subrange(from as int, s.len() as int),
        ))
        ||| (from < s.len() && star_from(group, s, from + 1))
    }
}

/// `s` is in the language of some child from the `k`-th on.
pub open spec fn any_lang(node: &ParsedRegexp, k: nat, s: Seq<char>) -> bool
    decreases node, 2int, node.children@.len() - k, 0int, 0int,
{
    k < node.children@.len() && (in_lang(&node.children@[k as int], s) || any_lang(node, k + 1, s))
}

/// `s` splits into strings of the languages of the children from the `k`-th on, in order.
pub open spec fn concat_lang(node: &ParsedRegexp, k: nat, s: Seq<char>) -> bool
    decreases node, 2int, node.children@.len() - k, 1int, 0int,
{
    if k >= node.children@.len() {
        s.len() == 0
    } else {
        concat_from(node, k, s, 0)
    }
}

/// Some split point from `from` on gives the `k`-th child a prefix of `s` and the later
/// children the rest.
pub open spec fn concat_from(node: &ParsedRegexp, k: nat, s: Seq<char>, from: nat) -> bool
    decreases node, 2int, node.children@.len() - k, 0int, s.len() - from,
{
    &&& k < node.children@.len()
    &&& from <= s.len()
    &&& {
        ||| (in_lang(&node.children@[k as int], s.subrange(0, from as int)) && concat_lang(
            node,
            k + 1,
            s.subrange(from as int, s.len() as int),
        ))
        ||| (from < s.len() && concat_from(node, k, s, from + 1))
    }
}

/// A child's string is a string of the alternation.
pub proof fn lemma_any_lang(node: &ParsedRegexp, k: nat, i: int, s: Seq<char>)
    requires
        k <= i < node.children@.len(),
        in_lang(&node.children@[i], s),
    ensures
        any_lang(node, k, s),
    decreases i - k,
{
    if k < i {
        lemma_any_lang(node, k + 1, i, s);
    }
    assert(any_lang(node, k, s) == (in_lang(&node.children@[k as int], s) || any_lang(node, k + 1, s)));
}

/// A split point at `j` serves every search that starts at or before `j`.
proof fn lemma_concat_from_below(node: &ParsedRegexp, k: nat, s: Seq<char>, from: nat, j: nat)
    requires
        from <= j <= s.len(),
        k < node.children@.len(),
        in_lang(&node.children@[k as int], s.subrange(0, j as int)),
        concat_lang(node, k + 1, s.subrange(j as int, s.len() as int)),
    ensures
        concat_from(node, k, s, from),
    decreases j - from,
{
    if from < j {
        lemma_concat_from_below(node, k, s, from + 1, j);
    }
}

/// Consecutive strings of the children's languages make a string of the concatenation.
pub proof fn lemma_concat_pieces(node: &ParsedRegexp, t: Seq<char>, bounds: Seq<int>, k: nat)
    requires
        bounds.len() == node.children@.len() + 1,
        k <= node.children@.len(),
        forall|i: int| 0 <= i < bounds.len() ==> 0 <= #[trigger] bounds[i] <= t.len(),
        forall|i: int, j: int| 0 <= i <= j < bounds.len() ==> #[trigger] bounds[i] <= #[trigger] bounds[j],
        forall|i: int|
            0 <= i < node.children@.len() ==> in_lang(
                &node.children@[i],
                #[trigger] t.subrange(bounds[i], bounds[i + 1]),
            ),
    ensures
        concat_lang(node, k, t.subrange(bounds[k as int], bounds[node.children@.len() as int])),
    decreases node.children@.len() - k,
{
    let n = node.children@.len();
    let s = t.subrange(bounds[k as int], bounds[n as int]);
    assert(bounds[k as int] <= bounds[n as int]);
    if k < n {
        lemma_concat_pieces(node, t, bounds, k + 1);
        assert(bounds[k as int] <= bounds[k + 1int]);
        let j = (bounds[k + 1int] - bounds[k as int]) as nat;
        assert(s.subrange(0, j as int) =~= t.subrange(bounds[k as int], bounds[k + 1int]));
        assert(s.subrange(j as int, s.len() as int) =~= t.subrange(bounds[k + 1int], bounds[n as int]));
        assert(in_lang(&node.children@[k as int], t.subrange(bounds[k as int], bounds[k + 1int])));
        lemma_concat_from_below(node, k, s, 0, j);
    } else {
        assert(s.len() == 0);
    }
}

/// A split point at `j` serves every search that starts at or before `j`.
proof fn lemma_star_from_below(group: &ParsedRegexp, s: Seq<char>, from: nat, j: nat)
    requires
        0 < from <= j <= s.len(),
        group.children@.len() > 0,
        in_lang(&group.children@[0], s.subrange(0, j as int)),
        star(group, s.subrange(j as int, s.len() as int)),
    ensures
        star_from(group, s, from),
    decreases j - from,
{
    if from < j {
        lemma_star_from_below(group, s, from + 1, j);
    }
}

/// The split point that `star_from` promises.
proof fn lemma_star_witness(group: &ParsedRegexp, s: Seq<char>, from: nat) -> (j: nat)
    requires
        star_from(group, s, from),
    ensures
        0 < from <= j <= s.len(),
        group.children@.len() > 0,
        in_lang(&group.children@[0], s.subrange(0, j as int)),
        star(group, s.subrange(j as int, s.len() as int)),
    decreases s.len() - from,
{
    if in_lang(&group.children@[0], s.subrange(0, from as int)) && star(
        group,
        s.subrange(from as int, s.len() as int),
    ) {
        from
    } else {
        lemma_star_witness(group, s, from + 1)
    }
}

/// One more non-empty string of the child's language extends a `star` string.
pub proof fn lemma_star_append(group: &ParsedRegexp, a: Seq<char>, b: Seq<char>)
    requires
        group.children@.len() > 0,
        star(group, a),
        b.len() > 0,
        in_lang(&group.children@[0], b),
    ensures
        star(group, a + b),
    decreases a.len(),
{
    if a.len() == 0 {
        assert(a + b =~= b);
        assert(b.subrange(0, b.len() as int) =~= b);
        assert(star(group, b.subrange(b.len() as int, b.len() as int)));
        lemma_star_from_below(group, b, 1, b.len());
    } else {
        let j = lemma_star_witness(group, a, 1);
        let rest = a.subrange(j as int, a.len() as int);
        lemma_star_append(group, rest, b);
        let ab = a + b;
        assert(ab.subrange(0, j as int) =~= a.subrange(0, j as int));
        assert(ab.subrange(j as int, ab.len() as int) =~= rest + b);
        lemma_star_from_below(group, ab, 1, j);
    }
}

} // verus!
