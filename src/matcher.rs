//! Matches a parsed pattern against a target, yielding successive
//! non-overlapping match ranges.

use vstd::prelude::*;
use crate::parser::{first_char_error, is_units_tree, parse, simple_pattern, single_char_pattern, PatternError};
use crate::syntax_tree::{
    ExpressionType, ParsedRegexp, Quantifier, is_literal_tree, lemma_all_only_empty, lemma_all_wf,
    literal_of,
};
use crate::language::{char_run, in_lang, lemma_any_lang, lemma_concat_pieces, lemma_star_append, star};
use crate::scanner::{is_escapable, literal_text, structure_only};
use crate::text::{chars_of, string_of};

verus! {

/// A half-open range of character offsets into the target.
pub type Match = std::ops::Range<usize>;

/// What the matcher remembers of the latest match of one backtrackable subexpression,
/// so that its next match can be forced to be shorter.
struct ExpressionBacktrackInfo {
    /// The path from the root to the subexpression: at each level, the index of the
    /// node among its siblings.
    index_sequence: Vec<usize>,
    last_match_start: usize,
    last_match_end: usize,
    /// Set when the latest match was empty, so that it cannot contract any further.
    backtracked_to_last_match_start: bool,
}

/// What an entry records, without its path.
struct EntryView {
    start: usize,
    end: usize,
    exhausted: bool,
}

spec fn entry_view(e: ExpressionBacktrackInfo) -> EntryView {
    EntryView {
        start: e.last_match_start,
        end: e.last_match_end,
        exhausted: e.backtracked_to_last_match_start,
    }
}

/// The entry that the table holds for path `p`: the last one with that path.
spec fn lookup(t: Seq<ExpressionBacktrackInfo>, p: Seq<usize>) -> Option<EntryView>
    decreases t.len(),
{
    if t.len() == 0 {
        None
    } else if t.last().index_sequence@ == p {
        Some(entry_view(t.last()))
    } else {
        lookup(t.drop_last(), p)
    }
}

/// `q` lies in the subtree whose root has path `p`.
spec fn extends(p: Seq<usize>, q: Seq<usize>) -> bool {
    p.len() <= q.len() && q.subrange(0, p.len() as int) == p
}

/// Only entries in the subtree at `p` differ between the two tables.
spec fn table_frame(a: Seq<ExpressionBacktrackInfo>, b: Seq<ExpressionBacktrackInfo>, p: Seq<usize>) -> bool {
    forall|q: Seq<usize>| !extends(p, q) ==> #[trigger] lookup(b, q) == lookup(a, q)
}

spec fn entries_bounded(t: Seq<ExpressionBacktrackInfo>, len: nat) -> bool {
    forall|i: int|
        0 <= i < t.len() ==> #[trigger] t[i].last_match_start <= t[i].last_match_end && t[i].last_match_end
            <= len
}

proof fn lemma_lookup_bounded(t: Seq<ExpressionBacktrackInfo>, p: Seq<usize>, len: nat)
    requires
        entries_bounded(t, len),
    ensures
        lookup(t, p) is Some ==> lookup(t, p)->0.start <= lookup(t, p)->0.end <= len,
    decreases t.len(),
{
    if t.len() > 0 && t.last().index_sequence@ != p {
        assert(entries_bounded(t.drop_last(), len));
        lemma_lookup_bounded(t.drop_last(), p, len);
    }
}

proof fn lemma_lookup_push(t: Seq<ExpressionBacktrackInfo>, e: ExpressionBacktrackInfo, q: Seq<usize>)
    ensures
        lookup(t.push(e), q) == if q == e.index_sequence@ {
            Some(entry_view(e))
        } else {
            lookup(t, q)
        },
{
    assert(t.push(e).drop_last() =~= t);
}

proof fn lemma_lookup_update(
    t: Seq<ExpressionBacktrackInfo>,
    i: int,
    e: ExpressionBacktrackInfo,
    q: Seq<usize>,
)
    requires
        0 <= i < t.len(),
        e.index_sequence@ == t[i].index_sequence@,
        forall|j: int| i < j < t.len() ==> #[trigger] t[j].index_sequence@ != t[i].index_sequence@,
    ensures
        lookup(t.update(i, e), q) == if q == e.index_sequence@ {
            Some(entry_view(e))
        } else {
            lookup(t, q)
        },
    decreases t.len(),
{
    let u = t.update(i, e);
    if i < t.len() - 1 {
        assert(u.drop_last() =~= t.drop_last().update(i, e));
        assert(u.last() == t.last());
        if u.last().index_sequence@ != q {
            lemma_lookup_update(t.drop_last(), i, e, q);
        }
    } else {
        assert(u.drop_last() =~= t.drop_last());
    }
}

/// The lexicographic order on paths; a path comes before the paths that extend it.
spec fn path_lt(a: Seq<usize>, b: Seq<usize>) -> bool
    decreases a.len(),
{
    if a.len() == 0 {
        b.len() > 0
    } else if b.len() == 0 {
        false
    } else if a[0] != b[0] {
        a[0] < b[0]
    } else {
        path_lt(a.drop_first(), b.drop_first())
    }
}

/// The table's paths strictly increase, so that each path has at most one entry.
spec fn sorted(t: Seq<ExpressionBacktrackInfo>) -> bool {
    forall|i: int, j: int|
        0 <= i < j < t.len() ==> path_lt(#[trigger] t[i].index_sequence@, #[trigger] t[j].index_sequence@)
}

proof fn lemma_path_lt_irreflexive(a: Seq<usize>)
    ensures
        !path_lt(a, a),
    decreases a.len(),
{
    if a.len() > 0 {
        lemma_path_lt_irreflexive(a.drop_first());
    }
}

proof fn lemma_path_lt_transitive(a: Seq<usize>, b: Seq<usize>, c: Seq<usize>)
    requires
        path_lt(a, b),
        path_lt(b, c),
    ensures
        path_lt(a, c),
    decreases a.len(),
{
    if a.len() > 0 && b.len() > 0 && c.len() > 0 && a[0] == b[0] && b[0] == c[0] {
        lemma_path_lt_transitive(a.drop_first(), b.drop_first(), c.drop_first());
    }
}

proof fn lemma_path_lt_total(a: Seq<usize>, b: Seq<usize>)
    ensures
        a == b || path_lt(a, b) || path_lt(b, a),
    decreases a.len(),
{
    if a.len() > 0 && b.len() > 0 && a[0] == b[0] {
        lemma_path_lt_total(a.drop_first(), b.drop_first());
        if a.drop_first() == b.drop_first() {
            assert(a =~= seq![a[0]] + a.drop_first());
            assert(b =~= seq![b[0]] + b.drop_first());
        }
    } else if a.len() == 0 && b.len() == 0 {
        assert(a =~= b);
    }
}

/// Paths that agree on their first `k` indices compare as their rests do.
proof fn lemma_path_lt_skip(a: Seq<usize>, b: Seq<usize>, k: int)
    requires
        0 <= k <= a.len(),
        k <= b.len(),
        a.subrange(0, k) == b.subrange(0, k),
    ensures
        path_lt(a, b) == path_lt(a.subrange(k, a.len() as int), b.subrange(k, b.len() as int)),
    decreases k,
{
    if k == 0 {
        assert(a.subrange(0, a.len() as int) =~= a);
        assert(b.subrange(0, b.len() as int) =~= b);
    } else {
        assert(a[0] == a.subrange(0, k)[0]);
        assert(b[0] == b.subrange(0, k)[0]);
        assert(a.drop_first().subrange(0, k - 1) =~= a.subrange(0, k).drop_first());
        assert(b.drop_first().subrange(0, k - 1) =~= b.subrange(0, k).drop_first());
        lemma_path_lt_skip(a.drop_first(), b.drop_first(), k - 1);
        assert(a.drop_first().subrange(k - 1, a.len() - 1) =~= a.subrange(k, a.len() as int));
        assert(b.drop_first().subrange(k - 1, b.len() - 1) =~= b.subrange(k, b.len() as int));
    }
}

/// In a sorted table the entry with a path is the only one with it.
proof fn lemma_sorted_lookup(t: Seq<ExpressionBacktrackInfo>, i: int)
    requires
        sorted(t),
        0 <= i < t.len(),
    ensures
        lookup(t, t[i].index_sequence@) == Some(entry_view(t[i])),
        forall|j: int| 0 <= j < t.len() && j != i ==> #[trigger] t[j].index_sequence@ != t[i].index_sequence@,
    decreases t.len(),
{
    assert forall|j: int| 0 <= j < t.len() && j != i implies #[trigger] t[j].index_sequence@
        != t[i].index_sequence@ by {
        lemma_path_lt_irreflexive(t[i].index_sequence@);
    }
    if i < t.len() - 1 {
        assert(sorted(t.drop_last()));
        lemma_sorted_lookup(t.drop_last(), i);
    }
}

/// A path that no entry has is not in the table.
proof fn lemma_lookup_absent(t: Seq<ExpressionBacktrackInfo>, p: Seq<usize>)
    requires
        forall|j: int| 0 <= j < t.len() ==> #[trigger] t[j].index_sequence@ != p,
    ensures
        lookup(t, p) is None,
    decreases t.len(),
{
    if t.len() > 0 {
        lemma_lookup_absent(t.drop_last(), p);
    }
}

/// Inserting an entry with a new path adds exactly that path.
proof fn lemma_lookup_insert(t: Seq<ExpressionBacktrackInfo>, k: int, e: ExpressionBacktrackInfo, q: Seq<usize>)
    requires
        0 <= k <= t.len(),
        forall|j: int| 0 <= j < t.len() ==> #[trigger] t[j].index_sequence@ != e.index_sequence@,
    ensures
        lookup(t.insert(k, e), q) == if q == e.index_sequence@ {
            Some(entry_view(e))
        } else {
            lookup(t, q)
        },
    decreases t.len(),
{
    let u = t.insert(k, e);
    if k == t.len() {
        assert(u =~= t.push(e));
        lemma_lookup_push(t, e, q);
    } else {
        assert(u.last() == t.last());
        assert(u.drop_last() =~= t.drop_last().insert(k, e));
        if t.last().index_sequence@ != q {
            lemma_lookup_insert(t.drop_last(), k, e, q);
        }
    }
}

/// An entry inserted where its path belongs keeps the table sorted and bounded.
proof fn lemma_insert_in_order(t: Seq<ExpressionBacktrackInfo>, k: int, e: ExpressionBacktrackInfo, len: nat)
    requires
        sorted(t),
        entries_bounded(t, len),
        0 <= k <= t.len(),
        e.last_match_start <= e.last_match_end <= len,
        forall|j: int| 0 <= j < k ==> path_lt(#[trigger] t[j].index_sequence@, e.index_sequence@),
        forall|j: int| k <= j < t.len() ==> path_lt(e.index_sequence@, #[trigger] t[j].index_sequence@),
    ensures
        sorted(t.insert(k, e)),
        entries_bounded(t.insert(k, e), len),
{
    let u = t.insert(k, e);
    assert forall|x: int| 0 <= x < u.len() implies #[trigger] u[x].last_match_start <= u[x].last_match_end
        && u[x].last_match_end <= len by {
        if x > k {
            assert(u[x] == t[x - 1]);
        } else if x < k {
            assert(u[x] == t[x]);
        } else {
            assert(u[x] == e);
        }
    }
    assert forall|x: int, y: int| 0 <= x < y < u.len() implies path_lt(
        #[trigger] u[x].index_sequence@,
        #[trigger] u[y].index_sequence@,
    ) by {
        if y < k {
            assert(u[x] == t[x] && u[y] == t[y]);
        } else if y == k {
            assert(u[x] == t[x] && u[y] == e);
        } else if x < k {
            assert(u[x] == t[x] && u[y] == t[y - 1]);
            lemma_path_lt_transitive(t[x].index_sequence@, e.index_sequence@, t[y - 1].index_sequence@);
        } else if x == k {
            assert(u[x] == e && u[y] == t[y - 1]);
        } else {
            assert(u[x] == t[x - 1] && u[y] == t[y - 1]);
        }
    }
}

/// Two sibling paths under one parent do not extend one another.
proof fn lemma_siblings_apart(prefix: Seq<usize>, a: usize, b: usize)
    requires
        a != b,
    ensures
        !extends(prefix.push(a), prefix.push(b)),
{
    let q = prefix.push(b);
    if extends(prefix.push(a), q) {
        assert(q.subrange(0, q.len() as int) =~= q);
        assert(q[prefix.len() as int] == b);
        assert(prefix.push(a)[prefix.len() as int] == a);
    }
}

/// A path extends the path of its child only if it also extends the parent.
proof fn lemma_extends_child(p: Seq<usize>, k: usize, q: Seq<usize>)
    ensures
        extends(p.push(k), q) ==> extends(p, q),
{
    if extends(p.push(k), q) {
        assert(q.subrange(0, p.len() as int) =~= q.subrange(0, p.len() + 1int).subrange(
            0,
            p.len() as int,
        ));
        assert(p.push(k).subrange(0, p.len() as int) =~= p);
    }
}

/// A path extends itself and the paths of its children.
proof fn lemma_extends_self(p: Seq<usize>, k: usize)
    ensures
        extends(p, p),
        extends(p, p.push(k)),
        p.push(k).drop_last() == p,
{
    assert(p.subrange(0, p.len() as int) =~= p);
    assert(p.push(k).subrange(0, p.len() as int) =~= p);
    assert(p.push(k).drop_last() =~= p);
}

/// No entry lies in the subtree at `p`.
spec fn clean(t: Seq<ExpressionBacktrackInfo>, p: Seq<usize>) -> bool {
    forall|q: Seq<usize>| extends(p, q) ==> #[trigger] lookup(t, q) is None
}

proof fn lemma_clean_child(t: Seq<ExpressionBacktrackInfo>, p: Seq<usize>, k: usize)
    requires
        clean(t, p),
    ensures
        clean(t, p.push(k)),
{
    assert forall|q: Seq<usize>| extends(p.push(k), q) implies #[trigger] lookup(t, q) is None by {
        lemma_extends_child(p, k, q);
    }
}

/// A path in the subtree of one child lies outside the subtree of its sibling.
proof fn lemma_subtrees_apart(prefix: Seq<usize>, a: usize, b: usize, q: Seq<usize>)
    requires
        a != b,
        extends(prefix.push(a), q),
    ensures
        !extends(prefix.push(b), q),
{
    let n = prefix.len() + 1;
    assert(q.subrange(0, n as int)[prefix.len() as int] == a);
    if extends(prefix.push(b), q) {
        assert(q.subrange(0, n as int)[prefix.len() as int] == b);
    }
}

/// A path never extends a longer one.
proof fn lemma_extends_shorter(p: Seq<usize>, q: Seq<usize>)
    requires
        q.len() < p.len(),
    ensures
        !extends(p, q),
{
}

/// What every matching step keeps: the target, the pattern and the path are
/// unchanged, entries change only inside the subtree at the path, and the step
/// either matches `[old cursor, new cursor)` or fails with the cursor where it was.
spec fn step_ok(a: Matcher, b: Matcher, r: Option<Match>) -> bool {
    &&& b.ready()
    &&& b.target == a.target
    &&& b.pattern == a.pattern
    &&& b.matched_trailing_empty_string == a.matched_trailing_empty_string
    &&& b.path() == a.path()
    &&& table_frame(a.table(), b.table(), a.path())
    &&& r is Some ==> r->0.start == a.pos && r->0.end == b.pos && a.pos <= b.pos
    &&& r is None ==> b.pos == a.pos
}

/// A run of `value` cannot go on past `end`: the target ends there, or holds another
/// character.
pub open spec fn run_ends(value: Option<char>, target: Seq<char>, end: int) -> bool {
    end == target.len() || (value is Some && target[end] != value->0)
}

/// Where the run of a character or dot at `pos` must stop: one past `pos` for `x` and
/// `x?`, the target's end for `x*` and `x+`; with an entry (of its latest match ending
/// at `end`), just before `end`, and still at most one past `pos` for `x?`.
pub open spec fn char_bound(quantifier: Quantifier, entry_end: Option<usize>, pos: int, len: int) -> int {
    let one = if pos < len {
        pos + 1
    } else {
        pos
    };
    let at_most_one = quantifier == Quantifier::Once || quantifier == Quantifier::ZeroOrOne;
    if quantifier != Quantifier::Once && entry_end is Some {
        let shorter = if entry_end->0 > 0 {
            entry_end->0 - 1
        } else {
            0
        };
        if at_most_one && shorter > one {
            one
        } else {
            shorter
        }
    } else if at_most_one {
        one
    } else {
        len
    }
}

/// The end of the run of `value` (of any character for the dot) that starts at `from`
/// and stops at `bound`, at the target's end, or at another character.
pub open spec fn run_end(value: Option<char>, t: Seq<char>, from: int, bound: int) -> int
    decreases t.len() - from,
{
    if 0 <= from < t.len() && from < bound && (value is None || t[from] == value->0) {
        run_end(value, t, from + 1, bound)
    } else {
        from
    }
}

/// The match of a character or dot at `pos`: the whole run up to the bound; an empty
/// run fails for `x` and `x+` and is the empty match for `x?` and `x*`.
pub open spec fn char_outcome(value: Option<char>, quantifier: Quantifier, t: Seq<char>, pos: int, bound: int) -> Option<Match> {
    let e = run_end(value, t, pos, bound);
    if e == pos {
        if quantifier == Quantifier::Once || quantifier == Quantifier::OneOrMore {
            None
        } else {
            Some(Match { start: pos as usize, end: pos as usize })
        }
    } else {
        Some(Match { start: pos as usize, end: e as usize })
    }
}

/// The leftmost match of a lone character or dot from offset `p` on (up to and
/// including the target's length), or `None` when it matches nowhere there.
pub open spec fn first_char_match(value: Option<char>, quantifier: Quantifier, t: Seq<char>, p: int) -> Option<Match>
    decreases t.len() + 1 - p,
{
    if p < 0 || p > t.len() {
        None
    } else {
        let o = char_outcome(value, quantifier, t, p, char_bound(quantifier, None, p, t.len() as int));
        if o is Some {
            o
        } else {
            first_char_match(value, quantifier, t, p + 1)
        }
    }
}

/// The end of the entry for the subexpression being matched, if it has one.
spec fn entry_end(a: Matcher) -> Option<usize> {
    match a.entry() {
        Some(e) => Some(e.end),
        None => None,
    }
}

/// A character or dot matches exactly as `char_outcome` says: with no quantifier, the
/// one character at the cursor when it fits; with `*` or `+` and no entry, the whole run.
spec fn char_exact(node: ParsedRegexp, a: Matcher, r: Option<Match>) -> bool {
    match node.expression_type {
        ExpressionType::CharacterExpression { value, quantifier } => {
            &&& r == char_outcome(
                value,
                quantifier,
                a.target@,
                a.pos as int,
                char_bound(quantifier, entry_end(a), a.pos as int, a.target@.len() as int),
            )
            &&& quantifier == Quantifier::Once ==> r == if a.pos < a.target@.len() && (value is None
                || a.target@[a.pos as int] == value->0) {
                Some(Match { start: a.pos, end: (a.pos + 1) as usize })
            } else {
                None::<Match>
            }
            &&& (quantifier == Quantifier::ZeroOrMore || quantifier == Quantifier::OneOrMore) && a.entry() is None
                && r is Some ==> run_ends(value, a.target@, r->0.end as int)
        },
        _ => true,
    }
}

/// `node` is a concatenation of literal characters that the target spells out at the
/// cursor.
spec fn literals_fit(node: ParsedRegexp, a: Matcher) -> bool {
    &&& node.expression_type == ExpressionType::Concatenation
    &&& a.pos + node.children@.len() <= a.target@.len()
    &&& forall|i: int|
        0 <= i < node.children@.len() ==> literal_of(&#[trigger] node.children@[i]) == Some(
            a.target@[a.pos + i],
        )
}

/// `node` is an alternation whose first branch is a literal character, and that
/// character is at the cursor.
spec fn first_literal_fits(node: ParsedRegexp, a: Matcher) -> bool {
    &&& node.expression_type == ExpressionType::Alternation
    &&& node.children@.len() > 0
    &&& literal_of(&node.children@[0]) is Some
    &&& a.pos < a.target@.len()
    &&& a.target@[a.pos as int] == literal_of(&node.children@[0])->0
}

/// A match of `node` is a string of its language.
spec fn sound(node: ParsedRegexp, a: Matcher, r: Option<Match>) -> bool {
    r is Some ==> in_lang(&node, a.target@.subrange(r->0.start as int, r->0.end as int))
}

/// A subexpression that matches only the empty string never yields a longer match,
/// and it matches where no entry of its subtree is in the table yet.
spec fn only_empty_ok(node: ParsedRegexp, a: Matcher, r: Option<Match>) -> bool {
    node.matches_only_empty() ==> (r is Some ==> r->0.start == r->0.end) && (clean(a.table(), a.path())
        ==> r is Some)
}

/// A match of a subexpression that has an entry ends before the entry's end, or is
/// empty.
spec fn within_entry_bound(a: Matcher, r: Option<Match>) -> bool {
    a.entry() is Some && r is Some ==> r->0.end <= a.pos || r->0.end + 1 <= a.entry()->0.end
}

spec fn pw(b: nat, e: nat) -> nat
    decreases e,
{
    if e == 0 {
        1
    } else {
        b * pw(b, (e - 1) as nat)
    }
}

/// The digits `f(lo), ..., f(n - 1)` read as a number in base `b`.
spec fn lex(f: spec_fn(int) -> nat, lo: int, n: int, b: nat) -> nat
    decreases n - lo,
{
    if lo >= n {
        0
    } else {
        f(lo) * pw(b, (n - 1 - lo) as nat) + lex(f, lo + 1, n, b)
    }
}

proof fn lemma_lex_bound(f: spec_fn(int) -> nat, lo: int, n: int, b: nat)
    requires
        lo <= n,
        forall|k: int| lo <= k < n ==> #[trigger] f(k) < b,
    ensures
        lex(f, lo, n, b) < pw(b, (n - lo) as nat),
    decreases n - lo,
{
    if lo < n {
        lemma_lex_bound(f, lo + 1, n, b);
        let p = pw(b, (n - 1 - lo) as nat);
        assert(f(lo) < b);
        assert((f(lo) + 1) * p <= b * p) by (nonlinear_arith)
            requires
                f(lo) + 1 <= b,
        ;
        assert(pw(b, (n - lo) as nat) == b * p);
        assert(f(lo) * p + p == (f(lo) + 1) * p) by (nonlinear_arith);
        assert(lex(f, lo, n, b) == f(lo) * p + lex(f, lo + 1, n, b));
    }
}

/// A number whose first differing digit is smaller is smaller.
proof fn lemma_lex_lt(f: spec_fn(int) -> nat, g: spec_fn(int) -> nat, lo: int, n: int, b: nat, j: int)
    requires
        lo <= j < n,
        forall|k: int| lo <= k < j ==> #[trigger] f(k) == g(k),
        f(j) < g(j),
        forall|k: int| lo <= k < n ==> #[trigger] f(k) < b,
        forall|k: int| lo <= k < n ==> #[trigger] g(k) < b,
    ensures
        lex(f, lo, n, b) < lex(g, lo, n, b),
    decreases j - lo,
{
    if lo < j {
        lemma_lex_lt(f, g, lo + 1, n, b, j);
        assert(f(lo) == g(lo));
    } else {
        lemma_lex_bound(f, j + 1, n, b);
        let p = pw(b, (n - 1 - j) as nat);
        assert(f(j) * p + p <= g(j) * p) by (nonlinear_arith)
            requires
                f(j) + 1 <= g(j),
        ;
    }
}

/// What a concatenation's `k`-th child contributes to its progress measure. A child
/// before `idx` counts its entry's end (less when exhausted); the child at `idx`,
/// when resumed for a shorter match, counts just under its entry; later children
/// count the most.
spec fn slot(
    t: Seq<ExpressionBacktrackInfo>,
    prefix: Seq<usize>,
    known: Seq<bool>,
    idx: int,
    resumed: bool,
    len: nat,
    k: int,
) -> nat {
    let e = lookup(t, prefix.push(k as usize));
    if k < idx {
        if known[k] && e is Some {
            (4 * e->0.end + if e->0.exhausted {
                1int
            } else {
                3int
            }) as nat
        } else {
            0
        }
    } else if k == idx && resumed && e is Some {
        (4 * e->0.end + 2) as nat
    } else {
        4 * len + 4
    }
}

/// The progress measure of a concatenation's loop over its `n` children.
spec fn concat_measure(
    t: Seq<ExpressionBacktrackInfo>,
    prefix: Seq<usize>,
    known: Seq<bool>,
    idx: int,
    resumed: bool,
    len: nat,
    n: int,
) -> nat {
    lex(|k: int| slot(t, prefix, known, idx, resumed, len, k), 0, n, 4 * len + 5)
}

proof fn lemma_concat_measure_lt(
    t1: Seq<ExpressionBacktrackInfo>,
    known1: Seq<bool>,
    idx1: int,
    resumed1: bool,
    t0: Seq<ExpressionBacktrackInfo>,
    known0: Seq<bool>,
    idx0: int,
    resumed0: bool,
    prefix: Seq<usize>,
    len: nat,
    n: int,
    j: int,
)
    requires
        0 <= j < n,
        forall|k: int|
            0 <= k < j ==> #[trigger] slot(t1, prefix, known1, idx1, resumed1, len, k) == slot(
                t0,
                prefix,
                known0,
                idx0,
                resumed0,
                len,
                k,
            ),
        slot(t1, prefix, known1, idx1, resumed1, len, j) < slot(t0, prefix, known0, idx0, resumed0, len, j),
        forall|k: int| 0 <= k < n ==> #[trigger] slot(t1, prefix, known1, idx1, resumed1, len, k) < 4 * len + 5,
        forall|k: int| 0 <= k < n ==> #[trigger] slot(t0, prefix, known0, idx0, resumed0, len, k) < 4 * len + 5,
    ensures
        concat_measure(t1, prefix, known1, idx1, resumed1, len, n) < concat_measure(
            t0,
            prefix,
            known0,
            idx0,
            resumed0,
            len,
            n,
        ),
{
    let f = |k: int| slot(t1, prefix, known1, idx1, resumed1, len, k);
    let g = |k: int| slot(t0, prefix, known0, idx0, resumed0, len, k);
    lemma_lex_lt(f, g, 0, n, 4 * len + 5, j);
}

/// Every slot is a digit in base `4 * len + 5`.
proof fn lemma_slot_bounded(
    t: Seq<ExpressionBacktrackInfo>,
    prefix: Seq<usize>,
    known: Seq<bool>,
    idx: int,
    resumed: bool,
    len: nat,
    n: int,
)
    requires
        entries_bounded(t, len),
        known.len() == n,
    ensures
        forall|k: int| 0 <= k < n ==> #[trigger] slot(t, prefix, known, idx, resumed, len, k) < 4 * len + 5,
{
    assert forall|k: int| 0 <= k < n implies #[trigger] slot(t, prefix, known, idx, resumed, len, k) < 4
        * len + 5 by {
        lemma_lookup_bounded(t, prefix.push(k as usize), len);
    }
}

/// `s` with a `\` put before each metacharacter and each `\`.
pub open spec fn escaped(s: Seq<char>) -> Seq<char>
    decreases s.len(),
{
    if s.len() == 0 {
        Seq::empty()
    } else if is_escapable(s.last()) {
        escaped(s.drop_last()) + seq!['\\', s.last()]
    } else {
        escaped(s.drop_last()).push(s.last())
    }
}

/// Literal texts put one after the other spell their texts one after the other.
proof fn lemma_literal_concat(a: Seq<char>, b: Seq<char>)
    requires
        literal_text(a) is Some,
        literal_text(b) is Some,
    ensures
        literal_text(a + b) == Some(literal_text(a)->0 + literal_text(b)->0),
    decreases a.len(),
{
    if a.len() == 0 {
        assert(a + b =~= b);
        assert(literal_text(a)->0 =~= Seq::<char>::empty());
        assert(Seq::<char>::empty() + literal_text(b)->0 =~= literal_text(b)->0);
    } else {
        let ab = a + b;
        assert(ab[0] == a[0]);
        if a[0] == '\\' {
            assert(ab[1] == a[1]);
            let a2 = a.subrange(2, a.len() as int);
            assert(ab.subrange(2, ab.len() as int) =~= a2 + b);
            lemma_literal_concat(a2, b);
            assert(seq![a[1]] + literal_text(a2)->0 + literal_text(b)->0 =~= seq![a[1]] + (literal_text(a2)->0
                + literal_text(b)->0));
        } else {
            let a1 = a.subrange(1, a.len() as int);
            assert(ab.subrange(1, ab.len() as int) =~= a1 + b);
            lemma_literal_concat(a1, b);
            assert(seq![a[0]] + literal_text(a1)->0 + literal_text(b)->0 =~= seq![a[0]] + (literal_text(a1)->0
                + literal_text(b)->0));
        }
    }
}

/// An escaped text holds literal characters only, and spells the text it escapes.
pub proof fn lemma_escaped_is_literal(s: Seq<char>)
    ensures
        literal_text(escaped(s)) == Some(s),
        escaped(s).len() >= s.len(),
    decreases s.len(),
{
    if s.len() > 0 {
        let c = s.last();
        lemma_escaped_is_literal(s.drop_last());
        let one = if is_escapable(c) {
            seq!['\\', c]
        } else {
            seq![c]
        };
        if is_escapable(c) {
            assert(one.subrange(2, 2) =~= Seq::<char>::empty());
            assert(literal_text(one.subrange(2, 2)) == Some(Seq::<char>::empty()));
            assert(literal_text(one) == Some(seq![c] + Seq::<char>::empty()));
        } else {
            assert(one.subrange(1, 1) =~= Seq::<char>::empty());
            assert(literal_text(one.subrange(1, 1)) == Some(Seq::<char>::empty()));
            assert(literal_text(one) == Some(seq![c] + Seq::<char>::empty()));
        }
        assert(seq![c] + Seq::<char>::empty() =~= seq![c]);
        lemma_literal_concat(escaped(s.drop_last()), one);
        assert(s.drop_last() + seq![c] =~= s);
        if is_escapable(c) {
            assert(escaped(s) == escaped(s.drop_last()) + one);
        } else {
            assert(escaped(s) =~= escaped(s.drop_last()) + one);
        }
    }
}

/// Escapes every metacharacter of `pattern` (and every `\`) with a `\`, so that the
/// result, as a pattern, matches `pattern` literally.
pub fn escape(pattern: &str) -> (r: String)
    ensures
        r@ == escaped(pattern@),
{
    let chars = chars_of(pattern);
    let mut out: Vec<char> = Vec::new();
    let mut i: usize = 0;
    while i < chars.len()
        invariant
            i <= chars@.len(),
            chars@ == pattern@,
            out@ == escaped(chars@.subrange(0, i as int)),
        decreases chars@.len() - i,
    {
        let ch = chars[i];
        proof {
            let t = chars@.subrange(0, i + 1);
            assert(t.drop_last() =~= chars@.subrange(0, i as int));
            assert(t.last() == ch);
        }
        if ch == '(' || ch == ')' || ch == '|' || ch == '?' || ch == '*' || ch == '+' || ch == '.' || ch
            == '\\' {
            out.push('\\');
            proof {
                let t = chars@.subrange(0, i as int);
                assert(out@ =~= escaped(t).push('\\'));
            }
            out.push(ch);
            proof {
                let t = chars@.subrange(0, i as int);
                assert(out@ =~= escaped(t) + seq!['\\', ch]);
            }
        } else {
            out.push(ch);
        }
        i += 1;
    }
    proof {
        assert(chars@.subrange(0, chars@.len() as int) =~= chars@);
    }
    string_of(&out)
}

/// The table as a map from path to entry.
spec fn tmap(t: Seq<ExpressionBacktrackInfo>) -> Map<Seq<usize>, EntryView> {
    Map::new(|p: Seq<usize>| lookup(t, p) is Some, |p: Seq<usize>| lookup(t, p)->0)
}

/// What one matching step gives: the match (if any), the cursor after it, and the table.
struct Outcome {
    result: Option<Match>,
    pos: nat,
    table: Map<Seq<usize>, EntryView>,
}

/// The end of the entry at `path`, if there is one.
spec fn entry_end_at(table: Map<Seq<usize>, EntryView>, path: Seq<usize>) -> Option<usize> {
    if table.contains_key(path) {
        Some(table[path].end)
    } else {
        None
    }
}

/// `slot` over the table seen as a map.
spec fn slot_m(
    table: Map<Seq<usize>, EntryView>,
    prefix: Seq<usize>,
    known: Seq<bool>,
    idx: int,
    resumed: bool,
    len: nat,
    k: int,
) -> nat {
    let p = prefix.push(k as usize);
    if k < idx {
        if known[k] && table.contains_key(p) {
            (4 * table[p].end + if table[p].exhausted {
                1int
            } else {
                3int
            }) as nat
        } else {
            0
        }
    } else if k == idx && resumed && table.contains_key(p) {
        (4 * table[p].end + 2) as nat
    } else {
        4 * len + 4
    }
}

spec fn concat_measure_m(
    table: Map<Seq<usize>, EntryView>,
    prefix: Seq<usize>,
    known: Seq<bool>,
    idx: int,
    resumed: bool,
    len: nat,
    n: int,
) -> nat {
    lex(|k: int| slot_m(table, prefix, known, idx, resumed, len, k), 0, n, 4 * len + 5)
}

proof fn lemma_measure_map(
    t: Seq<ExpressionBacktrackInfo>,
    prefix: Seq<usize>,
    known: Seq<bool>,
    idx: int,
    resumed: bool,
    len: nat,
    n: int,
)
    ensures
        concat_measure(t, prefix, known, idx, resumed, len, n) == concat_measure_m(tmap(t), prefix, known, idx, resumed, len, n),
{
    let f = |k: int| slot(t, prefix, known, idx, resumed, len, k);
    let g = |k: int| slot_m(tmap(t), prefix, known, idx, resumed, len, k);
    assert(f =~= g);
}

/// The nearest child before `k` that matched in this call and can still contract, with
/// the start of its latest match (§4.3.7).
spec fn prev_from(table: Map<Seq<usize>, EntryView>, prefix: Seq<usize>, known: Seq<bool>, k: int) -> Option<
    (usize, usize),
>
    decreases k,
{
    if k <= 0 {
        None
    } else {
        let p = prefix.push((k - 1) as usize);
        if known[k - 1] && table.contains_key(p) && !table[p].exhausted {
            Some(((k - 1) as usize, table[p].start))
        } else {
            prev_from(table, prefix, known, k - 1)
        }
    }
}

/// The match of `node` at `pos`, with the table `table` and the node at path `path`
/// (§4.3.2): the step of its kind, then the record of a backtrackable non-root match.
spec fn run_match(node: &ParsedRegexp, t: Seq<char>, pos: nat, table: Map<Seq<usize>, EntryView>, path: Seq<usize>) -> Outcome
    decreases node, 3int, 0int,
{
    let o = step_match(node, t, pos, table, path);
    if o.result is Some && node.backtrackable() && path.len() > 1 {
        Outcome {
            result: o.result,
            pos: o.pos,
            table: o.table.insert(
                path,
                EntryView {
                    start: o.result->0.start,
                    end: o.result->0.end,
                    exhausted: o.result->0.start == o.result->0.end,
                },
            ),
        }
    } else {
        o
    }
}

/// The step of each kind of node (§4.3.3 to §4.3.7).
spec fn step_match(node: &ParsedRegexp, t: Seq<char>, pos: nat, table: Map<Seq<usize>, EntryView>, path: Seq<usize>) -> Outcome
    decreases node, 2int, 0int,
{
    match node.expression_type {
        ExpressionType::EmptyExpression => Outcome {
            result: Some(Match { start: pos as usize, end: pos as usize }),
            pos,
            table,
        },
        ExpressionType::CharacterExpression { value, quantifier } => {
            let r = char_outcome(
                value,
                quantifier,
                t,
                pos as int,
                char_bound(quantifier, entry_end_at(table, path), pos as int, t.len() as int),
            );
            Outcome {
                result: r,
                pos: if r is Some {
                    r->0.end as nat
                } else {
                    pos
                },
                table,
            }
        },
        ExpressionType::Group { quantifier } => {
            let bound: nat = match entry_end_at(table, path) {
                Some(e) => if e > 0 {
                    (e - 1) as nat
                } else {
                    0
                },
                None => t.len(),
            };
            group_loop(node, quantifier, t, bound, pos, pos, false, pos, table, path.push(0))
        },
        ExpressionType::Alternation => alt_loop(node, 0, t, pos, table, path),
        ExpressionType::Concatenation => concat_loop(
            node,
            t,
            pos,
            Seq::new(node.children@.len(), |i: int| false),
            0,
            false,
            pos,
            table,
            path,
        ),
    }
}

/// What a group returns once its repetition stops (§4.3.5).
spec fn group_finish(
    quantifier: Quantifier,
    start: nat,
    end: nat,
    matched_empty: bool,
    pos: nat,
    table: Map<Seq<usize>, EntryView>,
) -> Outcome {
    if start == end && !matched_empty {
        if quantifier == Quantifier::Once || quantifier == Quantifier::OneOrMore {
            Outcome { result: None, pos, table }
        } else {
            Outcome { result: Some(Match { start: start as usize, end: start as usize }), pos, table }
        }
    } else {
        Outcome { result: Some(Match { start: start as usize, end: end as usize }), pos, table }
    }
}

spec fn group_measure(len: nat, pos: nat, matched_empty: bool) -> int {
    2 * (len - pos) + if matched_empty {
        0int
    } else {
        1int
    }
}

/// The repetition of a group's inner expression (§4.3.5): stop when it fails, when it
/// passes the bound (back to the last good end), when it matches empty a second time
/// in a row, or after one match for `(E)` and `(E)?`.
spec fn group_loop(
    node: &ParsedRegexp,
    quantifier: Quantifier,
    t: Seq<char>,
    bound: nat,
    start: nat,
    end: nat,
    matched_empty: bool,
    pos: nat,
    table: Map<Seq<usize>, EntryView>,
    cpath: Seq<usize>,
) -> Outcome
    decreases node, 1int, group_measure(t.len(), pos, matched_empty),
{
    if node.children@.len() == 0 || pos > t.len() {
        group_finish(quantifier, start, end, matched_empty, pos, table)
    } else {
        let inner = run_match(&node.children@[0], t, pos, table, cpath);
        match inner.result {
            None => group_finish(quantifier, start, end, matched_empty, inner.pos, inner.table),
            Some(m) => if inner.pos > bound {
                group_finish(quantifier, start, end, matched_empty, end, inner.table)
            } else if m.start == m.end && matched_empty {
                group_finish(quantifier, start, end, matched_empty, inner.pos, inner.table)
            } else {
                let me = m.start == m.end;
                if quantifier == Quantifier::Once || quantifier == Quantifier::ZeroOrOne {
                    group_finish(quantifier, start, m.end as nat, me, inner.pos, inner.table)
                } else if inner.pos <= t.len() && group_measure(t.len(), inner.pos, me) < group_measure(
                    t.len(),
                    pos,
                    matched_empty,
                ) {
                    group_loop(node, quantifier, t, bound, start, m.end as nat, me, inner.pos, inner.table, cpath)
                } else {
                    group_finish(quantifier, start, m.end as nat, me, inner.pos, inner.table)
                }
            },
        }
    }
}

/// An alternation from its `i`-th child on (§4.3.6): the first child that matches.
spec fn alt_loop(node: &ParsedRegexp, i: nat, t: Seq<char>, pos: nat, table: Map<Seq<usize>, EntryView>, path: Seq<usize>) -> Outcome
    decreases node, 1int, node.children@.len() - i,
{
    if i >= node.children@.len() {
        Outcome { result: None, pos, table }
    } else {
        let o = run_match(&node.children@[i as int], t, pos, table, path.push(i as usize));
        if o.result is Some {
            o
        } else {
            alt_loop(node, i + 1, t, o.pos, o.table, path)
        }
    }
}

/// The table once the child at `idx` is re-armed (§4.3.7): an exhausted child with an
/// earlier contractible sibling starts over from `pos` up to the target's end.
spec fn armed_table(
    table: Map<Seq<usize>, EntryView>,
    prefix: Seq<usize>,
    known: Seq<bool>,
    idx: nat,
    pos: nat,
    len: nat,
) -> Map<Seq<usize>, EntryView> {
    let cp = prefix.push(idx as usize);
    if known[idx as int] && prev_from(table, prefix, known, idx as int) is Some && table.contains_key(cp)
        && table[cp].exhausted {
        table.insert(cp, EntryView { start: pos as usize, end: len as usize, exhausted: false })
    } else {
        table
    }
}

/// What a concatenation does once its child at `idx` gave `o` (§4.3.7): on success go
/// on with the next child; on failure resume at the nearest contractible earlier child,
/// or fail when there is none.
spec fn concat_step(
    node: &ParsedRegexp,
    t: Seq<char>,
    start: nat,
    known: Seq<bool>,
    idx: nat,
    resumed: bool,
    table: Map<Seq<usize>, EntryView>,
    prefix: Seq<usize>,
    o: Outcome,
) -> Outcome
    decreases node, 1int, concat_measure_m(table, prefix, known, idx as int, resumed, t.len(), node.children@.len() as int), 0int,
{
    let n = node.children@.len();
    let old_measure = concat_measure_m(table, prefix, known, idx as int, resumed, t.len(), n as int);
    match o.result {
        Some(_) => {
            let known2 = if !known[idx as int] && node.children@[idx as int].backtrackable() {
                known.update(idx as int, true)
            } else {
                known
            };
            if concat_measure_m(o.table, prefix, known2, idx + 1int, false, t.len(), n as int) < old_measure {
                concat_loop(node, t, start, known2, idx + 1, false, o.pos, o.table, prefix)
            } else {
                Outcome { result: None, pos: start, table: o.table }
            }
        },
        None => match prev_from(table, prefix, known, idx as int) {
            Some((j, resume_at)) => if concat_measure_m(o.table, prefix, known, j as int, true, t.len(), n as int)
                < old_measure {
                concat_loop(node, t, start, known, j as nat, true, resume_at as nat, o.table, prefix)
            } else {
                Outcome { result: None, pos: start, table: o.table }
            },
            None => Outcome { result: None, pos: start, table: o.table },
        },
    }
}

/// A concatenation from its `idx`-th child on (§4.3.7), with `known` the children that
/// matched in this call.
spec fn concat_loop(
    node: &ParsedRegexp,
    t: Seq<char>,
    start: nat,
    known: Seq<bool>,
    idx: nat,
    resumed: bool,
    pos: nat,
    table: Map<Seq<usize>, EntryView>,
    prefix: Seq<usize>,
) -> Outcome
    decreases node, 1int, concat_measure_m(table, prefix, known, idx as int, resumed, t.len(), node.children@.len() as int), 1int,
{
    if idx >= node.children@.len() {
        Outcome { result: Some(Match { start: start as usize, end: pos as usize }), pos, table }
    } else {
        let armed = armed_table(table, prefix, known, idx, pos, t.len());
        let o = run_match(&node.children@[idx as int], t, pos, armed, prefix.push(idx as usize));
        concat_step(node, t, start, known, idx, resumed, table, prefix, o)
    }
}

/// The leftmost match from offset `p` on (§4.3.1): the first anchor, up to and including
/// the target's length, at which a root attempt with an empty table succeeds.
pub closed spec fn first_match(tree: ParsedRegexp, t: Seq<char>, p: nat) -> Option<Match>
    decreases t.len() + 1 - p,
{
    if p > t.len() {
        None
    } else {
        let o = run_match(&tree, t, p, Map::empty(), seq![0usize]);
        if o.result is Some {
            o.result
        } else {
            first_match(tree, t, p + 1)
        }
    }
}

/// The outcome that a step ending in state `m` with result `r` stands for.
spec fn outcome_of(r: Option<Match>, m: Matcher) -> Outcome {
    Outcome { result: r, pos: m.pos as nat, table: tmap(m.backtrack_table@) }
}

proof fn lemma_tmap_same(a: Seq<ExpressionBacktrackInfo>, b: Seq<ExpressionBacktrackInfo>)
    requires
        forall|q: Seq<usize>| #[trigger] lookup(b, q) == lookup(a, q),
    ensures
        tmap(b) == tmap(a),
{
    assert(tmap(b) =~= tmap(a));
}

proof fn lemma_tmap_store(a: Seq<ExpressionBacktrackInfo>, b: Seq<ExpressionBacktrackInfo>, p: Seq<usize>, e: EntryView)
    requires
        lookup(b, p) == Some(e),
        forall|q: Seq<usize>| q != p ==> #[trigger] lookup(b, q) == lookup(a, q),
    ensures
        tmap(b) == tmap(a).insert(p, e),
{
    assert(tmap(b) =~= tmap(a).insert(p, e));
}

proof fn lemma_tmap_empty(a: Seq<ExpressionBacktrackInfo>)
    requires
        a.len() == 0,
    ensures
        tmap(a) == Map::<Seq<usize>, EntryView>::empty(),
{
    assert(tmap(a) =~= Map::<Seq<usize>, EntryView>::empty());
}

/// Drives the matching of one pattern against one target.
pub struct Matcher {
    /// The root of the pattern's syntax tree.
    pattern: ParsedRegexp,
    /// The target's characters.
    target: Vec<char>,
    /// Where the next match is looked for; it passes the target's length only once
    /// the match at the end of the target was handed out.
    pos: usize,
    /// Set once an attempt at the end of the target has been made, so that the empty
    /// match there comes at most once.
    matched_trailing_empty_string: bool,
    /// The path from the root to the subexpression being matched.
    pattern_index_sequence: Vec<usize>,
    /// The latest match of each backtrackable subexpression in the current root attempt.
    backtrack_table: Vec<ExpressionBacktrackInfo>,
}

impl Matcher {
    /// The state in which a subexpression can be matched.
    spec fn ready(&self) -> bool {
        &&& self.pos <= self.target@.len()
        &&& entries_bounded(self.backtrack_table@, self.target@.len())
        &&& sorted(self.backtrack_table@)
    }

    spec fn path(&self) -> Seq<usize> {
        self.pattern_index_sequence@
    }

    spec fn table(&self) -> Seq<ExpressionBacktrackInfo> {
        self.backtrack_table@
    }

    /// The entry for the subexpression being matched.
    spec fn entry(&self) -> Option<EntryView> {
        lookup(self.backtrack_table@, self.pattern_index_sequence@)
    }

    /// The cursor, clamped to the target's length.
    fn current(&self) -> (r: usize)
        ensures
            r == if self.pos <= self.target@.len() {
                self.pos as int
            } else {
                self.target@.len() as int
            },
    {
        if self.pos <= self.target.len() {
            self.pos
        } else {
            self.target.len()
        }
    }

    /// Whether characters are left after the cursor.
    fn has_next(&self) -> (r: bool)
        ensures
            r == (self.pos < self.target@.len()),
    {
        self.pos < self.target.len()
    }

    fn set_position(&mut self, pos: usize)
        ensures
            final(self).pos == pos,
            final(self).target == old(self).target,
            final(self).pattern == old(self).pattern,
            final(self).matched_trailing_empty_string == old(self).matched_trailing_empty_string,
            final(self).pattern_index_sequence == old(self).pattern_index_sequence,
            final(self).backtrack_table == old(self).backtrack_table,
    {
        self.pos = pos;
    }

    fn advance(&mut self)
        requires
            old(self).pos < old(self).target@.len(),
        ensures
            final(self).pos == old(self).pos + 1,
            final(self).target == old(self).target,
            final(self).pattern == old(self).pattern,
            final(self).matched_trailing_empty_string == old(self).matched_trailing_empty_string,
            final(self).pattern_index_sequence == old(self).pattern_index_sequence,
            final(self).backtrack_table == old(self).backtrack_table,
    {
        if self.pos < self.target.len() {
            self.pos = self.pos + 1;
        }
    }

    /// Starts on the first child of the current subexpression.
    fn dive(&mut self)
        ensures
            final(self).path() == old(self).path().push(0),
            final(self).pos == old(self).pos,
            final(self).target == old(self).target,
            final(self).pattern == old(self).pattern,
            final(self).matched_trailing_empty_string == old(self).matched_trailing_empty_string,
            final(self).backtrack_table == old(self).backtrack_table,
    {
        self.pattern_index_sequence.push(0);
    }

    /// Returns to the parent of the current subexpression.
    fn bubble_up(&mut self)
        requires
            old(self).path().len() > 0,
        ensures
            final(self).path() == old(self).path().drop_last(),
            final(self).pos == old(self).pos,
            final(self).target == old(self).target,
            final(self).pattern == old(self).pattern,
            final(self).matched_trailing_empty_string == old(self).matched_trailing_empty_string,
            final(self).backtrack_table == old(self).backtrack_table,
    {
        self.pattern_index_sequence.pop();
    }

    /// Moves to the sibling at `k` of the current subexpression.
    fn set_child(&mut self, k: usize)
        requires
            old(self).path().len() > 0,
        ensures
            final(self).path() == old(self).path().drop_last().push(k),
            final(self).pos == old(self).pos,
            final(self).target == old(self).target,
            final(self).pattern == old(self).pattern,
            final(self).matched_trailing_empty_string == old(self).matched_trailing_empty_string,
            final(self).backtrack_table == old(self).backtrack_table,
    {
        let last = self.pattern_index_sequence.len() - 1;
        self.pattern_index_sequence.set(last, k);
        proof {
            assert(self.path() =~= old(self).path().drop_last().push(k));
        }
    }

    /// Moves to the next sibling of the current subexpression.
    fn appoint_next_child(&mut self)
        requires
            old(self).path().len() > 0,
            old(self).path().last() < usize::MAX,
        ensures
            final(self).path() == old(self).path().drop_last().push((old(self).path().last() + 1) as usize),
            final(self).pos == old(self).pos,
            final(self).target == old(self).target,
            final(self).pattern == old(self).pattern,
            final(self).matched_trailing_empty_string == old(self).matched_trailing_empty_string,
            final(self).backtrack_table == old(self).backtrack_table,
    {
        let last = self.pattern_index_sequence.len() - 1;
        let next = self.pattern_index_sequence[last] + 1;
        self.set_child(next);
    }

    /// How the path of entry `i` compares with the current path: negative when it comes
    /// before, zero when they are equal, positive when it comes after.
    fn compare_with_current(&self, i: usize) -> (r: i8)
        requires
            i < self.backtrack_table@.len(),
        ensures
            (r == 0) == (self.table()[i as int].index_sequence@ == self.path()),
            (r < 0) == path_lt(self.table()[i as int].index_sequence@, self.path()),
            (r > 0) == path_lt(self.path(), self.table()[i as int].index_sequence@),
    {
        let a = &self.backtrack_table[i].index_sequence;
        let b = &self.pattern_index_sequence;
        proof {
            lemma_path_lt_total(a@, b@);
            lemma_path_lt_irreflexive(a@);
            if path_lt(a@, b@) && path_lt(b@, a@) {
                lemma_path_lt_transitive(a@, b@, a@);
            }
        }
        let mut k: usize = 0;
        while k < a.len() && k < b.len()
            invariant
                i < self.backtrack_table@.len(),
                a@ == self.backtrack_table@[i as int].index_sequence@,
                b@ == self.path(),
                k <= a@.len(),
                k <= b@.len(),
                a@.subrange(0, k as int) == b@.subrange(0, k as int),
            decreases a@.len() - k,
        {
            if a[k] != b[k] {
                proof {
                    lemma_path_lt_skip(a@, b@, k as int);
                    lemma_path_lt_skip(b@, a@, k as int);
                    let ra = a@.subrange(k as int, a@.len() as int);
                    let rb = b@.subrange(k as int, b@.len() as int);
                    assert(ra[0] == a@[k as int] && rb[0] == b@[k as int]);
                    assert(a@[k as int] != b@[k as int]);
                }
                return if a[k] < b[k] {
                    -1
                } else {
                    1
                };
            }
            proof {
                assert(a@.subrange(0, k + 1) =~= a@.subrange(0, k as int).push(a@[k as int]));
                assert(b@.subrange(0, k + 1) =~= b@.subrange(0, k as int).push(b@[k as int]));
            }
            k += 1;
        }
        proof {
            lemma_path_lt_skip(a@, b@, k as int);
            lemma_path_lt_skip(b@, a@, k as int);
            if a@.len() == b@.len() {
                assert(a@ =~= a@.subrange(0, k as int));
                assert(b@ =~= b@.subrange(0, k as int));
            } else if a@.len() < b@.len() {
                assert(a@.len() != b@.len());
            }
        }
        if a.len() < b.len() {
            -1
        } else if a.len() == b.len() {
            0
        } else {
            1
        }
    }

    /// Binary search of the sorted table for the current path: the index of its entry,
    /// or the index at which an entry for it belongs.
    fn search_entry(&self) -> (r: Result<usize, usize>)
        requires
            sorted(self.table()),
        ensures
            r is Ok ==> {
                let i = r->Ok_0 as int;
                &&& 0 <= i < self.table().len()
                &&& self.table()[i].index_sequence@ == self.path()
            },
            r is Err ==> {
                let k = r->Err_0 as int;
                &&& 0 <= k <= self.table().len()
                &&& forall|j: int| 0 <= j < k ==> path_lt(#[trigger] self.table()[j].index_sequence@, self.path())
                &&& forall|j: int|
                    k <= j < self.table().len() ==> path_lt(self.path(), #[trigger] self.table()[j].index_sequence@)
            },
    {
        let mut lo: usize = 0;
        let mut hi: usize = self.backtrack_table.len();
        while lo < hi
            invariant
                sorted(self.table()),
                lo <= hi <= self.table().len(),
                forall|j: int| 0 <= j < lo ==> path_lt(#[trigger] self.table()[j].index_sequence@, self.path()),
                forall|j: int|
                    hi <= j < self.table().len() ==> path_lt(self.path(), #[trigger] self.table()[j].index_sequence@),
            decreases hi - lo,
        {
            let mid = lo + (hi - lo) / 2;
            let c = self.compare_with_current(mid);
            if c == 0 {
                return Ok(mid);
            } else if c < 0 {
                proof {
                    assert forall|j: int| 0 <= j < mid + 1 implies path_lt(
                        #[trigger] self.table()[j].index_sequence@,
                        self.path(),
                    ) by {
                        if j < mid {
                            lemma_path_lt_transitive(
                                self.table()[j].index_sequence@,
                                self.table()[mid as int].index_sequence@,
                                self.path(),
                            );
                        }
                    }
                }
                lo = mid + 1;
            } else {
                proof {
                    assert forall|j: int| mid <= j < self.table().len() implies path_lt(
                        self.path(),
                        #[trigger] self.table()[j].index_sequence@,
                    ) by {
                        if j > mid {
                            lemma_path_lt_transitive(
                                self.path(),
                                self.table()[mid as int].index_sequence@,
                                self.table()[j].index_sequence@,
                            );
                        }
                    }
                }
                hi = mid;
            }
        }
        Err(lo)
    }

    /// The index of the entry for the current path, if there is one.
    fn find_entry(&self) -> (r: Option<usize>)
        requires
            sorted(self.table()),
        ensures
            r is None ==> self.entry() is None,
            r is Some ==> {
                let i = r->0 as int;
                &&& 0 <= i < self.table().len()
                &&& self.table()[i].index_sequence@ == self.path()
                &&& self.entry() == Some(entry_view(self.table()[i]))
                &&& forall|j: int|
                    i < j < self.table().len() ==> #[trigger] self.table()[j].index_sequence@
                        != self.path()
            },
    {
        match self.search_entry() {
            Ok(i) => {
                proof {
                    lemma_sorted_lookup(self.table(), i as int);
                }
                Some(i)
            },
            Err(_) => {
                proof {
                    lemma_path_lt_irreflexive(self.path());
                    lemma_lookup_absent(self.table(), self.path());
                }
                None
            },
        }
    }

    /// A copy of the current path.
    fn copy_path(&self) -> (r: Vec<usize>)
        ensures
            r@ == self.path(),
    {
        let mut r: Vec<usize> = Vec::new();
        let mut k: usize = 0;
        while k < self.pattern_index_sequence.len()
            invariant
                k <= self.path().len(),
                r@ == self.path().subrange(0, k as int),
            decreases self.path().len() - k,
        {
            r.push(self.pattern_index_sequence[k]);
            k += 1;
            proof {
                assert(r@ =~= self.path().subrange(0, k as int));
            }
        }
        proof {
            assert(r@ =~= self.path());
        }
        r
    }

    /// Records `(start, end, exhausted)` as the entry for the current path.
    fn store_entry(&mut self, start: usize, end: usize, exhausted: bool)
        requires
            start <= end <= old(self).target@.len(),
            entries_bounded(old(self).table(), old(self).target@.len()),
            sorted(old(self).table()),
        ensures
            entries_bounded(final(self).table(), final(self).target@.len()),
            sorted(final(self).table()),
            final(self).entry() == Some(EntryView { start, end, exhausted }),
            forall|q: Seq<usize>| q != old(self).path() ==> #[trigger] lookup(final(self).table(), q)
                == lookup(old(self).table(), q),
            final(self).path() == old(self).path(),
            final(self).pos == old(self).pos,
            final(self).target == old(self).target,
            final(self).pattern == old(self).pattern,
            final(self).matched_trailing_empty_string == old(self).matched_trailing_empty_string,
    {
        let index_sequence = self.copy_path();
        let entry = ExpressionBacktrackInfo {
            index_sequence,
            last_match_start: start,
            last_match_end: end,
            backtracked_to_last_match_start: exhausted,
        };
        let ghost t = self.table();
        match self.search_entry() {
            Ok(i) => {
                proof {
                    lemma_sorted_lookup(t, i as int);
                    assert forall|q: Seq<usize>| #[trigger] lookup(t.update(i as int, entry), q) == if q
                        == entry.index_sequence@ {
                        Some(entry_view(entry))
                    } else {
                        lookup(t, q)
                    } by {
                        lemma_lookup_update(t, i as int, entry, q);
                    }
                }
                self.backtrack_table.set(i, entry);
                proof {
                    assert forall|x: int, y: int| 0 <= x < y < self.table().len() implies path_lt(
                        #[trigger] self.table()[x].index_sequence@,
                        #[trigger] self.table()[y].index_sequence@,
                    ) by {
                        assert(self.table()[x].index_sequence@ == t[x].index_sequence@);
                        assert(self.table()[y].index_sequence@ == t[y].index_sequence@);
                    }
                }
            },
            Err(k) => {
                proof {
                    lemma_path_lt_irreflexive(entry.index_sequence@);
                    assert forall|q: Seq<usize>| #[trigger] lookup(t.insert(k as int, entry), q) == if q
                        == entry.index_sequence@ {
                        Some(entry_view(entry))
                    } else {
                        lookup(t, q)
                    } by {
                        lemma_lookup_insert(t, k as int, entry, q);
                    }
                }
                proof {
                    lemma_insert_in_order(t, k as int, entry, self.target@.len());
                }
                self.backtrack_table.insert(k, entry);
            },
        }
    }

    /// The empty expression matches the empty string at the cursor.
    fn empty_expression_match(&mut self) -> (r: Option<Match>)
        requires
            old(self).ready(),
        ensures
            step_ok(*old(self), *final(self), r),
            final(self).table() == old(self).table(),
            r == Some(Match { start: old(self).pos, end: old(self).pos }),
    {
        let current = self.current();
        Some(Match { start: current, end: current })
    }

    /// Whether the character at the cursor is `value` (any character for the dot).
    fn char_fits(&self, value: Option<char>) -> (r: bool)
        requires
            self.pos < self.target@.len(),
        ensures
            r == (value is None || self.target@[self.pos as int] == value->0),
    {
        match value {
            Some(c) => self.target[self.pos] == c,
            None => true,
        }
    }

    /// A character or the dot, repeated as the quantifier says. The run ends at a
    /// bound: one past the cursor for `x` and `x?`, the target's end for `x*` and
    /// `x+`, and just before the end of the previous match where there is one, so
    /// that a repeated attempt is strictly shorter. An `x?` never takes more than one
    /// character, whatever its entry says.
    fn character_expression_match(&mut self, value: Option<char>, quantifier: Quantifier) -> (r:
        Option<Match>)
        requires
            old(self).ready(),
        ensures
            step_ok(*old(self), *final(self), r),
            final(self).table() == old(self).table(),
            quantifier != Quantifier::Once ==> within_entry_bound(*old(self), r),
            r is Some && value is Some ==> forall|i: int|
                r->0.start <= i < r->0.end ==> #[trigger] old(self).target@[i] == value->0,
            r is Some && (quantifier == Quantifier::Once || quantifier == Quantifier::ZeroOrOne)
                ==> r->0.end <= r->0.start + 1,
            r is Some && (quantifier == Quantifier::Once || quantifier == Quantifier::OneOrMore)
                ==> r->0.start < r->0.end,
            r is Some ==> char_run(
                value,
                quantifier,
                old(self).target@.subrange(r->0.start as int, r->0.end as int),
            ),
            quantifier == Quantifier::Once ==> r == if old(self).pos < old(self).target@.len() && (
            value is None || old(self).target@[old(self).pos as int] == value->0) {
                Some(Match { start: old(self).pos, end: (old(self).pos + 1) as usize })
            } else {
                None::<Match>
            },
            r == char_outcome(
                value,
                quantifier,
                old(self).target@,
                old(self).pos as int,
                char_bound(quantifier, entry_end(*old(self)), old(self).pos as int, old(self).target@.len() as int),
            ),
            (quantifier == Quantifier::ZeroOrMore || quantifier == Quantifier::OneOrMore)
                && old(self).entry() is None && r is Some ==> run_ends(value, old(self).target@, r->0.end as int),
    {
        let start = self.pos;
        let len = self.target.len();
        let one_more: usize = if self.pos < len {
            self.pos + 1
        } else {
            self.pos
        };
        let at_most_one = matches!(quantifier, Quantifier::Once) || matches!(quantifier, Quantifier::ZeroOrOne);
        let mut bound: usize = if at_most_one {
            one_more
        } else {
            len
        };
        if !matches!(quantifier, Quantifier::Once) {
            if let Some(i) = self.find_entry() {
                let end = self.backtrack_table[i].last_match_end;
                let shorter: usize = if end > 0 {
                    end - 1
                } else {
                    0
                };
                bound = if at_most_one && shorter > one_more {
                    one_more
                } else {
                    shorter
                };
            }
        }
        proof {
            assert(bound as int == char_bound(quantifier, entry_end(*old(self)), start as int, len as int));
        }
        while self.pos < len && self.pos < bound && self.char_fits(value)
            invariant
                run_end(value, self.target@, self.pos as int, bound as int) == run_end(
                    value,
                    old(self).target@,
                    start as int,
                    bound as int,
                ),
                len == self.target@.len(),
                start == old(self).pos,
                start <= self.pos <= len,
                self.pos <= start || self.pos <= bound,
                self.target == old(self).target,
                self.pattern == old(self).pattern,
                self.matched_trailing_empty_string == old(self).matched_trailing_empty_string,
                self.pattern_index_sequence == old(self).pattern_index_sequence,
                self.backtrack_table == old(self).backtrack_table,
                value is Some ==> forall|i: int| start <= i < self.pos ==> #[trigger] self.target@[i] == value->0,
            decreases len - self.pos,
        {
            self.advance();
        }
        let end = self.pos;
        proof {
            let run = self.target@.subrange(start as int, end as int);
            assert forall|i: int| 0 <= i < run.len() implies value is None || #[trigger] run[i] == value->0 by {
                if value is Some {
                    assert(run[i] == self.target@[start + i]);
                }
            }
        }
        if start == end {
            match quantifier {
                Quantifier::Once | Quantifier::OneOrMore => None,
                _ => Some(Match { start, end }),
            }
        } else {
            Some(Match { start, end })
        }
    }

    /// A group: its inner expression once (`(E)`, `(E)?`) or as often as it matches
    /// (`(E)*`, `(E)+`), never past a bound taken from the group's entry, and no
    /// further once the inner expression matched empty twice in a row.
    fn group_match(&mut self, node: &ParsedRegexp, quantifier: Quantifier) -> (r: Option<Match>)
        requires
            old(self).ready(),
            old(self).path().len() >= 1,
            node.wf(),
            node.expression_type == (ExpressionType::Group { quantifier }),
        ensures
            step_ok(*old(self), *final(self), r),
            outcome_of(r, *final(self)) == step_match(node, old(self).target@, old(self).pos as nat, tmap(old(self).backtrack_table@), old(self).path()),
            only_empty_ok(*node, *old(self), r),
            sound(*node, *old(self), r),
            final(self).entry() == old(self).entry(),
            quantifier == Quantifier::ZeroOrOne || quantifier == Quantifier::ZeroOrMore ==> r is Some,
            within_entry_bound(*old(self), r),
        decreases node, 0int,
    {
        let len = self.target.len();
        let bound: usize = match self.find_entry() {
            Some(i) => {
                let end = self.backtrack_table[i].last_match_end;
                if end > 0 {
                    end - 1
                } else {
                    0
                }
            },
            None => len,
        };
        let child = &node.children[0];
        proof {
            lemma_extends_self(old(self).path(), 0);
            if clean(old(self).table(), old(self).path()) {
                lemma_clean_child(old(self).table(), old(self).path(), 0);
            }
        }
        let at_most_one = matches!(quantifier, Quantifier::Once) || matches!(quantifier, Quantifier::ZeroOrOne);
        self.dive();
        let start = self.pos;
        let mut end = self.pos;
        let mut matched_empty_string = false;
        loop
            invariant_except_break
                group_loop(node, quantifier, self.target@, bound as nat, start as nat, end as nat, matched_empty_string, self.pos as nat, tmap(self.backtrack_table@), old(self).path().push(0)) == step_match(node, old(self).target@, old(self).pos as nat, tmap(old(self).backtrack_table@), old(self).path()),
                at_most_one ==> end == start && !matched_empty_string,
            invariant
                bound as nat == match entry_end_at(tmap(old(self).backtrack_table@), old(self).path()) {
                    Some(e) => if e > 0 { (e - 1) as nat } else { 0 },
                    None => self.target@.len(),
                },
                len == self.target@.len(),
                self.ready(),
                child.wf(),
                node.children@.len() == 1,
                *child == node.children@[0],
                lookup(self.table(), old(self).path()) == lookup(old(self).table(), old(self).path()),
                self.target == old(self).target,
                self.pattern == old(self).pattern,
                self.matched_trailing_empty_string == old(self).matched_trailing_empty_string,
                self.path() == old(self).path().push(0),
                table_frame(old(self).table(), self.table(), old(self).path().push(0)),
                start == old(self).pos,
                start <= end,
                end == self.pos,
                end <= start || end <= bound,
                clean(old(self).table(), old(self).path()) ==> bound == len,
                clean(old(self).table(), old(self).path()) ==> clean(old(self).table(), old(self).path().push(0)),
                node.matches_only_empty() ==> node.children@[0].matches_only_empty(),
                node.matches_only_empty() ==> end == start,
                node.matches_only_empty() && clean(old(self).table(), old(self).path())
                    ==> matched_empty_string || self.table() == old(self).table(),
                at_most_one == (quantifier == Quantifier::Once || quantifier == Quantifier::ZeroOrOne),
                at_most_one && (end > start || matched_empty_string) ==> in_lang(
                    child,
                    self.target@.subrange(start as int, end as int),
                ),
                !at_most_one ==> star(node, self.target@.subrange(start as int, end as int)),
                !at_most_one && matched_empty_string ==> in_lang(child, Seq::<char>::empty()),
            ensures
                step_match(node, old(self).target@, old(self).pos as nat, tmap(old(self).backtrack_table@), old(self).path()) == group_finish(quantifier, start as nat, end as nat, matched_empty_string, self.pos as nat, tmap(self.backtrack_table@)),
                at_most_one && (end > start || matched_empty_string) ==> in_lang(
                    child,
                    self.target@.subrange(start as int, end as int),
                ),
                !at_most_one ==> star(node, self.target@.subrange(start as int, end as int)),
                !at_most_one && matched_empty_string ==> in_lang(child, Seq::<char>::empty()),
                node.matches_only_empty() && clean(old(self).table(), old(self).path())
                    ==> matched_empty_string,
                end == self.pos,
                end <= start || end <= bound,
                start <= end,
                node.matches_only_empty() ==> end == start,
            decreases 2 * (len - self.pos) + if matched_empty_string {
                0int
            } else {
                1int
            },
        {
            let ghost h = *self;
            let ghost end_h = end;
            let ghost me_h = matched_empty_string;
            let inner_r = self.compute_match(&node.children[0]);
            let ghost inner = outcome_of(inner_r, *self);
            proof {
                assert(group_loop(node, quantifier, self.target@, bound as nat, start as nat, end_h as nat, me_h, h.pos as nat, tmap(h.backtrack_table@), old(self).path().push(0))
                    == match inner.result {
                        None => group_finish(quantifier, start as nat, end_h as nat, me_h, inner.pos, inner.table),
                        Some(m) => if inner.pos > bound as nat {
                            group_finish(quantifier, start as nat, end_h as nat, me_h, end_h as nat, inner.table)
                        } else if m.start == m.end && me_h {
                            group_finish(quantifier, start as nat, end_h as nat, me_h, inner.pos, inner.table)
                        } else if quantifier == Quantifier::Once || quantifier == Quantifier::ZeroOrOne {
                            group_finish(quantifier, start as nat, m.end as nat, m.start == m.end, inner.pos, inner.table)
                        } else if inner.pos <= self.target@.len() && group_measure(self.target@.len(), inner.pos, m.start == m.end) < group_measure(self.target@.len(), h.pos as nat, me_h) {
                            group_loop(node, quantifier, self.target@, bound as nat, start as nat, m.end as nat, m.start == m.end, inner.pos, inner.table, old(self).path().push(0))
                        } else {
                            group_finish(quantifier, start as nat, m.end as nat, m.start == m.end, inner.pos, inner.table)
                        },
                    });
            }
            match inner_r {
                None => {
                    break;
                },
                Some(m) => {
                    if self.pos > bound {
                        self.set_position(end);
                        break;
                    }
                    if m.start == m.end && matched_empty_string {
                        break;
                    }
                    proof {
                        let t = self.target@;
                        let piece = t.subrange(m.start as int, m.end as int);
                        if m.start == m.end {
                            assert(piece =~= Seq::<char>::empty());
                        } else if !at_most_one {
                            lemma_star_append(node, t.subrange(start as int, end as int), piece);
                            assert(t.subrange(start as int, end as int) + piece =~= t.subrange(
                                start as int,
                                m.end as int,
                            ));
                        }
                        if at_most_one && start == end {
                            assert(piece =~= t.subrange(start as int, m.end as int));
                        }
                    }
                    end = m.end;
                    matched_empty_string = m.start == m.end;
                    if at_most_one {
                        break;
                    }
                },
            }
        }
        self.bubble_up();
        proof {
            assert(self.path() =~= old(self).path());
            assert forall|q: Seq<usize>| !extends(old(self).path(), q) implies #[trigger] lookup(
                self.table(),
                q,
            ) == lookup(old(self).table(), q) by {
                lemma_extends_child(old(self).path(), 0, q);
            }
        }
        proof {
            let text = self.target@.subrange(start as int, end as int);
            if start == end {
                assert(text =~= Seq::<char>::empty());
            }
        }
        if start == end && !matched_empty_string {
            match quantifier {
                Quantifier::Once | Quantifier::OneOrMore => None,
                _ => Some(Match { start, end: start }),
            }
        } else {
            Some(Match { start, end })
        }
    }

    /// An alternation: the first child, in order, that matches at the cursor.
    fn alternation_match(&mut self, node: &ParsedRegexp) -> (r: Option<Match>)
        requires
            old(self).ready(),
            old(self).path().len() >= 1,
            node.wf(),
            node.expression_type == ExpressionType::Alternation,
        ensures
            step_ok(*old(self), *final(self), r),
            outcome_of(r, *final(self)) == step_match(node, old(self).target@, old(self).pos as nat, tmap(old(self).backtrack_table@), old(self).path()),
            only_empty_ok(*node, *old(self), r),
            sound(*node, *old(self), r),
            literal_of(&node.children@[0]) is Some && old(self).pos < old(self).target@.len()
                && old(self).target@[old(self).pos as int] == literal_of(&node.children@[0])->0 ==> r
                == Some(Match { start: old(self).pos, end: (old(self).pos + 1) as usize }),
            final(self).entry() == old(self).entry(),
        decreases node, 0int,
    {
        let n = node.children.len();
        proof {
            lemma_all_wf(node.children@, 0);
            lemma_all_only_empty(node.children@, 0);
            if clean(old(self).table(), old(self).path()) {
                lemma_clean_child(old(self).table(), old(self).path(), 0);
            }
        }
        self.dive();
        let mut i: usize = 0;
        while i < n
            invariant
                n == node.children@.len(),
                node.expression_type == ExpressionType::Alternation,
                forall|k: int| 0 <= k < n ==> #[trigger] node.children@[k].wf(),
                i <= n,
                literal_of(&node.children@[0]) is Some && old(self).pos < old(self).target@.len()
                    && old(self).target@[old(self).pos as int] == literal_of(&node.children@[0])->0 ==> i == 0,
                self.ready(),
                self.pos == old(self).pos,
                self.target == old(self).target,
                self.pattern == old(self).pattern,
                self.matched_trailing_empty_string == old(self).matched_trailing_empty_string,
                self.path() == old(self).path().push(i as usize),
                table_frame(old(self).table(), self.table(), old(self).path()),
                lookup(self.table(), old(self).path()) == lookup(old(self).table(), old(self).path()),
                node.matches_only_empty() ==> forall|k: int| 0 <= k < n ==> #[trigger] node.children@[k].matches_only_empty(),
                node.matches_only_empty() && clean(old(self).table(), old(self).path()) ==> i == 0
                    && self.table() == old(self).table() && clean(old(self).table(), old(self).path().push(0)),
                alt_loop(node, i as nat, self.target@, self.pos as nat, tmap(self.backtrack_table@), old(self).path())
                    == step_match(node, old(self).target@, old(self).pos as nat, tmap(old(self).backtrack_table@), old(self).path()),
            decreases n - i,
        {
            let ghost before = self.table();
            let ghost head = *self;
            let m = self.compute_match(&node.children[i]);
            proof {
                assert forall|q: Seq<usize>| !extends(old(self).path(), q) implies #[trigger] lookup(
                    self.table(),
                    q,
                ) == lookup(old(self).table(), q) by {
                    lemma_extends_child(old(self).path(), i, q);
                    assert(lookup(self.table(), q) == lookup(before, q));
                }
                lemma_extends_shorter(old(self).path().push(i), old(self).path());
            }
            proof {
                assert(alt_loop(node, i as nat, self.target@, head.pos as nat, tmap(head.backtrack_table@), old(self).path())
                    == if m is Some { outcome_of(m, *self) } else {
                        alt_loop(node, (i + 1) as nat, self.target@, self.pos as nat, tmap(self.backtrack_table@), old(self).path())
                    });
            }
            if m.is_some() {
                self.bubble_up();
                proof {
                    assert(self.path() =~= old(self).path());
                    let text = old(self).target@.subrange(m->0.start as int, m->0.end as int);
                    lemma_any_lang(node, 0, i as int, text);
                }
                return m;
            }
            self.appoint_next_child();
            i += 1;
            proof {
                assert(self.path() =~= old(self).path().push(i as usize));
            }
        }
        self.bubble_up();
        proof {
            assert(self.path() =~= old(self).path());
        }
        None
    }
    /// The nearest earlier child of the current concatenation that has matched in
    /// this call and can still give a shorter match, with the start of its latest
    /// match.
    fn find_prev(&mut self, known: &Vec<bool>, idx: usize) -> (r: Option<(usize, usize)>)
        requires
            sorted(old(self).table()),
            old(self).path().len() >= 1,
            old(self).path().last() == idx,
            idx <= known@.len(),
        ensures
            final(self).path() == old(self).path(),
            final(self).pos == old(self).pos,
            final(self).target == old(self).target,
            final(self).pattern == old(self).pattern,
            final(self).matched_trailing_empty_string == old(self).matched_trailing_empty_string,
            final(self).backtrack_table == old(self).backtrack_table,
            r is Some ==> {
                let (j, resume_at) = r->0;
                let e = lookup(old(self).table(), old(self).path().drop_last().push(j));
                &&& j < idx
                &&& known@[j as int]
                &&& e is Some
                &&& e->0.start == resume_at
                &&& !e->0.exhausted
            },
            r == prev_from(tmap(old(self).backtrack_table@), old(self).path().drop_last(), known@, idx as int),
    {
        let ghost prefix = self.path().drop_last();
        proof {
            assert(self.path() =~= prefix.push(idx));
        }
        let mut k: usize = idx;
        while k > 0
            invariant
                k <= idx <= known@.len(),
                prefix == old(self).path().drop_last(),
                old(self).path() == prefix.push(idx),
                self.path() == prefix.push(k),
                self.pos == old(self).pos,
                self.target == old(self).target,
                self.pattern == old(self).pattern,
                self.matched_trailing_empty_string == old(self).matched_trailing_empty_string,
                self.backtrack_table == old(self).backtrack_table,
                sorted(self.table()),
                prev_from(tmap(self.backtrack_table@), prefix, known@, k as int) == prev_from(
                    tmap(old(self).backtrack_table@),
                    prefix,
                    known@,
                    idx as int,
                ),
            decreases k,
        {
            k -= 1;
            self.set_child(k);
            proof {
                let tm = tmap(self.backtrack_table@);
                let p = prefix.push(k);
                assert(prev_from(tm, prefix, known@, k + 1) == if known@[k as int] && tm.contains_key(p) && !tm[p].exhausted {
                    Some((k, tm[p].start))
                } else {
                    prev_from(tm, prefix, known@, k as int)
                });
                lemma_extends_self(prefix, k);
                lemma_extends_self(prefix, (k + 1) as usize);
                lemma_extends_self(prefix, idx);
            }
            if known[k] {
                if let Some(i) = self.find_entry() {
                    if !self.backtrack_table[i].backtracked_to_last_match_start {
                        let start = self.backtrack_table[i].last_match_start;
                        self.set_child(idx);
                        proof {
                            lemma_extends_self(prefix, k);
                        }
                        proof {
                            assert(self.path() =~= old(self).path());
                        }
                        return Some((k, start));
                    }
                }
            }
        }
        self.set_child(idx);
        proof {
            lemma_extends_self(prefix, k);
            assert(self.path() =~= old(self).path());
        }
        None
    }

    /// A concatenation: each child in turn from where the previous one ended. When a
    /// child fails, the nearest earlier child that can give a shorter match is
    /// resumed from the start of its latest match; when there is none, the
    /// concatenation fails.
    #[verifier::rlimit(100)]
    fn concatenation_match(&mut self, node: &ParsedRegexp) -> (r: Option<Match>)
        requires
            old(self).ready(),
            old(self).path().len() >= 1,
            node.wf(),
            node.expression_type == ExpressionType::Concatenation,
        ensures
            step_ok(*old(self), *final(self), r),
            outcome_of(r, *final(self)) == step_match(node, old(self).target@, old(self).pos as nat, tmap(old(self).backtrack_table@), old(self).path()),
            only_empty_ok(*node, *old(self), r),
            sound(*node, *old(self), r),
            literals_fit(*node, *old(self)) ==> r == Some(
                Match { start: old(self).pos, end: (old(self).pos + node.children@.len()) as usize },
            ),
            final(self).entry() == old(self).entry(),
        decreases node, 0int,
    {
        let n = node.children.len();
        let len = self.target.len();
        let start = self.pos;
        let ghost prefix = self.path();
        proof {
            lemma_all_wf(node.children@, 0);
            lemma_all_only_empty(node.children@, 0);
            if clean(old(self).table(), prefix) {
                assert forall|k: int| 0 <= k < n implies #[trigger] clean(
                    old(self).table(),
                    prefix.push(k as usize),
                ) by {
                    lemma_clean_child(old(self).table(), prefix, k as usize);
                }
            }
        }
        let mut known: Vec<bool> = Vec::new();
        while known.len() < n
            invariant
                known@.len() <= n,
                forall|k: int| 0 <= k < known@.len() ==> !(#[trigger] known@[k]),
            decreases n - known@.len(),
        {
            known.push(false);
        }
        proof {
            assert(known@ =~= Seq::new(n as nat, |k: int| false));
        }
        let mut idx: usize = 0;
        let ghost mut resumed = false;
        let ghost mut bounds: Seq<int> = seq![start as int];
        self.dive();
        while idx < n
            invariant
                concat_loop(node, self.target@, start as nat, known@, idx as nat, resumed, self.pos as nat, tmap(self.backtrack_table@), prefix) == step_match(node, old(self).target@, old(self).pos as nat, tmap(old(self).backtrack_table@), old(self).path()),
                n == node.children@.len(),
                len == self.target@.len(),
                forall|k: int| 0 <= k < n ==> #[trigger] node.children@[k].wf(),
                forall|k: int| 0 <= k < n ==> #[trigger] node.children@[k].is_primary(),
                known@.len() == n,
                forall|k: int| 0 <= k < n && #[trigger] known@[k] ==> node.children@[k].backtrackable(),
                forall|k: int|
                    0 <= k < n && #[trigger] known@[k] ==> lookup(self.table(), prefix.push(k as usize)) is Some
                        && lookup(self.table(), prefix.push(k as usize))->0.start >= start,
                idx <= n,
                prefix == old(self).path(),
                prefix.len() >= 1,
                self.path() == prefix.push(idx as usize),
                self.ready(),
                start == old(self).pos,
                start <= self.pos,
                self.target == old(self).target,
                self.pattern == old(self).pattern,
                self.matched_trailing_empty_string == old(self).matched_trailing_empty_string,
                table_frame(old(self).table(), self.table(), prefix),
                lookup(self.table(), prefix) == lookup(old(self).table(), prefix),
                node.matches_only_empty() ==> forall|k: int| 0 <= k < n ==> #[trigger] node.children@[k].matches_only_empty(),
                node.matches_only_empty() ==> self.pos == start,
                node.expression_type == ExpressionType::Concatenation,
                literals_fit(*node, *old(self)) ==> !resumed && self.pos == start + idx && forall|k: int|
                    0 <= k < n ==> !(#[trigger] known@[k]),
                bounds.len() == idx + 1,
                bounds[0] == start,
                bounds[idx as int] == self.pos,
                forall|i: int| 0 <= i < bounds.len() ==> 0 <= #[trigger] bounds[i] <= len,
                forall|i: int, j: int| 0 <= i <= j < bounds.len() ==> #[trigger] bounds[i] <= #[trigger] bounds[j],
                forall|i: int|
                    0 <= i < idx ==> in_lang(
                        &node.children@[i],
                        #[trigger] self.target@.subrange(bounds[i], bounds[i + 1]),
                    ),
                forall|k: int|
                    0 <= k < idx && #[trigger] known@[k] ==> lookup(self.table(), prefix.push(k as usize))->0.start
                        == bounds[k],
                node.matches_only_empty() ==> forall|k: int|
                    0 <= k < n && #[trigger] known@[k] ==> lookup(self.table(), prefix.push(k as usize))->0.start
                        == start,
                node.matches_only_empty() && clean(old(self).table(), prefix) ==> !resumed && (forall|k: int|
                    idx <= k < n ==> !(#[trigger] known@[k])) && (forall|k: int|
                    idx <= k < n ==> #[trigger] clean(self.table(), prefix.push(k as usize))),
                resumed ==> {
                    let e = lookup(self.table(), prefix.push(idx as usize));
                    &&& idx < n
                    &&& known@[idx as int]
                    &&& e is Some
                    &&& e->0.start == self.pos
                    &&& !e->0.exhausted
                },
            decreases concat_measure(self.table(), prefix, known@, idx as int, resumed, len as nat, n as int),
        {
            let ghost t_head = self.table();
            let ghost known_head = known@;
            let ghost idx_head = idx as int;
            let ghost resumed_head = resumed;
            let ghost pos_head = self.pos;
            proof {
                lemma_extends_self(prefix, idx);
            }
            let prev = self.find_prev(&known, idx);
            if known[idx] && prev.is_some() {
                if let Some(i) = self.find_entry() {
                    if self.backtrack_table[i].backtracked_to_last_match_start {
                        let current = self.pos;
                        self.store_entry(current, len, false);
                        proof {
                            lemma_tmap_store(
                                t_head,
                                self.backtrack_table@,
                                prefix.push(idx as usize),
                                EntryView { start: current, end: len, exhausted: false },
                            );
                        }
                    }
                }
            }
            let ghost t_mid = self.table();
            proof {
                assert(tmap(t_mid) == armed_table(tmap(t_head), prefix, known_head, idx as nat, pos_head as nat, len as nat));
            }
            let ghost mid = *self;
            proof {
                assert forall|q: Seq<usize>| q != prefix.push(idx as usize) implies #[trigger] lookup(
                    t_mid,
                    q,
                ) == lookup(t_head, q) by {}
                if resumed {
                    assert(t_mid == t_head);
                }
            }
            let child_match = self.compute_match(&node.children[idx]);
            let ghost o = outcome_of(child_match, *self);
            proof {
                assert(concat_loop(node, self.target@, start as nat, known_head, idx as nat, resumed_head, pos_head as nat, tmap(t_head), prefix)
                    == concat_step(node, self.target@, start as nat, known_head, idx as nat, resumed_head, tmap(t_head), prefix, o));
            }
            proof {
                assert forall|q: Seq<usize>| !extends(prefix, q) implies #[trigger] lookup(self.table(), q)
                    == lookup(old(self).table(), q) by {
                    lemma_extends_child(prefix, idx, q);
                    lemma_extends_self(prefix, idx);
                    assert(lookup(self.table(), q) == lookup(t_mid, q));
                    assert(lookup(t_mid, q) == lookup(t_head, q));
                }
                assert forall|k: int| 0 <= k < n && k != idx implies #[trigger] lookup(
                    self.table(),
                    prefix.push(k as usize),
                ) == lookup(t_head, prefix.push(k as usize)) by {
                    lemma_siblings_apart(prefix, idx, k as usize);
                    assert(prefix.push(k as usize)[prefix.len() as int] != prefix.push(idx)[prefix.len() as int]);
                    assert(lookup(self.table(), prefix.push(k as usize)) == lookup(
                        t_mid,
                        prefix.push(k as usize),
                    ));
                }
                lemma_slot_bounded(t_head, prefix, known_head, idx_head, resumed_head, len as nat, n as int);
                lemma_extends_shorter(prefix.push(idx), prefix);
                assert(prefix != prefix.push(idx));
                assert(lookup(self.table(), prefix) == lookup(t_mid, prefix));
            }
            match child_match {
                Some(m) => {
                    if !known[idx] && node.children[idx].supports_backtracking() {
                        known.set(idx, true);
                    }
                    proof {
                        let t = self.table();
                        lemma_slot_bounded(t, prefix, known@, idx + 1, false, len as nat, n as int);
                        lemma_lookup_bounded(t, prefix.push(idx as usize), len as nat);
                        if resumed_head {
                            lemma_lookup_bounded(t_head, prefix.push(idx as usize), len as nat);
                            let c = node.children@[idx as int];
                            assert(c.backtrackable());
                            assert(c.is_primary());
                            assert(c.expression_type is Group || (c.expression_type is CharacterExpression
                                && c.expression_type->CharacterExpression_quantifier != Quantifier::Once));
                            assert(within_entry_bound(mid, child_match));
                            assert(mid.entry() == lookup(t_head, prefix.push(idx as usize)));
                            assert(known@ == known_head);
                        }
                        assert(slot(t, prefix, known@, idx + 1, false, len as nat, idx as int) < slot(
                            t_head,
                            prefix,
                            known_head,
                            idx_head,
                            resumed_head,
                            len as nat,
                            idx as int,
                        ));
                        lemma_concat_measure_lt(
                            t,
                            known@,
                            idx + 1,
                            false,
                            t_head,
                            known_head,
                            idx_head,
                            resumed_head,
                            prefix,
                            len as nat,
                            n as int,
                            idx as int,
                        );
                    }
                    proof {
                        if node.matches_only_empty() && clean(old(self).table(), prefix) {
                            assert forall|k: int| idx < k < n implies #[trigger] clean(
                                self.table(),
                                prefix.push(k as usize),
                            ) by {
                                assert forall|q: Seq<usize>| extends(prefix.push(k as usize), q) implies #[trigger] lookup(
                                    self.table(),
                                    q,
                                ) is None by {
                                    lemma_subtrees_apart(prefix, k as usize, idx, q);
                                    assert(clean(t_head, prefix.push(k as usize)));
                                }
                            }
                        }
                    }
                    proof {
                        let old_bounds = bounds;
                        bounds = bounds.push(self.pos as int);
                        assert(bounds[idx + 1] == self.pos);
                        assert forall|i: int| 0 <= i < bounds.len() implies 0 <= #[trigger] bounds[i] <= len by {
                            if i < old_bounds.len() {
                                assert(bounds[i] == old_bounds[i]);
                            }
                        }
                        assert forall|i: int, j: int| 0 <= i <= j < bounds.len() implies #[trigger] bounds[i]
                            <= #[trigger] bounds[j] by {
                            if j < old_bounds.len() {
                                assert(bounds[i] == old_bounds[i] && bounds[j] == old_bounds[j]);
                            } else if i < j {
                                assert(bounds[i] == old_bounds[i]);
                                assert(old_bounds[i] <= old_bounds[idx as int]);
                            }
                        }
                        assert forall|i: int| 0 <= i < idx + 1 implies in_lang(
                            &node.children@[i],
                            #[trigger] self.target@.subrange(bounds[i], bounds[i + 1]),
                        ) by {
                            assert(bounds[i] == old_bounds[i]);
                            if i < idx {
                                assert(bounds[i + 1] == old_bounds[i + 1]);
                            }
                        }
                    }
                    self.appoint_next_child();
                    idx += 1;
                    proof {
                        resumed = false;
                        assert(self.path() =~= prefix.push(idx as usize));
                        lemma_measure_map(self.table(), prefix, known@, idx as int, false, len as nat, n as int);
                        lemma_measure_map(t_head, prefix, known_head, idx_head, resumed_head, len as nat, n as int);
                    }
                },
                None => {
                    match prev {
                        Some((j, resume_at)) => {
                            proof {
                                let t = self.table();
                                lemma_slot_bounded(t, prefix, known@, j as int, true, len as nat, n as int);
                                lemma_lookup_bounded(t_head, prefix.push(j), len as nat);
                                lemma_concat_measure_lt(
                                    t,
                                    known@,
                                    j as int,
                                    true,
                                    t_head,
                                    known_head,
                                    idx_head,
                                    resumed_head,
                                    prefix,
                                    len as nat,
                                    n as int,
                                    j as int,
                                );
                                lemma_lookup_bounded(t_head, prefix.push(j), len as nat);
                            }
                            proof {
                                let old_bounds = bounds;
                                bounds = bounds.subrange(0, j + 1);
                                assert forall|i: int| 0 <= i < j implies in_lang(
                                    &node.children@[i],
                                    #[trigger] self.target@.subrange(bounds[i], bounds[i + 1]),
                                ) by {
                                    assert(bounds[i] == old_bounds[i] && bounds[i + 1] == old_bounds[i + 1]);
                                    assert(in_lang(
                                        &node.children@[i],
                                        self.target@.subrange(old_bounds[i], old_bounds[i + 1]),
                                    ));
                                }
                            }
                            idx = j;
                            self.set_child(j);
                            self.set_position(resume_at);
                            proof {
                                resumed = true;
                                assert(self.path() =~= prefix.push(idx as usize));
                                lemma_measure_map(self.table(), prefix, known@, j as int, true, len as nat, n as int);
                                lemma_measure_map(t_head, prefix, known_head, idx_head, resumed_head, len as nat, n as int);
                            }
                        },
                        None => {
                            self.set_position(start);
                            self.bubble_up();
                            proof {
                                assert(self.path() =~= prefix);
                            }
                            return None;
                        },
                    }
                },
            }
        }
        self.bubble_up();
        proof {
            assert(self.path() =~= prefix);
            lemma_concat_pieces(node, self.target@, bounds, 0);
        }
        let end = self.pos;
        Some(Match { start, end })
    }

    /// Matches `node` at the cursor, and records the match of a backtrackable
    /// subexpression (other than the root) in the table.
    fn compute_match(&mut self, node: &ParsedRegexp) -> (r: Option<Match>)
        requires
            old(self).ready(),
            old(self).path().len() >= 1,
            node.wf(),
        ensures
            step_ok(*old(self), *final(self), r),
            outcome_of(r, *final(self)) == run_match(node, old(self).target@, old(self).pos as nat, tmap(old(self).backtrack_table@), old(self).path()),
            only_empty_ok(*node, *old(self), r),
            sound(*node, *old(self), r),
            literals_fit(*node, *old(self)) ==> r == Some(
                Match { start: old(self).pos, end: (old(self).pos + node.children@.len()) as usize },
            ),
            !(node.backtrackable() && old(self).path().len() > 1) ==> final(self).entry() == old(self).entry(),
            node.expression_type == (ExpressionType::Group { quantifier: Quantifier::ZeroOrOne })
                || node.expression_type == (ExpressionType::Group { quantifier: Quantifier::ZeroOrMore })
                ==> r is Some,
            char_exact(*node, *old(self), r),
            first_literal_fits(*node, *old(self)) ==> r == Some(
                Match { start: old(self).pos, end: (old(self).pos + 1) as usize },
            ),
            node.expression_type is Group || (node.expression_type is CharacterExpression
                && node.expression_type->CharacterExpression_quantifier != Quantifier::Once)
                ==> within_entry_bound(*old(self), r),
            r is Some && node.backtrackable() && old(self).path().len() > 1 ==> final(self).entry()
                == Some(
                EntryView {
                    start: r->0.start,
                    end: r->0.end,
                    exhausted: r->0.start == r->0.end,
                },
            ),
            r is None ==> final(self).entry() == old(self).entry(),
        decreases node, 1int,
    {
        let r = match node.expression_type {
            ExpressionType::EmptyExpression => self.empty_expression_match(),
            ExpressionType::CharacterExpression { value, quantifier } => self.character_expression_match(
                value,
                quantifier,
            ),
            ExpressionType::Group { quantifier } => self.group_match(node, quantifier),
            ExpressionType::Alternation => self.alternation_match(node),
            ExpressionType::Concatenation => self.concatenation_match(node),
        };
        let ghost mid = *self;
        proof {
            assert(entry_end(*old(self)) == entry_end_at(tmap(old(self).backtrack_table@), old(self).path()));
            assert(outcome_of(r, mid) == step_match(node, old(self).target@, old(self).pos as nat, tmap(old(self).backtrack_table@), old(self).path()));
        }
        if let Some(m) = &r {
            if self.pattern_index_sequence.len() > 1 && node.supports_backtracking() {
                self.store_entry(m.start, m.end, m.start == m.end);
                proof {
                    lemma_extends_self(old(self).path(), 0);
                    lemma_tmap_store(
                        mid.backtrack_table@,
                        self.backtrack_table@,
                        old(self).path(),
                        EntryView { start: m.start, end: m.end, exhausted: m.start == m.end },
                    );
                }
            }
        }
        r
    }
    /// The target's characters.
    pub closed spec fn target_chars(&self) -> Seq<char> {
        self.target@
    }

    /// Where the next match is looked for.
    pub closed spec fn cursor(&self) -> nat {
        self.pos as nat
    }

    /// Whether the attempt at the end of the target has been made, after which no
    /// match comes any more.
    pub closed spec fn finished(&self) -> bool {
        self.matched_trailing_empty_string
    }

    /// The pattern's syntax tree.
    pub closed spec fn tree(&self) -> ParsedRegexp {
        self.pattern
    }

    /// The state between two searches.
    pub closed spec fn wf(&self) -> bool {
        &&& self.pattern.wf()
        &&& self.pos <= self.target@.len()
        &&& self.pattern_index_sequence@.len() == 0
        &&& self.backtrack_table@.len() == 0
    }

    /// Made smaller by every match handed out.
    pub open spec fn progress(&self) -> nat {
        (2 * (self.target_chars().len() - self.cursor()) + if self.finished() {
            0int
        } else {
            1int
        }) as nat
    }

    /// Compiles `pattern` and binds it to `target`, at offset 0 with no backtrack state.
    /// A pattern of literal characters only always compiles, to the tree of its text.
    pub fn new(pattern: &str, target: &str) -> (r: Result<Matcher, PatternError>)
        ensures
            r is Ok ==> {
                let m = r->Ok_0;
                &&& m.wf()
                &&& m.target_chars() == target@
                &&& m.cursor() == 0
                &&& !m.finished()
                &&& compiled_shape(m, pattern@)
            },
            literal_text(pattern@) is Some ==> r is Ok,
            pattern@.len() > 0 && simple_pattern(pattern@) is Some ==> r is Ok,
            first_char_error(pattern@) is Some ==> r == Err::<Matcher, PatternError>(first_char_error(pattern@)->0),
    {
        let pattern = parse(pattern)?;
        Ok(
            Matcher {
                pattern,
                target: chars_of(target),
                pos: 0,
                matched_trailing_empty_string: false,
                pattern_index_sequence: Vec::new(),
                backtrack_table: Vec::new(),
            },
        )
    }

    /// Binds a new target: the search starts over at offset 0 with no backtrack state.
    pub fn assign_match_target(&mut self, target: &str)
        requires
            old(self).wf(),
        ensures
            final(self).wf(),
            final(self).target_chars() == target@,
            final(self).cursor() == 0,
            !final(self).finished(),
            final(self).tree() == old(self).tree(),
    {
        self.target = chars_of(target);
        self.set_position(0);
        self.matched_trailing_empty_string = false;
        self.pattern_index_sequence.clear();
        self.backtrack_table.clear();
    }

    /// The next match: from the cursor on, the first offset at which the pattern
    /// matches gives the match. After an empty match the cursor moves one further, so
    /// that the search makes progress; the attempt at the target's end is made once.
    pub fn next(&mut self) -> (r: Option<Match>)
        requires
            old(self).wf(),
        ensures
            final(self).wf(),
            next_step(*old(self), *final(self), r),
    {
        if self.matched_trailing_empty_string {
            return None;
        }
        let len = self.target.len();
        let mut pattern = ParsedRegexp::new(ExpressionType::EmptyExpression);
        std::mem::swap(&mut pattern, &mut self.pattern);
        self.dive();
        loop
            invariant
                len == self.target@.len(),
                pattern == old(self).pattern,
                old(self).wf(),
                self.target == old(self).target,
                self.ready(),
                self.path() == seq![0usize],
                old(self).pos <= self.pos,
                !old(self).matched_trailing_empty_string,
                self.matched_trailing_empty_string ==> self.pos == len,
                self.backtrack_table@.len() == 0,
                first_match(pattern, self.target@, old(self).pos as nat) == first_match(pattern, self.target@, self.pos as nat),
                pattern.matches_only_empty() ==> self.pos == old(self).pos,
                first_literal_fits(pattern, *old(self)) ==> self.pos == old(self).pos,
                match pattern.expression_type {
                    ExpressionType::CharacterExpression { value, quantifier } => first_char_match(
                        value,
                        quantifier,
                        self.target@,
                        old(self).pos as int,
                    ) == first_char_match(value, quantifier, self.target@, self.pos as int),
                    _ => true,
                },
                forall|t: Seq<char>|
                    #[trigger] is_literal_tree(pattern, t) && old(self).pos + t.len() <= len
                        && self.target@.subrange(old(self).pos as int, old(self).pos + t.len()) == t
                        ==> self.pos == old(self).pos,
            decreases len - self.pos,
        {
            if self.pos == len {
                self.matched_trailing_empty_string = true;
            }
            proof {
                assert(seq![0usize].len() == 1);
                assert(clean(self.table(), self.path()));
                assert(self.entry() is None);
            }
            let ghost before = *self;
            proof {
                lemma_tmap_empty(self.backtrack_table@);
            }
            let attempt = self.compute_match(&pattern);
            proof {
                assert(first_match(pattern, self.target@, before.pos as nat) == if attempt is Some {
                    attempt
                } else {
                    first_match(pattern, self.target@, (before.pos + 1) as nat)
                });
            }
            proof {
                assert forall|t: Seq<char>|
                    #[trigger] is_literal_tree(pattern, t) && old(self).pos + t.len() <= len
                        && self.target@.subrange(old(self).pos as int, old(self).pos + t.len()) == t
                        implies attempt == Some(
                        Match { start: before.pos, end: (before.pos + t.len()) as usize },
                    ) by {
                    assert(before.pos == old(self).pos);
                    if t.len() == 0 {
                        assert(pattern.matches_only_empty());
                    } else if t.len() == 1 {
                        assert(self.target@.subrange(before.pos as int, before.pos + 1)[0] == t[0]);
                    } else {
                        assert forall|i: int| 0 <= i < pattern.children@.len() implies literal_of(
                            &#[trigger] pattern.children@[i],
                        ) == Some(before.target@[before.pos + i]) by {
                            assert(self.target@.subrange(before.pos as int, before.pos + t.len())[i] == t[i]);
                        }
                        assert(literals_fit(pattern, before));
                    }
                }
            }
            self.backtrack_table.clear();
            match attempt {
                None => {
                    if self.has_next() {
                        self.advance();
                    } else {
                        proof {
                            if let ExpressionType::CharacterExpression { value, quantifier } = pattern.expression_type {
                                assert(first_char_match(value, quantifier, self.target@, self.pos + 1) is None);
                                assert(first_char_match(value, quantifier, self.target@, self.pos as int) is None);
                            }
                        }
                        self.bubble_up();
                        proof {
                            assert(self.path() =~= Seq::<usize>::empty());
                        }
                        std::mem::swap(&mut pattern, &mut self.pattern);
                        return None;
                    }
                },
                Some(m) => {
                    if m.start == m.end && self.has_next() {
                        self.advance();
                    }
                    self.bubble_up();
                    proof {
                        assert(self.path() =~= Seq::<usize>::empty());
                    }
                    std::mem::swap(&mut pattern, &mut self.pattern);
                    return Some(m);
                },
            }
        }
    }

    /// All the matches that are left, in order; the matcher is finished afterwards.
    #[verifier::rlimit(100)]
    pub fn collect_matches(&mut self) -> (r: Vec<Match>)
        requires
            old(self).wf(),
        ensures
            r@ == matches_from(old(self).tree(), old(self).target_chars(), old(self).cursor(), old(self).finished()),
            final(self).wf(),
            final(self).finished(),
            final(self).target_chars() == old(self).target_chars(),
            final(self).tree() == old(self).tree(),
            forall|i: int| 0 <= i < r@.len() ==> old(self).cursor() <= #[trigger] r@[i].start <= r@[i].end
                <= old(self).target_chars().len(),
            forall|i: int|
                0 <= i < r@.len() ==> in_lang(
                    &old(self).tree(),
                    old(self).target_chars().subrange(#[trigger] r@[i].start as int, r@[i].end as int),
                ),
            forall|i: int|
                0 < i < r@.len() ==> (#[trigger] r@[i]).start >= r@[i - 1].end && (r@[i - 1].start
                    == r@[i - 1].end ==> r@[i].start > r@[i - 1].end),
    {
        let mut all: Vec<Match> = Vec::new();
        loop
            invariant
                all@ + matches_from(self.tree(), self.target_chars(), self.cursor(), self.finished()) == matches_from(
                    old(self).tree(),
                    old(self).target_chars(),
                    old(self).cursor(),
                    old(self).finished(),
                ),
                self.wf(),
                self.target_chars() == old(self).target_chars(),
                self.tree() == old(self).tree(),
                forall|i: int| 0 <= i < all@.len() ==> old(self).cursor() <= #[trigger] all@[i].start
                    <= all@[i].end <= self.cursor(),
                forall|i: int|
                    0 <= i < all@.len() ==> in_lang(
                        &old(self).tree(),
                        old(self).target_chars().subrange(#[trigger] all@[i].start as int, all@[i].end as int),
                    ),
                forall|i: int|
                    0 < i < all@.len() ==> (#[trigger] all@[i]).start >= all@[i - 1].end && (all@[i
                        - 1].start == all@[i - 1].end ==> all@[i].start > all@[i - 1].end),
                all@.len() > 0 && all@.last().start == all@.last().end ==> self.cursor() > all@.last().end
                    || self.finished(),
                old(self).cursor() <= self.cursor(),
            decreases self.progress(),
        {
            let ghost before = *self;
            let ghost prev_all = all@;
            let r = self.next();
            match r {
                Some(m) => {
                    all.push(m);
                    proof {
                        let t = before.target_chars();
                        lemma_matches_from_some(before, *self, m);
                        assert(prev_all.push(m) + matches_from(self.tree(), t, self.cursor(), self.finished())
                            =~= prev_all + (seq![m] + matches_from(self.tree(), t, self.cursor(), self.finished())));
                    }
                },
                None => {
                    proof {
                        lemma_matches_from_none(before, *self);
                        assert(all@ =~= all@ + Seq::<Match>::empty());
                    }
                    return all;
                },
            }
        }
    }
}

/// The shape that compiling `pattern` gives the tree, for the patterns whose tree the
/// parser's contract fixes: a pattern of literal characters only gives the tree of
/// the text they spell (the empty pattern, the empty expression), and a pattern of
/// parentheses and pipes only gives a tree that matches nothing but the empty string,
/// a one-character pattern (`a`, `.`, `a*`, `.+`) gives its character node, and a run
/// of characters and dots with optional quantifiers (`a+b`, `a?b`) gives its units.
pub open spec fn compiled_shape(m: Matcher, pattern: Seq<char>) -> bool {
    &&& literal_text(pattern) is Some ==> is_literal_tree(m.tree(), literal_text(pattern)->0)
    &&& structure_only(pattern) ==> m.tree().matches_only_empty()
    &&& single_char_pattern(pattern) is Some ==> m.tree().expression_type == single_char_pattern(pattern)->0
    &&& pattern.len() > 0 && simple_pattern(pattern) is Some ==> is_units_tree(m.tree(), simple_pattern(pattern)->0)
}

/// The cursor after a match `m` (one further after an empty match, except at the end).
pub open spec fn cursor_after(m: Match, len: nat) -> nat {
    if m.start == m.end && m.end < len {
        (m.end + 1) as nat
    } else {
        m.end as nat
    }
}

/// Whether the search is over after a match `m`: an empty match at the end.
pub open spec fn finished_after(m: Match, len: nat) -> bool {
    m.start == m.end && m.end >= len
}

/// What each match handed out makes smaller.
pub open spec fn search_measure(len: nat, p: nat, finished: bool) -> int {
    2 * (len - p) + if finished {
        0int
    } else {
        1int
    }
}

/// The successive matches from cursor `p` (§4.3.1): `first_match` again and again,
/// moving the cursor as `cursor_after` says, until no match is left.
pub closed spec fn matches_from(tree: ParsedRegexp, t: Seq<char>, p: nat, finished: bool) -> Seq<Match>
    decreases search_measure(t.len(), p, finished),
{
    if finished || p > t.len() {
        Seq::empty()
    } else {
        match first_match(tree, t, p) {
            None => Seq::empty(),
            Some(m) => {
                let p2 = cursor_after(m, t.len());
                let f2 = finished_after(m, t.len());
                if p2 <= t.len() && search_measure(t.len(), p2, f2) < search_measure(t.len(), p, finished) {
                    seq![m] + matches_from(tree, t, p2, f2)
                } else {
                    seq![m]
                }
            },
        }
    }
}

/// One call of `next`, from state `a` to state `b`, with result `r`: the target and
/// the pattern stay; a finished matcher yields nothing; a match lies in the target
/// at or after the cursor; the cursor moves to the match's end, or one further after
/// an empty match, and an empty match at the target's end finishes the matcher; a
/// `None` finishes it. The match is the leftmost one from the cursor (`first_match`,
/// the §4.3 search), and its text is in the pattern's language. A lone `x*`
/// or `x+` takes the whole run of `x`; an alternation whose first branch is a literal
/// found at the cursor matches that literal there; a lone character or dot gives its
/// leftmost match from the cursor on; a run of literal characters found
/// at the cursor is matched there. A pattern that can match only the empty string matches it at
/// the cursor.
pub open spec fn next_step(a: Matcher, b: Matcher, r: Option<Match>) -> bool {
    &&& b.target_chars() == a.target_chars()
    &&& b.tree() == a.tree()
    &&& a.finished() ==> r is None && b.cursor() == a.cursor() && b.finished()
    &&& r is None ==> b.finished() && a.cursor() <= b.cursor()
    &&& r is Some ==> {
        let m = r->0;
        &&& !a.finished()
        &&& a.cursor() <= m.start <= m.end <= a.target_chars().len()
        &&& in_lang(&a.tree(), a.target_chars().subrange(m.start as int, m.end as int))
        &&& m.start < m.end ==> b.cursor() == m.end && !b.finished()
        &&& m.start == m.end ==> if m.end < a.target_chars().len() {
            b.cursor() == m.end + 1 && !b.finished()
        } else {
            b.cursor() == m.end && b.finished()
        }
    }
    &&& a.tree().matches_only_empty() && !a.finished() ==> r == Some(
        Match { start: a.cursor() as usize, end: a.cursor() as usize },
    )
    &&& !a.finished() ==> r == first_match(a.tree(), a.target_chars(), a.cursor())
    &&& !a.finished() ==> match a.tree().expression_type {
        ExpressionType::CharacterExpression { value, quantifier } => r == first_char_match(
            value,
            quantifier,
            a.target_chars(),
            a.cursor() as int,
        ),
        _ => true,
    }
    &&& r is Some ==> match a.tree().expression_type {
        ExpressionType::CharacterExpression { value, quantifier } => (quantifier == Quantifier::ZeroOrMore
            || quantifier == Quantifier::OneOrMore) ==> run_ends(value, a.target_chars(), r->0.end as int),
        _ => true,
    }
    &&& forall|s: Seq<char>|
        #[trigger] is_literal_tree(a.tree(), s) && !a.finished() && a.cursor() + s.len() <= a.target_chars().len()
            && a.target_chars().subrange(a.cursor() as int, a.cursor() + s.len() as int) == s ==> r == Some(
            Match { start: a.cursor() as usize, end: (a.cursor() + s.len()) as usize },
        )
    &&& a.tree().expression_type == ExpressionType::Alternation && a.tree().children@.len() > 0
        && literal_of(&a.tree().children@[0]) is Some && !a.finished() && a.cursor() < a.target_chars().len()
        && a.target_chars()[a.cursor() as int] == literal_of(&a.tree().children@[0])->0 ==> r == Some(
        Match { start: a.cursor() as usize, end: (a.cursor() + 1) as usize },
    )
}

/// One match handed out by `next` is the head of the remaining matches.
proof fn lemma_matches_from_some(a: Matcher, b: Matcher, m: Match)
    requires
        next_step(a, b, Some(m)),
    ensures
        matches_from(a.tree(), a.target_chars(), a.cursor(), a.finished()) == seq![m] + matches_from(
            b.tree(),
            b.target_chars(),
            b.cursor(),
            b.finished(),
        ),
{
}

/// When `next` yields nothing, no match is left.
proof fn lemma_matches_from_none(a: Matcher, b: Matcher)
    requires
        next_step(a, b, None),
    ensures
        matches_from(a.tree(), a.target_chars(), a.cursor(), a.finished()) == Seq::<Match>::empty(),
{
}

/// Successive matches from one matcher do not overlap: the second starts at or after
/// the end of the first, and strictly after it when the first is empty.
pub proof fn lemma_matches_do_not_overlap(
    a: Matcher,
    b: Matcher,
    c: Matcher,
    first: Match,
    second: Match,
)
    requires
        next_step(a, b, Some(first)),
        next_step(b, c, Some(second)),
    ensures
        first.end <= second.start,
        first.start == first.end ==> first.end < second.start,
{
}

/// Every match handed out makes `progress` smaller, and once `next` yields nothing it
/// yields nothing again: iteration over any target ends.
pub proof fn lemma_iteration_progresses(a: Matcher, b: Matcher, c: Matcher, r: Option<Match>, s: Option<Match>)
    requires
        next_step(a, b, r),
        next_step(b, c, s),
    ensures
        r is Some ==> b.progress() < a.progress(),
        r is None ==> s is None && c.cursor() == b.cursor(),
{
}

/// A lone `x*` or `x+` (or `.*`, `.+`) is greedy: its match runs up to the end of the
/// target or up to a character other than `x`.
pub proof fn lemma_star_takes_longest_run(a: Matcher, b: Matcher, m: Match)
    requires
        next_step(a, b, Some(m)),
        a.tree().expression_type is CharacterExpression,
        a.tree().expression_type->CharacterExpression_quantifier == Quantifier::ZeroOrMore
            || a.tree().expression_type->CharacterExpression_quantifier == Quantifier::OneOrMore,
    ensures
        m.end == a.target_chars().len() || (a.tree().expression_type->CharacterExpression_value is Some
            && a.target_chars()[m.end as int] != a.tree().expression_type->CharacterExpression_value->0),
{
}

/// In `c|B` with a literal first branch `c`, when `c` is at the cursor the first
/// branch wins: the match is that one character, whatever `B` could match.
pub proof fn lemma_first_branch_wins(a: Matcher, b: Matcher, r: Option<Match>)
    requires
        next_step(a, b, r),
        !a.finished(),
        a.tree().expression_type == ExpressionType::Alternation,
        a.tree().children@.len() > 0,
        literal_of(&a.tree().children@[0]) is Some,
        a.cursor() < a.target_chars().len(),
        a.target_chars()[a.cursor() as int] == literal_of(&a.tree().children@[0])->0,
    ensures
        r == Some(Match { start: a.cursor() as usize, end: (a.cursor() + 1) as usize }),
{
}

/// Compiling `escape(s)` and matching it against `s` itself gives the match
/// `[0, s.len())`.
pub proof fn lemma_escape_round_trip(s: Seq<char>, m: Matcher, after: Matcher, r: Option<Match>)
    requires
        compiled_shape(m, escaped(s)),
        m.target_chars() == s,
        m.cursor() == 0,
        !m.finished(),
        next_step(m, after, r),
    ensures
        r == Some(Match { start: 0, end: s.len() as usize }),
{
    lemma_escaped_is_literal(s);
    assert(s.subrange(0, s.len() as int) =~= s);
    assert(is_literal_tree(m.tree(), s));
    if s.len() == 0 {
        assert(literal_text(Seq::<char>::empty()) == Some(Seq::<char>::empty()));
    }
}

/// A compiled one-character pattern (`a`, `.`, `a*`, `.+`, ...) yields, at each call,
/// the leftmost match of its character from the cursor on, taking the whole run for
/// `*` and `+`.
pub proof fn lemma_single_char_leftmost(m: Matcher, after: Matcher, r: Option<Match>, pattern: Seq<char>)
    requires
        compiled_shape(m, pattern),
        single_char_pattern(pattern) is Some,
        !m.finished(),
        next_step(m, after, r),
    ensures
        r == first_char_match(
            single_char_pattern(pattern)->0->CharacterExpression_value,
            single_char_pattern(pattern)->0->CharacterExpression_quantifier,
            m.target_chars(),
            m.cursor() as int,
        ),
{
}

/// A compiled pattern of parentheses and pipes only (such as `()` or `(|)`) matches
/// the empty string alone, so `lemma_empty_only_pattern` applies to it.
pub proof fn lemma_structure_only_pattern(m: Matcher, pattern: Seq<char>)
    requires
        compiled_shape(m, pattern),
        structure_only(pattern),
    ensures
        m.tree().matches_only_empty(),
{
}

/// A pattern that can match only the empty string yields one empty match at each
/// offset of the target, from 0 up to and including its length, in order, and then
/// nothing.
pub proof fn lemma_empty_only_pattern(a: Matcher, b: Matcher, r: Option<Match>)
    requires
        a.tree().matches_only_empty(),
        next_step(a, b, r),
    ensures
        !a.finished() ==> r == Some(Match { start: a.cursor() as usize, end: a.cursor() as usize }),
        !a.finished() && a.cursor() < a.target_chars().len() ==> b.cursor() == a.cursor() + 1
            && !b.finished(),
        !a.finished() && a.cursor() >= a.target_chars().len() ==> b.finished(),
        a.finished() ==> r is None,
        b.tree() == a.tree(),
{
}

} // verus!
