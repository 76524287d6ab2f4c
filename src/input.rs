//! The input store: the fact and node arenas, the rules, the initial facts and
//! the queries, with the parsers that fill them.

use vstd::prelude::*;
use vstd::string::*;
use crate::grammar::{
    balanced, block_char_check, denotes, depth, find_last_top, is_balanced, is_block_char,
    lemma_denotes_frame, lemma_last_top_range, last_top, level_char, level_op, parse_expr, Expr,
};
use crate::node::{
    below, fact_outcome, facts_of, keeps_prefix, Fact, Node, Operator, Resolve, ResolveError,
};
use crate::text::{
    atom_check, char_text, chars_of, comment_start, find_char_from, find_comment, find_first,
    first_at, is_atom, is_space, lemma_first_at_range, space_check, strip_spaces, sub_chars,
    text_of, without_spaces,
};

verus! {

/// Why a block was rejected.
#[derive(Clone, Copy, Debug, PartialEq, Eq, Structural)]
pub enum ParseError {
    /// A block holds a character other than an atom, `!`, `+`, `|`, `^`, `(` or `)`.
    InvalidCharacter,
    /// A block closes a parenthesis that was not open.
    CloseOnRoot,
    /// A block leaves a parenthesis open.
    UnclosedContext,
    /// A block holds an empty pair of parentheses.
    UnusedContext,
    /// A block's parentheses match but it does not follow the grammar.
    IncompleteRoot,
}

/// A node is a leaf naming a fact, a negation of an earlier node, or a
/// connective over two earlier nodes; none is marked.
pub open spec fn node_wf(n_facts: int, ns: Seq<Node>, i: int) -> bool {
    let nd = ns[i];
    &&& !nd.visited
    &&& match nd.operator {
        None => nd.fact is Some && (nd.fact.unwrap() as int) < n_facts && nd.left is None
            && nd.right is None,
        Some(Operator::Not) => nd.fact is None && below(nd.left, i) && nd.right is None,
        Some(_) => nd.fact is None && below(nd.left, i) && below(nd.right, i),
    }
}

/// `r` is a rule root: an implication or a biconditional.
pub open spec fn is_rule_root(ns: Seq<Node>, r: int) -> bool {
    0 <= r < ns.len() && (ns[r].operator == Some(Operator::Implies) || ns[r].operator == Some(
        Operator::IfAndOnlyIf,
    ))
}

pub open spec fn fact_wf(ns: Seq<Node>, f: Fact) -> bool {
    &&& is_atom(f.repr)
    &&& forall|k: int| 0 <= k < f.rules@.len() ==> #[trigger] is_rule_root(ns, f.rules@[k] as int)
}

/// One fact per atom, each with rule roots only.
pub open spec fn facts_wf(fs: Seq<Fact>, ns: Seq<Node>) -> bool {
    &&& forall|i: int| 0 <= i < fs.len() ==> #[trigger] fact_wf(ns, fs[i])
    &&& forall|i: int, j: int| 0 <= i < j < fs.len() ==> fs[i].repr != fs[j].repr
}

pub open spec fn nodes_wf(n_facts: int, ns: Seq<Node>) -> bool {
    forall|i: int| 0 <= i < ns.len() ==> #[trigger] node_wf(n_facts, ns, i)
}

/// The index of the fact for atom `c`, if there is one.
pub open spec fn fact_index(fs: Seq<Fact>, c: char) -> Option<int> {
    if exists|i: int| 0 <= i < fs.len() && fs[i].repr == c {
        Some(choose|i: int| 0 <= i < fs.len() && fs[i].repr == c)
    } else {
        None
    }
}

/// Why the block `s` is rejected, if it is: the first of a character outside
/// the block alphabet, a parenthesis closed before it was opened, one left
/// open, and a shape that the grammar does not accept.
pub open spec fn block_error(s: Seq<char>) -> Option<ParseError> {
    if exists|i: int| 0 <= i < s.len() && !is_block_char(#[trigger] s[i]) {
        Some(ParseError::InvalidCharacter)
    } else if exists|k: int| 0 <= k <= s.len() && #[trigger] depth(s, k) < 0 {
        Some(ParseError::CloseOnRoot)
    } else if depth(s, s.len() as int) != 0 {
        Some(ParseError::UnclosedContext)
    } else if exists|i: int| 0 <= i && i + 1 < s.len() && #[trigger] s[i] == '(' && s[i + 1] == ')' {
        Some(ParseError::UnusedContext)
    } else if parse_expr(s, 3) is None {
        Some(ParseError::IncompleteRoot)
    } else {
        None
    }
}

/// Why a line of a configuration was rejected.
#[derive(Clone, Copy, Debug, PartialEq, Eq, Structural)]
pub enum InputError {
    /// A block of a rule was rejected.
    Block(ParseError),
    /// The line holds neither `=>` nor `<=>`.
    NotARule,
    /// The line does not start with `=`.
    NotInitialFacts,
    /// An initial fact is not an uppercase letter.
    InvalidInitialFact,
    /// The line does not start with `?`.
    NotQueries,
    /// A query is not an uppercase letter.
    InvalidQuery,
    /// The query line names no atom.
    EmptyQueries,
    /// No initial-facts line precedes the queries.
    MissingInitialFacts,
    /// No query line follows the initial facts.
    MissingQueries,
    /// A line follows the queries.
    QueriesNotLast,
}

/// The text after position `k` up to a `#` comment.
pub open spec fn tail_before_comment(s: Seq<char>, k: int) -> Seq<char> {
    let t = s.subrange(k, s.len() as int);
    t.subrange(0, comment_start(t))
}

/// A line without its `#` comment.
pub open spec fn before_comment(s: Seq<char>) -> Seq<char> {
    s.subrange(0, comment_start(s))
}

/// A rule line without its comment, split at its first `<=>`, or else at its
/// first `=>`: the premise and the conclusion without whitespace, and whether
/// the rule is a biconditional.
pub open spec fn rule_parts(s: Seq<char>) -> Option<(Seq<char>, bool, Seq<char>)> {
    let b = before_comment(s);
    let k3 = first_at(b, seq!['<', '=', '>'], 0);
    let k2 = first_at(b, seq!['=', '>'], 0);
    if k3 >= 0 {
        Some((without_spaces(b.subrange(0, k3)), true, without_spaces(b.subrange(k3 + 3, b.len() as int))))
    } else if k2 >= 0 {
        Some((without_spaces(b.subrange(0, k2)), false, without_spaces(b.subrange(k2 + 2, b.len() as int))))
    } else {
        None
    }
}

/// Why the rule line `s` is rejected, if it is.
pub open spec fn rule_error(s: Seq<char>) -> Option<InputError> {
    match rule_parts(s) {
        None => Some(InputError::NotARule),
        Some((l, _, r)) => match block_error(l) {
            Some(e) => Some(InputError::Block(e)),
            None => match block_error(r) {
                Some(e) => Some(InputError::Block(e)),
                None => None,
            },
        },
    }
}

/// Two facts for the same atom in the same resolution state.
pub open spec fn same_state(a: Fact, b: Fact) -> bool {
    a.repr == b.repr && a.value == b.value && a.resolved == b.resolved
}

/// The character `c` stands in `s[lo..hi]`.
pub open spec fn occurs(s: Seq<char>, lo: int, hi: int, c: char) -> bool {
    exists|j: int| lo <= j < hi && #[trigger] s[j] == c
}

pub proof fn lemma_occurs_widen(s: Seq<char>, lo: int, hi: int, lo2: int, hi2: int, c: char)
    requires
        occurs(s, lo2, hi2, c),
        lo <= lo2,
        hi2 <= hi,
    ensures
        occurs(s, lo, hi, c),
{
    let j = choose|j: int| lo2 <= j < hi2 && #[trigger] s[j] == c;
    assert(lo <= j < hi && s[j] == c);
}

/// A fact as it is first created: false, unresolved, with no rule.
pub open spec fn fresh(f: Fact) -> bool {
    f.rules@.len() == 0 && bare(f)
}

/// A fact as it is first created: false and unresolved.
pub open spec fn bare(f: Fact) -> bool {
    f.value == Resolve::False && !f.resolved
}

/// Each fact's rule list.
pub open spec fn rule_lists(fs: Seq<Fact>) -> Seq<Seq<usize>> {
    Seq::new(fs.len(), |i: int| fs[i].rules@)
}

/// `root` appended to the rule list of each fact of `list`, in turn.
pub open spec fn registered(rl: Seq<Seq<usize>>, list: Seq<usize>, root: usize) -> Seq<Seq<usize>>
    decreases list.len(),
{
    if list.len() == 0 {
        rl
    } else {
        let r1 = registered(rl, list.drop_last(), root);
        let f = list.last() as int;
        if 0 <= f < r1.len() {
            r1.update(f, r1[f].push(root))
        } else {
            r1
        }
    }
}

/// The facts whose rule lists a new rule joins: those of its conclusion, and
/// for a biconditional first those of its premise.
pub open spec fn rule_targets(ns: Seq<Node>, root: int) -> Seq<usize> {
    let l = ns[root].left.unwrap() as int;
    let r = ns[root].right.unwrap() as int;
    if ns[root].operator == Some(Operator::IfAndOnlyIf) {
        facts_of(ns, l) + facts_of(ns, r)
    } else {
        facts_of(ns, r)
    }
}

/// The atoms that a line starting with `prefix` lists: what follows the
/// prefix up to a comment, without whitespace; `None` without the prefix.
pub open spec fn listed(s: Seq<char>, prefix: char) -> Option<Seq<char>> {
    if s.len() == 0 || s[0] != prefix {
        None
    } else {
        Some(without_spaces(tail_before_comment(s, 1)))
    }
}

pub open spec fn all_atoms(a: Seq<char>) -> bool {
    forall|i: int| 0 <= i < a.len() ==> is_atom(#[trigger] a[i])
}

/// Why the initial-facts line `s` is rejected, if it is.
pub open spec fn facts_line_error(s: Seq<char>) -> Option<InputError> {
    match listed(s, '=') {
        None => Some(InputError::NotInitialFacts),
        Some(a) => if all_atoms(a) {
            None
        } else {
            Some(InputError::InvalidInitialFact)
        },
    }
}

/// Why the query line `s` is rejected, if it is.
pub open spec fn queries_line_error(s: Seq<char>) -> Option<InputError> {
    match listed(s, '?') {
        None => Some(InputError::NotQueries),
        Some(a) => if a.len() == 0 {
            Some(InputError::EmptyQueries)
        } else if all_atoms(a) {
            None
        } else {
            Some(InputError::InvalidQuery)
        },
    }
}

/// `l` followed by each atom of `a` that it does not hold yet, in order.
pub open spec fn add_unique(l: Seq<char>, a: Seq<char>) -> Seq<char>
    decreases a.len(),
{
    if a.len() == 0 {
        l
    } else {
        let l1 = add_unique(l, a.drop_last());
        if l1.contains(a.last()) {
            l1
        } else {
            l1.push(a.last())
        }
    }
}

/// The facts after a reset: each fact is true and fixed when its atom is an
/// initial fact, and false and open otherwise.
pub open spec fn reset_facts(fs: Seq<Fact>, init: Seq<char>) -> Seq<Fact> {
    Seq::new(
        fs.len(),
        |i: int|
            Fact {
                value: if init.contains(fs[i].repr) {
                    Resolve::True
                } else {
                    Resolve::False
                },
                resolved: init.contains(fs[i].repr),
                ..fs[i]
            },
    )
}

/// The lines of `s`: the pieces between line feeds.
pub open spec fn lines_of(s: Seq<char>) -> Seq<Seq<char>>
    decreases s.len(),
{
    let k = first_at(s, seq!['\n'], 0);
    if k < 0 {
        seq![s]
    } else {
        proof {
            lemma_first_at_range(s, seq!['\n'], 0);
        }
        seq![s.subrange(0, k)] + lines_of(s.subrange(k + 1, s.len() as int))
    }
}

/// Number of whitespace characters that start `s`.
pub open spec fn lead(s: Seq<char>) -> nat
    decreases s.len(),
{
    if s.len() == 0 || !is_space(s[0]) {
        0
    } else {
        1 + lead(s.subrange(1, s.len() as int))
    }
}

/// `s` without its leading whitespace.
pub open spec fn skip_lead(s: Seq<char>) -> Seq<char> {
    s.subrange(lead(s) as int, s.len() as int)
}

/// How one line moves the reading of a configuration on. Stage 0 reads rules,
/// stage 1 expects the queries after the initial facts, stage 2 expects
/// nothing more. Blank lines and comment lines change nothing.
pub open spec fn line_step(stage: nat, l: Seq<char>) -> Result<nat, InputError> {
    let t = skip_lead(l);
    if t.len() == 0 || t[0] == '#' {
        Ok(stage)
    } else if stage == 0 {
        if first_at(before_comment(t), seq!['=', '>'], 0) >= 0 {
            match rule_error(t) {
                Some(e) => Err(e),
                None => Ok(0),
            }
        } else if t[0] == '=' {
            match facts_line_error(t) {
                Some(e) => Err(e),
                None => Ok(1),
            }
        } else if t[0] == '?' {
            Err(InputError::MissingInitialFacts)
        } else {
            Err(InputError::NotARule)
        }
    } else if stage == 1 {
        if t[0] == '?' {
            match queries_line_error(t) {
                Some(e) => Err(e),
                None => Ok(2),
            }
        } else {
            Err(InputError::MissingQueries)
        }
    } else {
        Err(InputError::QueriesNotLast)
    }
}

/// The stage after the first `k` lines.
pub open spec fn stage_after(lines: Seq<Seq<char>>, k: int) -> Result<nat, InputError>
    decreases k,
{
    if k <= 0 {
        Ok(0)
    } else {
        match stage_after(lines, k - 1) {
            Err(e) => Err(e),
            Ok(st) => line_step(st, lines[k - 1]),
        }
    }
}

/// What a line that the reading accepted at `stage` adds to a summary of the
/// configuration: the number of rules, the initial-fact atoms and the query atoms.
pub open spec fn line_effect(stage: nat, l: Seq<char>, acc: (nat, Seq<char>, Seq<char>)) -> (
    nat,
    Seq<char>,
    Seq<char>,
) {
    let t = skip_lead(l);
    if t.len() == 0 || t[0] == '#' {
        acc
    } else if stage == 0 && first_at(before_comment(t), seq!['=', '>'], 0) >= 0 {
        (acc.0 + 1, acc.1, acc.2)
    } else if stage == 0 && t[0] == '=' {
        (acc.0, listed(t, '=').unwrap(), acc.2)
    } else if stage == 1 && t[0] == '?' {
        (acc.0, acc.1, listed(t, '?').unwrap())
    } else {
        acc
    }
}

/// The summary of the first `k` lines.
pub open spec fn summary(lines: Seq<Seq<char>>, k: int) -> (nat, Seq<char>, Seq<char>)
    decreases k,
{
    if k <= 0 {
        (0, Seq::empty(), Seq::empty())
    } else {
        match stage_after(lines, k - 1) {
            Ok(st) => line_effect(st, lines[k - 1], summary(lines, k - 1)),
            Err(_) => summary(lines, k - 1),
        }
    }
}

/// Why the configuration `s` is rejected, if it is.
pub open spec fn content_error(s: Seq<char>) -> Option<InputError> {
    let ls = lines_of(s);
    match stage_after(ls, ls.len() as int) {
        Err(e) => Some(e),
        Ok(st) => if st == 0 {
            Some(InputError::MissingInitialFacts)
        } else if st == 1 {
            Some(InputError::MissingQueries)
        } else {
            None
        },
    }
}

/// Resolving the atom `q` over facts `fs`: through its fact when there is one,
/// and `False` otherwise.
pub open spec fn query_outcome(fs: Seq<Fact>, ns: Seq<Node>, q: char) -> (
    Result<Resolve, ResolveError>,
    Seq<Fact>,
) {
    match fact_index(fs, q) {
        Some(f) => fact_outcome(fs, ns, f),
        None => (Ok(Resolve::False), fs),
    }
}

/// Some fact in `fs` carries the atom `c`.
pub open spec fn has_fact(fs: Seq<Fact>, c: char) -> bool {
    exists|i: int| 0 <= i < fs.len() && #[trigger] fs[i].repr == c
}

/// The texts of a list of strings.
pub open spec fn texts(w: Seq<String>) -> Seq<Seq<char>> {
    Seq::new(w.len(), |i: int| w[i]@)
}

/// The warnings that listing the atoms `a` adds, given the list `l` they join
/// and the facts `fs` before the line: for each atom in turn, `dup` followed by
/// the atom when it is listed already, and `missing` followed by the atom when
/// no fact carries it yet.
pub open spec fn listing_warnings(
    l: Seq<char>,
    fs: Seq<Fact>,
    a: Seq<char>,
    dup: Seq<char>,
    missing: Seq<char>,
) -> Seq<Seq<char>>
    decreases a.len(),
{
    if a.len() == 0 {
        Seq::empty()
    } else {
        let p = a.drop_last();
        let c = a.last();
        listing_warnings(l, fs, p, dup, missing) + (if l.contains(c) || p.contains(c) {
            seq![dup + seq![c]]
        } else {
            Seq::empty()
        }) + (if has_fact(fs, c) || p.contains(c) {
            Seq::empty()
        } else {
            seq![missing + seq![c]]
        })
    }
}

pub proof fn lemma_add_unique_contains(l: Seq<char>, a: Seq<char>, c: char)
    ensures
        add_unique(l, a).contains(c) == (l.contains(c) || a.contains(c)),
    decreases a.len(),
{
    if a.len() > 0 {
        let p = a.drop_last();
        lemma_add_unique_contains(l, p, c);
        let l1 = add_unique(l, p);
        if p.contains(c) {
            let k = choose|k: int| 0 <= k < p.len() && p[k] == c;
            assert(a[k] == c);
        }
        if a.contains(c) && !p.contains(c) {
            let k = choose|k: int| 0 <= k < a.len() && a[k] == c;
            if k < p.len() {
                assert(p[k] == c);
            }
            assert(a.last() == c);
        }
        if l1.contains(a.last()) {
        } else {
            assert(l1.push(a.last())[l1.len() as int] == a.last());
            if l1.contains(c) {
                let k = choose|k: int| 0 <= k < l1.len() && l1[k] == c;
                assert(l1.push(a.last())[k] == c);
            }
            if l1.push(a.last()).contains(c) {
                let k = choose|k: int| 0 <= k < l1.len() + 1 && l1.push(a.last())[k] == c;
                if k < l1.len() {
                    assert(l1[k] == c);
                }
            }
        }
    }
}

/// While a line is read, the facts carrying an atom are the old ones and those
/// of the atoms read so far.
pub proof fn lemma_fact_known(old_fs: Seq<Fact>, fs: Seq<Fact>, p: Seq<char>, c: char)
    requires
        old_fs.len() <= fs.len(),
        forall|j: int| 0 <= j < old_fs.len() ==> fs[j].repr == old_fs[j].repr,
        forall|x: char| p.contains(x) ==> has_fact(fs, x),
        forall|j: int| old_fs.len() <= j < fs.len() ==> p.contains(fs[j].repr),
    ensures
        has_fact(fs, c) == (has_fact(old_fs, c) || p.contains(c)),
{
    if has_fact(old_fs, c) {
        let j = choose|j: int| 0 <= j < old_fs.len() && #[trigger] old_fs[j].repr == c;
        assert(fs[j].repr == c);
    }
    if has_fact(fs, c) {
        let j = choose|j: int| 0 <= j < fs.len() && #[trigger] fs[j].repr == c;
        if j < old_fs.len() {
            assert(old_fs[j].repr == c);
        } else {
            assert(p.contains(fs[j].repr));
        }
    }
}

#[derive(Debug)]
pub struct Input {
    /// The fact arena: one fact per atom met so far.
    pub facts: Vec<Fact>,
    /// The node arena: every node of every parsed block and rule.
    pub nodes: Vec<Node>,
    /// Rule roots, in parse order.
    pub rules: Vec<usize>,
    pub initial_facts: Vec<char>,
    pub queries: Vec<char>,
    pub warnings: Vec<String>,
}

impl Input {
    /// The arenas hold one fact per atom and well-formed trees, and every
    /// rule is an implication or a biconditional.
    pub open spec fn wf(&self) -> bool {
        &&& facts_wf(self.facts@, self.nodes@)
        &&& nodes_wf(self.facts@.len() as int, self.nodes@)
        &&& forall|k: int| 0 <= k < self.rules@.len() ==> #[trigger] is_rule_root(self.nodes@, self.rules@[k] as int)
    }

    /// Nodes and facts were only appended.
    pub open spec fn grows_to(&self, other: &Input) -> bool {
        &&& self.facts@.len() <= other.facts@.len()
        &&& forall|i: int| 0 <= i < self.facts@.len() ==> #[trigger] other.facts@[i] == self.facts@[i]
        &&& forall|i: int|
            self.facts@.len() <= i < other.facts@.len() ==> fresh(#[trigger] other.facts@[i])
        &&& self.nodes@.len() <= other.nodes@.len()
        &&& forall|i: int| 0 <= i < self.nodes@.len() ==> #[trigger] other.nodes@[i] == self.nodes@[i]
        &&& other.rules@ == self.rules@
        &&& other.initial_facts@ == self.initial_facts@
        &&& other.queries@ == self.queries@
        &&& other.warnings@ == self.warnings@
    }

    /// Facts were only appended, and nothing else of the arenas changed.
    pub open spec fn grows_to_facts(&self, other: &Input) -> bool {
        &&& self.facts@.len() <= other.facts@.len()
        &&& forall|i: int| 0 <= i < self.facts@.len() ==> #[trigger] other.facts@[i] == self.facts@[i]
    }

    pub fn new() -> (r: Input)
        ensures
            r.wf(),
            r.facts@.len() == 0,
            r.nodes@.len() == 0,
            r.rules@.len() == 0,
            r.initial_facts@.len() == 0,
            r.queries@.len() == 0,
            r.warnings@.len() == 0,
    {
        Input {
            facts: Vec::new(),
            nodes: Vec::new(),
            rules: Vec::new(),
            initial_facts: Vec::new(),
            queries: Vec::new(),
            warnings: Vec::new(),
        }
    }

    /// The index of the fact for atom `c`, if there is one.
    pub fn find_fact(&self, c: char) -> (r: Option<usize>)
        ensures
            match r {
                Some(i) => (i as int) < self.facts@.len() && self.facts@[i as int].repr == c,
                None => forall|i: int| 0 <= i < self.facts@.len() ==> self.facts@[i].repr != c,
            },
    {
        let mut i: usize = 0;
        while i < self.facts.len()
            invariant
                i <= self.facts@.len(),
                forall|j: int| 0 <= j < i ==> self.facts@[j].repr != c,
            decreases self.facts@.len() - i,
        {
            if self.facts[i].repr == c {
                return Some(i);
            }
            i = i + 1;
        }
        None
    }

    /// Appends a node whose children and fact already exist.
    fn push_node(&mut self, node: Node) -> (r: usize)
        requires
            old(self).wf(),
            node_wf(old(self).facts@.len() as int, old(self).nodes@.push(node), old(self).nodes@.len() as int),
        ensures
            final(self).wf(),
            old(self).grows_to(&*final(self)),
            final(self).facts@ == old(self).facts@,
            final(self).nodes@ == old(self).nodes@.push(node),
            r == old(self).nodes@.len(),
    {
        let r = self.nodes.len();
        self.nodes.push(node);
        proof {
            let ns0 = old(self).nodes@;
            let ns = self.nodes@;
            assert forall|i: int| 0 <= i < ns.len() implies #[trigger] node_wf(
                self.facts@.len() as int,
                ns,
                i,
            ) by {
                if i < ns0.len() {
                    assert(node_wf(self.facts@.len() as int, ns0, i));
                    assert(ns[i] == ns0[i]);
                }
            }
            assert forall|i: int| 0 <= i < self.facts@.len() implies #[trigger] fact_wf(
                ns,
                self.facts@[i],
            ) by {
                assert(fact_wf(ns0, self.facts@[i]));
                assert forall|k: int| 0 <= k < self.facts@[i].rules@.len() implies #[trigger] is_rule_root(
                    ns,
                    self.facts@[i].rules@[k] as int,
                ) by {
                    assert(is_rule_root(ns0, self.facts@[i].rules@[k] as int));
                }
            }
            assert forall|k: int| 0 <= k < self.rules@.len() implies #[trigger] is_rule_root(
                ns,
                self.rules@[k] as int,
            ) by {
                assert(is_rule_root(ns0, self.rules@[k] as int));
            }
        }
        r
    }

    /// Reads `s[lo..hi]` at a precedence level (3 for a whole block, 0 for one
    /// term) and builds its tree; `None` where it is not in the grammar.
    #[verifier::rlimit(60)]
    fn parse_level(&mut self, s: &Vec<char>, lo: usize, hi: usize, level: u8) -> (r: Option<usize>)
        requires
            old(self).wf(),
            lo <= hi <= s@.len(),
            level <= 3,
        ensures
            final(self).wf(),
            old(self).grows_to(&*final(self)),
            match parse_expr(s@.subrange(lo as int, hi as int), level as nat) {
                Some(e) => r is Some && denotes(final(self).facts@, final(self).nodes@, r.unwrap() as int, e),
                None => r is None,
            },
            r is Some ==> forall|i: int|
                old(self).facts@.len() <= i < final(self).facts@.len() ==> occurs(
                    s@,
                    lo as int,
                    hi as int,
                    #[trigger] final(self).facts@[i].repr,
                ),
        decreases hi - lo, level,
    {
        let ghost t = s@.subrange(lo as int, hi as int);
        if level == 0 {
            if lo >= hi {
                return None;
            }
            let c = s[lo];
            if c == '!' {
                assert(t.subrange(1, t.len() as int) =~= s@.subrange(lo + 1, hi as int));
                match self.parse_level(s, lo + 1, hi, 0) {
                    Some(x) => {
                        let node = Node { visited: false, fact: None, left: Some(x), right: None, operator: Some(Operator::Not) };
                        let ghost mid = *self;
                        let n = self.push_node(node);
                        proof {
                            let e = parse_expr(t.subrange(1, t.len() as int), 0).unwrap();
                            lemma_denotes_frame(mid.facts@, mid.nodes@, self.facts@, self.nodes@, x as int, e);
                            assert forall|i: int| old(self).facts@.len() <= i < self.facts@.len() implies occurs(
                                s@, lo as int, hi as int, #[trigger] self.facts@[i].repr) by {
                                lemma_occurs_widen(s@, lo as int, hi as int, lo + 1, hi as int, self.facts@[i].repr);
                            }
                        }
                        return Some(n);
                    },
                    None => {
                        return None;
                    },
                }
            }
            if c == '(' && hi - lo >= 2 && s[hi - 1] == ')' && is_balanced(s, lo + 1, hi - 1) {
                assert(t.subrange(1, t.len() - 1) =~= s@.subrange(lo + 1, hi - 1));
                let r = self.parse_level(s, lo + 1, hi - 1, 3);
                proof {
                    if r is Some {
                        assert forall|i: int| old(self).facts@.len() <= i < self.facts@.len() implies occurs(
                            s@, lo as int, hi as int, #[trigger] self.facts@[i].repr) by {
                            lemma_occurs_widen(s@, lo as int, hi as int, lo + 1, hi - 1, self.facts@[i].repr);
                        }
                    }
                }
                return r;
            }
            if c == '(' && hi - lo >= 2 && s[hi - 1] == ')' {
                assert(t.subrange(1, t.len() - 1) =~= s@.subrange(lo + 1, hi - 1));
            }
            if hi - lo == 1 && atom_check(c) {
                let f = self.get_or_insert_fact(c);
                let node = Node { visited: false, fact: Some(f), left: None, right: None, operator: None };
                let n = self.push_node(node);
                proof {
                    assert forall|i: int| old(self).facts@.len() <= i < self.facts@.len() implies occurs(
                        s@, lo as int, hi as int, #[trigger] self.facts@[i].repr) by {
                        assert(self.facts@[i].repr == c);
                        assert(s@[lo as int] == c);
                    }
                }
                return Some(n);
            }
            None
        } else {
            let oc = if level == 3 {
                '^'
            } else if level == 2 {
                '|'
            } else {
                '+'
            };
            let op = if level == 3 {
                Operator::Xor
            } else if level == 2 {
                Operator::Or
            } else {
                Operator::And
            };
            assert(oc == level_char(level as nat) && op == level_op(level as nat));
            proof {
                lemma_last_top_range(t, oc, t.len() as int);
            }
            match find_last_top(s, lo, hi, oc) {
                Some(k) => {
                    assert(t.subrange(0, k - lo) =~= s@.subrange(lo as int, k as int));
                    assert(t.subrange(k - lo + 1, t.len() as int) =~= s@.subrange(k + 1, hi as int));
                    let a = match self.parse_level(s, lo, k, level) {
                        Some(a) => a,
                        None => {
                            return None;
                        },
                    };
                    let ghost mid = *self;
                    let b = match self.parse_level(s, k + 1, hi, level - 1) {
                        Some(b) => b,
                        None => {
                            return None;
                        },
                    };
                    let node = Node { visited: false, fact: None, left: Some(a), right: Some(b), operator: Some(op) };
                    let ghost mid2 = *self;
                    let n = self.push_node(node);
                    proof {
                        let ea = parse_expr(s@.subrange(lo as int, k as int), level as nat).unwrap();
                        let eb = parse_expr(s@.subrange(k + 1, hi as int), (level - 1) as nat).unwrap();
                        lemma_denotes_frame(mid.facts@, mid.nodes@, self.facts@, self.nodes@, a as int, ea);
                        lemma_denotes_frame(mid2.facts@, mid2.nodes@, self.facts@, self.nodes@, b as int, eb);
                        assert forall|i: int| old(self).facts@.len() <= i < self.facts@.len() implies occurs(
                            s@, lo as int, hi as int, #[trigger] self.facts@[i].repr) by {
                            if i < mid.facts@.len() {
                                assert(mid.facts@[i] == self.facts@[i]);
                                lemma_occurs_widen(s@, lo as int, hi as int, lo as int, k as int, self.facts@[i].repr);
                            } else {
                                lemma_occurs_widen(s@, lo as int, hi as int, k + 1, hi as int, self.facts@[i].repr);
                            }
                        }
                    }
                    Some(n)
                },
                None => self.parse_level(s, lo, hi, level - 1),
            }
        }
    }

    /// Reads a block (whitespace already removed) and builds its tree. On an
    /// error nothing changes.
    pub fn parse_rule_block(&mut self, string: &str) -> (r: Result<usize, ParseError>)
        requires
            old(self).wf(),
        ensures
            final(self).wf(),
            match block_error(string@) {
                Some(e) => r == Err::<usize, ParseError>(e) && final(self).facts@ == old(self).facts@
                    && final(self).nodes@ == old(self).nodes@ && final(self).rules@ == old(
                    self,
                ).rules@ && final(self).initial_facts@ == old(self).initial_facts@
                    && final(self).queries@ == old(self).queries@ && final(self).warnings@ == old(
                    self,
                ).warnings@,
                None => r is Ok && old(self).grows_to(&*final(self)) && denotes(
                    final(self).facts@,
                    final(self).nodes@,
                    r.unwrap() as int,
                    parse_expr(string@, 3).unwrap(),
                ) && (forall|i: int|
                    old(self).facts@.len() <= i < final(self).facts@.len() ==> string@.contains(
                        #[trigger] final(self).facts@[i].repr,
                    )),
            },
    {
        let s = chars_of(string);
        self.parse_block(&s)
    }

    /// `parse_rule_block` on the characters of a block.
    fn parse_block(&mut self, string: &Vec<char>) -> (r: Result<usize, ParseError>)
        requires
            old(self).wf(),
        ensures
            final(self).wf(),
            match block_error(string@) {
                Some(e) => r == Err::<usize, ParseError>(e) && final(self).facts@ == old(self).facts@
                    && final(self).nodes@ == old(self).nodes@ && final(self).rules@ == old(
                    self,
                ).rules@ && final(self).initial_facts@ == old(self).initial_facts@
                    && final(self).queries@ == old(self).queries@ && final(self).warnings@ == old(
                    self,
                ).warnings@,
                None => r is Ok && old(self).grows_to(&*final(self)) && denotes(
                    final(self).facts@,
                    final(self).nodes@,
                    r.unwrap() as int,
                    parse_expr(string@, 3).unwrap(),
                ) && (forall|i: int|
                    old(self).facts@.len() <= i < final(self).facts@.len() ==> string@.contains(
                        #[trigger] final(self).facts@[i].repr,
                    )),
            },
    {
        let s = string;
        let mut i: usize = 0;
        while i < s.len()
            invariant
                s@ == string@,
                *self == *old(self),
                old(self).wf(),
                i <= s@.len(),
                forall|j: int| 0 <= j < i ==> is_block_char(#[trigger] s@[j]),
            decreases s@.len() - i,
        {
            if !block_char_check(s[i]) {
                return Err(ParseError::InvalidCharacter);
            }
            i = i + 1;
        }
        let mut open: usize = 0;
        let mut close: usize = 0;
        i = 0;
        while i < s.len()
            invariant
                s@ == string@,
                *self == *old(self),
                old(self).wf(),
                i <= s@.len(),
                open + close <= i,
                open - close == depth(s@, i as int),
                forall|k: int| 0 <= k <= i ==> #[trigger] depth(s@, k) >= 0,
                forall|j: int| 0 <= j < s@.len() ==> is_block_char(#[trigger] s@[j]),
            decreases s@.len() - i,
        {
            if s[i] == '(' {
                open = open + 1;
            } else if s[i] == ')' {
                if close >= open {
                    assert(depth(s@, i + 1) < 0);
                    return Err(ParseError::CloseOnRoot);
                }
                close = close + 1;
            }
            i = i + 1;
            assert(depth(s@, i as int) >= 0);
        }
        if open != close {
            return Err(ParseError::UnclosedContext);
        }
        i = 0;
        while i < s.len()
            invariant
                s@ == string@,
                *self == *old(self),
                old(self).wf(),
                i <= s@.len(),
                forall|j: int| 0 <= j < s@.len() ==> is_block_char(#[trigger] s@[j]),
                forall|k: int| 0 <= k <= s@.len() ==> #[trigger] depth(s@, k) >= 0,
                depth(s@, s@.len() as int) == 0,
                forall|j: int| 0 <= j < i && j + 1 < s@.len() ==> !(#[trigger] s@[j] == '(' && s@[j + 1] == ')'),
            decreases s@.len() - i,
        {
            if i + 1 < s.len() && s[i] == '(' && s[i + 1] == ')' {
                assert(s@[i as int] == '(' && s@[i + 1] == ')');
                return Err(ParseError::UnusedContext);
            }
            i = i + 1;
        }
        let n_facts = self.facts.len();
        let n_nodes = self.nodes.len();
        assert(s@.subrange(0, s@.len() as int) =~= s@);
        match self.parse_level(s, 0, s.len(), 3) {
            Some(n) => {
                proof {
                    assert forall|i: int| old(self).facts@.len() <= i < self.facts@.len() implies string@.contains(
                        #[trigger] self.facts@[i].repr) by {
                        let c = self.facts@[i].repr;
                        assert(occurs(s@, 0, s@.len() as int, c));
                        let j = choose|j: int| 0 <= j < s@.len() && #[trigger] s@[j] == c;
                        assert(string@[j] == c);
                    }
                }
                Ok(n)
            },
            None => {
                self.facts.truncate(n_facts);
                self.nodes.truncate(n_nodes);
                assert(self.facts@ =~= old(self).facts@);
                assert(self.nodes@ =~= old(self).nodes@);
                Err(ParseError::IncompleteRoot)
            },
        }
    }

    /// Parses a rule line and adds the rule: its root joins `rules` and the
    /// rule lists of the facts it can conclude. On an error nothing changes.
    pub fn parse_rule(&mut self, line: &str) -> (r: Result<(), InputError>)
        requires
            old(self).wf(),
        ensures
            final(self).wf(),
            match rule_error(line@) {
                Some(e) => r == Err::<(), InputError>(e) && final(self).facts@ == old(self).facts@
                    && final(self).nodes@ == old(self).nodes@ && final(self).rules@ == old(
                    self,
                ).rules@,
                None => r is Ok && rule_added(*old(self), *final(self), line@),
            },
            final(self).initial_facts@ == old(self).initial_facts@,
            final(self).queries@ == old(self).queries@,
            final(self).warnings@ == old(self).warnings@,
    {
        let full = chars_of(line);
        let cut = find_comment(&full);
        let s = sub_chars(&full, 0, cut);
        let arrow3 = vec!['<', '=', '>'];
        let arrow2 = vec!['=', '>'];
        assert(arrow3@ =~= seq!['<', '=', '>']);
        assert(arrow2@ =~= seq!['=', '>']);
        proof {
            lemma_first_at_range(s@, arrow3@, 0);
            lemma_first_at_range(s@, arrow2@, 0);
        }
        let (k, iff, start) = match find_first(&s, &arrow3) {
            Some(k) => {
                proof {
                    lemma_first_at_range(s@, arrow3@, 0);
                }
                assert(k + arrow3@.len() <= s@.len());
                assert(s@.len() == s.len());
                (k, true, k + 3)
            },
            None => match find_first(&s, &arrow2) {
                Some(k) => {
                    proof {
                        lemma_first_at_range(s@, arrow2@, 0);
                    }
                    assert(k + arrow2@.len() <= s@.len());
                    assert(s@.len() == s.len());
                    (k, false, k + 2)
                },
                None => {
                    return Err(InputError::NotARule);
                },
            },
        };
        let left = strip_spaces(&s, 0, k);
        let right = strip_spaces(&s, start, s.len());
        let n_facts = self.facts.len();
        let n_nodes = self.nodes.len();
        let lt = match self.parse_block(&left) {
            Ok(n) => n,
            Err(e) => {
                return Err(InputError::Block(e));
            },
        };
        let ghost after_left = *self;
        let rt = match self.parse_block(&right) {
            Ok(n) => n,
            Err(e) => {
                self.facts.truncate(n_facts);
                self.nodes.truncate(n_nodes);
                assert(self.facts@ =~= old(self).facts@);
                assert(self.nodes@ =~= old(self).nodes@);
                return Err(InputError::Block(e));
            },
        };
        let ghost parsed = *self;
        proof {
            lemma_denotes_frame(after_left.facts@, after_left.nodes@, parsed.facts@, parsed.nodes@, lt as int, parse_expr(left@, 3).unwrap());
        }
        let op = if iff {
            Operator::IfAndOnlyIf
        } else {
            Operator::Implies
        };
        let node = Node { visited: false, fact: None, left: Some(lt), right: Some(rt), operator: Some(op) };
        let root = self.push_node(node);
        proof {
            lemma_denotes_frame(parsed.facts@, parsed.nodes@, self.facts@, self.nodes@, lt as int, parse_expr(left@, 3).unwrap());
            lemma_denotes_frame(parsed.facts@, parsed.nodes@, self.facts@, self.nodes@, rt as int, parse_expr(right@, 3).unwrap());
        }
        let mut targets = if iff {
            Node::all_facts(&self.nodes, lt)
        } else {
            Vec::new()
        };
        let mut concluded = Node::all_facts(&self.nodes, rt);
        targets.append(&mut concluded);
        assert(targets@ =~= rule_targets(self.nodes@, root as int));
        let ghost before_reg = *self;
        self.register(&targets, root);
        self.rules.push(root);
        proof {
            assert forall|i: int| old(self).facts@.len() <= i < self.facts@.len() implies bare(#[trigger] self.facts@[i])
                && (left@.contains(self.facts@[i].repr) || right@.contains(self.facts@[i].repr)) by {
                assert(same_state(self.facts@[i], before_reg.facts@[i]));
                if i < after_left.facts@.len() {
                    assert(fresh(after_left.facts@[i]));
                    assert(left@.contains(after_left.facts@[i].repr));
                    assert(parsed.facts@[i] == after_left.facts@[i]);
                } else {
                    assert(fresh(parsed.facts@[i]));
                    assert(right@.contains(parsed.facts@[i].repr));
                }
                assert(before_reg.facts@[i] == parsed.facts@[i]);
            }
            lemma_denotes_frame(before_reg.facts@, before_reg.nodes@, self.facts@, self.nodes@, lt as int, parse_expr(left@, 3).unwrap());
            lemma_denotes_frame(before_reg.facts@, before_reg.nodes@, self.facts@, self.nodes@, rt as int, parse_expr(right@, 3).unwrap());
            assert forall|i: int| 0 <= i < before_reg.facts@.len() implies #[trigger] rule_lists(before_reg.facts@)[i] == (if i < old(self).facts@.len() {
                old(self).facts@[i].rules@
            } else {
                Seq::<usize>::empty()
            }) by {
                if i < old(self).facts@.len() {
                    assert(before_reg.facts@[i] == old(self).facts@[i]);
                } else {
                    assert(before_reg.facts@[i].rules@.len() == 0);
                    assert(before_reg.facts@[i].rules@ =~= Seq::<usize>::empty());
                }
            }
            assert(rule_lists(before_reg.facts@) =~= Seq::new(self.facts@.len(), |i: int| if i < old(self).facts@.len() {
                old(self).facts@[i].rules@
            } else {
                Seq::<usize>::empty()
            }));
            assert forall|k: int| 0 <= k < self.rules@.len() implies #[trigger] is_rule_root(self.nodes@, self.rules@[k] as int) by {
                if k < old(self).rules@.len() {
                    assert(is_rule_root(before_reg.nodes@, old(self).rules@[k] as int));
                }
            }
        }
        Ok(())
    }

    /// Appends `root` to the rule list of each fact of `list`, in turn.
    fn register(&mut self, list: &Vec<usize>, root: usize)
        requires
            old(self).wf(),
            is_rule_root(old(self).nodes@, root as int),
        ensures
            final(self).wf(),
            final(self).facts@.len() == old(self).facts@.len(),
            forall|i: int| 0 <= i < old(self).facts@.len() ==> same_state(#[trigger] final(self).facts@[i], old(self).facts@[i]),
            rule_lists(final(self).facts@) == registered(rule_lists(old(self).facts@), list@, root),
            final(self).nodes@ == old(self).nodes@,
            final(self).rules@ == old(self).rules@,
            final(self).initial_facts@ == old(self).initial_facts@,
            final(self).queries@ == old(self).queries@,
            final(self).warnings@ == old(self).warnings@,
    {
        let ghost fs0 = self.facts@;
        let mut i: usize = 0;
        while i < list.len()
            invariant
                i <= list@.len(),
                fs0 == old(self).facts@,
                self.wf(),
                is_rule_root(self.nodes@, root as int),
                self.facts@.len() == fs0.len(),
                forall|j: int| 0 <= j < fs0.len() ==> same_state(#[trigger] self.facts@[j], fs0[j]),
                rule_lists(self.facts@) == registered(rule_lists(fs0), list@.take(i as int), root),
                self.nodes@ == old(self).nodes@,
                self.rules@ == old(self).rules@,
                self.initial_facts@ == old(self).initial_facts@,
                self.queries@ == old(self).queries@,
                self.warnings@ == old(self).warnings@,
            decreases list@.len() - i,
        {
            let f = list[i];
            let ghost before = self.facts@;
            proof {
                assert(list@.take(i + 1).drop_last() =~= list@.take(i as int));
            }
            if f < self.facts.len() {
                self.facts[f].add_rule(root);
                proof {
                    assert forall|j: int| 0 <= j < fs0.len() implies same_state(#[trigger] self.facts@[j], fs0[j]) by {
                        assert(same_state(before[j], fs0[j]));
                    }
                    assert(fact_wf(self.nodes@, before[f as int]));
                    assert(fact_wf(self.nodes@, self.facts@[f as int]));
                    assert forall|j: int| 0 <= j < self.facts@.len() implies #[trigger] fact_wf(self.nodes@, self.facts@[j]) by {
                        if j != f {
                            assert(self.facts@[j] == before[j]);
                        }
                    }
                    assert forall|a: int, b: int| 0 <= a < b < self.facts@.len() implies self.facts@[a].repr != self.facts@[b].repr by {
                        assert(before[a].repr != before[b].repr);
                    }
                }
            }
            i = i + 1;
            proof {
                assert(rule_lists(self.facts@) =~= registered(rule_lists(fs0), list@.take(i as int), root));
            }
        }
        assert(list@.take(list@.len() as int) =~= list@);
    }

    /// The atoms listed on a line that starts with `prefix`, and whether they
    /// are all atoms.
    fn read_listed(line: &Vec<char>, prefix: char) -> (r: Option<(Vec<char>, bool)>)
        ensures
            match listed(line@, prefix) {
                None => r is None,
                Some(a) => r is Some && r.unwrap().0@ == a && r.unwrap().1 == all_atoms(a),
            },
    {
        if line.len() == 0 || line[0] != prefix {
            return None;
        }
        let rest = sub_chars(line, 1, line.len());
        let c = find_comment(&rest);
        let atoms = strip_spaces(&rest, 0, c);
        assert(rest@.subrange(0, c as int) =~= tail_before_comment(line@, 1));
        let mut ok = true;
        let mut i: usize = 0;
        while i < atoms.len()
            invariant
                i <= atoms@.len(),
                ok == (forall|j: int| 0 <= j < i ==> is_atom(#[trigger] atoms@[j])),
            decreases atoms@.len() - i,
        {
            if !atom_check(atoms[i]) {
                ok = false;
            }
            i = i + 1;
        }
        Some((atoms, ok))
    }

    /// Whether `l` holds `c`.
    fn holds(l: &Vec<char>, c: char) -> (r: bool)
        ensures
            r == l@.contains(c),
    {
        let mut i: usize = 0;
        while i < l.len()
            invariant
                i <= l@.len(),
                forall|j: int| 0 <= j < i ==> l@[j] != c,
            decreases l@.len() - i,
        {
            if l[i] == c {
                return true;
            }
            i = i + 1;
        }
        false
    }

    /// Parses an initial-facts line (`=` then atoms): each atom is added to
    /// `initial_facts` once and its fact is set true and fixed. A repeated atom,
    /// or one that no rule mentions, adds a warning. On an error nothing changes.
    pub fn parse_initial_facts(&mut self, line: &str) -> (r: Result<(), InputError>)
        requires
            old(self).wf(),
        ensures
            final(self).wf(),
            final(self).nodes@ == old(self).nodes@,
            final(self).rules@ == old(self).rules@,
            final(self).queries@ == old(self).queries@,
            keeps_prefix(old(self).warnings@, final(self).warnings@),
            match facts_line_error(line@) {
                Some(e) => r == Err::<(), InputError>(e) && final(self).facts@ == old(self).facts@
                    && final(self).initial_facts@ == old(self).initial_facts@
                    && final(self).warnings@ == old(self).warnings@,
                None => r is Ok && facts_listed(*old(self), *final(self), line@),
            },
    {
        let s = chars_of(line);
        let atoms = match Input::read_listed(&s, '=') {
            None => {
                return Err(InputError::NotInitialFacts);
            },
            Some((atoms, ok)) => {
                if !ok {
                    return Err(InputError::InvalidInitialFact);
                }
                atoms
            },
        };
        let ghost a = atoms@;
        let mut i: usize = 0;
        while i < atoms.len()
            invariant
                a == atoms@,
                all_atoms(a),
                i <= a.len(),
                self.wf(),
                self.nodes@ == old(self).nodes@,
                self.rules@ == old(self).rules@,
                self.queries@ == old(self).queries@,
                keeps_prefix(old(self).warnings@, self.warnings@),
                self.initial_facts@ == add_unique(old(self).initial_facts@, a.take(i as int)),
                old(self).facts@.len() <= self.facts@.len(),
                forall|c: char| a.take(i as int).contains(c) ==> exists|j: int| 0 <= j < self.facts@.len()
                    && #[trigger] self.facts@[j].repr == c && self.facts@[j].value == Resolve::True
                    && self.facts@[j].resolved,
                forall|j: int| 0 <= j < old(self).facts@.len() && !a.take(i as int).contains(old(self).facts@[j].repr)
                    ==> #[trigger] self.facts@[j] == old(self).facts@[j],
                forall|j: int| 0 <= j < old(self).facts@.len() ==> (#[trigger] self.facts@[j]).repr == old(self).facts@[j].repr
                    && self.facts@[j].rules@ == old(self).facts@[j].rules@,
                forall|j: int| old(self).facts@.len() <= j < self.facts@.len() ==> a.take(i as int).contains(
                    #[trigger] self.facts@[j].repr),
                forall|j: int| old(self).facts@.len() <= j < self.facts@.len() ==> (
                    #[trigger] self.facts@[j]).rules@.len() == 0,
                texts(self.warnings@) == texts(old(self).warnings@) + listing_warnings(
                    old(self).initial_facts@,
                    old(self).facts@,
                    a.take(i as int),
                    "Duplicate initial fact for symbol "@,
                    "Unused initial fact "@,
                ),
            decreases a.len() - i,
        {
            let c = atoms[i];
            let ghost head = *self;
            assert(is_atom(a[i as int]));
            proof {
                assert(a.take(i + 1).drop_last() =~= a.take(i as int));
                assert(a.take(i + 1).last() == c);
            }
            let dup = Input::holds(&self.initial_facts, c);
            let found = self.find_fact(c);
            let missing = found.is_none();
            let ghost w0 = self.warnings@;
            proof {
                let p = a.take(i as int);
                lemma_add_unique_contains(old(self).initial_facts@, p, c);
                assert forall|x: char| p.contains(x) implies has_fact(self.facts@, x) by {
                    let j = choose|j: int| 0 <= j < self.facts@.len() && #[trigger] self.facts@[j].repr == x
                        && self.facts@[j].value == Resolve::True && self.facts@[j].resolved;
                }
                lemma_fact_known(old(self).facts@, self.facts@, p, c);
                match found {
                    Some(j) => {
                        assert(self.facts@[j as int].repr == c);
                    },
                    None => {
                        assert(!has_fact(self.facts@, c));
                    },
                }
            }
            if dup {
                self.warnings.push(labelled_warning("Duplicate initial fact for symbol ", c));
            } else {
                self.initial_facts.push(c);
            }
            if missing {
                self.warnings.push(labelled_warning("Unused initial fact ", c));
            }
            proof {
                let dup_w: Seq<Seq<char>> = if dup {
                    seq!["Duplicate initial fact for symbol "@ + seq![c]]
                } else {
                    Seq::empty()
                };
                let miss_w: Seq<Seq<char>> = if missing {
                    seq!["Unused initial fact "@ + seq![c]]
                } else {
                    Seq::empty()
                };
                assert(texts(self.warnings@) =~= texts(w0) + dup_w + miss_w);
            }
            let f = self.get_or_insert_fact(c);
            let ghost before = *self;
            self.facts[f].set(Resolve::True);
            proof {
                assert(fact_wf(self.nodes@, before.facts@[f as int]));
                assert forall|j: int| 0 <= j < self.facts@.len() implies #[trigger] fact_wf(self.nodes@, self.facts@[j]) by {
                    if j != f {
                        assert(self.facts@[j] == before.facts@[j]);
                    }
                }
                assert forall|x: int, y: int| 0 <= x < y < self.facts@.len() implies self.facts@[x].repr != self.facts@[y].repr by {
                    assert(before.facts@[x].repr != before.facts@[y].repr);
                }
                assert forall|j: int| 0 <= j < self.nodes@.len() implies #[trigger] node_wf(self.facts@.len() as int, self.nodes@, j) by {
                    assert(node_wf(before.facts@.len() as int, self.nodes@, j));
                }
                let t1 = a.take(i + 1);
                assert forall|x: char| t1.contains(x) implies exists|j: int| 0 <= j < self.facts@.len()
                    && #[trigger] self.facts@[j].repr == x && self.facts@[j].value == Resolve::True
                    && self.facts@[j].resolved by {
                    if x == c {
                        assert(self.facts@[f as int].repr == x);
                    } else {
                        let k = choose|k: int| 0 <= k < t1.len() && t1[k] == x;
                        assert(a.take(i as int)[k] == x);
                        assert(a.take(i as int).contains(x));
                        let j = choose|j: int| 0 <= j < head.facts@.len() && #[trigger] head.facts@[j].repr == x
                            && head.facts@[j].value == Resolve::True && head.facts@[j].resolved;
                        assert(before.facts@[j] == head.facts@[j]);
                        assert(self.facts@[j].repr == x);
                    }
                }
                assert forall|j: int| 0 <= j < old(self).facts@.len() && !t1.contains(old(self).facts@[j].repr)
                    implies #[trigger] self.facts@[j] == old(self).facts@[j] by {
                    assert(a.take(i as int).contains(old(self).facts@[j].repr) ==> t1.contains(old(self).facts@[j].repr)) by {
                        if a.take(i as int).contains(old(self).facts@[j].repr) {
                            let k = choose|k: int| 0 <= k < i && a.take(i as int)[k] == old(self).facts@[j].repr;
                            assert(t1[k] == old(self).facts@[j].repr);
                        }
                    }
                    if j == f {
                        assert(self.facts@[j].repr == c);
                        assert(t1[i as int] == c);
                    }
                }
                assert forall|j: int| old(self).facts@.len() <= j < self.facts@.len() implies t1.contains(
                    #[trigger] self.facts@[j].repr) by {
                    if j < head.facts@.len() {
                        assert(a.take(i as int).contains(head.facts@[j].repr));
                        let k = choose|k: int| 0 <= k < i && a.take(i as int)[k] == head.facts@[j].repr;
                        assert(t1[k] == head.facts@[j].repr);
                        assert(self.facts@[j].repr == head.facts@[j].repr);
                    } else {
                        assert(t1[i as int] == c);
                    }
                }
            }
            i = i + 1;
        }
        assert(a.take(a.len() as int) =~= a);
        Ok(())
    }

    /// Parses a query line (`?` then at least one atom): each atom is added to
    /// `queries` once. A repeated atom adds a warning; an atom without a fact
    /// gets an unresolved false one and a warning. On an error nothing changes.
    pub fn parse_queries(&mut self, line: &str) -> (r: Result<(), InputError>)
        requires
            old(self).wf(),
        ensures
            final(self).wf(),
            final(self).nodes@ == old(self).nodes@,
            final(self).rules@ == old(self).rules@,
            final(self).initial_facts@ == old(self).initial_facts@,
            keeps_prefix(old(self).warnings@, final(self).warnings@),
            old(self).grows_to_facts(&*final(self)),
            r is Ok <==> queries_line_error(line@) is None,
            r is Err ==> r == Err::<(), InputError>(queries_line_error(line@).unwrap())
                && final(self).facts@ == old(self).facts@ && final(self).queries@ == old(self).queries@
                && final(self).warnings@ == old(self).warnings@,
            r is Ok ==> queries_listed(*old(self), *final(self), line@),
    {
        let s = chars_of(line);
        let atoms = match Input::read_listed(&s, '?') {
            None => {
                return Err(InputError::NotQueries);
            },
            Some((atoms, ok)) => {
                if atoms.len() == 0 {
                    return Err(InputError::EmptyQueries);
                }
                if !ok {
                    return Err(InputError::InvalidQuery);
                }
                atoms
            },
        };
        let ghost a = atoms@;
        let mut i: usize = 0;
        while i < atoms.len()
            invariant
                a == atoms@,
                all_atoms(a),
                i <= a.len(),
                self.wf(),
                self.nodes@ == old(self).nodes@,
                self.rules@ == old(self).rules@,
                self.initial_facts@ == old(self).initial_facts@,
                keeps_prefix(old(self).warnings@, self.warnings@),
                old(self).grows_to_facts(&*self),
                self.queries@ == add_unique(old(self).queries@, a.take(i as int)),
                forall|c: char| a.take(i as int).contains(c) ==> exists|j: int| 0 <= j < self.facts@.len()
                    && #[trigger] self.facts@[j].repr == c,
                forall|j: int| old(self).facts@.len() <= j < self.facts@.len() ==> a.take(i as int).contains(
                    #[trigger] self.facts@[j].repr),
                forall|j: int| old(self).facts@.len() <= j < self.facts@.len() ==> fresh(#[trigger] self.facts@[j]),
                texts(self.warnings@) == texts(old(self).warnings@) + listing_warnings(
                    old(self).queries@,
                    old(self).facts@,
                    a.take(i as int),
                    "Duplicate query for fact "@,
                    "Query for missing fact "@,
                ),
            decreases a.len() - i,
        {
            let c = atoms[i];
            let ghost head = *self;
            assert(is_atom(a[i as int]));
            proof {
                assert(a.take(i + 1).drop_last() =~= a.take(i as int));
                assert(a.take(i + 1).last() == c);
            }
            let dup = Input::holds(&self.queries, c);
            let found = self.find_fact(c);
            let missing = found.is_none();
            let ghost w0 = self.warnings@;
            proof {
                let p = a.take(i as int);
                lemma_add_unique_contains(old(self).queries@, p, c);
                assert forall|x: char| p.contains(x) implies has_fact(self.facts@, x) by {
                    let j = choose|j: int| 0 <= j < self.facts@.len() && #[trigger] self.facts@[j].repr == x;
                }
                assert forall|j: int| 0 <= j < old(self).facts@.len() implies self.facts@[j].repr == old(self).facts@[j].repr by {
                    assert(self.facts@[j] == old(self).facts@[j]);
                }
                lemma_fact_known(old(self).facts@, self.facts@, p, c);
                match found {
                    Some(j) => {
                        assert(self.facts@[j as int].repr == c);
                    },
                    None => {
                        assert(!has_fact(self.facts@, c));
                    },
                }
            }
            if dup {
                self.warnings.push(labelled_warning("Duplicate query for fact ", c));
            } else {
                self.queries.push(c);
            }
            if missing {
                self.warnings.push(labelled_warning("Query for missing fact ", c));
            }
            proof {
                let dup_w: Seq<Seq<char>> = if dup {
                    seq!["Duplicate query for fact "@ + seq![c]]
                } else {
                    Seq::empty()
                };
                let miss_w: Seq<Seq<char>> = if missing {
                    seq!["Query for missing fact "@ + seq![c]]
                } else {
                    Seq::empty()
                };
                assert(texts(self.warnings@) =~= texts(w0) + dup_w + miss_w);
            }
            let f = self.get_or_insert_fact(c);
            proof {
                let t1 = a.take(i + 1);
                assert(t1[i as int] == c);
                assert forall|x: char| t1.contains(x) implies exists|j: int| 0 <= j < self.facts@.len()
                    && #[trigger] self.facts@[j].repr == x by {
                    if x == c {
                        assert(self.facts@[f as int].repr == x);
                    } else {
                        let k = choose|k: int| 0 <= k < t1.len() && t1[k] == x;
                        assert(a.take(i as int)[k] == x);
                        assert(a.take(i as int).contains(x));
                        let j = choose|j: int| 0 <= j < head.facts@.len() && #[trigger] head.facts@[j].repr == x;
                        assert(self.facts@[j] == head.facts@[j]);
                    }
                }
                assert forall|j: int| old(self).facts@.len() <= j < self.facts@.len() implies fresh(#[trigger] self.facts@[j]) by {
                    if j < head.facts@.len() {
                        assert(fresh(head.facts@[j]));
                        assert(self.facts@[j] == head.facts@[j]);
                    }
                }
                assert forall|j: int| old(self).facts@.len() <= j < self.facts@.len() implies t1.contains(
                    #[trigger] self.facts@[j].repr) by {
                    if j < head.facts@.len() {
                        assert(a.take(i as int).contains(head.facts@[j].repr));
                        let k = choose|k: int| 0 <= k < i && a.take(i as int)[k] == head.facts@[j].repr;
                        assert(t1[k] == head.facts@[j].repr);
                        assert(self.facts@[j] == head.facts@[j]);
                    }
                }
            }
            i = i + 1;
        }
        assert(a.take(a.len() as int) =~= a);
        assert forall|c: char| a.contains(c) implies exists|j: int| 0 <= j < self.facts@.len()
            && #[trigger] self.facts@[j].repr == c by {
            assert(a.take(a.len() as int).contains(c));
        }
        assert forall|j: int| old(self).facts@.len() <= j < self.facts@.len() implies a.contains(
            #[trigger] self.facts@[j].repr) by {
            assert(a.take(a.len() as int).contains(self.facts@[j].repr));
        }
        assert(self.queries@ == add_unique(old(self).queries@, a));
        assert(listed(line@, '?').unwrap() == a);
        Ok(())
    }

    /// Replaces the initial facts: the list and the warnings are cleared, then
    /// the line is parsed. Facts set by earlier lines keep their state until
    /// `reset`.
    pub fn reparse_initial_facts(&mut self, line: &str) -> (r: Result<(), InputError>)
        requires
            old(self).wf(),
        ensures
            final(self).wf(),
            final(self).nodes@ == old(self).nodes@,
            final(self).rules@ == old(self).rules@,
            final(self).queries@ == old(self).queries@,
            match facts_line_error(line@) {
                Some(e) => r == Err::<(), InputError>(e) && final(self).facts@ == old(self).facts@
                    && final(self).initial_facts@.len() == 0 && final(self).warnings@.len() == 0,
                None => r is Ok && final(self).initial_facts@ == add_unique(
                    Seq::empty(),
                    listed(line@, '=').unwrap(),
                ) && exists|mid: Input|
                    {
                        &&& mid.initial_facts@.len() == 0
                        &&& mid.warnings@.len() == 0
                        &&& mid.facts@ == old(self).facts@
                        &&& mid.nodes@ == old(self).nodes@
                        &&& mid.rules@ == old(self).rules@
                        &&& mid.queries@ == old(self).queries@
                        &&& facts_listed(mid, *final(self), line@)
                    },
            },
    {
        self.initial_facts = Vec::new();
        self.warnings = Vec::new();
        let ghost mid = *self;
        let r = self.parse_initial_facts(line);
        proof {
            if r is Ok {
                assert(facts_listed(mid, *self, line@));
            }
        }
        r
    }

    /// Replaces the queries: the list and the warnings are cleared, then the
    /// line is parsed.
    pub fn reparse_queries(&mut self, line: &str) -> (r: Result<(), InputError>)
        requires
            old(self).wf(),
        ensures
            final(self).wf(),
            final(self).nodes@ == old(self).nodes@,
            final(self).rules@ == old(self).rules@,
            final(self).initial_facts@ == old(self).initial_facts@,
            match queries_line_error(line@) {
                Some(e) => r == Err::<(), InputError>(e) && final(self).facts@ == old(self).facts@
                    && final(self).queries@.len() == 0 && final(self).warnings@.len() == 0,
                None => r is Ok && final(self).queries@ == add_unique(
                    Seq::empty(),
                    listed(line@, '?').unwrap(),
                ) && exists|mid: Input|
                    {
                        &&& mid.queries@.len() == 0
                        &&& mid.warnings@.len() == 0
                        &&& mid.facts@ == old(self).facts@
                        &&& mid.nodes@ == old(self).nodes@
                        &&& mid.rules@ == old(self).rules@
                        &&& mid.initial_facts@ == old(self).initial_facts@
                        &&& queries_listed(mid, *final(self), line@)
                    },
            },
    {
        self.queries = Vec::new();
        self.warnings = Vec::new();
        let ghost mid = *self;
        let r = self.parse_queries(line);
        proof {
            if r is Ok {
                assert(queries_listed(mid, *self, line@));
            }
        }
        r
    }

    /// Clears every fact's resolution state back to what the initial facts assert.
    pub fn reset(&mut self)
        requires
            old(self).wf(),
        ensures
            final(self).wf(),
            final(self).facts@ == reset_facts(old(self).facts@, old(self).initial_facts@),
            final(self).nodes@ == old(self).nodes@,
            final(self).rules@ == old(self).rules@,
            final(self).initial_facts@ == old(self).initial_facts@,
            final(self).queries@ == old(self).queries@,
            final(self).warnings@ == old(self).warnings@,
    {
        let ghost fs0 = self.facts@;
        let mut i: usize = 0;
        while i < self.facts.len()
            invariant
                fs0 == old(self).facts@,
                self.facts@.len() == fs0.len(),
                i <= fs0.len(),
                forall|j: int| 0 <= j < i ==> #[trigger] self.facts@[j] == reset_facts(fs0, old(self).initial_facts@)[j],
                forall|j: int| i <= j < fs0.len() ==> #[trigger] self.facts@[j] == fs0[j],
                self.nodes@ == old(self).nodes@,
                self.rules@ == old(self).rules@,
                self.initial_facts@ == old(self).initial_facts@,
                self.queries@ == old(self).queries@,
                self.warnings@ == old(self).warnings@,
            decreases fs0.len() - i,
        {
            let initial = Input::holds(&self.initial_facts, self.facts[i].repr);
            if initial {
                self.facts[i].set(Resolve::True);
            } else {
                self.facts[i].value = Resolve::False;
                self.facts[i].resolved = false;
            }
            i = i + 1;
        }
        assert(self.facts@ =~= reset_facts(fs0, old(self).initial_facts@));
        proof {
            let ns = self.nodes@;
            assert forall|j: int| 0 <= j < self.facts@.len() implies #[trigger] fact_wf(ns, self.facts@[j]) by {
                assert(fact_wf(ns, fs0[j]));
                assert(self.facts@[j].rules@ == fs0[j].rules@);
            }
            assert forall|a: int, b: int| 0 <= a < b < self.facts@.len() implies self.facts@[a].repr != self.facts@[b].repr by {
                assert(fs0[a].repr != fs0[b].repr);
            }
        }
    }

    /// Resolves the atom `query`: through its fact when there is one (the
    /// answer of `Fact::resolve`), and `False` for an atom without a fact.
    pub fn resolve_query(&mut self, query: char, path: &mut Vec<String>) -> (r: Result<Resolve, ResolveError>)
        requires
            old(self).wf(),
        ensures
            final(self).wf(),
            final(self).nodes@ == old(self).nodes@,
            final(self).rules@ == old(self).rules@,
            final(self).initial_facts@ == old(self).initial_facts@,
            final(self).queries@ == old(self).queries@,
            final(self).warnings@ == old(self).warnings@,
            keeps_prefix(old(path)@, final(path)@),
            r == query_outcome(old(self).facts@, old(self).nodes@, query).0,
            final(self).facts@ == query_outcome(old(self).facts@, old(self).nodes@, query).1,
    {
        match self.find_fact(query) {
            None => Ok(Resolve::False),
            Some(f) => {
                proof {
                    let g = fact_index(self.facts@, query).unwrap();
                    assert(self.facts@[g].repr == query);
                    assert(g == f);
                }
                let ghost before = *self;
                let r = Fact::resolve(&mut self.facts, &mut self.nodes, f, path);
                proof {
                    let ns = self.nodes@;
                    assert forall|j: int| 0 <= j < self.facts@.len() implies #[trigger] fact_wf(ns, self.facts@[j]) by {
                        assert(fact_wf(ns, before.facts@[j]));
                    }
                    assert forall|a: int, b: int| 0 <= a < b < self.facts@.len() implies self.facts@[a].repr != self.facts@[b].repr by {
                        assert(before.facts@[a].repr != before.facts@[b].repr);
                    }
                }
                r
            },
        }
    }

    /// Reads one line of a configuration at a stage of the reading (see
    /// `line_step`) and returns the next stage.
    fn apply_line(&mut self, stage: u8, line: &Vec<char>) -> (r: Result<u8, InputError>)
        requires
            old(self).wf(),
            stage <= 2,
        ensures
            final(self).wf(),
            match line_step(stage as nat, line@) {
                Ok(st) => r == Ok::<u8, InputError>(st as u8),
                Err(e) => r == Err::<u8, InputError>(e),
            },
            r is Ok ==> {
                let acc = line_effect(stage as nat, line@, (0, Seq::empty(), Seq::empty()));
                &&& final(self).rules@.len() == old(self).rules@.len() + acc.0
                &&& final(self).initial_facts@ == add_unique(old(self).initial_facts@, acc.1)
                &&& final(self).queries@ == add_unique(old(self).queries@, acc.2)
            },
            r is Ok ==> line_store_step(stage as nat, *old(self), *final(self), line@),
    {
        reveal(line_store_step);
        let mut i: usize = 0;
        assert(line@.subrange(0, line@.len() as int) =~= line@);
        while i < line.len() && space_check(line[i])
            invariant
                *self == *old(self),
                i <= line@.len(),
                lead(line@) == i + lead(line@.subrange(i as int, line@.len() as int)),
            decreases line@.len() - i,
        {
            proof {
                let rest = line@.subrange(i as int, line@.len() as int);
                assert(rest.subrange(1, rest.len() as int) =~= line@.subrange(i + 1, line@.len() as int));
            }
            i = i + 1;
        }
        proof {
            let rest = line@.subrange(i as int, line@.len() as int);
            if i < line@.len() {
                assert(rest[0] == line@[i as int]);
            }
            assert(lead(rest) == 0);
        }
        let t = sub_chars(line, i, line.len());
        if t.len() == 0 || t[0] == '#' {
            return Ok(stage);
        }
        if stage == 0 {
            let arrow = vec!['=', '>'];
            assert(arrow@ =~= seq!['=', '>']);
            let cut = find_comment(&t);
            let body = sub_chars(&t, 0, cut);
            if find_first(&body, &arrow).is_some() {
                let text = text_of(&t);
                return match self.parse_rule(text.as_str()) {
                    Ok(()) => Ok(0),
                    Err(e) => Err(e),
                };
            }
            if t[0] == '=' {
                let text = text_of(&t);
                return match self.parse_initial_facts(text.as_str()) {
                    Ok(()) => Ok(1),
                    Err(e) => Err(e),
                };
            }
            if t[0] == '?' {
                return Err(InputError::MissingInitialFacts);
            }
            return Err(InputError::NotARule);
        }
        if stage == 1 {
            if t[0] == '?' {
                let text = text_of(&t);
                return match self.parse_queries(text.as_str()) {
                    Ok(()) => Ok(2),
                    Err(e) => Err(e),
                };
            }
            return Err(InputError::MissingQueries);
        }
        Err(InputError::QueriesNotLast)
    }

    /// Reads a whole configuration: rule lines, then one initial-facts line,
    /// then one query line, with blank and comment lines anywhere.
    #[verifier::rlimit(100)]
    pub fn parse_content(&mut self, content: &str) -> (r: Result<(), InputError>)
        requires
            old(self).wf(),
        ensures
            final(self).wf(),
            match content_error(content@) {
                Some(e) => r == Err::<(), InputError>(e),
                None => r is Ok,
            },
            r is Ok ==> {
                let ls = lines_of(content@);
                let sum = summary(ls, ls.len() as int);
                &&& final(self).rules@.len() == old(self).rules@.len() + sum.0
                &&& final(self).initial_facts@ == add_unique(old(self).initial_facts@, sum.1)
                &&& final(self).queries@ == add_unique(old(self).queries@, sum.2)
            },
            r is Ok ==> exists|stores: Seq<Input>|
                {
                    &&& read_through(lines_of(content@), stores)
                    &&& stores[0] == *old(self)
                    &&& stores.last() == *final(self)
                },
    {
        let s = chars_of(content);
        let n = s.len();
        let ghost ls = lines_of(s@);
        let ghost mut k: int = 0;
        let mut pos: usize = 0;
        let mut stage: u8 = 0;
        let ghost mut stores: Seq<Input> = seq![*self];
        assert(s@.subrange(0, n as int) =~= s@);
        loop
            invariant
                stores.len() == k + 1,
                stores[0] == *old(self),
                stores[k] == *self,
                forall|j: int|
                    0 <= j < k ==> line_store_step(
                        stage_after(ls, j)->Ok_0,
                        stores[j],
                        stores[j + 1],
                        #[trigger] ls[j],
                    ),
                n == s@.len(),
                s@ == content@,
                ls == lines_of(s@),
                pos <= n,
                0 <= k,
                lines_of(s@.subrange(pos as int, n as int)) == ls.subrange(k, ls.len() as int),
                k < ls.len(),
                stage <= 2,
                stage_after(ls, k) == Ok::<nat, InputError>(stage as nat),
                self.wf(),
                self.rules@.len() == old(self).rules@.len() + summary(ls, k).0,
                self.initial_facts@ == add_unique(old(self).initial_facts@, summary(ls, k).1),
                self.queries@ == add_unique(old(self).queries@, summary(ls, k).2),
                stage == 0 ==> summary(ls, k).1.len() == 0,
                stage <= 1 ==> summary(ls, k).2.len() == 0,
            decreases n - pos,
        {
            let ghost t = s@.subrange(pos as int, n as int);
            let found = find_char_from(&s, pos, '\n');
            proof {
                lemma_first_at_range(t, seq!['\n'], 0);
            }
            let end = match found {
                Some(e) => e,
                None => n,
            };
            let line = sub_chars(&s, pos, end);
            proof {
                assert(ls[k] == lines_of(t)[0]);
                if found is Some {
                    assert(line@ =~= t.subrange(0, end - pos));
                } else {
                    assert(line@ =~= t);
                }
                assert(stage_after(ls, k + 1) == line_step(stage as nat, line@));
            }
            let ghost before = *self;
            let ghost old_stage = stage;
            stage = match self.apply_line(stage, &line) {
                Ok(st) => st,
                Err(e) => {
                    proof {
                        lemma_stage_stuck(ls, k + 1, ls.len() as int);
                    }
                    return Err(e);
                },
            };
            proof {
                assert(ls[k] == line@);
                assert(stage_after(ls, k)->Ok_0 == old_stage as nat);
                lemma_read_step(ls, stores, k, *self);
                stores = stores.push(*self);
                k = k + 1;
            }
            match found {
                None => {
                    proof {
                        assert(ls.subrange(k - 1, ls.len() as int).len() == 1);
                    }
                    if stage == 0 {
                        return Err(InputError::MissingInitialFacts);
                    }
                    if stage == 1 {
                        return Err(InputError::MissingQueries);
                    }
                    proof {
                        assert(k == ls.len());
                        assert(read_through(ls, stores));
                        assert(stores.last() == *self);
                        assert(stores[0] == *old(self));
                    }
                    return Ok(());
                },
                Some(e) => {
                    proof {
                        let j = e - pos;
                        let rest = t.subrange(j + 1, t.len() as int);
                        assert(rest =~= s@.subrange(e + 1, n as int));
                        assert(lines_of(t) == seq![t.subrange(0, j)] + lines_of(rest));
                        assert(lines_of(rest).len() >= 1);
                        assert(lines_of(rest) =~= lines_of(t).subrange(1, lines_of(t).len() as int));
                        assert(ls.subrange(k, ls.len() as int) =~= ls.subrange(k - 1, ls.len() as int).subrange(1, ls.len() - k + 1));
                    }
                    pos = e + 1;
                },
            }
        }
    }

    /// Checks a loaded configuration: a warning when it has no rule, and an
    /// error when it has no query.
    pub fn check(&mut self) -> (r: Result<(), InputError>)
        ensures
            r is Ok <==> old(self).queries@.len() > 0,
            r is Err ==> r == Err::<(), InputError>(InputError::EmptyQueries),
            old(self).rules@.len() == 0 ==> final(self).warnings@ == old(self).warnings@.push(
                final(self).warnings@.last(),
            ) && final(self).warnings@.last()@ == "No rules"@,
            old(self).rules@.len() > 0 ==> final(self).warnings@ == old(self).warnings@,
            final(self).facts@ == old(self).facts@,
            final(self).nodes@ == old(self).nodes@,
            final(self).rules@ == old(self).rules@,
            final(self).initial_facts@ == old(self).initial_facts@,
            final(self).queries@ == old(self).queries@,
    {
        if self.rules.len() == 0 {
            self.warnings.push(String::from_str("No rules"));
        }
        if self.queries.len() == 0 {
            return Err(InputError::EmptyQueries);
        }
        Ok(())
    }

    /// The fact for atom `c`, created unresolved and false if it is new.
    fn get_or_insert_fact(&mut self, c: char) -> (r: usize)
        requires
            old(self).wf(),
            is_atom(c),
        ensures
            final(self).wf(),
            old(self).grows_to(&*final(self)),
            final(self).nodes@ == old(self).nodes@,
            (r as int) < final(self).facts@.len(),
            final(self).facts@[r as int].repr == c,
            (exists|i: int| 0 <= i < old(self).facts@.len() && old(self).facts@[i].repr == c)
                ==> final(self).facts@ == old(self).facts@,
            !(exists|i: int| 0 <= i < old(self).facts@.len() && old(self).facts@[i].repr == c)
                ==> {
                &&& final(self).facts@.len() == old(self).facts@.len() + 1
                &&& r == old(self).facts@.len()
                &&& final(self).facts@[r as int].value == Resolve::False
                &&& !final(self).facts@[r as int].resolved
                &&& final(self).facts@[r as int].rules@.len() == 0
            },
    {
        match self.find_fact(c) {
            Some(i) => i,
            None => {
                let fact = Fact { repr: c, value: Resolve::False, resolved: false, rules: Vec::new() };
                self.facts.push(fact);
                let r = self.facts.len() - 1;
                proof {
                    assert(fact_wf(self.nodes@, self.facts@[r as int]));
                    assert forall|i: int| 0 <= i < self.nodes@.len() implies #[trigger] node_wf(
                        self.facts@.len() as int,
                        self.nodes@,
                        i,
                    ) by {
                        assert(node_wf(old(self).facts@.len() as int, self.nodes@, i));
                    }
                }
                r
            },
        }
    }
}

/// A warning naming an atom.
fn labelled_warning(text: &str, c: char) -> (r: String)
    ensures
        r@ == text@ + seq![c],
{
    let mut r = String::from_str(text);
    let piece = char_text(c);
    r.append(piece.as_str());
    r
}

impl Default for Input {
    fn default() -> (r: Input)
        ensures
            r.wf(),
            r.facts@.len() == 0,
            r.nodes@.len() == 0,
            r.rules@.len() == 0,
            r.initial_facts@.len() == 0,
            r.queries@.len() == 0,
            r.warnings@.len() == 0,
    {
        Input::new()
    }
}

/// The store `b` is the store `a` with the rule of the line `line` added: its
/// tree reads as the line's premise and conclusion, its root joins `rules` and
/// the rule lists of the facts it can conclude, and the facts it adds are
/// false, unresolved and carry its atoms.
pub open spec fn rule_added(a: Input, b: Input, line: Seq<char>) -> bool {
    let (lb, iff, rb) = rule_parts(line).unwrap();
    let root = b.rules@.last() as int;
    let nd = b.nodes@[root];
    &&& b.rules@ == a.rules@.push(root as usize)
    &&& a.nodes@.len() <= b.nodes@.len()
    &&& forall|i: int| 0 <= i < a.nodes@.len() ==> #[trigger] b.nodes@[i] == a.nodes@[i]
    &&& nd.operator == Some(if iff { Operator::IfAndOnlyIf } else { Operator::Implies })
    &&& denotes(b.facts@, b.nodes@, nd.left.unwrap() as int, parse_expr(lb, 3).unwrap())
    &&& denotes(b.facts@, b.nodes@, nd.right.unwrap() as int, parse_expr(rb, 3).unwrap())
    &&& a.facts@.len() <= b.facts@.len()
    &&& forall|i: int| 0 <= i < a.facts@.len() ==> same_state(#[trigger] b.facts@[i], a.facts@[i])
    &&& forall|i: int| a.facts@.len() <= i < b.facts@.len() ==> bare(#[trigger] b.facts@[i])
        && (lb.contains(b.facts@[i].repr) || rb.contains(b.facts@[i].repr))
    &&& rule_lists(b.facts@) == registered(
        Seq::new(b.facts@.len(), |i: int| if i < a.facts@.len() {
            a.facts@[i].rules@
        } else {
            Seq::<usize>::empty()
        }),
        rule_targets(b.nodes@, root),
        root as usize,
    )
    &&& b.initial_facts@ == a.initial_facts@
    &&& b.queries@ == a.queries@
    &&& b.warnings@ == a.warnings@
}

/// The store `after` is the store `before` after the initial-facts line
/// `line`: its atoms join `initial_facts` once each, their facts are true and
/// fixed (new ones have no rule), nothing else changes, and the warnings name
/// each repeated atom and each atom without a fact.
pub open spec fn facts_listed(before: Input, after: Input, line: Seq<char>) -> bool {
    let a = listed(line, '=').unwrap();
    &&& after.initial_facts@ == add_unique(before.initial_facts@, a)
    &&& before.facts@.len() <= after.facts@.len()
    &&& forall|c: char| a.contains(c) ==> exists|i: int| 0 <= i < after.facts@.len()
        && #[trigger] after.facts@[i].repr == c && after.facts@[i].value == Resolve::True
        && after.facts@[i].resolved
    &&& forall|i: int| 0 <= i < before.facts@.len() && !a.contains(before.facts@[i].repr)
        ==> #[trigger] after.facts@[i] == before.facts@[i]
    &&& forall|i: int| 0 <= i < before.facts@.len() ==> (#[trigger] after.facts@[i]).repr == before.facts@[i].repr
        && after.facts@[i].rules@ == before.facts@[i].rules@
    &&& forall|i: int| before.facts@.len() <= i < after.facts@.len() ==> a.contains(
        #[trigger] after.facts@[i].repr)
    &&& forall|i: int| before.facts@.len() <= i < after.facts@.len() ==> (
        #[trigger] after.facts@[i]).rules@.len() == 0
    &&& texts(after.warnings@) == texts(before.warnings@) + listing_warnings(
        before.initial_facts@,
        before.facts@,
        a,
        "Duplicate initial fact for symbol "@,
        "Unused initial fact "@,
    )
    &&& after.nodes@ == before.nodes@
    &&& after.rules@ == before.rules@
    &&& after.queries@ == before.queries@
}

/// The store `after` is the store `before` after the query line `line`: its
/// atoms join `queries` once each, an atom without a fact gets a fresh false
/// one, nothing else changes, and the warnings name each repeated atom and
/// each atom without a fact.
pub open spec fn queries_listed(before: Input, after: Input, line: Seq<char>) -> bool {
    let a = listed(line, '?').unwrap();
    &&& after.queries@ == add_unique(before.queries@, a)
    &&& (forall|c: char| a.contains(c) ==> (exists|i: int| 0 <= i < after.facts@.len()
        && #[trigger] after.facts@[i].repr == c))
    &&& (forall|i: int| before.facts@.len() <= i < after.facts@.len() ==> a.contains(
        #[trigger] after.facts@[i].repr))
    &&& (forall|i: int| before.facts@.len() <= i < after.facts@.len() ==> fresh(
        #[trigger] after.facts@[i]))
    &&& texts(after.warnings@) == texts(before.warnings@) + listing_warnings(
        before.queries@,
        before.facts@,
        a,
        "Duplicate query for fact "@,
        "Query for missing fact "@,
    )
    &&& before.grows_to_facts(&after)
    &&& after.nodes@ == before.nodes@
    &&& after.rules@ == before.rules@
    &&& after.initial_facts@ == before.initial_facts@
}

/// How the store changes with a line that the reading accepted at `stage`:
/// blank and comment lines change nothing, and the others are read as a rule,
/// the initial facts or the queries.
#[verifier::opaque]
pub open spec fn line_store_step(stage: nat, before: Input, after: Input, l: Seq<char>) -> bool {
    let t = skip_lead(l);
    if t.len() == 0 || t[0] == '#' {
        after == before
    } else if stage == 0 && first_at(before_comment(t), seq!['=', '>'], 0) >= 0 {
        rule_added(before, after, t)
    } else if stage == 0 && t[0] == '=' {
        facts_listed(before, after, t)
    } else if stage == 1 && t[0] == '?' {
        queries_listed(before, after, t)
    } else {
        after == before
    }
}

/// `stores` are the stores before and after each of the lines `ls`, each line
/// read at the stage that the lines before it reach.
pub open spec fn read_through(ls: Seq<Seq<char>>, stores: Seq<Input>) -> bool {
    &&& stores.len() == ls.len() + 1
    &&& forall|k: int|
        0 <= k < ls.len() ==> line_store_step(
            stage_after(ls, k)->Ok_0,
            stores[k],
            stores[k + 1],
            #[trigger] ls[k],
        )
}

/// One more accepted line extends the record of stores.
pub proof fn lemma_read_step(ls: Seq<Seq<char>>, stores: Seq<Input>, k: int, after: Input)
    requires
        0 <= k < ls.len(),
        stores.len() == k + 1,
        forall|j: int|
            0 <= j < k ==> line_store_step(
                stage_after(ls, j)->Ok_0,
                stores[j],
                stores[j + 1],
                #[trigger] ls[j],
            ),
        line_store_step(stage_after(ls, k)->Ok_0, stores[k], after, ls[k]),
    ensures
        forall|j: int|
            0 <= j < k + 1 ==> line_store_step(
                stage_after(ls, j)->Ok_0,
                stores.push(after)[j],
                stores.push(after)[j + 1],
                #[trigger] ls[j],
            ),
{
    let s2 = stores.push(after);
    assert forall|j: int| 0 <= j < k + 1 implies line_store_step(
        stage_after(ls, j)->Ok_0,
        s2[j],
        s2[j + 1],
        #[trigger] ls[j],
    ) by {
        if j < k {
            assert(s2[j] == stores[j]);
            assert(s2[j + 1] == stores[j + 1]);
        }
    }
}

/// Once a line is rejected, the reading stays rejected.
pub proof fn lemma_stage_stuck(lines: Seq<Seq<char>>, k: int, m: int)
    requires
        stage_after(lines, k) is Err,
        k <= m,
    ensures
        stage_after(lines, m) == stage_after(lines, k),
    decreases m - k,
{
    if m > k {
        lemma_stage_stuck(lines, k, m - 1);
    }
}

} // verus!
