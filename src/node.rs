//! Facts, expression-tree nodes, and the three-valued backward-chaining resolver.
//!
//! Facts and nodes live in two arenas (`Vec<Fact>` and `Vec<Node>`) and refer to
//! each other by index: a node names its fact and its children, a fact names the
//! rule roots that can conclude it.

use vstd::prelude::*;
use vstd::string::*;
use crate::text::{char_text, labelled};

verus! {

/// Logical connectives, from the tightest binding to the loosest.
#[derive(Clone, Copy, Debug, PartialEq, Eq, Structural)]
pub enum Operator {
    Not,
    And,
    Or,
    Xor,
    Implies,
    IfAndOnlyIf,
}

/// A three-valued answer.
#[derive(Clone, Copy, Debug, PartialEq, Eq, Structural)]
pub enum Resolve {
    True,
    Ambiguous,
    False,
}

/// Why a resolution stopped.
#[derive(Clone, Copy, Debug, PartialEq, Eq, Structural)]
pub enum ResolveError {
    /// A node was entered again while it was being resolved.
    InfiniteRule,
    /// An implication or a biconditional stands inside a conclusion.
    DisallowedInConclusion,
    /// A node, a child or a fact that the tree names is missing.
    EmptyNode,
}

impl Resolve {
    pub open spec fn negated(self) -> Resolve {
        match self {
            Resolve::True => Resolve::False,
            Resolve::False => Resolve::True,
            Resolve::Ambiguous => Resolve::Ambiguous,
        }
    }

    pub fn not(&self) -> (r: Resolve)
        ensures
            r == self.negated(),
    {
        match self {
            Resolve::True => Resolve::False,
            Resolve::False => Resolve::True,
            Resolve::Ambiguous => Resolve::Ambiguous,
        }
    }

    pub fn is_true(&self) -> (r: bool)
        ensures
            r == (*self == Resolve::True),
    {
        *self == Resolve::True
    }

    pub fn is_ambiguous(&self) -> (r: bool)
        ensures
            r == (*self == Resolve::Ambiguous),
    {
        *self == Resolve::Ambiguous
    }

    pub fn is_false(&self) -> (r: bool)
        ensures
            r == (*self == Resolve::False),
    {
        *self == Resolve::False
    }
}

/// Negating twice gives back the value.
pub proof fn lemma_double_negation(v: Resolve)
    ensures
        v.negated().negated() == v,
{
}

/// Kleene's tables for the connectives of a premise.
pub open spec fn combine(op: Operator, l: Resolve, r: Resolve) -> Resolve {
    if l == Resolve::Ambiguous || r == Resolve::Ambiguous {
        Resolve::Ambiguous
    } else {
        match op {
            Operator::And => if l == Resolve::True && r == Resolve::True {
                Resolve::True
            } else {
                Resolve::False
            },
            Operator::Or => if l == Resolve::True || r == Resolve::True {
                Resolve::True
            } else {
                Resolve::False
            },
            Operator::Xor => if (l == Resolve::True) != (r == Resolve::True) {
                Resolve::True
            } else {
                Resolve::False
            },
            _ => Resolve::False,
        }
    }
}

fn combine_exec(op: Operator, l: Resolve, r: Resolve) -> (v: Resolve)
    ensures
        v == combine(op, l, r),
{
    if l.is_ambiguous() || r.is_ambiguous() {
        Resolve::Ambiguous
    } else {
        let yes = match op {
            Operator::And => l.is_true() && r.is_true(),
            Operator::Or => l.is_true() || r.is_true(),
            Operator::Xor => l.is_true() != r.is_true(),
            _ => false,
        };
        if yes {
            Resolve::True
        } else {
            Resolve::False
        }
    }
}

/// An atom with its current resolution state and the rules that can conclude it.
#[derive(Clone, Debug)]
pub struct Fact {
    pub repr: char,
    pub value: Resolve,
    pub resolved: bool,
    /// Indices of rule-root nodes, in registration order.
    pub rules: Vec<usize>,
}

/// An element of an expression tree: a leaf naming a fact, a negation with a
/// left child, or a binary connective with two children.
#[derive(Clone, Copy, Debug, PartialEq, Eq, Structural)]
pub struct Node {
    pub visited: bool,
    pub fact: Option<usize>,
    pub left: Option<usize>,
    pub right: Option<usize>,
    pub operator: Option<Operator>,
}


/// Number of nodes that are not being resolved.
pub open spec fn unmarked(ns: Seq<Node>) -> nat
    decreases ns.len(),
{
    if ns.len() == 0 {
        0
    } else {
        unmarked(ns.drop_last()) + (if ns.last().visited {
            0nat
        } else {
            1nat
        })
    }
}

pub open spec fn with_mark(ns: Seq<Node>, n: int, v: bool) -> Seq<Node> {
    ns.update(n, Node { visited: v, ..ns[n] })
}

pub proof fn lemma_mark_decreases(ns: Seq<Node>, n: int)
    requires
        0 <= n < ns.len(),
        !ns[n].visited,
    ensures
        unmarked(with_mark(ns, n, true)) + 1 == unmarked(ns),
    decreases ns.len(),
{
    let m = with_mark(ns, n, true);
    if n == ns.len() - 1 {
        assert(m.drop_last() =~= ns.drop_last());
    } else {
        lemma_mark_decreases(ns.drop_last(), n);
        assert(m.drop_last() =~= with_mark(ns.drop_last(), n, true));
    }
}

/// `c` names a node stored before node `n`.
pub open spec fn below(c: Option<usize>, n: int) -> bool {
    c is Some && (c.unwrap() as int) < n
}

/// What propagating `res` into the conclusion subtree at `n` returns: the
/// truth of that subtree and the facts it assigns, in tree order.
pub open spec fn conclusion_outcome(ns: Seq<Node>, n: int, res: Resolve) -> Result<
    (Resolve, Seq<usize>),
    ResolveError,
>
    decreases n,
{
    if !(0 <= n < ns.len()) {
        Err(ResolveError::EmptyNode)
    } else {
        let node = ns[n];
        if node.fact is Some {
            Ok(
                (
                    if node.operator == Some(Operator::Not) {
                        res.negated()
                    } else {
                        res
                    },
                    seq![node.fact.unwrap()],
                ),
            )
        } else {
            match node.operator {
                Some(Operator::Not) => if below(node.left, n) {
                    match conclusion_outcome(ns, node.left.unwrap() as int, res) {
                        Ok((v, fs)) => Ok((v.negated(), fs)),
                        Err(e) => Err(e),
                    }
                } else {
                    Err(ResolveError::EmptyNode)
                },
                Some(Operator::Implies) => Err(ResolveError::DisallowedInConclusion),
                Some(Operator::IfAndOnlyIf) => Err(ResolveError::DisallowedInConclusion),
                Some(op) => if below(node.left, n) && below(node.right, n) {
                    let inner = if op == Operator::And {
                        res
                    } else {
                        Resolve::Ambiguous
                    };
                    match conclusion_outcome(ns, node.left.unwrap() as int, inner) {
                        Err(e) => Err(e),
                        Ok((_, a)) => match conclusion_outcome(
                            ns,
                            node.right.unwrap() as int,
                            inner,
                        ) {
                            Err(e) => Err(e),
                            Ok((_, b)) => Ok((inner, a + b)),
                        },
                    }
                } else {
                    Err(ResolveError::EmptyNode)
                },
                None => if below(node.left, n) {
                    conclusion_outcome(ns, node.left.unwrap() as int, res)
                } else {
                    Err(ResolveError::EmptyNode)
                },
            }
        }
    }
}

/// The subtree at `n` holds a leaf for the atom `q`.
pub open spec fn mentions(fs: Seq<Fact>, ns: Seq<Node>, n: int, q: char) -> bool
    decreases n,
{
    if !(0 <= n < ns.len()) {
        false
    } else {
        let node = ns[n];
        (node.fact is Some && (node.fact.unwrap() as int) < fs.len() && fs[node.fact.unwrap() as int].repr
            == q) || (below(node.left, n) && mentions(fs, ns, node.left.unwrap() as int, q)) || (
        below(node.right, n) && mentions(fs, ns, node.right.unwrap() as int, q))
    }
}

/// The facts named in the subtree at `n`: the node's own, then its left
/// subtree's, then its right subtree's.
pub open spec fn facts_of(ns: Seq<Node>, n: int) -> Seq<usize>
    decreases n,
{
    if !(0 <= n < ns.len()) {
        Seq::empty()
    } else {
        let node = ns[n];
        (if node.fact is Some {
            seq![node.fact.unwrap()]
        } else {
            Seq::empty()
        }) + (if below(node.left, n) {
            facts_of(ns, node.left.unwrap() as int)
        } else {
            Seq::empty()
        }) + (if below(node.right, n) {
            facts_of(ns, node.right.unwrap() as int)
        } else {
            Seq::empty()
        })
    }
}

pub open spec fn with_truth(fs: Seq<Fact>, f: int, v: Resolve, resolved: bool) -> Seq<Fact> {
    fs.update(f, Fact { value: v, resolved: resolved, ..fs[f] })
}

/// What a conclusion that evaluated to `res` does to the fact `f`: a true
/// conclusion fixes it; otherwise it only updates a fact that is not fixed yet,
/// or turns an ambiguous one false.
pub open spec fn concluded(fs: Seq<Fact>, f: int, res: Resolve) -> Seq<Fact> {
    if !(0 <= f < fs.len()) {
        fs
    } else if res == Resolve::True {
        with_truth(fs, f, Resolve::True, true)
    } else if !fs[f].resolved || (res == Resolve::False && fs[f].value == Resolve::Ambiguous) {
        with_truth(fs, f, res, fs[f].resolved)
    } else {
        fs
    }
}

/// `concluded` applied to each collected fact in turn.
pub open spec fn conclude_all(fs: Seq<Fact>, col: Seq<usize>, res: Resolve) -> Seq<Fact>
    decreases col.len(),
{
    if col.len() == 0 {
        fs
    } else {
        concluded(conclude_all(fs, col.drop_last(), res), col.last() as int, res)
    }
}

/// The better of two candidate answers from rules that did not prove a fact:
/// the first one seen, unless a later `False` replaces an `Ambiguous`.
pub open spec fn prefer(best: Option<Resolve>, v: Resolve) -> Resolve {
    match best {
        None => v,
        Some(b) => if b == Resolve::Ambiguous && v == Resolve::False {
            Resolve::False
        } else {
            b
        },
    }
}

/// Resolving the fact `f`: its answer, and the facts afterwards.
pub open spec fn fact_outcome(fs: Seq<Fact>, ns: Seq<Node>, f: int) -> (
    Result<Resolve, ResolveError>,
    Seq<Fact>,
)
    decreases unmarked(ns), 1int, (if 0 <= f < fs.len() {
        fs[f].rules.len() as int
    } else {
        0
    }) + 1,
{
    if !(0 <= f < fs.len()) {
        (Err(ResolveError::EmptyNode), fs)
    } else if fs[f].resolved || fs[f].rules.len() == 0 {
        (Ok(fs[f].value), fs)
    } else {
        rules_outcome(fs, ns, f, 0, fs[f].rules.len() as int, None)
    }
}

/// Trying the rules of fact `f` from the `i`-th one on, with `best` the
/// candidate so far.
pub open spec fn rules_outcome(
    fs: Seq<Fact>,
    ns: Seq<Node>,
    f: int,
    i: int,
    len: int,
    best: Option<Resolve>,
) -> (Result<Resolve, ResolveError>, Seq<Fact>)
    decreases unmarked(ns), 1int, len - i,
{
    if !(0 <= f < fs.len()) {
        (Err(ResolveError::EmptyNode), fs)
    } else if !(0 <= i < len) || i >= fs[f].rules.len() {
        (
            Ok(
                match best {
                    Some(b) => b,
                    None => fs[f].value,
                },
            ),
            fs,
        )
    } else {
        let r = fs[f].rules[i] as int;
        if 0 <= r < ns.len() && ns[r].visited && i + 1 != len {
            rules_outcome(fs, ns, f, i + 1, len, best)
        } else {
            let (res, fs2) = node_outcome(fs, ns, r, fs[f].repr);
            match res {
                Ok(v) => if v == Resolve::True {
                    (Ok(Resolve::True), with_truth(fs2, f, Resolve::True, true))
                } else {
                    rules_outcome(fs2, ns, f, i + 1, len, Some(prefer(best, v)))
                },
                Err(e) => if e == ResolveError::InfiniteRule && 0 <= r < ns.len() && ns[r].operator
                    == Some(Operator::IfAndOnlyIf) {
                    rules_outcome(fs2, ns, f, i + 1, len, Some(prefer(best, Resolve::False)))
                } else {
                    (Err(e), fs2)
                },
            }
        }
    }
}

/// Resolving the node `n` on behalf of the query `q`: its answer, and the
/// facts afterwards.
pub open spec fn node_outcome(fs: Seq<Fact>, ns: Seq<Node>, n: int, q: char) -> (
    Result<Resolve, ResolveError>,
    Seq<Fact>,
)
    decreases unmarked(ns), 0int, 0int,
{
    if !(0 <= n < ns.len()) {
        (Err(ResolveError::EmptyNode), fs)
    } else if ns[n].visited {
        (Err(ResolveError::InfiniteRule), fs)
    } else {
        proof {
            lemma_mark_decreases(ns, n);
        }
        let m = with_mark(ns, n, true);
        let node = ns[n];
        if node.fact is Some {
            let (res, fs2) = fact_outcome(fs, m, node.fact.unwrap() as int);
            (
                match res {
                    Ok(v) => Ok(
                        if node.operator == Some(Operator::Not) {
                            v.negated()
                        } else {
                            v
                        },
                    ),
                    Err(e) => Err(e),
                },
                fs2,
            )
        } else if node.operator is None {
            if node.left is Some {
                node_outcome(fs, m, node.left.unwrap() as int, q)
            } else {
                (Err(ResolveError::EmptyNode), fs)
            }
        } else if node.left is None || (node.right is None && node.operator != Some(
            Operator::Not,
        )) {
            (Err(ResolveError::EmptyNode), fs)
        } else {
            let op = node.operator.unwrap();
            let l = node.left.unwrap() as int;
            let r = node.right.unwrap() as int;
            if op == Operator::Not {
                let (res, fs2) = node_outcome(fs, m, l, q);
                (
                    match res {
                        Ok(v) => Ok(v.negated()),
                        Err(e) => Err(e),
                    },
                    fs2,
                )
            } else if op == Operator::Implies || op == Operator::IfAndOnlyIf {
                let forward = op == Operator::Implies || mentions(fs, m, r, q);
                let premise = if forward {
                    l
                } else {
                    r
                };
                let target = if forward {
                    r
                } else {
                    l
                };
                let (res, fs2) = node_outcome(fs, m, premise, q);
                match res {
                    Err(e) => (Err(e), fs2),
                    Ok(v) => if v != Resolve::True {
                        (Ok(v), fs2)
                    } else {
                        match conclusion_outcome(m, target, Resolve::True) {
                            Err(e) => (Err(e), fs2),
                            Ok((pv, col)) => if op == Operator::Implies {
                                (Ok(pv), conclude_all(fs2, col, pv))
                            } else if pv == Resolve::True {
                                (Ok(Resolve::True), conclude_all(fs2, col, Resolve::True))
                            } else {
                                (Ok(pv), fs2)
                            },
                        }
                    },
                }
            } else {
                let (a, fs2) = node_outcome(fs, m, l, q);
                match a {
                    Err(e) => (Err(e), fs2),
                    Ok(x) => {
                        let (b, fs3) = node_outcome(fs2, m, r, q);
                        match b {
                            Err(e) => (Err(e), fs3),
                            Ok(y) => (Ok(combine(op, x, y)), fs3),
                        }
                    },
                }
            }
        }
    }
}

/// The arena keeps every fact's atom and rule list.
pub open spec fn same_shape(a: Seq<Fact>, b: Seq<Fact>) -> bool {
    &&& a.len() == b.len()
    &&& forall|i: int|
        #![trigger a[i]]
        #![trigger b[i]]
        0 <= i < a.len() ==> b[i].repr == a[i].repr && b[i].rules == a[i].rules
}


/// `b` starts with all of `a`.
pub open spec fn keeps_prefix<T>(a: Seq<T>, b: Seq<T>) -> bool {
    a.len() <= b.len() && forall|i: int| 0 <= i < a.len() ==> #[trigger] b[i] == a[i]
}

fn status_line(repr: char, v: Resolve) -> (r: String) {
    match v {
        Resolve::True => labelled(repr, " is true"),
        Resolve::False => labelled(repr, " is false"),
        Resolve::Ambiguous => labelled(repr, " is ambiguous"),
    }
}

fn prefer_exec(best: Option<Resolve>, v: Resolve) -> (r: Resolve)
    ensures
        r == prefer(best, v),
{
    match best {
        None => v,
        Some(b) => if b.is_ambiguous() && v.is_false() {
            Resolve::False
        } else {
            b
        },
    }
}

/// Applies a conclusion that evaluated to `res` to each collected fact in turn.
pub fn conclude(facts: &mut Vec<Fact>, collected: &Vec<usize>, res: Resolve)
    ensures
        final(facts)@ == conclude_all(old(facts)@, collected@, res),
        same_shape(old(facts)@, final(facts)@),
{
    let ghost fs0 = facts@;
    let mut i: usize = 0;
    while i < collected.len()
        invariant
            i <= collected.len(),
            facts@ == conclude_all(fs0, collected@.take(i as int), res),
            same_shape(fs0, facts@),
        decreases collected.len() - i,
    {
        let f = collected[i];
        proof {
            assert(collected@.take(i + 1).drop_last() =~= collected@.take(i as int));
        }
        if f < facts.len() {
            if res.is_true() {
                facts[f].set(Resolve::True);
            } else if !facts[f].resolved || (res.is_false() && facts[f].value.is_ambiguous()) {
                facts[f].set_value(res);
            }
        }
        i = i + 1;
        proof {
            assert(facts@ =~= conclude_all(fs0, collected@.take(i as int), res));
        }
    }
    assert(collected@.take(collected@.len() as int) =~= collected@);
}

/// Node `k` lies in the subtree at `n`.
pub open spec fn in_subtree(ns: Seq<Node>, n: int, k: int) -> bool
    decreases n,
{
    &&& 0 <= n < ns.len()
    &&& (k == n || (below(ns[n].left, n) && in_subtree(ns, ns[n].left.unwrap() as int, k)) || (
    below(ns[n].right, n) && in_subtree(ns, ns[n].right.unwrap() as int, k)))
}

/// The node with its mark cleared.
pub open spec fn cleared(a: Node) -> Node {
    Node { visited: false, ..a }
}

/// Two arenas with the same links.
pub open spec fn same_links(a: Seq<Node>, b: Seq<Node>) -> bool {
    &&& a.len() == b.len()
    &&& forall|i: int| 0 <= i < a.len() ==> #[trigger] b[i].left == a[i].left && b[i].right == a[i].right
}

pub proof fn lemma_subtree_links(a: Seq<Node>, b: Seq<Node>, n: int, k: int)
    requires
        same_links(a, b),
    ensures
        in_subtree(a, n, k) == in_subtree(b, n, k),
    decreases n,
{
    if 0 <= n < a.len() {
        assert(b[n].left == a[n].left && b[n].right == a[n].right);
        if below(a[n].left, n) {
            lemma_subtree_links(a, b, a[n].left.unwrap() as int, k);
        }
        if below(a[n].right, n) {
            lemma_subtree_links(a, b, a[n].right.unwrap() as int, k);
        }
    }
}

/// The text of the subtree at `n`: `!` before a negated part, connectives
/// between spaces, each `+`, `|` and `^` group in parentheses.
pub open spec fn render(fs: Seq<Fact>, ns: Seq<Node>, n: int) -> Seq<char>
    decreases n,
{
    if !(0 <= n < ns.len()) {
        Seq::empty()
    } else {
        let node = ns[n];
        let l = node.left.unwrap() as int;
        let r = node.right.unwrap() as int;
        if node.fact is Some {
            let f = node.fact.unwrap() as int;
            let atom = if 0 <= f < fs.len() {
                seq![fs[f].repr]
            } else {
                seq!['?']
            };
            if node.operator == Some(Operator::Not) {
                seq!['!'] + atom
            } else {
                atom
            }
        } else if node.operator == Some(Operator::Not) {
            if below(node.left, n) {
                seq!['!'] + render(fs, ns, l)
            } else {
                seq!['!']
            }
        } else if node.operator is Some && below(node.left, n) && below(node.right, n) {
            let op = node.operator.unwrap();
            let a = render(fs, ns, l);
            let b = render(fs, ns, r);
            if op == Operator::Implies {
                a + seq![' ', '=', '>', ' '] + b
            } else if op == Operator::IfAndOnlyIf {
                a + seq![' ', '<', '=', '>', ' '] + b
            } else {
                seq!['('] + a + seq![' ', infix_char(op), ' '] + b + seq![')']
            }
        } else if node.operator is None && below(node.left, n) {
            render(fs, ns, l)
        } else {
            Seq::empty()
        }
    }
}

pub open spec fn infix_char(op: Operator) -> char {
    if op == Operator::And {
        '+'
    } else if op == Operator::Or {
        '|'
    } else {
        '^'
    }
}

impl Fact {
    /// Fixes the value for the rest of this resolution pass.
    pub fn set(&mut self, value: Resolve)
        ensures
            *final(self) == (Fact { value: value, resolved: true, ..*old(self) }),
    {
        self.value = value;
        self.resolved = true;
    }

    /// Registers the rule root `r` as able to conclude this fact.
    pub fn add_rule(&mut self, r: usize)
        ensures
            final(self).repr == old(self).repr,
            final(self).value == old(self).value,
            final(self).resolved == old(self).resolved,
            final(self).rules@ == old(self).rules@.push(r),
    {
        self.rules.push(r);
    }

    /// Changes the value without fixing it.
    pub fn set_value(&mut self, value: Resolve)
        ensures
            *final(self) == (Fact { value: value, ..*old(self) }),
    {
        self.value = value;
    }

    /// Clears the marks of every rule tree of the fact `f`.
    pub fn cleanup(facts: &Vec<Fact>, nodes: &mut Vec<Node>, f: usize)
        requires
            (f as int) < facts@.len(),
        ensures
            final(nodes)@.len() == old(nodes)@.len(),
            forall|k: int| 0 <= k < old(nodes)@.len() ==> #[trigger] final(nodes)@[k] == if exists|j: int|
                0 <= j < facts@[f as int].rules@.len() && in_subtree(
                    old(nodes)@,
                    #[trigger] facts@[f as int].rules@[j] as int,
                    k,
                ) {
                cleared(old(nodes)@[k])
            } else {
                old(nodes)@[k]
            },
    {
        let ghost ns0 = nodes@;
        let ghost rl = facts@[f as int].rules@;
        let mut i: usize = 0;
        while i < facts[f].rules.len()
            invariant
                rl == facts@[f as int].rules@,
                (f as int) < facts@.len(),
                i <= rl.len(),
                same_links(ns0, nodes@),
                forall|k: int| 0 <= k < ns0.len() ==> #[trigger] nodes@[k] == if exists|j: int|
                    0 <= j < i && in_subtree(ns0, #[trigger] rl[j] as int, k) {
                    cleared(ns0[k])
                } else {
                    ns0[k]
                },
            decreases rl.len() - i,
        {
            let r = facts[f].rules[i];
            let ghost before = nodes@;
            Node::cleanup(nodes, r);
            proof {
                assert forall|k: int| 0 <= k < ns0.len() implies #[trigger] nodes@[k] == if exists|j: int|
                    0 <= j < i + 1 && in_subtree(ns0, #[trigger] rl[j] as int, k) {
                    cleared(ns0[k])
                } else {
                    ns0[k]
                } by {
                    lemma_subtree_links(ns0, before, r as int, k);
                    if in_subtree(ns0, r as int, k) {
                        assert(rl[i as int] == r);
                    }
                    if exists|j: int| 0 <= j < i + 1 && in_subtree(ns0, #[trigger] rl[j] as int, k) {
                        let j = choose|j: int| 0 <= j < i + 1 && in_subtree(ns0, #[trigger] rl[j] as int, k);
                        if j < i {
                            assert(exists|j: int| 0 <= j < i && in_subtree(ns0, #[trigger] rl[j] as int, k));
                        }
                    }
                }
                assert(same_links(ns0, nodes@));
            }
            i = i + 1;
        }
    }

    /// Resolves the fact `f`: a fixed fact answers its value; otherwise its
    /// rules are tried in order, the first that proves it wins, and else the
    /// best candidate is returned. A biconditional that runs into a cycle
    /// counts as a `False` candidate. Every node is left unmarked.
    pub fn resolve(
        facts: &mut Vec<Fact>,
        nodes: &mut Vec<Node>,
        f: usize,
        path: &mut Vec<String>,
    ) -> (r: Result<Resolve, ResolveError>)
        ensures
            r == fact_outcome(old(facts)@, old(nodes)@, f as int).0,
            final(facts)@ == fact_outcome(old(facts)@, old(nodes)@, f as int).1,
            final(nodes)@ == old(nodes)@,
            same_shape(old(facts)@, final(facts)@),
            keeps_prefix(old(path)@, final(path)@),
        decreases unmarked(old(nodes)@), 1int, (if (f as int) < old(facts)@.len() {
            old(facts)@[f as int].rules.len() as int
        } else {
            0
        }) + 1,
    {
        if f >= facts.len() {
            return Err(ResolveError::EmptyNode);
        }
        let repr = facts[f].repr;
        if facts[f].resolved || facts[f].rules.len() == 0 {
            let v = facts[f].value;
            path.push(status_line(repr, v));
            return Ok(v);
        }
        let ghost fs0 = facts@;
        let ghost ns0 = nodes@;
        let ghost path0 = path@;
        let len = facts[f].rules.len();
        let mut best: Option<Resolve> = None;
        let mut i: usize = 0;
        while i < len
            invariant
                i <= len,
                fs0 == old(facts)@,
                ns0 == old(nodes)@,
                path0 == old(path)@,
                (f as int) < fs0.len(),
                len == fs0[f as int].rules.len(),
                repr == fs0[f as int].repr,
                same_shape(fs0, facts@),
                nodes@ == ns0,
                keeps_prefix(path0, path@),
                rules_outcome(facts@, ns0, f as int, i as int, len as int, best) == fact_outcome(
                    fs0,
                    ns0,
                    f as int,
                ),
            decreases len - i,
        {
            assert(facts@[f as int].rules@ == fs0[f as int].rules@);
            let r = facts[f].rules[i];
            if r < nodes.len() && nodes[r].visited && i + 1 != len {
                i = i + 1;
                continue;
            }
            let res = Node::resolve(facts, nodes, r, repr, path);
            match res {
                Ok(v) => {
                    if v.is_true() {
                        facts[f].set(Resolve::True);
                        path.push(status_line(repr, Resolve::True));
                        return Ok(Resolve::True);
                    }
                    best = Some(prefer_exec(best, v));
                },
                Err(e) => {
                    if e == ResolveError::InfiniteRule && r < nodes.len() && nodes[r].operator_eq(
                        &Operator::IfAndOnlyIf,
                    ) {
                        best = Some(prefer_exec(best, Resolve::False));
                    } else {
                        return Err(e);
                    }
                },
            }
            i = i + 1;
        }
        let answer = match best {
            Some(b) => b,
            None => facts[f].value,
        };
        path.push(status_line(repr, answer));
        Ok(answer)
    }
}

impl Node {
    pub open spec fn empty() -> Node {
        Node { visited: false, fact: None, left: None, right: None, operator: None }
    }

    pub fn new() -> (r: Node)
        ensures
            r == Node::empty(),
    {
        Node { visited: false, fact: None, left: None, right: None, operator: None }
    }

    pub fn operator(operator: Operator) -> (r: Node)
        ensures
            r == (Node { operator: Some(operator), ..Node::empty() }),
    {
        Node { visited: false, fact: None, left: None, right: None, operator: Some(operator) }
    }

    pub open spec fn operator_of(c: char) -> Option<Operator> {
        if c == '+' {
            Some(Operator::And)
        } else if c == '|' {
            Some(Operator::Or)
        } else if c == '^' {
            Some(Operator::Xor)
        } else {
            None
        }
    }

    /// The connective that an infix character stands for.
    pub fn match_operator(op: char) -> (r: Option<Operator>)
        ensures
            r == Node::operator_of(op),
    {
        if op == '+' {
            Some(Operator::And)
        } else if op == '|' {
            Some(Operator::Or)
        } else if op == '^' {
            Some(Operator::Xor)
        } else {
            None
        }
    }

    pub fn has_fact(&self) -> (r: bool)
        ensures
            r == self.fact is Some,
    {
        self.fact.is_some()
    }

    pub fn has_left(&self) -> (r: bool)
        ensures
            r == self.left is Some,
    {
        self.left.is_some()
    }

    pub fn has_right(&self) -> (r: bool)
        ensures
            r == self.right is Some,
    {
        self.right.is_some()
    }

    pub fn has_operator(&self) -> (r: bool)
        ensures
            r == self.operator is Some,
    {
        self.operator.is_some()
    }

    pub fn operator_eq(&self, op: &Operator) -> (r: bool)
        ensures
            r == (self.operator == Some(*op)),
    {
        match self.operator {
            Some(current) => current == *op,
            None => false,
        }
    }

    /// The text of the subtree at `n`, as `render` gives it.
    pub fn describe(facts: &Vec<Fact>, nodes: &Vec<Node>, n: usize) -> (r: String)
        ensures
            r@ == render(facts@, nodes@, n as int),
        decreases n,
    {
        let mut out = String::new();
        if n >= nodes.len() {
            return out;
        }
        let node = nodes[n];
        if let Some(f) = node.fact {
            if node.operator_eq(&Operator::Not) {
                out.append("!");
            }
            if f < facts.len() {
                out.append(char_text(facts[f].repr).as_str());
            } else {
                out.append("?");
            }
            proof {
                reveal_strlit("!");
                reveal_strlit("?");
            }
            assert(out@ =~= render(facts@, nodes@, n as int));
            return out;
        }
        if node.operator_eq(&Operator::Not) {
            out.append("!");
            proof {
                reveal_strlit("!");
            }
            if let Some(l) = node.left {
                if l < n {
                    out.append(Node::describe(facts, nodes, l).as_str());
                }
            }
            assert(out@ =~= render(facts@, nodes@, n as int));
            return out;
        }
        if let (Some(op), Some(l), Some(r)) = (node.operator, node.left, node.right) {
            if l < n && r < n {
                let a = Node::describe(facts, nodes, l);
                let b = Node::describe(facts, nodes, r);
                match op {
                    Operator::Implies => {
                        out.append(a.as_str());
                        out.append(" => ");
                        out.append(b.as_str());
                        proof {
                            reveal_strlit(" => ");
                        }
                    },
                    Operator::IfAndOnlyIf => {
                        out.append(a.as_str());
                        out.append(" <=> ");
                        out.append(b.as_str());
                        proof {
                            reveal_strlit(" <=> ");
                        }
                    },
                    _ => {
                        let sep = if op == Operator::And {
                            " + "
                        } else if op == Operator::Or {
                            " | "
                        } else {
                            " ^ "
                        };
                        proof {
                            reveal_strlit(" + ");
                            reveal_strlit(" | ");
                            reveal_strlit(" ^ ");
                            reveal_strlit("(");
                            reveal_strlit(")");
                        }
                        out.append("(");
                        out.append(a.as_str());
                        out.append(sep);
                        out.append(b.as_str());
                        out.append(")");
                    },
                }
                assert(out@ =~= render(facts@, nodes@, n as int));
                return out;
            }
        }
        if node.operator.is_none() {
            if let Some(l) = node.left {
                if l < n {
                    return Node::describe(facts, nodes, l);
                }
            }
        }
        assert(out@ =~= render(facts@, nodes@, n as int));
        out
    }

    /// Clears the marks of the subtree at `n`.
    pub fn cleanup(nodes: &mut Vec<Node>, n: usize)
        ensures
            final(nodes)@.len() == old(nodes)@.len(),
            forall|k: int| 0 <= k < old(nodes)@.len() ==> #[trigger] final(nodes)@[k] == if in_subtree(old(nodes)@, n as int, k) {
                cleared(old(nodes)@[k])
            } else {
                old(nodes)@[k]
            },
        decreases n,
    {
        if n >= nodes.len() {
            return;
        }
        let ghost ns0 = nodes@;
        nodes[n].visited = false;
        let ghost ns1 = nodes@;
        let node = nodes[n];
        assert(same_links(ns0, ns1));
        if let Some(l) = node.left {
            if l < n {
                Node::cleanup(nodes, l);
            }
        }
        let ghost ns2 = nodes@;
        assert(same_links(ns0, ns2));
        if let Some(r) = node.right {
            if r < n {
                Node::cleanup(nodes, r);
            }
        }
        proof {
            assert forall|k: int| 0 <= k < ns0.len() implies #[trigger] nodes@[k] == if in_subtree(ns0, n as int, k) {
                cleared(ns0[k])
            } else {
                ns0[k]
            } by {
                if below(node.left, n as int) {
                    lemma_subtree_links(ns0, ns1, node.left.unwrap() as int, k);
                }
                if below(node.right, n as int) {
                    lemma_subtree_links(ns0, ns2, node.right.unwrap() as int, k);
                }
            }
        }
    }

    /// Propagates `result` into the conclusion subtree at `n`, appending the
    /// facts it assigns to `facts` and returning the subtree's truth.
    pub fn resolve_conclusion(
        nodes: &Vec<Node>,
        n: usize,
        result: Resolve,
        facts: &mut Vec<usize>,
    ) -> (r: Result<Resolve, ResolveError>)
        ensures
            match conclusion_outcome(nodes@, n as int, result) {
                Ok((v, col)) => r == Ok::<Resolve, ResolveError>(v) && final(facts)@ == old(facts)@
                    + col,
                Err(e) => r == Err::<Resolve, ResolveError>(e),
            },
        decreases n,
    {
        if n >= nodes.len() {
            return Err(ResolveError::EmptyNode);
        }
        let node = nodes[n];
        if let Some(f) = node.fact {
            facts.push(f);
            assert(facts@ =~= old(facts)@ + seq![f]);
            if node.operator_eq(&Operator::Not) {
                return Ok(result.not());
            }
            return Ok(result);
        }
        match node.operator {
            Some(Operator::Not) => {
                if let Some(l) = node.left {
                    if l < n {
                        return match Node::resolve_conclusion(nodes, l, result, facts) {
                            Ok(v) => Ok(v.not()),
                            Err(e) => Err(e),
                        };
                    }
                }
                Err(ResolveError::EmptyNode)
            },
            Some(Operator::Implies) => Err(ResolveError::DisallowedInConclusion),
            Some(Operator::IfAndOnlyIf) => Err(ResolveError::DisallowedInConclusion),
            Some(op) => {
                if let (Some(l), Some(r)) = (node.left, node.right) {
                    if l < n && r < n {
                        let inner = if op == Operator::And {
                            result
                        } else {
                            Resolve::Ambiguous
                        };
                        let ghost before = facts@;
                        match Node::resolve_conclusion(nodes, l, inner, facts) {
                            Err(e) => {
                                return Err(e);
                            },
                            Ok(_) => {},
                        }
                        match Node::resolve_conclusion(nodes, r, inner, facts) {
                            Err(e) => {
                                return Err(e);
                            },
                            Ok(_) => {},
                        }
                        proof {
                            let a = conclusion_outcome(nodes@, l as int, inner)->Ok_0.1;
                            let b = conclusion_outcome(nodes@, r as int, inner)->Ok_0.1;
                            assert(facts@ =~= before + (a + b));
                        }
                        return Ok(inner);
                    }
                }
                Err(ResolveError::EmptyNode)
            },
            None => {
                if let Some(l) = node.left {
                    if l < n {
                        return Node::resolve_conclusion(nodes, l, result, facts);
                    }
                }
                Err(ResolveError::EmptyNode)
            },
        }
    }

    /// Whether the subtree at `n` holds a leaf for the atom `fact`.
    pub fn contains_fact(facts: &Vec<Fact>, nodes: &Vec<Node>, n: usize, fact: char) -> (r: bool)
        ensures
            r == mentions(facts@, nodes@, n as int, fact),
        decreases n,
    {
        if n >= nodes.len() {
            return false;
        }
        let node = nodes[n];
        if let Some(f) = node.fact {
            if f < facts.len() && facts[f].repr == fact {
                return true;
            }
        }
        if let Some(l) = node.left {
            if l < n && Node::contains_fact(facts, nodes, l, fact) {
                return true;
            }
        }
        if let Some(r) = node.right {
            if r < n && Node::contains_fact(facts, nodes, r, fact) {
                return true;
            }
        }
        false
    }

    /// The facts named in the subtree at `n`, in tree order.
    pub fn all_facts(nodes: &Vec<Node>, n: usize) -> (r: Vec<usize>)
        ensures
            r@ == facts_of(nodes@, n as int),
        decreases n,
    {
        let mut out: Vec<usize> = Vec::new();
        if n >= nodes.len() {
            return out;
        }
        let node = nodes[n];
        if let Some(f) = node.fact {
            out.push(f);
        }
        if let Some(l) = node.left {
            if l < n {
                let mut part = Node::all_facts(nodes, l);
                out.append(&mut part);
            }
        }
        if let Some(r) = node.right {
            if r < n {
                let mut part = Node::all_facts(nodes, r);
                out.append(&mut part);
            }
        }
        proof {
            let node = nodes@[n as int];
            let own = if node.fact is Some {
                seq![node.fact.unwrap()]
            } else {
                Seq::<usize>::empty()
            };
            assert(own == Seq::<usize>::empty() + own);
        }
        assert(out@ =~= facts_of(nodes@, n as int));
        out
    }

    /// Resolves the node `n` on behalf of the query `for_query`. The node is
    /// marked while it is being resolved and unmarked on every way out, so a
    /// node met again on the way is reported as `InfiniteRule`.
    pub fn resolve(
        facts: &mut Vec<Fact>,
        nodes: &mut Vec<Node>,
        n: usize,
        for_query: char,
        path: &mut Vec<String>,
    ) -> (r: Result<Resolve, ResolveError>)
        ensures
            r == node_outcome(old(facts)@, old(nodes)@, n as int, for_query).0,
            final(facts)@ == node_outcome(old(facts)@, old(nodes)@, n as int, for_query).1,
            final(nodes)@ == old(nodes)@,
            same_shape(old(facts)@, final(facts)@),
            keeps_prefix(old(path)@, final(path)@),
            (n as int) >= old(nodes)@.len() || old(nodes)@[n as int].visited ==> final(path)@ == old(
                path,
            )@,
        decreases unmarked(old(nodes)@), 0int, 0int,
    {
        if n >= nodes.len() {
            return Err(ResolveError::EmptyNode);
        }
        if nodes[n].visited {
            return Err(ResolveError::InfiniteRule);
        }
        let ghost ns0 = nodes@;
        proof {
            lemma_mark_decreases(ns0, n as int);
        }
        nodes[n].visited = true;
        assert(nodes@ =~= with_mark(ns0, n as int, true));
        let res = Node::resolve_marked(facts, nodes, n, for_query, path);
        nodes[n].visited = false;
        assert(nodes@ =~= ns0);
        res
    }

    /// The work of `resolve` once node `n` is marked.
    fn resolve_marked(
        facts: &mut Vec<Fact>,
        nodes: &mut Vec<Node>,
        n: usize,
        for_query: char,
        path: &mut Vec<String>,
    ) -> (r: Result<Resolve, ResolveError>)
        requires
            (n as int) < old(nodes)@.len(),
            old(nodes)@[n as int].visited,
        ensures
            r == node_outcome(old(facts)@, with_mark(old(nodes)@, n as int, false), n as int, for_query).0,
            final(facts)@ == node_outcome(
                old(facts)@,
                with_mark(old(nodes)@, n as int, false),
                n as int,
                for_query,
            ).1,
            final(nodes)@ == old(nodes)@,
            same_shape(old(facts)@, final(facts)@),
            keeps_prefix(old(path)@, final(path)@),
        decreases unmarked(old(nodes)@), 2int, 0int,
    {
        let ghost m = nodes@;
        proof {
            assert(with_mark(with_mark(m, n as int, false), n as int, true) =~= m);
        }
        let node = nodes[n];
        if let Some(f) = node.fact {
            let res = Fact::resolve(facts, nodes, f, path);
            return match res {
                Ok(v) => if node.operator_eq(&Operator::Not) {
                    Ok(v.not())
                } else {
                    Ok(v)
                },
                Err(e) => Err(e),
            };
        }
        let op = match node.operator {
            None => {
                return match node.left {
                    Some(l) => Node::resolve(facts, nodes, l, for_query, path),
                    None => Err(ResolveError::EmptyNode),
                };
            },
            Some(op) => op,
        };
        let l = match node.left {
            Some(l) => l,
            None => {
                return Err(ResolveError::EmptyNode);
            },
        };
        if op == Operator::Not {
            path.push(Node::describe(facts, nodes, n));
            return match Node::resolve(facts, nodes, l, for_query, path) {
                Ok(v) => Ok(v.not()),
                Err(e) => Err(e),
            };
        }
        let r = match node.right {
            Some(r) => r,
            None => {
                return Err(ResolveError::EmptyNode);
            },
        };
        path.push(Node::describe(facts, nodes, n));
        if op == Operator::Implies || op == Operator::IfAndOnlyIf {
            let forward = op == Operator::Implies || Node::contains_fact(facts, nodes, r, for_query);
            let premise = if forward {
                l
            } else {
                r
            };
            let target = if forward {
                r
            } else {
                l
            };
            let v = match Node::resolve(facts, nodes, premise, for_query, path) {
                Err(e) => {
                    return Err(e);
                },
                Ok(v) => v,
            };
            if !v.is_true() {
                return Ok(v);
            }
            let mut collected: Vec<usize> = Vec::new();
            let pv = match Node::resolve_conclusion(nodes, target, Resolve::True, &mut collected) {
                Err(e) => {
                    return Err(e);
                },
                Ok(pv) => pv,
            };
            assert(collected@ =~= conclusion_outcome(nodes@, target as int, Resolve::True)->Ok_0.1);
            if op == Operator::Implies {
                conclude(facts, &collected, pv);
                return Ok(pv);
            }
            if pv.is_true() {
                conclude(facts, &collected, Resolve::True);
                return Ok(Resolve::True);
            }
            return Ok(pv);
        }
        let x = match Node::resolve(facts, nodes, l, for_query, path) {
            Err(e) => {
                return Err(e);
            },
            Ok(x) => x,
        };
        let y = match Node::resolve(facts, nodes, r, for_query, path) {
            Err(e) => {
                return Err(e);
            },
            Ok(y) => y,
        };
        Ok(combine_exec(op, x, y))
    }
}

} // verus!
