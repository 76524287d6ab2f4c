//! Properties that relate several operations of the engine.

use vstd::prelude::*;
use crate::grammar::{depth, last_top, lemma_last_top_range, level_char, level_op, parse_expr, Expr};
use crate::input::{fact_index, is_rule_root, node_wf, query_outcome, reset_facts, Input};
use crate::node::{
    combine, conclude_all, conclusion_outcome, fact_outcome, lemma_mark_decreases, mentions, node_outcome,
    rules_outcome, same_shape, unmarked, with_mark, with_truth, Fact, Node, Operator, Resolve,
    ResolveError,
};

verus! {

pub proof fn lemma_conclude_all_shape(fs: Seq<Fact>, col: Seq<usize>, res: Resolve)
    ensures
        same_shape(fs, conclude_all(fs, col, res)),
    decreases col.len(),
{
    if col.len() > 0 {
        lemma_conclude_all_shape(fs, col.drop_last(), res);
    }
}

/// Resolving a fact changes facts' states only: every atom and rule list stays.
pub proof fn lemma_fact_outcome_shape(fs: Seq<Fact>, ns: Seq<Node>, f: int)
    ensures
        same_shape(fs, fact_outcome(fs, ns, f).1),
    decreases unmarked(ns), 1int, (if 0 <= f < fs.len() {
        fs[f].rules.len() as int
    } else {
        0
    }) + 1,
{
    if 0 <= f < fs.len() && !(fs[f].resolved || fs[f].rules.len() == 0) {
        lemma_rules_outcome_shape(fs, ns, f, 0, fs[f].rules.len() as int, None);
    }
}

pub proof fn lemma_rules_outcome_shape(
    fs: Seq<Fact>,
    ns: Seq<Node>,
    f: int,
    i: int,
    len: int,
    best: Option<Resolve>,
)
    ensures
        same_shape(fs, rules_outcome(fs, ns, f, i, len, best).1),
    decreases unmarked(ns), 1int, len - i,
{
    if 0 <= f < fs.len() && 0 <= i < len && i < fs[f].rules.len() {
        let r = fs[f].rules[i] as int;
        if 0 <= r < ns.len() && ns[r].visited && i + 1 != len {
            lemma_rules_outcome_shape(fs, ns, f, i + 1, len, best);
        } else {
            lemma_node_outcome_shape(fs, ns, r, fs[f].repr);
            let (res, fs2) = node_outcome(fs, ns, r, fs[f].repr);
            if res is Ok && res.unwrap() != Resolve::True {
                lemma_rules_outcome_shape(
                    fs2,
                    ns,
                    f,
                    i + 1,
                    len,
                    Some(crate::node::prefer(best, res.unwrap())),
                );
            } else if res is Err {
                lemma_rules_outcome_shape(
                    fs2,
                    ns,
                    f,
                    i + 1,
                    len,
                    Some(crate::node::prefer(best, Resolve::False)),
                );
            }
        }
    }
}

pub proof fn lemma_node_outcome_shape(fs: Seq<Fact>, ns: Seq<Node>, n: int, q: char)
    ensures
        same_shape(fs, node_outcome(fs, ns, n, q).1),
    decreases unmarked(ns), 0int, 0int,
{
    if 0 <= n < ns.len() && !ns[n].visited {
        lemma_mark_decreases(ns, n);
        let m = with_mark(ns, n, true);
        let node = ns[n];
        if node.fact is Some {
            lemma_fact_outcome_shape(fs, m, node.fact.unwrap() as int);
        } else if node.operator is None {
            if node.left is Some {
                lemma_node_outcome_shape(fs, m, node.left.unwrap() as int, q);
            }
        } else if !(node.left is None || (node.right is None && node.operator != Some(
            Operator::Not,
        ))) {
            let op = node.operator.unwrap();
            let l = node.left.unwrap() as int;
            let r = node.right.unwrap() as int;
            if op == Operator::Not {
                lemma_node_outcome_shape(fs, m, l, q);
            } else if op == Operator::Implies || op == Operator::IfAndOnlyIf {
                let forward = op == Operator::Implies || mentions(fs, m, r, q);
                let premise = if forward {
                    l
                } else {
                    r
                };
                let target = if forward {
                    r
                } else {
                    l
                };
                lemma_node_outcome_shape(fs, m, premise, q);
                let fs2 = node_outcome(fs, m, premise, q).1;
                match conclusion_outcome(m, target, Resolve::True) {
                    Ok((pv, col)) => {
                        lemma_conclude_all_shape(fs2, col, pv);
                        lemma_conclude_all_shape(fs2, col, Resolve::True);
                    },
                    Err(_) => {},
                }
            } else {
                lemma_node_outcome_shape(fs, m, l, q);
                let fs2 = node_outcome(fs, m, l, q).1;
                lemma_node_outcome_shape(fs2, m, r, q);
            }
        }
    }
}

/// A reset forgets everything a resolution did: resetting and resolving a
/// query gives the same answer, and the same facts, whether or not the same
/// query was resolved after an earlier reset.
pub proof fn lemma_reset_resolve_idempotent(fs: Seq<Fact>, ns: Seq<Node>, init: Seq<char>, q: char)
    ensures
        ({
            let first = query_outcome(reset_facts(fs, init), ns, q);
            query_outcome(reset_facts(first.1, init), ns, q) == first
        }),
{
    let fs1 = reset_facts(fs, init);
    let fs2 = query_outcome(fs1, ns, q).1;
    match fact_index(fs1, q) {
        Some(f) => {
            lemma_fact_outcome_shape(fs1, ns, f);
        },
        None => {},
    }
    assert(same_shape(fs1, fs2));
    assert(reset_facts(fs2, init) =~= fs1);
}

/// The value of a premise expression when each atom has the value `val` gives
/// it (Kleene's three-valued tables).
pub open spec fn kleene(e: Expr, val: spec_fn(char) -> Resolve) -> Resolve
    decreases e,
{
    match e {
        Expr::Atom(c) => val(c),
        Expr::Not(x) => kleene(*x, val).negated(),
        Expr::Bin(op, a, b) => combine(op, kleene(*a, val), kleene(*b, val)),
    }
}

/// Two expressions with the same value under every valuation.
pub open spec fn same_truth(a: Expr, b: Expr) -> bool {
    forall|val: spec_fn(char) -> Resolve| #[trigger] kleene(a, val) == kleene(b, val)
}

pub open spec fn bangs() -> Seq<char> {
    seq!['!', '!']
}

proof fn lemma_depth_shift(s: Seq<char>, j: int)
    requires
        0 <= j <= s.len(),
    ensures
        depth(bangs() + s, j + 2) == depth(s, j),
    decreases j,
{
    let t = bangs() + s;
    if j == 0 {
        assert(depth(t, 2) == depth(t, 1));
        assert(depth(t, 1) == depth(t, 0));
    } else {
        lemma_depth_shift(s, j - 1);
        assert(t[j + 1] == s[j - 1]);
    }
}

proof fn lemma_last_top_shift(s: Seq<char>, c: char, j: int)
    requires
        0 <= j <= s.len(),
        c != '!',
    ensures
        last_top(bangs() + s, c, j + 2) == if last_top(s, c, j) >= 0 {
            last_top(s, c, j) + 2
        } else {
            -1
        },
    decreases j,
{
    let t = bangs() + s;
    if j == 0 {
        assert(t[1] == '!' && t[0] == '!');
        assert(last_top(t, c, 2) == last_top(t, c, 1));
        assert(last_top(t, c, 1) == last_top(t, c, 0));
    } else {
        lemma_last_top_shift(s, c, j - 1);
        lemma_depth_shift(s, j - 1);
        assert(t[j + 1] == s[j - 1]);
    }
}

proof fn lemma_double_negation_level(s: Seq<char>, level: nat)
    requires
        level <= 3,
        parse_expr(s, level) is Some,
    ensures
        parse_expr(bangs() + s, level) is Some,
        same_truth(parse_expr(bangs() + s, level).unwrap(), parse_expr(s, level).unwrap()),
    decreases s.len(), level,
{
    let t = bangs() + s;
    if level == 0 {
        let u = t.subrange(1, t.len() as int);
        assert(u.subrange(1, u.len() as int) =~= s);
        assert(u[0] == '!');
        let e = parse_expr(s, 0).unwrap();
        assert(parse_expr(u, 0) == Some(Expr::Not(Box::new(e))));
        assert(parse_expr(t, 0) == Some(Expr::Not(Box::new(Expr::Not(Box::new(e))))));
        assert forall|val: spec_fn(char) -> Resolve| #[trigger] kleene(parse_expr(t, 0).unwrap(), val) == kleene(e, val) by {
            let one = Expr::Not(Box::new(e));
            assert(kleene(Expr::Not(Box::new(one)), val) == kleene(one, val).negated());
            assert(kleene(one, val) == kleene(e, val).negated());
            crate::node::lemma_double_negation(kleene(e, val));
        }
    } else {
        let c = level_char(level);
        lemma_last_top_shift(s, c, s.len() as int);
        lemma_last_top_range(s, c, s.len() as int);
        let k = last_top(s, c, s.len() as int);
        assert(t.len() == s.len() + 2);
        if k >= 0 {
            assert(t.subrange(0, k + 2) =~= bangs() + s.subrange(0, k));
            assert(t.subrange(k + 3, t.len() as int) =~= s.subrange(k + 1, s.len() as int));
            lemma_double_negation_level(s.subrange(0, k), level);
            let a2 = parse_expr(t.subrange(0, k + 2), level).unwrap();
            let a = parse_expr(s.subrange(0, k), level).unwrap();
            let b = parse_expr(s.subrange(k + 1, s.len() as int), (level - 1) as nat).unwrap();
            assert(parse_expr(t, level) == Some(Expr::Bin(level_op(level), Box::new(a2), Box::new(b))));
            assert forall|val: spec_fn(char) -> Resolve| #[trigger] kleene(parse_expr(t, level).unwrap(), val) == kleene(parse_expr(s, level).unwrap(), val) by {
                assert(kleene(a2, val) == kleene(a, val));
            }
        } else {
            lemma_double_negation_level(s, (level - 1) as nat);
        }
    }
}

/// Negation law: a block `B` that the grammar accepts stays accepted with
/// `!!` in front, and `!!B` has the value of `B` under every valuation.
pub proof fn lemma_double_negation_block(b: Seq<char>)
    requires
        parse_expr(b, 3) is Some,
    ensures
        parse_expr(bangs() + b, 3) is Some,
        same_truth(parse_expr(bangs() + b, 3).unwrap(), parse_expr(b, 3).unwrap()),
{
    lemma_double_negation_level(b, 3);
}

/// One fact per atom: two leaves whose facts carry the same atom name the same fact.
pub proof fn lemma_one_fact_per_atom(input: Input, i: int, j: int)
    requires
        input.wf(),
        0 <= i < input.nodes@.len(),
        0 <= j < input.nodes@.len(),
        input.nodes@[i].fact is Some,
        input.nodes@[j].fact is Some,
        input.facts@[input.nodes@[i].fact.unwrap() as int].repr == input.facts@[input.nodes@[j].fact.unwrap() as int].repr,
    ensures
        input.nodes@[i].fact == input.nodes@[j].fact,
{
    assert(node_wf(input.facts@.len() as int, input.nodes@, i));
    assert(node_wf(input.facts@.len() as int, input.nodes@, j));
    let a = input.nodes@[i].fact.unwrap() as int;
    let b = input.nodes@[j].fact.unwrap() as int;
    if a < b {
        assert(input.facts@[a].repr != input.facts@[b].repr);
    } else if b < a {
        assert(input.facts@[b].repr != input.facts@[a].repr);
    }
}

/// Every rule is an implication or a biconditional with both sides.
pub proof fn lemma_rule_shape(input: Input, k: int)
    requires
        input.wf(),
        0 <= k < input.rules@.len(),
    ensures
        ({
            let nd = input.nodes@[input.rules@[k] as int];
            &&& nd.operator == Some(Operator::Implies) || nd.operator == Some(Operator::IfAndOnlyIf)
            &&& nd.left is Some
            &&& nd.right is Some
        }),
{
    let r = input.rules@[k] as int;
    assert(is_rule_root(input.nodes@, r));
    assert(node_wf(input.facts@.len() as int, input.nodes@, r));
}

/// Every node with a binary connective has both children, a negation has its
/// operand, and every other node is a leaf naming a fact.
pub proof fn lemma_node_shape(input: Input, n: int)
    requires
        input.wf(),
        0 <= n < input.nodes@.len(),
    ensures
        ({
            let nd = input.nodes@[n];
            &&& nd.operator is Some && nd.operator != Some(Operator::Not) ==> nd.left is Some
                && nd.right is Some
            &&& nd.operator == Some(Operator::Not) ==> nd.left is Some
            &&& nd.operator is None ==> nd.fact is Some && (nd.fact.unwrap() as int) < input.facts@.len()
            &&& !nd.visited
        }),
{
    assert(node_wf(input.facts@.len() as int, input.nodes@, n));
}

} // verus!
