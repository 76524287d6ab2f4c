//! The grammar of a rule block, stated over characters.
//!
//! `block := term (binop term)*`, `term := ATOM | "!" term | "(" block ")"`,
//! with `+` binding tighter than `|`, and `|` tighter than `^`; each infix
//! operator associates to the left. A block is read by splitting it at the last
//! operator of the loosest level that stands outside every parenthesis.

use vstd::prelude::*;
use crate::node::{below, Fact, Node, Operator};
use crate::text::is_atom;

verus! {

/// A parsed block.
pub enum Expr {
    Atom(char),
    Not(Box<Expr>),
    Bin(Operator, Box<Expr>, Box<Expr>),
}


/// The tree at node `n` is the expression `e`: leaves name facts whose atom is
/// the expression's atom, and each connective has the children it needs.
pub open spec fn denotes(fs: Seq<Fact>, ns: Seq<Node>, n: int, e: Expr) -> bool
    decreases e,
{
    &&& 0 <= n < ns.len()
    &&& !ns[n].visited
    &&& match e {
        Expr::Atom(c) => {
            &&& ns[n].operator is None
            &&& ns[n].left is None
            &&& ns[n].right is None
            &&& ns[n].fact is Some
            &&& (ns[n].fact.unwrap() as int) < fs.len()
            &&& fs[ns[n].fact.unwrap() as int].repr == c
        },
        Expr::Not(x) => {
            &&& ns[n].operator == Some(Operator::Not)
            &&& ns[n].fact is None
            &&& ns[n].right is None
            &&& below(ns[n].left, n)
            &&& denotes(fs, ns, ns[n].left.unwrap() as int, *x)
        },
        Expr::Bin(op, a, b) => {
            &&& ns[n].operator == Some(op)
            &&& ns[n].fact is None
            &&& below(ns[n].left, n)
            &&& below(ns[n].right, n)
            &&& denotes(fs, ns, ns[n].left.unwrap() as int, *a)
            &&& denotes(fs, ns, ns[n].right.unwrap() as int, *b)
        },
    }
}

/// Nodes and facts appended after a tree was built leave it as it was.
pub proof fn lemma_denotes_frame(
    fs: Seq<Fact>,
    ns: Seq<Node>,
    fs2: Seq<Fact>,
    ns2: Seq<Node>,
    n: int,
    e: Expr,
)
    requires
        denotes(fs, ns, n, e),
        ns.len() <= ns2.len(),
        forall|i: int| 0 <= i < ns.len() ==> #[trigger] ns2[i] == ns[i],
        fs.len() <= fs2.len(),
        forall|i: int| 0 <= i < fs.len() ==> #[trigger] fs2[i].repr == fs[i].repr,
    ensures
        denotes(fs2, ns2, n, e),
    decreases e,
{
    match e {
        Expr::Atom(c) => {
            assert(fs2[ns[n].fact.unwrap() as int].repr == c);
        },
        Expr::Not(x) => {
            lemma_denotes_frame(fs, ns, fs2, ns2, ns[n].left.unwrap() as int, *x);
        },
        Expr::Bin(op, a, b) => {
            lemma_denotes_frame(fs, ns, fs2, ns2, ns[n].left.unwrap() as int, *a);
            lemma_denotes_frame(fs, ns, fs2, ns2, ns[n].right.unwrap() as int, *b);
        },
    }
}

/// Open parentheses minus closed ones among the first `k` characters.
pub open spec fn depth(s: Seq<char>, k: int) -> int
    decreases k,
{
    if k <= 0 {
        0
    } else {
        depth(s, k - 1) + (if s[k - 1] == '(' {
            1int
        } else if s[k - 1] == ')' {
            -1int
        } else {
            0int
        })
    }
}

/// Every prefix closes no more parentheses than it opens, and the whole closes them all.
pub open spec fn balanced(s: Seq<char>) -> bool {
    &&& forall|k: int| 0 <= k <= s.len() ==> #[trigger] depth(s, k) >= 0
    &&& depth(s, s.len() as int) == 0
}

/// The last position before `k` where `c` stands outside every parenthesis, or -1.
pub open spec fn last_top(s: Seq<char>, c: char, k: int) -> int
    decreases k,
{
    if k <= 0 {
        -1
    } else if s[k - 1] == c && depth(s, k - 1) == 0 {
        k - 1
    } else {
        last_top(s, c, k - 1)
    }
}

pub proof fn lemma_last_top_range(s: Seq<char>, c: char, k: int)
    ensures
        -1 <= last_top(s, c, k) < if k <= 0 {
            0
        } else {
            k
        },
        last_top(s, c, k) >= 0 ==> s[last_top(s, c, k)] == c,
    decreases k,
{
    if k > 0 {
        lemma_last_top_range(s, c, k - 1);
    }
}

/// The infix character of a precedence level (3 loosest, 1 tightest).
pub open spec fn level_char(level: nat) -> char {
    if level == 3 {
        '^'
    } else if level == 2 {
        '|'
    } else {
        '+'
    }
}

pub open spec fn level_op(level: nat) -> Operator {
    if level == 3 {
        Operator::Xor
    } else if level == 2 {
        Operator::Or
    } else {
        Operator::And
    }
}

/// The expression that `s` reads as at a precedence level: 3 for a whole block,
/// 0 for a single term; `None` where `s` is not in the grammar.
pub open spec fn parse_expr(s: Seq<char>, level: nat) -> Option<Expr>
    decreases s.len(), level,
{
    if level == 0 {
        if s.len() == 0 {
            None
        } else if s[0] == '!' {
            match parse_expr(s.subrange(1, s.len() as int), 0) {
                Some(e) => Some(Expr::Not(Box::new(e))),
                None => None,
            }
        } else if s[0] == '(' && s.len() >= 2 && s.last() == ')' && balanced(
            s.subrange(1, s.len() - 1),
        ) {
            parse_expr(s.subrange(1, s.len() - 1), 3)
        } else if s.len() == 1 && is_atom(s[0]) {
            Some(Expr::Atom(s[0]))
        } else {
            None
        }
    } else {
        let k = last_top(s, level_char(level), s.len() as int);
        proof {
            lemma_last_top_range(s, level_char(level), s.len() as int);
        }
        if k >= 0 {
            match (
                parse_expr(s.subrange(0, k), level),
                parse_expr(s.subrange(k + 1, s.len() as int), (level - 1) as nat),
            ) {
                (Some(a), Some(b)) => Some(Expr::Bin(level_op(level), Box::new(a), Box::new(b))),
                _ => None,
            }
        } else {
            parse_expr(s, (level - 1) as nat)
        }
    }
}

/// The characters a block may hold.
pub open spec fn is_block_char(c: char) -> bool {
    is_atom(c) || c == '!' || c == '+' || c == '|' || c == '^' || c == '(' || c == ')'
}

pub fn block_char_check(c: char) -> (r: bool)
    ensures
        r == is_block_char(c),
{
    ('A' <= c && c <= 'Z') || c == '!' || c == '+' || c == '|' || c == '^' || c == '(' || c == ')'
}

/// The position of the last `c` in `s[lo..hi]` outside every parenthesis.
pub fn find_last_top(s: &Vec<char>, lo: usize, hi: usize, c: char) -> (r: Option<usize>)
    requires
        lo <= hi <= s@.len(),
    ensures
        ({
            let t = s@.subrange(lo as int, hi as int);
            let j = last_top(t, c, t.len() as int);
            if j >= 0 {
                r == Some((lo + j) as usize)
            } else {
                r is None
            }
        }),
{
    let ghost t = s@.subrange(lo as int, hi as int);
    let mut open: usize = 0;
    let mut close: usize = 0;
    let mut last: Option<usize> = None;
    let mut i: usize = lo;
    while i < hi
        invariant
            lo <= i <= hi <= s@.len(),
            t == s@.subrange(lo as int, hi as int),
            open + close <= i - lo,
            open - close == depth(t, i - lo),
            ({
                let j = last_top(t, c, i - lo);
                if j >= 0 {
                    last == Some((lo + j) as usize)
                } else {
                    last is None
                }
            }),
        decreases hi - i,
    {
        let x = s[i];
        assert(t[i - lo] == x);
        if x == c && open == close {
            last = Some(i);
        }
        if x == '(' {
            open = open + 1;
        } else if x == ')' {
            close = close + 1;
        }
        i = i + 1;
    }
    last
}

/// Whether `s[lo..hi]` is balanced.
pub fn is_balanced(s: &Vec<char>, lo: usize, hi: usize) -> (r: bool)
    requires
        lo <= hi <= s@.len(),
    ensures
        r == balanced(s@.subrange(lo as int, hi as int)),
{
    let ghost t = s@.subrange(lo as int, hi as int);
    let mut open: usize = 0;
    let mut close: usize = 0;
    let mut i: usize = lo;
    while i < hi
        invariant
            lo <= i <= hi <= s@.len(),
            t == s@.subrange(lo as int, hi as int),
            open + close <= i - lo,
            open - close == depth(t, i - lo),
            forall|k: int| 0 <= k <= i - lo ==> #[trigger] depth(t, k) >= 0,
        decreases hi - i,
    {
        let x = s[i];
        assert(t[i - lo] == x);
        if x == '(' {
            open = open + 1;
        } else if x == ')' {
            if close >= open {
                assert(depth(t, i - lo + 1) < 0);
                return false;
            }
            close = close + 1;
        }
        i = i + 1;
        assert(depth(t, i - lo) >= 0);
    }
    open == close
}

} // verus!
