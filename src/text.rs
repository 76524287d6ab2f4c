//! Character classes and string helpers shared by the parsers and the resolver.

use vstd::prelude::*;
use vstd::string::*;

verus! {

/// An atom is a single ASCII uppercase letter.
pub open spec fn is_atom(c: char) -> bool {
    'A' <= c && c <= 'Z'
}

pub fn atom_check(c: char) -> (r: bool)
    ensures
        r == is_atom(c),
{
    'A' <= c && c <= 'Z'
}

/// The characters that Unicode marks as White_Space.
pub open spec fn is_space(c: char) -> bool {
    c == '\t' || c == '\n' || c == '\x0b' || c == '\x0c' || c == '\r' || c == ' '
        || c == '\u{85}' || c == '\u{a0}' || c == '\u{1680}' || ('\u{2000}' <= c && c
        <= '\u{200a}') || c == '\u{2028}' || c == '\u{2029}' || c == '\u{202f}' || c
        == '\u{205f}' || c == '\u{3000}'
}

pub fn space_check(c: char) -> (r: bool)
    ensures
        r == is_space(c),
{
    c == '\t' || c == '\n' || c == '\x0b' || c == '\x0c' || c == '\r' || c == ' '
        || c == '\u{85}' || c == '\u{a0}' || c == '\u{1680}' || ('\u{2000}' <= c && c
        <= '\u{200a}') || c == '\u{2028}' || c == '\u{2029}' || c == '\u{202f}' || c
        == '\u{205f}' || c == '\u{3000}'
}

/// Relies on `char::to_string`: the string that holds exactly this character.
#[verifier::external_body]
pub(crate) fn char_text(c: char) -> (r: String)
    ensures
        r@ == seq![c],
{
    c.to_string()
}

/// The characters of `s`, in order.
pub fn chars_of(s: &str) -> (r: Vec<char>)
    ensures
        r@ == s@,
{
    broadcast use vstd::string::group_string_axioms;
    let mut r: Vec<char> = Vec::new();
    for c in it: s.chars()
        invariant
            r@ == it.seq().take(it.index() as int),
    {
        r.push(c);
    }
    assert(r@ =~= s@);
    r
}

/// `c` followed by `tail`.
pub fn labelled(c: char, tail: &str) -> (r: String)
    ensures
        r@ == seq![c] + tail@,
{
    char_text(c).concat(tail)
}

} // verus!

verus! {

/// The first position at or after `k` where `pat` starts in `s`, or -1.
pub open spec fn first_at(s: Seq<char>, pat: Seq<char>, k: int) -> int
    decreases s.len() + 1 - k,
{
    if k < 0 || k + pat.len() > s.len() {
        -1
    } else if s.subrange(k, k + pat.len()) == pat {
        k
    } else {
        first_at(s, pat, k + 1)
    }
}

pub proof fn lemma_first_at_range(s: Seq<char>, pat: Seq<char>, k: int)
    requires
        k >= 0,
    ensures
        first_at(s, pat, k) == -1 || (k <= first_at(s, pat, k) && first_at(s, pat, k) + pat.len()
            <= s.len()),
    decreases s.len() + 1 - k,
{
    if k + pat.len() <= s.len() && s.subrange(k, k + pat.len()) != pat {
        lemma_first_at_range(s, pat, k + 1);
    }
}

/// Where `pat` first starts in `s`.
pub fn find_first(s: &Vec<char>, pat: &Vec<char>) -> (r: Option<usize>)
    ensures
        match r {
            Some(k) => first_at(s@, pat@, 0) == k as int,
            None => first_at(s@, pat@, 0) == -1,
        },
{
    let n = s.len();
    let m = pat.len();
    if m > n {
        return None;
    }
    let mut k: usize = 0;
    while k <= n - m
        invariant
            n == s@.len(),
            m == pat@.len(),
            m <= n,
            k <= n - m + 1,
            first_at(s@, pat@, 0) == first_at(s@, pat@, k as int),
        decreases n - k,
    {
        let mut j: usize = 0;
        let mut same = true;
        while j < m
            invariant
                n == s@.len(),
                m == pat@.len(),
                k + m <= n,
                j <= m,
                same == (forall|t: int| 0 <= t < j ==> s@[k + t] == pat@[t]),
            decreases m - j,
        {
            if s[k + j] != pat[j] {
                same = false;
            }
            j = j + 1;
        }
        if same {
            assert(s@.subrange(k as int, k + m) =~= pat@);
            return Some(k);
        }
        proof {
            if s@.subrange(k as int, k + m) == pat@ {
                let t = choose|t: int| 0 <= t < m && s@[k + t] != pat@[t];
                assert(s@.subrange(k as int, k + m)[t] == s@[k + t]);
            }
        }
        k = k + 1;
    }
    None
}

/// `s` without its whitespace.
pub open spec fn without_spaces(s: Seq<char>) -> Seq<char>
    decreases s.len(),
{
    if s.len() == 0 {
        s
    } else {
        without_spaces(s.drop_last()) + (if is_space(s.last()) {
            Seq::empty()
        } else {
            seq![s.last()]
        })
    }
}

/// `s[lo..hi]` without its whitespace.
pub fn strip_spaces(s: &Vec<char>, lo: usize, hi: usize) -> (r: Vec<char>)
    requires
        lo <= hi <= s@.len(),
    ensures
        r@ == without_spaces(s@.subrange(lo as int, hi as int)),
{
    let mut r: Vec<char> = Vec::new();
    let mut i: usize = lo;
    while i < hi
        invariant
            lo <= i <= hi <= s@.len(),
            r@ == without_spaces(s@.subrange(lo as int, i as int)),
        decreases hi - i,
    {
        assert(s@.subrange(lo as int, i + 1).drop_last() =~= s@.subrange(lo as int, i as int));
        if !space_check(s[i]) {
            r.push(s[i]);
        }
        i = i + 1;
    }
    r
}

/// Where a `#` comment starts in `s`, or its length.
pub open spec fn comment_start(s: Seq<char>) -> int {
    let k = first_at(s, seq!['#'], 0);
    if k >= 0 {
        k
    } else {
        s.len() as int
    }
}

pub fn find_comment(s: &Vec<char>) -> (r: usize)
    ensures
        r as int == comment_start(s@),
        r <= s@.len(),
{
    let pat = vec!['#'];
    assert(pat@ =~= seq!['#']);
    proof {
        lemma_first_at_range(s@, pat@, 0);
    }
    match find_first(s, &pat) {
        Some(k) => k,
        None => s.len(),
    }
}

/// The string holding `s`.
pub fn text_of(s: &Vec<char>) -> (r: String)
    ensures
        r@ == s@,
{
    let mut r = String::new();
    let mut i: usize = 0;
    while i < s.len()
        invariant
            i <= s@.len(),
            r@ == s@.subrange(0, i as int),
        decreases s@.len() - i,
    {
        let piece = char_text(s[i]);
        r.append(piece.as_str());
        i = i + 1;
        assert(r@ =~= s@.subrange(0, i as int));
    }
    r
}

/// A copy of `s[lo..hi]`.
pub fn sub_chars(s: &Vec<char>, lo: usize, hi: usize) -> (r: Vec<char>)
    requires
        lo <= hi <= s@.len(),
    ensures
        r@ == s@.subrange(lo as int, hi as int),
{
    let mut r: Vec<char> = Vec::new();
    let mut i: usize = lo;
    while i < hi
        invariant
            lo <= i <= hi <= s@.len(),
            r@ == s@.subrange(lo as int, i as int),
        decreases hi - i,
    {
        r.push(s[i]);
        i = i + 1;
        assert(r@ =~= s@.subrange(lo as int, i as int));
    }
    r
}

/// The first position at or after `pos` that holds `c`.
pub fn find_char_from(s: &Vec<char>, pos: usize, c: char) -> (r: Option<usize>)
    requires
        pos <= s@.len(),
    ensures
        ({
            let j = first_at(s@.subrange(pos as int, s@.len() as int), seq![c], 0);
            match r {
                Some(e) => j >= 0 && e == pos + j,
                None => j == -1,
            }
        }),
{
    let ghost t = s@.subrange(pos as int, s@.len() as int);
    let mut i: usize = pos;
    while i < s.len()
        invariant
            pos <= i <= s@.len(),
            t == s@.subrange(pos as int, s@.len() as int),
            first_at(t, seq![c], 0) == first_at(t, seq![c], i - pos),
        decreases s@.len() - i,
    {
        if s[i] == c {
            assert(t.subrange(i - pos, i - pos + 1) =~= seq![c]);
            return Some(i);
        }
        assert(t.subrange(i - pos, i - pos + 1)[0] != seq![c][0]);
        i = i + 1;
    }
    None
}

} // verus!
