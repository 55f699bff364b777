//! Wildcard matching of one path component.
//!
//! A pattern is read as a sequence of tokens: `*` (any run of characters), `?`
//! (any one character), `[abc]` / `[a-b]` / `[!abc]` (a character class),
//! `\c` (the character `c` itself) and any other character (itself). A pattern
//! with an unclosed class or a dangling escape has no token sequence and
//! matches nothing.

use vstd::prelude::*;

use crate::text::chars_of;

verus! {

/// One token of a component pattern.
#[verifier::ext_equal]
pub enum Token {
    /// `*`: any run of characters, the empty one included.
    Star,
    /// `?`: any one character.
    AnyChar,
    /// The given character.
    Char(char),
    /// A character class: the characters in one of `ranges`, or, if `invert`,
    /// those in none of them.
    Class { invert: bool, ranges: Seq<(char, char)> },
}

/// Whether `c` lies in one of `ranges` (bounds included).
pub open spec fn in_ranges(c: char, ranges: Seq<(char, char)>) -> bool {
    exists|k: int| 0 <= k < ranges.len() && (#[trigger] ranges[k]).0 <= c <= ranges[k].1
}

/// Whether the single character `c` is matched by `token`.
pub open spec fn accepts(token: Token, c: char) -> bool {
    match token {
        Token::Star => false,
        Token::AnyChar => true,
        Token::Char(d) => c == d,
        Token::Class { invert, ranges } => in_ranges(c, ranges) != invert,
    }
}

/// The members of the class whose first member stands at `start`, read from
/// `p[i]` on, and the index after the closing `]`; `None` if the class is not
/// closed. A `]` in the first position is a member, and `a-b` is a range
/// unless the `]` follows the `-`.
pub open spec fn class_members(p: Seq<char>, start: int, i: int) -> Option<
    (Seq<(char, char)>, int),
>
    decreases p.len() - i,
{
    if i >= p.len() {
        None
    } else if p[i] == ']' && i > start {
        Some((Seq::empty(), i + 1))
    } else if i + 2 < p.len() && p[i + 1] == '-' && p[i + 2] != ']' {
        match class_members(p, start, i + 3) {
            Some((ranges, end)) => Some((seq![(p[i], p[i + 2])] + ranges, end)),
            None => None,
        }
    } else {
        match class_members(p, start, i + 1) {
            Some((ranges, end)) => Some((seq![(p[i], p[i])] + ranges, end)),
            None => None,
        }
    }
}

/// The class token whose text starts at `p[i]` (just past the `[`), and the
/// index after its closing `]`; `None` if it is not closed.
pub open spec fn class_at(p: Seq<char>, i: int) -> Option<(Token, int)> {
    let invert = i < p.len() && p[i] == '!';
    let start = if invert {
        i + 1
    } else {
        i
    };
    match class_members(p, start, start) {
        Some((ranges, end)) => Some((Token::Class { invert, ranges }, end)),
        None => None,
    }
}

/// The token at `p[i]` and the index after it; `None` if it is malformed.
pub open spec fn token_at(p: Seq<char>, i: int) -> Option<(Token, int)> {
    if p[i] == '*' {
        Some((Token::Star, i + 1))
    } else if p[i] == '?' {
        Some((Token::AnyChar, i + 1))
    } else if p[i] == '[' {
        class_at(p, i + 1)
    } else if p[i] == '\\' {
        if i + 1 < p.len() {
            Some((Token::Char(p[i + 1]), i + 2))
        } else {
            None
        }
    } else {
        Some((Token::Char(p[i]), i + 1))
    }
}

/// The tokens of `p` from index `i` on; `None` if one of them is malformed.
pub open spec fn tokens_from(p: Seq<char>, i: int) -> Option<Seq<Token>>
    decreases p.len() - i,
{
    if i >= p.len() {
        Some(Seq::empty())
    } else {
        match token_at(p, i) {
            Some((token, next)) => if i < next <= p.len() {
                match tokens_from(p, next) {
                    Some(rest) => Some(seq![token] + rest),
                    None => None,
                }
            } else {
                None
            },
            None => None,
        }
    }
}

/// The tokens of the pattern `p`; `None` if it is malformed.
pub open spec fn tokens(p: Seq<char>) -> Option<Seq<Token>> {
    tokens_from(p, 0)
}

/// Whether `toks` matches the whole of `name`: a `*` takes some run of
/// characters, every other token takes one character that it accepts.
pub open spec fn tokens_match(name: Seq<char>, toks: Seq<Token>) -> bool
    decreases toks.len(), name.len(),
{
    if toks.len() == 0 {
        name.len() == 0
    } else if toks[0] is Star {
        // The run is empty, or it takes the first character and goes on.
        tokens_match(name, toks.drop_first()) || (name.len() > 0 && tokens_match(
            name.skip(1),
            toks,
        ))
    } else {
        name.len() > 0 && accepts(toks[0], name[0]) && tokens_match(
            name.skip(1),
            toks.drop_first(),
        )
    }
}

/// Whether the pattern text `p`, read from index `i` on, matches `name`.
pub open spec fn matches_from(name: Seq<char>, p: Seq<char>, i: int) -> bool {
    match tokens_from(p, i) {
        Some(toks) => tokens_match(name, toks),
        None => false,
    }
}

/// Whether the component pattern `p` matches `name`.
pub open spec fn matches_pattern(name: Seq<char>, p: Seq<char>) -> bool {
    matches_from(name, p, 0)
}

/// Reading a class moves forward and stays within the pattern.
pub proof fn lemma_class_members_bound(p: Seq<char>, start: int, i: int)
    requires
        0 <= i,
    ensures
        class_members(p, start, i) matches Some((_, end)) ==> i < end <= p.len(),
    decreases p.len() - i,
{
    if i < p.len() {
        if i + 3 <= p.len() {
            lemma_class_members_bound(p, start, i + 3);
        }
        lemma_class_members_bound(p, start, i + 1);
    }
}

/// Reading a token moves forward and stays within the pattern.
pub proof fn lemma_token_at_bound(p: Seq<char>, i: int)
    requires
        0 <= i < p.len(),
    ensures
        token_at(p, i) matches Some((_, next)) ==> i < next <= p.len(),
{
    lemma_class_members_bound(p, i + 1, i + 1);
    lemma_class_members_bound(p, i + 2, i + 2);
}

/// One token that is not a `*` takes one character.
proof fn lemma_single_step(name: Seq<char>, p: Seq<char>, i: int)
    requires
        0 <= i < p.len(),
        p[i] != '*',
    ensures
        matches_from(name, p, i) == (name.len() > 0 && match token_at(p, i) {
            Some((token, next)) => accepts(token, name[0]) && matches_from(
                name.skip(1),
                p,
                next,
            ),
            None => false,
        }),
{
    lemma_token_at_bound(p, i);
    if let Some((token, next)) = token_at(p, i) {
        if let Some(rest) = tokens_from(p, next) {
            assert((seq![token] + rest).drop_first() =~= rest);
        }
    }
}

/// Whether some end of `name` is matched by `p` from index `i` on.
spec fn some_end_matches(name: Seq<char>, p: Seq<char>, i: int) -> bool {
    exists|k: int| 0 <= k <= name.len() && #[trigger] matches_from(name.skip(k), p, i)
}

/// A `*` is followed by a match of some end of the name.
proof fn lemma_star_step(name: Seq<char>, p: Seq<char>, i: int)
    requires
        0 <= i < p.len(),
        p[i] == '*',
    ensures
        matches_from(name, p, i) == some_end_matches(name, p, i + 1),
    decreases name.len(),
{
    assert(name.skip(0) =~= name);
    if let Some(rest) = tokens_from(p, i + 1) {
        let toks = seq![Token::Star] + rest;
        assert(toks.drop_first() =~= rest);
        assert(tokens_from(p, i) == Some(toks));
        assert(matches_from(name.skip(0), p, i + 1) == tokens_match(name, toks.drop_first()));
        if name.len() > 0 {
            let tail = name.skip(1);
            lemma_star_step(tail, p, i);
            if some_end_matches(tail, p, i + 1) {
                let k = choose|k: int|
                    0 <= k <= tail.len() && #[trigger] matches_from(tail.skip(k), p, i + 1);
                assert(tail.skip(k) =~= name.skip(k + 1));
                assert(matches_from(name.skip(k + 1), p, i + 1));
            }
            if some_end_matches(name, p, i + 1) {
                let k = choose|k: int|
                    0 <= k <= name.len() && #[trigger] matches_from(name.skip(k), p, i + 1);
                if k > 0 {
                    assert(tail.skip(k - 1) =~= name.skip(k));
                    assert(matches_from(tail.skip(k - 1), p, i + 1));
                }
            }
        }
    }
}

/// A second `*` right after the first changes nothing.
proof fn lemma_star_star(name: Seq<char>, p: Seq<char>, i: int)
    requires
        0 <= i < p.len(),
        p[i] == '*',
    ensures
        some_end_matches(name, p, i) == some_end_matches(name, p, i + 1),
{
    if some_end_matches(name, p, i) {
        let k = choose|k: int| 0 <= k <= name.len() && #[trigger] matches_from(name.skip(k), p, i);
        lemma_star_step(name.skip(k), p, i);
        let j = choose|j: int|
            0 <= j <= name.skip(k).len() && #[trigger] matches_from(
                name.skip(k).skip(j),
                p,
                i + 1,
            );
        assert(name.skip(k).skip(j) =~= name.skip(k + j));
        assert(matches_from(name.skip(k + j), p, i + 1));
    }
    if some_end_matches(name, p, i + 1) {
        lemma_star_step(name, p, i);
        assert(name.skip(0) =~= name);
        assert(matches_from(name.skip(0), p, i));
    }
}

/// Match a single path component `name` against `pattern`.
pub fn match_component(name: &str, pattern: &str) -> (r: bool)
    ensures
        r == matches_pattern(name@, pattern@),
{
    let name: Vec<char> = chars_of(name);
    let pattern: Vec<char> = chars_of(pattern);
    match_chars(name.as_slice(), pattern.as_slice())
}

/// [`match_component`] on characters.
pub fn match_chars(s: &[char], p: &[char]) -> (r: bool)
    ensures
        r == matches_pattern(s@, p@),
{
    assert(s@.skip(0) =~= s@);
    match_chars_from(s, 0, p, 0)
}

/// Match `s[s_start..]` against the pattern `p[p_start..]`.
fn match_chars_from(s: &[char], s_start: usize, p: &[char], p_start: usize) -> (r: bool)
    requires
        s_start <= s@.len(),
        p_start <= p@.len(),
    ensures
        r == matches_from(s@.skip(s_start as int), p@, p_start as int),
    decreases p@.len() - p_start, 1nat,
{
    let ghost whole = matches_from(s@.skip(s_start as int), p@, p_start as int);
    let mut si: usize = s_start;
    let mut pi: usize = p_start;
    while si < s.len() && pi < p.len()
        invariant
            s_start <= si <= s@.len(),
            p_start <= pi <= p@.len(),
            whole == matches_from(s@.skip(s_start as int), p@, p_start as int),
            whole == matches_from(s@.skip(si as int), p@, pi as int),
        decreases p@.len() - pi,
    {
        let ghost name = s@.skip(si as int);
        let c: char = p[pi];
        if c == '*' {
            return match_after_star(s, si, p, pi);
        }
        proof {
            lemma_single_step(name, p@, pi as int);
            lemma_token_at_bound(p@, pi as int);
            assert(name[0] == s@[si as int]);
            assert(name.skip(1) =~= s@.skip(si + 1));
        }
        if c == '?' {
            pi += 1;
        } else if c == '[' {
            match match_class(s[si], p, pi + 1) {
                Some(after) => {
                    pi = after;
                },
                None => {
                    return false;
                },
            }
        } else if c == '\\' {
            pi += 1;
            if pi == p.len() || s[si] != p[pi] {
                return false;
            }
            pi += 1;
        } else {
            if s[si] != c {
                return false;
            }
            pi += 1;
        }
        si += 1;
    }
    // Consume trailing '*'s; the match succeeds if both are exhausted.
    while pi < p.len() && p[pi] == '*'
        invariant
            si <= s@.len(),
            pi <= p@.len(),
            si == s@.len() || pi == p@.len(),
            whole == matches_from(s@.skip(si as int), p@, pi as int),
        decreases p@.len() - pi,
    {
        proof {
            let name = s@.skip(si as int);
            lemma_star_step(name, p@, pi as int);
            assert(name.skip(0) =~= name);
            if matches_from(name, p@, pi + 1) {
                assert(matches_from(name.skip(0), p@, pi + 1));
            }
        }
        pi += 1;
    }
    proof {
        if pi < p@.len() {
            lemma_single_step(s@.skip(si as int), p@, pi as int);
        }
    }
    si == s.len() && pi == p.len()
}

/// Match `s[si..]` against `p[star..]`, where `p[star]` is a `*`.
fn match_after_star(s: &[char], si: usize, p: &[char], star: usize) -> (r: bool)
    requires
        si < s@.len(),
        star < p@.len(),
        p@[star as int] == '*',
    ensures
        r == matches_from(s@.skip(si as int), p@, star as int),
    decreases p@.len() - star, 0nat,
{
    let ghost name = s@.skip(si as int);
    let p_len: usize = p.len();
    let mut pi: usize = star + 1;
    proof {
        lemma_star_step(name, p@, star as int);
    }
    while pi < p_len && p[pi] == '*'
        invariant
            p_len == p@.len(),
            star < pi <= p@.len(),
            matches_from(name, p@, star as int) == some_end_matches(name, p@, pi as int),
        decreases p@.len() - pi,
    {
        proof {
            lemma_star_star(name, p@, pi as int);
        }
        pi += 1;
    }
    if pi == p_len {
        // A trailing '*' matches the rest.
        assert(matches_from(name.skip(name.len() as int), p@, pi as int));
        return true;
    }
    // Backtrack: try the remaining pattern at every suffix.
    let mut start: usize = si;
    while start < s.len()
        invariant
            si <= start <= s@.len(),
            star < pi < p@.len(),
            name == s@.skip(si as int),
            p@[pi as int] != '*',
            matches_from(name, p@, star as int) == some_end_matches(name, p@, pi as int),
            forall|k: int|
                0 <= k < start - si ==> !#[trigger] matches_from(name.skip(k), p@, pi as int),
        decreases s@.len() - start,
    {
        assert(name.skip(start - si) =~= s@.skip(start as int));
        if match_chars_from(s, start, p, pi) {
            assert(matches_from(name.skip(start - si), p@, pi as int));
            return true;
        }
        start += 1;
    }
    proof {
        // The empty suffix is not matched: a token that is not a '*' is left.
        lemma_single_step(name.skip(name.len() as int), p@, pi as int);
    }
    false
}

/// Match `c` against the character class starting at `p[pi]` (just past the
/// `[`). Returns the index after the closing `]` on a match, or `None` when
/// the class doesn't match `c` or is unclosed.
pub fn match_class(c: char, p: &[char], pi: usize) -> (r: Option<usize>)
    ensures
        match class_at(p@, pi as int) {
            Some((token, end)) => if accepts(token, c) {
                r matches Some(after) && after == end
            } else {
                r is None
            },
            None => r is None,
        },
{
    let mut i: usize = pi;
    let mut invert: bool = false;
    if i < p.len() && p[i] == '!' {
        invert = true;
        i += 1;
    }
    let start: usize = i;
    let mut found: bool = false;
    let ghost whole = class_members(p@, start as int, start as int);
    let ghost mut seen: Seq<(char, char)> = Seq::empty();
    loop
        invariant
            start <= i,
            i <= p@.len() || i == start,
            pi <= start,
            class_at(p@, pi as int) == match whole {
                Some((ranges, end)) => Some((Token::Class { invert, ranges }, end)),
                None => None,
            },
            found == in_ranges(c, seen),
            whole == match class_members(p@, start as int, i as int) {
                Some((rest, end)) => Some((seen + rest, end)),
                None => None,
            },
        decreases p@.len() - i,
    {
        if i >= p.len() {
            return None;  // unclosed class
        }
        // A ']' in the first position is a literal member.
        if p[i] == ']' && i > start {
            assert(seen + Seq::empty() =~= seen);
            i += 1;
            return if found != invert {
                Some(i)
            } else {
                None
            };
        }
        // A range "a-b", unless the '-' is the last char before ']'.
        let low: char = p[i];
        let high: char;
        let width: usize;
        if p.len() - i > 2 && p[i + 1] == '-' && p[i + 2] != ']' {
            high = p[i + 2];
            width = 3;
        } else {
            high = low;
            width = 1;
        }
        let ghost before = seen;
        proof {
            seen = before.push((low, high));
            if let Some((rest, end)) = class_members(p@, start as int, i + width) {
                assert(before + (seq![(low, high)] + rest) =~= seen + rest);
            }
            if in_ranges(c, before) {
                let k = choose|k: int|
                    0 <= k < before.len() && (#[trigger] before[k]).0 <= c <= before[k].1;
                assert(seen[k] == before[k]);
            }
            if low <= c <= high {
                assert(seen[before.len() as int].0 <= c <= seen[before.len() as int].1);
            }
            if in_ranges(c, seen) {
                let k = choose|k: int|
                    0 <= k < seen.len() && (#[trigger] seen[k]).0 <= c <= seen[k].1;
                if k < before.len() {
                    assert(before[k].0 <= c <= before[k].1);
                }
            }
        }
        if low <= c && c <= high {
            found = true;
        }
        i += width;
    }
}

/// What a closed class holds does not depend on the text after it.
proof fn lemma_class_members_extend(x: Seq<char>, y: Seq<char>, start: int, i: int)
    requires
        0 <= i,
        class_members(x, start, i) is Some,
    ensures
        class_members(x + y, start, i) == class_members(x, start, i),
    decreases x.len() - i,
{
    let p = x + y;
    assert(p[i] == x[i]);
    if x[i] == ']' && i > start {
    } else if i + 2 < x.len() && x[i + 1] == '-' && x[i + 2] != ']' {
        assert(p[i + 1] == x[i + 1] && p[i + 2] == x[i + 2]);
        lemma_class_members_extend(x, y, start, i + 3);
    } else {
        assert(class_members(x, start, i + 1) is Some);
        assert(p[i + 1] == x[i + 1]);
        if i + 2 < x.len() {
            assert(p[i + 2] == x[i + 2]);
        } else if x[i + 1] == '-' {
            assert(class_members(x, start, i + 2) is None);
        }
        lemma_class_members_extend(x, y, start, i + 1);
    }
}

/// Reading a class in a suffix is reading it in the whole text.
pub proof fn lemma_class_members_shift(x: Seq<char>, y: Seq<char>, start: int, i: int)
    requires
        0 <= i,
    ensures
        class_members(x + y, start + x.len(), i + x.len()) == match class_members(y, start, i) {
            Some((ranges, end)) => Some((ranges, end + x.len())),
            None => None,
        },
    decreases y.len() - i,
{
    let p = x + y;
    let n = x.len() as int;
    if i < y.len() {
        assert(p[i + n] == y[i]);
        if i + 1 < y.len() {
            assert(p[i + n + 1] == y[i + 1]);
        }
        if i + 2 < y.len() {
            assert(p[i + n + 2] == y[i + 2]);
            lemma_class_members_shift(x, y, start, i + 3);
            assert(i + 3 + n == i + n + 3);
        }
        lemma_class_members_shift(x, y, start, i + 1);
        assert(i + 1 + n == i + n + 1);
    }
}

/// A token in a suffix is the token at that place in the whole text.
proof fn lemma_token_at_shift(x: Seq<char>, y: Seq<char>, i: int)
    requires
        0 <= i < y.len(),
    ensures
        token_at(x + y, i + x.len()) == match token_at(y, i) {
            Some((token, next)) => Some((token, next + x.len())),
            None => None,
        },
{
    let p = x + y;
    let n = x.len() as int;
    assert(p[i + n] == y[i]);
    if i + 1 < y.len() {
        assert(p[i + n + 1] == y[i + 1]);
    }
    lemma_class_members_shift(x, y, i + 1, i + 1);
    lemma_class_members_shift(x, y, i + 2, i + 2);
    assert(i + 1 + n == i + n + 1);
    assert(i + 2 + n == i + n + 2);
}

/// The tokens of a suffix are the tokens of the whole text from there on.
proof fn lemma_tokens_shift(x: Seq<char>, y: Seq<char>, i: int)
    requires
        0 <= i,
    ensures
        tokens_from(x + y, i + x.len()) == tokens_from(y, i),
    decreases y.len() - i,
{
    if i < y.len() {
        lemma_token_at_shift(x, y, i);
        lemma_token_at_bound(y, i);
        if let Some((token, next)) = token_at(y, i) {
            lemma_tokens_shift(x, y, next);
        }
    }
}

/// [`law_tokens_concat`], from index `i` of the first part on.
proof fn lemma_tokens_concat_from(x: Seq<char>, y: Seq<char>, i: int)
    requires
        0 <= i <= x.len(),
        tokens_from(x, i) is Some,
    ensures
        tokens_from(x + y, i) == match tokens(y) {
            Some(rest) => Some(tokens_from(x, i)->0 + rest),
            None => None,
        },
    decreases x.len() - i,
{
    let p = x + y;
    if i == x.len() {
        lemma_tokens_shift(x, y, 0);
        if let Some(rest) = tokens(y) {
            assert(tokens_from(x, i)->0 + rest =~= rest);
        }
    } else {
        lemma_token_at_bound(x, i);
        let (token, next) = token_at(x, i)->0;
        assert(p[i] == x[i]);
        if x[i] == '[' {
            let invert = i + 1 < x.len() && x[i + 1] == '!';
            let start = if invert {
                i + 2
            } else {
                i + 1
            };
            lemma_class_members_extend(x, y, start, start);
            assert(i + 1 < x.len());
            assert(p[i + 1] == x[i + 1]);
        } else if x[i] == '\\' {
            assert(p[i + 1] == x[i + 1]);
        }
        assert(token_at(p, i) == token_at(x, i));
        lemma_tokens_concat_from(x, y, next);
        if let Some(rest) = tokens(y) {
            let tail = tokens_from(x, next)->0;
            assert((seq![token] + tail) + rest =~= seq![token] + (tail + rest));
        }
    }
}

/// Law: after a well-formed pattern text, the tokens of what follows are
/// those it has on its own.
pub proof fn law_tokens_concat(x: Seq<char>, y: Seq<char>)
    requires
        tokens(x) is Some,
    ensures
        tokens(x + y) == match tokens(y) {
            Some(rest) => Some(tokens(x)->0 + rest),
            None => None,
        },
{
    lemma_tokens_concat_from(x, y, 0);
}

/// Law: a pattern with an unclosed class or a dangling escape, wherever it
/// stands in the pattern, matches no name.
pub proof fn law_malformed_matches_nothing(name: Seq<char>, before: Seq<char>, malformed: Seq<char>)
    requires
        tokens(before) is Some,
        malformed.len() > 0,
        token_at(malformed, 0) is None,
    ensures
        !matches_pattern(name, before + malformed),
{
    law_tokens_concat(before, malformed);
}

/// Matching a concatenation of token sequences is matching its two parts on
/// the two parts of some division of the name.
pub proof fn lemma_tokens_match_concat(name: Seq<char>, a: Seq<Token>, b: Seq<Token>)
    ensures
        tokens_match(name, a + b) <==> exists|k: int|
            0 <= k <= name.len() && tokens_match(name.take(k), a) && #[trigger] tokens_match(
                name.skip(k),
                b,
            ),
    decreases a.len(), name.len(),
{
    if a.len() == 0 {
        assert(a + b =~= b);
        assert(name.skip(0) =~= name);
        assert(tokens_match(name.take(0), a));
    } else {
        let rest = a.drop_first();
        assert((a + b).drop_first() =~= rest + b);
        assert((a + b)[0] == a[0]);
        if a[0] is Star {
            lemma_tokens_match_concat(name, rest, b);
            if name.len() > 0 {
                let tail = name.skip(1);
                lemma_tokens_match_concat(tail, a, b);
                if tokens_match(tail, a + b) {
                    let k = choose|k: int|
                        0 <= k <= tail.len() && tokens_match(tail.take(k), a)
                            && #[trigger] tokens_match(tail.skip(k), b);
                    assert(name.take(k + 1).skip(1) =~= tail.take(k));
                    assert(name.skip(k + 1) =~= tail.skip(k));
                    assert(tokens_match(name.take(k + 1), a));
                    assert(tokens_match(name.skip(k + 1), b));
                }
            }
            if tokens_match(name, rest + b) {
                let k = choose|k: int|
                    0 <= k <= name.len() && tokens_match(name.take(k), rest)
                        && #[trigger] tokens_match(name.skip(k), b);
                assert(tokens_match(name.take(k), a));
            }
            assert forall|k: int|
                0 <= k <= name.len() && tokens_match(name.take(k), a)
                    && #[trigger] tokens_match(name.skip(k), b) implies tokens_match(
                name,
                a + b,
            ) by {
                if !tokens_match(name.take(k), rest) {
                    let tail = name.skip(1);
                    assert(name.take(k).skip(1) =~= tail.take(k - 1));
                    assert(name.skip(k) =~= tail.skip(k - 1));
                    assert(tokens_match(tail.take(k - 1), a));
                    assert(tokens_match(tail.skip(k - 1), b));
                    assert(tokens_match(tail, a + b));
                }
            }
        } else {
            if name.len() > 0 {
                let tail = name.skip(1);
                lemma_tokens_match_concat(tail, rest, b);
                if tokens_match(name, a + b) {
                    let k = choose|k: int|
                        0 <= k <= tail.len() && tokens_match(tail.take(k), rest)
                            && #[trigger] tokens_match(tail.skip(k), b);
                    assert(name.take(k + 1).skip(1) =~= tail.take(k));
                    assert(name.skip(k + 1) =~= tail.skip(k));
                    assert(tokens_match(name.take(k + 1), a));
                    assert(tokens_match(name.skip(k + 1), b));
                }
            }
            assert forall|k: int|
                0 <= k <= name.len() && tokens_match(name.take(k), a)
                    && #[trigger] tokens_match(name.skip(k), b) implies tokens_match(
                name,
                a + b,
            ) by {
                let tail = name.skip(1);
                assert(name.take(k).skip(1) =~= tail.take(k - 1));
                assert(name.skip(k) =~= tail.skip(k - 1));
                assert(tokens_match(tail.take(k - 1), rest));
                assert(tokens_match(tail.skip(k - 1), b));
            }
        }
    }
}

/// Law: a pattern made of two well-formed parts matches exactly the names that
/// can be divided into a part matched by the first and a part matched by the
/// second.
pub proof fn law_match_concat(name: Seq<char>, x: Seq<char>, y: Seq<char>)
    requires
        tokens(x) is Some,
        tokens(y) is Some,
    ensures
        matches_pattern(name, x + y) <==> exists|k: int|
            0 <= k <= name.len() && matches_pattern(name.take(k), x) && #[trigger] matches_pattern(
                name.skip(k),
                y,
            ),
{
    law_tokens_concat(x, y);
    let a = tokens(x)->0;
    let b = tokens(y)->0;
    lemma_tokens_match_concat(name, a, b);
    if matches_pattern(name, x + y) {
        let k = choose|k: int|
            0 <= k <= name.len() && tokens_match(name.take(k), a) && #[trigger] tokens_match(
                name.skip(k),
                b,
            );
        assert(matches_pattern(name.take(k), x));
        assert(matches_pattern(name.skip(k), y));
    }
    assert forall|k: int|
        0 <= k <= name.len() && matches_pattern(name.take(k), x) && #[trigger] matches_pattern(
            name.skip(k),
            y,
        ) implies matches_pattern(name, x + y) by {
        assert(tokens_match(name.skip(k), b));
    }
}

/// Law: `*` on its own matches every name, the empty one included.
pub proof fn law_star_matches_everything(name: Seq<char>)
    ensures
        matches_pattern(name, seq!['*']),
{
    let p = seq!['*'];
    lemma_star_step(name, p, 0);
    assert(matches_from(name.skip(name.len() as int), p, 1));
}

/// Law: `?` on its own matches exactly the names of one character.
pub proof fn law_question_mark_matches_one(name: Seq<char>)
    ensures
        matches_pattern(name, seq!['?']) <==> name.len() == 1,
{
    lemma_single_step(name, seq!['?'], 0);
    if name.len() > 0 {
        assert(matches_from(name.skip(1), seq!['?'], 1) == (name.skip(1).len() == 0));
    }
}

/// Law: inside a component consecutive `*`s act as one, whatever stands before
/// and after them.
pub proof fn law_stars_collapse(name: Seq<char>, before: Seq<char>, after: Seq<char>)
    requires
        tokens(before) is Some,
    ensures
        matches_pattern(name, before + (seq!['*', '*'] + after)) == matches_pattern(
            name,
            before + (seq!['*'] + after),
        ),
{
    let two = seq!['*', '*'] + after;
    let one = seq!['*'] + after;
    assert(two =~= seq!['*'] + one);
    assert forall|s: Seq<char>| #[trigger] matches_pattern(s, two) == matches_pattern(s, one) by {
        lemma_star_step(s, two, 0);
        lemma_star_star(s, two, 1);
        lemma_star_step(s, one, 0);
        lemma_tokens_shift(seq!['*'], one, 1);
        assert forall|t: Seq<char>| matches_from(t, two, 2) == #[trigger] matches_from(
            t,
            one,
            1,
        ) by {}
        if some_end_matches(s, two, 2) {
            let k = choose|k: int| 0 <= k <= s.len() && #[trigger] matches_from(s.skip(k), two, 2);
            assert(matches_from(s.skip(k), one, 1));
        }
        if some_end_matches(s, one, 1) {
            let k = choose|k: int| 0 <= k <= s.len() && #[trigger] matches_from(s.skip(k), one, 1);
            assert(matches_from(s.skip(k), two, 2));
        }
    }
    law_tokens_concat(before, two);
    law_tokens_concat(before, one);
    lemma_tokens_shift(seq!['*'], one, 0);
    lemma_tokens_shift(seq!['*'], one, 1);
    if tokens(one) is Some {
        law_match_concat(name, before, two);
        law_match_concat(name, before, one);
        if matches_pattern(name, before + two) {
            let k = choose|k: int|
                0 <= k <= name.len() && matches_pattern(name.take(k), before)
                    && #[trigger] matches_pattern(name.skip(k), two);
            assert(matches_pattern(name.skip(k), one));
        }
        if matches_pattern(name, before + one) {
            let k = choose|k: int|
                0 <= k <= name.len() && matches_pattern(name.take(k), before)
                    && #[trigger] matches_pattern(name.skip(k), one);
            assert(matches_pattern(name.skip(k), two));
        }
    }
}

} // verus!
