//! Expansion of `{a,b}` brace groups.
//!
//! The leftmost group is replaced by each of its alternatives in turn, and what
//! comes out is expanded again, so that nested groups and groups that hold a
//! `/` both work. A `\` keeps the character after it from opening, closing or
//! dividing a group. A `}` outside any group stands for itself; a group that is
//! never closed is an error.

use vstd::prelude::*;

use crate::error::invalid_path_text;
use crate::error::BridgeError;
use crate::error::ErrorModel;
use crate::error::KindModel;
use crate::text::chars_of;
use crate::text::concat3;
use crate::text::string_of;
use crate::text::views;

verus! {

/// The first `{` at or after index `i` that no `\` escapes, where `p[i]` is not
/// itself escaped.
pub open spec fn first_open(p: Seq<char>, i: int) -> Option<int>
    decreases p.len() - i,
{
    if i >= p.len() {
        None
    } else if p[i] == '\\' {
        if i + 1 < p.len() {
            first_open(p, i + 2)
        } else {
            None
        }
    } else if p[i] == '{' {
        Some(i)
    } else {
        first_open(p, i + 1)
    }
}

/// The `,` or `}` that ends the alternative of which `p[i]` is part, where
/// `depth` groups are open at `i`, the alternative's own included.
pub open spec fn alternative_end(p: Seq<char>, i: int, depth: int) -> Option<int>
    decreases p.len() - i,
{
    if i >= p.len() {
        None
    } else if p[i] == '\\' {
        if i + 1 < p.len() {
            alternative_end(p, i + 2, depth)
        } else {
            None
        }
    } else if p[i] == '{' {
        alternative_end(p, i + 1, depth + 1)
    } else if depth == 1 && (p[i] == '}' || p[i] == ',') {
        Some(i)
    } else if p[i] == '}' {
        alternative_end(p, i + 1, depth - 1)
    } else {
        alternative_end(p, i + 1, depth)
    }
}

/// An alternative ends within the pattern.
pub proof fn lemma_alternative_end_bound(p: Seq<char>, i: int, depth: int)
    requires
        0 <= i,
    ensures
        alternative_end(p, i, depth) matches Some(end) ==> i <= end < p.len() && (p[end] == '}'
            || p[end] == ','),
    decreases p.len() - i,
{
    if i < p.len() {
        if i + 1 < p.len() {
            lemma_alternative_end_bound(p, i + 2, depth);
        }
        lemma_alternative_end_bound(p, i + 1, depth);
        lemma_alternative_end_bound(p, i + 1, depth + 1);
        lemma_alternative_end_bound(p, i + 1, depth - 1);
    }
}

/// The alternatives of a group, of which the first one here starts at `from`,
/// and the index of the `}` that closes the group; `None` if none does.
pub open spec fn alternatives(p: Seq<char>, from: int) -> Option<(Seq<Seq<char>>, int)>
    decreases p.len() - from,
{
    match alternative_end(p, from, 1) {
        None => None,
        Some(end) => if from <= end < p.len() && p[end] == ',' {
            match alternatives(p, end + 1) {
                None => None,
                Some((rest, close)) => Some((seq![p.subrange(from, end)] + rest, close)),
            }
        } else {
            Some((seq![p.subrange(from, end)], end))
        },
    }
}

/// `p` with the group from `open` to `close` replaced by `alternative`.
pub open spec fn spliced(
    p: Seq<char>,
    open: int,
    close: int,
    alternative: Seq<char>,
) -> Seq<char> {
    p.take(open) + alternative + p.skip(close + 1)
}

/// The brace-free patterns that `p` stands for, in order; or, as the error,
/// the partly expanded pattern whose leftmost group is never closed.
pub open spec fn expansion(p: Seq<char>) -> Result<Seq<Seq<char>>, Seq<char>>
    decreases p.len(), 1int, 0int,
{
    match first_open(p, 0) {
        None => Ok(seq![p]),
        Some(open) => match alternatives(p, open + 1) {
            None => Err(p),
            Some((alts, close)) => expansion_of_each(p, open, close, alts),
        },
    }
}

/// The expansions of `p` with its leftmost group replaced by each of `alts` in
/// turn, one after the other; or the first error among them. (Replacing the
/// group drops its braces, so each of those patterns is shorter than `p`.)
pub open spec fn expansion_of_each(
    p: Seq<char>,
    open: int,
    close: int,
    alts: Seq<Seq<char>>,
) -> Result<Seq<Seq<char>>, Seq<char>>
    decreases p.len(), 0int, alts.len(),
{
    if alts.len() == 0 || spliced(p, open, close, alts[0]).len() >= p.len() {
        Ok(Seq::empty())
    } else {
        match expansion(spliced(p, open, close, alts[0])) {
            Err(unclosed) => Err(unclosed),
            Ok(first) => match expansion_of_each(p, open, close, alts.drop_first()) {
                Err(unclosed) => Err(unclosed),
                Ok(rest) => Ok(first + rest),
            },
        }
    }
}

/// The message for a group that is never closed.
pub open spec fn unclosed_message(p: Seq<char>) -> Seq<char> {
    "Unclosed brace group in glob pattern '"@ + p + "'"@
}

/// The error for a group that is never closed.
pub open spec fn unclosed_error(p: Seq<char>) -> ErrorModel {
    ErrorModel { kind: KindModel::InvalidPath, text: invalid_path_text(unclosed_message(p)) }
}

/// The first `{` lies within the pattern.
pub proof fn lemma_first_open_bound(p: Seq<char>, i: int)
    requires
        0 <= i,
    ensures
        first_open(p, i) matches Some(open) ==> i <= open < p.len() && p[open] == '{',
    decreases p.len() - i,
{
    if i < p.len() {
        if i + 1 < p.len() {
            lemma_first_open_bound(p, i + 2);
        }
        lemma_first_open_bound(p, i + 1);
    }
}

/// The alternatives lie between the group's braces, and there is at least one.
pub proof fn lemma_alternatives_bound(p: Seq<char>, from: int)
    requires
        0 <= from,
    ensures
        alternatives(p, from) matches Some((alts, close)) ==> {
            &&& from <= close < p.len()
            &&& alts.len() > 0
            &&& forall|k: int|
                0 <= k < alts.len() ==> (#[trigger] alts[k]).len() <= close - from
        },
    decreases p.len() - from,
{
    lemma_alternative_end_bound(p, from, 1);
    if let Some(end) = alternative_end(p, from, 1) {
        if p[end] == ',' {
            lemma_alternatives_bound(p, end + 1);
        }
    }
}

/// What the leftmost group of `p` holds: its alternatives and the index of the
/// closing `}`; `None` if it is never closed.
fn read_group(pattern: &str, chars: &Vec<char>, open: usize) -> (r: Option<(Vec<String>, usize)>)
    requires
        chars@ == pattern@,
        open < chars@.len(),
    ensures
        match alternatives(pattern@, open + 1) {
            None => r is None,
            Some((alts, close)) => r matches Some((strings, at)) && views(strings@) == alts && at
                == close,
        },
{
    let ghost p = pattern@;
    let n: usize = chars.len();
    let ghost whole = alternatives(p, open + 1);
    let mut alternatives_read: Vec<String> = Vec::new();
    let mut current = String::new();
    let mut depth: usize = 1;
    let mut j: usize = open + 1;
    let ghost mut from: int = open + 1;
    proof {
        if let Some((alts, close)) = whole {
            assert(views(alternatives_read@) + alts =~= alts);
        }
        assert(current@ =~= p.subrange(from, j as int));
    }
    while j < n
        invariant
            n == p.len(),
            chars@ == p,
            open < from <= j,
            j <= n || j == n + 1,
            from <= n,
            1 <= depth <= j,
            j <= n ==> current@ == p.subrange(from, j as int),
            alternative_end(p, from, 1) == alternative_end(p, j as int, depth as int),
            whole == match alternatives(p, from) {
                Some((rest, close)) => Some((views(alternatives_read@) + rest, close)),
                None => None,
            },
            whole == alternatives(p, open + 1),
            p == pattern@,
        decreases n + 1 - j,
    {
        let c: char = chars[j];
        let ghost before = views(alternatives_read@);
        if c == '\\' {
            current.push(c);
            if j + 1 >= n {
                return None;
            }
            j += 1;
            current.push(chars[j]);
            assert(current@ =~= p.subrange(from, j + 1));
        } else if c == '{' {
            depth += 1;
            current.push(c);
            assert(current@ =~= p.subrange(from, j + 1));
        } else if c == '}' && depth == 1 {
            let ghost last = current@;
            alternatives_read.push(current);
            proof {
                assert(views(alternatives_read@) =~= before + seq![last]);
            }
            return Some((alternatives_read, j));
        } else if c == ',' && depth == 1 {
            let ghost last = current@;
            alternatives_read.push(current);
            current = String::new();
            proof {
                lemma_alternative_end_bound(p, from, 1);
                let next = j + 1;
                if let Some((rest, close)) = alternatives(p, next) {
                    assert(views(alternatives_read@) =~= before + seq![last]);
                    assert((before + seq![last]) + rest =~= before + (seq![last] + rest));
                }
                from = next;
                assert(current@ =~= p.subrange(from, j + 1));
            }
        } else {
            if c == '}' {
                depth -= 1;
            }
            current.push(c);
            assert(current@ =~= p.subrange(from, j + 1));
        }
        j += 1;
    }
    None
}

/// The index of the first `{` that no `\` escapes.
fn find_open(chars: &Vec<char>) -> (r: Option<usize>)
    ensures
        match first_open(chars@, 0) {
            None => r is None,
            Some(open) => r matches Some(at) && at == open,
        },
{
    let n: usize = chars.len();
    let mut i: usize = 0;
    while i < n
        invariant
            n == chars@.len(),
            i <= n,
            first_open(chars@, 0) == first_open(chars@, i as int),
        decreases n - i,
    {
        let c: char = chars[i];
        if c == '\\' {
            if i + 1 >= n {
                return None;
            }
            i += 1;  // skip the escaped character
        } else if c == '{' {
            return Some(i);
        }
        i += 1;
    }
    None
}

/// Expand `{a,b}` brace groups (leftmost-first, recursively) into brace-free
/// patterns. Escaped braces are literal; an unclosed group is an error, a bare
/// `}` is literal.
pub fn expand_braces(pattern: &str) -> (r: Result<Vec<String>, BridgeError>)
    ensures
        match expansion(pattern@) {
            Ok(patterns) => r matches Ok(strings) && views(strings@) == patterns,
            Err(unclosed) => r matches Err(e) && e@ == unclosed_error(unclosed),
        },
    decreases pattern@.len(),
{
    let ghost p = pattern@;
    let chars: Vec<char> = chars_of(pattern);
    // Find the first unescaped '{'.
    let open: usize = match find_open(&chars) {
        Some(open) => open,
        None => {
            let mut single: Vec<String> = Vec::new();
            single.push(pattern.to_owned());
            assert(views(single@) =~= seq![p]);
            return Ok(single);
        },
    };
    proof {
        lemma_first_open_bound(p, 0);
        lemma_alternatives_bound(p, open + 1);
    }
    // Collect its top-level alternatives up to the matching '}'.
    let group: Option<(Vec<String>, usize)> = read_group(pattern, &chars, open);
    let (alts, close): (Vec<String>, usize) = match group {
        Some(group) => group,
        None => {
            let message: String = concat3(
                "Unclosed brace group in glob pattern '",
                pattern,
                "'",
            );
            return Err(BridgeError::invalid_path(message.as_str()));
        },
    };
    let prefix: String = string_of(chars.as_slice(), 0, open);
    let suffix: String = string_of(chars.as_slice(), close + 1, chars.len());
    let mut expanded: Vec<String> = Vec::new();
    let mut k: usize = 0;
    proof {
        assert(views(alts@).skip(0) =~= views(alts@));
        if let Ok(all) = expansion(p) {
            assert(views(expanded@) + all =~= all);
        }
    }
    while k < alts.len()
        invariant
            k <= alts@.len(),
            p == pattern@,
            open < close < p.len(),
            prefix@ == p.take(open as int),
            suffix@ == p.skip(close + 1),
            forall|i: int|
                0 <= i < alts@.len() ==> (#[trigger] views(alts@)[i]).len() < close - open,
            expansion(p) == match expansion_of_each(
                p,
                open as int,
                close as int,
                views(alts@).skip(k as int),
            ) {
                Ok(rest) => Ok(views(expanded@) + rest),
                Err(unclosed) => Err(unclosed),
            },
        decreases alts@.len() - k,
    {
        // Each level removes one brace pair, so this terminates.
        let piece: String = concat3(prefix.as_str(), alts[k].as_str(), suffix.as_str());
        let ghost left = views(alts@).skip(k as int);
        proof {
            assert(left[0] == views(alts@)[k as int]);
            assert(left.drop_first() =~= views(alts@).skip(k + 1));
            assert(piece@ == spliced(p, open as int, close as int, left[0]));
        }
        match expand_braces(piece.as_str()) {
            Ok(more) => {
                let mut more: Vec<String> = more;
                let ghost done = views(expanded@);
                let ghost first = views(more@);
                expanded.append(&mut more);
                proof {
                    assert(views(expanded@) =~= done + first);
                    if let Ok(rest) = expansion_of_each(
                        p,
                        open as int,
                        close as int,
                        left.drop_first(),
                    ) {
                        assert(done + (first + rest) =~= (done + first) + rest);
                    }
                }
            },
            Err(e) => {
                return Err(e);
            },
        }
        k += 1;
    }
    assert(views(expanded@) + Seq::<Seq<char>>::empty() =~= views(expanded@));
    Ok(expanded)
}

/// How many groups are open at the end of `p`, read from index `i` on with
/// `depth` groups open; a `}` with no open group closes nothing.
pub open spec fn open_groups(p: Seq<char>, i: int, depth: int) -> int
    decreases p.len() - i,
{
    if i >= p.len() {
        depth
    } else if p[i] == '\\' {
        if i + 1 < p.len() {
            open_groups(p, i + 2, depth)
        } else {
            depth
        }
    } else if p[i] == '{' {
        open_groups(p, i + 1, depth + 1)
    } else if p[i] == '}' && depth > 0 {
        open_groups(p, i + 1, depth - 1)
    } else {
        open_groups(p, i + 1, depth)
    }
}

/// No group is open before the first `{`.
proof fn lemma_open_groups_before(p: Seq<char>, i: int)
    requires
        0 <= i,
    ensures
        open_groups(p, i, 0) == match first_open(p, i) {
            None => 0,
            Some(open) => open_groups(p, open + 1, 1),
        },
    decreases p.len() - i,
{
    if i < p.len() {
        if i + 1 < p.len() {
            lemma_open_groups_before(p, i + 2);
        }
        lemma_open_groups_before(p, i + 1);
    }
}

/// An alternative that ends leaves its own group open up to there; one that
/// does not end leaves a group open.
proof fn lemma_open_groups_alternative(p: Seq<char>, i: int, depth: int)
    requires
        0 <= i,
        depth >= 1,
    ensures
        match alternative_end(p, i, depth) {
            None => open_groups(p, i, depth) > 0,
            Some(end) => open_groups(p, i, depth) == open_groups(p, end, 1),
        },
    decreases p.len() - i,
{
    if i < p.len() {
        if p[i] == '\\' {
            if i + 1 < p.len() {
                lemma_open_groups_alternative(p, i + 2, depth);
            }
        } else if p[i] == '{' {
            lemma_open_groups_alternative(p, i + 1, depth + 1);
        } else if depth == 1 && (p[i] == '}' || p[i] == ',') {
        } else if p[i] == '}' {
            lemma_open_groups_alternative(p, i + 1, depth - 1);
        } else {
            lemma_open_groups_alternative(p, i + 1, depth);
        }
    }
}

/// After the group no more groups are open than before it.
proof fn lemma_open_groups_group(p: Seq<char>, from: int)
    requires
        0 <= from,
    ensures
        match alternatives(p, from) {
            None => open_groups(p, from, 1) > 0,
            Some((_, close)) => open_groups(p, from, 1) == open_groups(p, close + 1, 0),
        },
    decreases p.len() - from,
{
    lemma_open_groups_alternative(p, from, 1);
    lemma_alternative_end_bound(p, from, 1);
    if let Some(end) = alternative_end(p, from, 1) {
        if p[end] == ',' {
            lemma_open_groups_group(p, end + 1);
        }
    }
}

/// What a suffix leaves open does not depend on the text before it.
proof fn lemma_open_groups_shift(x: Seq<char>, y: Seq<char>, i: int, depth: int)
    requires
        0 <= i,
    ensures
        open_groups(x + y, x.len() + i, depth) == open_groups(y, i, depth),
    decreases y.len() - i,
{
    let p = x + y;
    let n = x.len() as int;
    if i < y.len() {
        assert(p[n + i] == y[i]);
        if i + 1 < y.len() {
            lemma_open_groups_shift(x, y, i + 2, depth);
            assert(n + (i + 2) == n + i + 2);
        }
        assert(n + (i + 1) == n + i + 1);
        lemma_open_groups_shift(x, y, i + 1, depth);
        lemma_open_groups_shift(x, y, i + 1, depth + 1);
        lemma_open_groups_shift(x, y, i + 1, depth - 1);
    }
}

/// Text that agrees with `p` up to its first `{` leaves no group open there.
proof fn lemma_open_groups_prefix(p: Seq<char>, q: Seq<char>, i: int, open: int)
    requires
        0 <= i,
        first_open(p, i) == Some(open),
        open <= q.len(),
        forall|k: int| 0 <= k < open ==> q[k] == p[k],
    ensures
        open_groups(q, i, 0) == open_groups(q, open, 0),
    decreases p.len() - i,
{
    lemma_first_open_bound(p, i);
    if i < open {
        assert(q[i] == p[i]);
        if p[i] == '\\' {
            lemma_first_open_bound(p, i + 2);
            lemma_open_groups_prefix(p, q, i + 2, open);
        } else {
            lemma_open_groups_prefix(p, q, i + 1, open);
        }
    }
}

/// On its own an alternative opens as many groups as it closes: here `q` holds
/// the alternative `p[from..end]` at index `at`.
proof fn lemma_open_groups_inside(
    p: Seq<char>,
    q: Seq<char>,
    at: int,
    from: int,
    end: int,
    j: int,
    depth: int,
)
    requires
        0 <= at,
        0 <= from <= j <= end <= p.len(),
        depth >= 1,
        alternative_end(p, j, depth) == Some(end),
        at + (end - from) <= q.len(),
        forall|k: int| from <= k < end ==> q[at + (k - from)] == #[trigger] p[k],
    ensures
        open_groups(q, at + (j - from), depth - 1) == open_groups(q, at + (end - from), 0),
    decreases end - j,
{
    lemma_alternative_end_bound(p, j, depth);
    if depth == 1 && (p[j] == '}' || p[j] == ',') {
    } else {
        if p[j] == '\\' {
            lemma_alternative_end_bound(p, j + 2, depth);
            assert(q[at + (j - from)] == p[j]);
            lemma_open_groups_inside(p, q, at, from, end, j + 2, depth);
        } else if p[j] == '{' {
            lemma_alternative_end_bound(p, j + 1, depth + 1);
            assert(q[at + (j - from)] == p[j]);
            lemma_open_groups_inside(p, q, at, from, end, j + 1, depth + 1);
        } else if p[j] == '}' {
            lemma_alternative_end_bound(p, j + 1, depth - 1);
            assert(q[at + (j - from)] == p[j]);
            lemma_open_groups_inside(p, q, at, from, end, j + 1, depth - 1);
        } else {
            lemma_alternative_end_bound(p, j + 1, depth);
            assert(q[at + (j - from)] == p[j]);
            lemma_open_groups_inside(p, q, at, from, end, j + 1, depth);
        }
    }
}

/// Replacing the leftmost group by one of its alternatives leaves as many
/// groups open at the end as before.
proof fn lemma_open_groups_spliced(p: Seq<char>, open: int, from: int)
    requires
        first_open(p, 0) == Some(open),
        open < from,
        alternatives(p, from) is Some,
    ensures
        alternatives(p, from) matches Some((alts, close)) && forall|k: int|
            0 <= k < alts.len() ==> open_groups(
                #[trigger] spliced(p, open, close, alts[k]),
                0,
                0,
            ) == open_groups(p, close + 1, 0),
    decreases p.len() - from,
{
    let (alts, close) = alternatives(p, from)->0;
    lemma_first_open_bound(p, 0);
    lemma_alternative_end_bound(p, from, 1);
    lemma_alternatives_bound(p, from);
    let end = alternative_end(p, from, 1)->0;
    let alt = p.subrange(from, end);
    let q = spliced(p, open, close, alt);
    assert forall|k: int| 0 <= k < open implies q[k] == p[k] by {}
    lemma_open_groups_prefix(p, q, 0, open);
    assert forall|k: int| from <= k < end implies q[open + (k - from)] == #[trigger] p[k] by {
        assert(alt[k - from] == p[k]);
    }
    lemma_open_groups_inside(p, q, open, from, end, from, 1);
    let suffix = p.skip(close + 1);
    lemma_open_groups_shift(p.take(open) + alt, suffix, 0, 0);
    lemma_open_groups_shift(p.take(close + 1), suffix, 0, 0);
    assert(p.take(close + 1) + suffix =~= p);
    assert(alts[0] == alt);
    if p[end] == ',' {
        lemma_open_groups_spliced(p, open, end + 1);
        let (rest, rest_close) = alternatives(p, end + 1)->0;
        assert forall|k: int| 0 <= k < alts.len() implies open_groups(
            #[trigger] spliced(p, open, close, alts[k]),
            0,
            0,
        ) == open_groups(p, close + 1, 0) by {
            if k > 0 {
                assert(alts[k] == rest[k - 1]);
                assert(spliced(p, open, close, rest[k - 1]) == spliced(p, open, close, alts[k]));
            }
        }
    }
}

/// Law: a pattern has no expansion exactly when, with escaped characters left
/// aside, some `{` in it is never closed.
pub proof fn law_unclosed_group_is_an_error(p: Seq<char>)
    ensures
        expansion(p) is Err <==> open_groups(p, 0, 0) > 0,
    decreases p.len(), 1int, 0int,
{
    lemma_open_groups_before(p, 0);
    lemma_first_open_bound(p, 0);
    if let Some(open) = first_open(p, 0) {
        lemma_open_groups_group(p, open + 1);
        lemma_alternatives_bound(p, open + 1);
        if let Some((alts, close)) = alternatives(p, open + 1) {
            lemma_open_groups_spliced(p, open, open + 1);
            lemma_unclosed_in_each(p, open, close, alts, open_groups(p, close + 1, 0));
        }
    }
}

/// [`law_unclosed_group_is_an_error`], for the alternatives of a group.
proof fn lemma_unclosed_in_each(
    p: Seq<char>,
    open: int,
    close: int,
    alts: Seq<Seq<char>>,
    groups: int,
)
    requires
        0 <= open < close < p.len(),
        forall|k: int| 0 <= k < alts.len() ==> (#[trigger] alts[k]).len() < close - open,
        forall|k: int|
            0 <= k < alts.len() ==> open_groups(
                #[trigger] spliced(p, open, close, alts[k]),
                0,
                0,
            ) == groups,
    ensures
        expansion_of_each(p, open, close, alts) is Err <==> (alts.len() > 0 && groups > 0),
    decreases p.len(), 0int, alts.len(),
{
    if alts.len() > 0 {
        let q = spliced(p, open, close, alts[0]);
        assert(q.len() < p.len());
        law_unclosed_group_is_an_error(q);
        let rest = alts.drop_first();
        assert forall|k: int| 0 <= k < rest.len() implies open_groups(
            #[trigger] spliced(p, open, close, rest[k]),
            0,
            0,
        ) == groups by {
            assert(rest[k] == alts[k + 1]);
            assert(spliced(p, open, close, alts[k + 1]) == spliced(p, open, close, rest[k]));
        }
        lemma_unclosed_in_each(p, open, close, rest, groups);
    }
}

/// Law: an expansion holds at least one pattern, and none of its patterns has
/// a group left to expand.
pub proof fn law_expansions_are_brace_free(p: Seq<char>)
    ensures
        expansion(p) matches Ok(patterns) ==> patterns.len() > 0 && forall|k: int|
            0 <= k < patterns.len() ==> first_open(#[trigger] patterns[k], 0) is None,
    decreases p.len(), 1int, 0int,
{
    if let Some(open) = first_open(p, 0) {
        lemma_first_open_bound(p, 0);
        lemma_alternatives_bound(p, open + 1);
        if let Some((alts, close)) = alternatives(p, open + 1) {
            lemma_each_brace_free(p, open, close, alts);
        }
    }
}

/// [`law_expansions_are_brace_free`], for the alternatives of a group.
proof fn lemma_each_brace_free(p: Seq<char>, open: int, close: int, alts: Seq<Seq<char>>)
    requires
        0 <= open < close < p.len(),
        forall|k: int| 0 <= k < alts.len() ==> (#[trigger] alts[k]).len() < close - open,
    ensures
        expansion_of_each(p, open, close, alts) matches Ok(patterns) ==> (alts.len() > 0
            ==> patterns.len() > 0) && forall|k: int|
            0 <= k < patterns.len() ==> first_open(#[trigger] patterns[k], 0) is None,
    decreases p.len(), 0int, alts.len(),
{
    if alts.len() > 0 {
        let q = spliced(p, open, close, alts[0]);
        assert(q.len() < p.len());
        law_expansions_are_brace_free(q);
        let rest = alts.drop_first();
        assert forall|k: int| 0 <= k < rest.len() implies (#[trigger] rest[k]).len() < close
            - open by {
            assert(rest[k] == alts[k + 1]);
        }
        lemma_each_brace_free(p, open, close, rest);
        if let Ok(patterns) = expansion_of_each(p, open, close, alts) {
            let first = expansion(q)->Ok_0;
            let more = expansion_of_each(p, open, close, rest)->Ok_0;
            assert forall|k: int| 0 <= k < patterns.len() implies first_open(
                #[trigger] patterns[k],
                0,
            ) is None by {
                if k < first.len() {
                    assert(patterns[k] == first[k]);
                } else {
                    assert(patterns[k] == more[k - first.len()]);
                }
            }
        }
    }
}

/// Law: a pattern without an unescaped `{` stands for itself alone; an escaped
/// brace and a bare `}` are left as they are.
pub proof fn law_pattern_without_group_is_its_expansion(p: Seq<char>)
    requires
        first_open(p, 0) is None,
    ensures
        expansion(p) == Ok::<Seq<Seq<char>>, Seq<char>>(seq![p]),
{
}

/// Whether `p`, read from index `i` on, ends in a `\` that escapes nothing.
pub open spec fn ends_escaping(p: Seq<char>, i: int) -> bool
    decreases p.len() - i,
{
    if i >= p.len() {
        false
    } else if p[i] == '\\' {
        i + 1 >= p.len() || ends_escaping(p, i + 2)
    } else {
        ends_escaping(p, i + 1)
    }
}

/// `x` followed by each of `ys`.
pub open spec fn prefixed(x: Seq<char>, ys: Seq<Seq<char>>) -> Seq<Seq<char>> {
    Seq::new(ys.len(), |k: int| x + ys[k])
}

/// Each of `xs` followed by each of `ys`: first the first of `xs` with all of
/// `ys`, then the second of `xs` with all of `ys`, and so on.
pub open spec fn product(xs: Seq<Seq<char>>, ys: Seq<Seq<char>>) -> Seq<Seq<char>>
    decreases xs.len(),
{
    if xs.len() == 0 {
        Seq::empty()
    } else {
        prefixed(xs[0], ys) + product(xs.drop_first(), ys)
    }
}

/// A product holds, for each of `xs` and each of `ys`, the one followed by the
/// other, with `xs` outside and `ys` inside.
pub proof fn lemma_product(xs: Seq<Seq<char>>, ys: Seq<Seq<char>>)
    ensures
        product(xs, ys).len() == xs.len() * ys.len(),
        forall|i: int, j: int|
            0 <= i < xs.len() && 0 <= j < ys.len() ==> #[trigger] (xs[i] + ys[j]) == product(
                xs,
                ys,
            )[i * ys.len() + j] && 0 <= i * ys.len() + j < product(xs, ys).len(),
    decreases xs.len(),
{
    let n = ys.len() as int;
    let all = product(xs, ys);
    if xs.len() == 0 {
        assert(xs.len() * ys.len() == 0) by (nonlinear_arith)
            requires
                xs.len() == 0,
        ;
    } else {
        let rest = xs.drop_first();
        let more = product(rest, ys);
        lemma_product(rest, ys);
        assert(xs.len() * n == n + rest.len() * n) by (nonlinear_arith)
            requires
                xs.len() == rest.len() + 1,
        ;
        assert forall|i: int, j: int| 0 <= i < xs.len() && 0 <= j < ys.len() implies #[trigger] (
        xs[i] + ys[j]) == all[i * n + j] && 0 <= i * n + j < all.len() by {
            if i == 0 {
                assert(i * n == 0) by (nonlinear_arith)
                    requires
                        i == 0,
                ;
                assert(all[j] == prefixed(xs[0], ys)[j]);
            } else {
                assert(i * n == n + (i - 1) * n) by (nonlinear_arith);
                assert(rest[i - 1] == xs[i]);
                assert(rest[i - 1] + ys[j] == more[(i - 1) * n + j]);
                assert(all[i * n + j] == more[(i - 1) * n + j]);
            }
        }
    }
}

proof fn lemma_product_concat(a: Seq<Seq<char>>, b: Seq<Seq<char>>, ys: Seq<Seq<char>>)
    ensures
        product(a + b, ys) == product(a, ys) + product(b, ys),
    decreases a.len(),
{
    if a.len() == 0 {
        assert(a + b =~= b);
        assert(product(a, ys) + product(b, ys) =~= product(b, ys));
    } else {
        lemma_product_concat(a.drop_first(), b, ys);
        assert((a + b).drop_first() =~= a.drop_first() + b);
        assert((a + b)[0] == a[0]);
        assert(prefixed(a[0], ys) + (product(a.drop_first(), ys) + product(b, ys)) =~= (prefixed(
            a[0],
            ys,
        ) + product(a.drop_first(), ys)) + product(b, ys));
    }
}

/// The first `{` of a text stays the first one with more text after it; without
/// one, and without a dangling escape, the search goes on behind the text.
pub proof fn lemma_first_open_concat(p: Seq<char>, q: Seq<char>, i: int)
    requires
        0 <= i <= p.len(),
    ensures
        first_open(p, i) is Some ==> first_open(p + q, i) == first_open(p, i),
        first_open(p, i) is None && !ends_escaping(p, i) ==> first_open(p + q, i) == first_open(
            p + q,
            p.len() as int,
        ),
    decreases p.len() - i,
{
    if i < p.len() {
        assert((p + q)[i] == p[i]);
        if p[i] == '\\' {
            if i + 1 < p.len() {
                lemma_first_open_concat(p, q, i + 2);
            }
        } else {
            lemma_first_open_concat(p, q, i + 1);
        }
    }
}

/// The first `{` of a text does not depend on what stands before the text.
pub proof fn lemma_first_open_shift(x: Seq<char>, y: Seq<char>, i: int)
    requires
        0 <= i,
    ensures
        first_open(x + y, x.len() + i) == match first_open(y, i) {
            Some(open) => Some(x.len() + open),
            None => None,
        },
    decreases y.len() - i,
{
    if i < y.len() {
        assert((x + y)[x.len() + i] == y[i]);
        if i + 1 < y.len() {
            lemma_first_open_shift(x, y, i + 2);
            assert(x.len() + (i + 2) == x.len() + i + 2);
        }
        lemma_first_open_shift(x, y, i + 1);
        assert(x.len() + (i + 1) == x.len() + i + 1);
    }
}

proof fn lemma_alternative_end_concat(p: Seq<char>, q: Seq<char>, i: int, depth: int)
    requires
        0 <= i,
        alternative_end(p, i, depth) is Some,
    ensures
        alternative_end(p + q, i, depth) == alternative_end(p, i, depth),
    decreases p.len() - i,
{
    assert((p + q)[i] == p[i]);
    if p[i] == '\\' {
        lemma_alternative_end_concat(p, q, i + 2, depth);
    } else if p[i] == '{' {
        lemma_alternative_end_concat(p, q, i + 1, depth + 1);
    } else if depth == 1 && (p[i] == '}' || p[i] == ',') {
    } else if p[i] == '}' {
        lemma_alternative_end_concat(p, q, i + 1, depth - 1);
    } else {
        lemma_alternative_end_concat(p, q, i + 1, depth);
    }
}

proof fn lemma_alternative_end_shift(x: Seq<char>, y: Seq<char>, i: int, depth: int)
    requires
        0 <= i,
    ensures
        alternative_end(x + y, x.len() + i, depth) == match alternative_end(y, i, depth) {
            Some(end) => Some(x.len() + end),
            None => None,
        },
    decreases y.len() - i,
{
    if i < y.len() {
        assert((x + y)[x.len() + i] == y[i]);
        if i + 1 < y.len() {
            lemma_alternative_end_shift(x, y, i + 2, depth);
            assert(x.len() + (i + 2) == x.len() + i + 2);
        }
        assert(x.len() + (i + 1) == x.len() + i + 1);
        lemma_alternative_end_shift(x, y, i + 1, depth);
        lemma_alternative_end_shift(x, y, i + 1, depth + 1);
        lemma_alternative_end_shift(x, y, i + 1, depth - 1);
    }
}

/// A group that is closed stays what it is with more text after it.
pub proof fn lemma_alternatives_concat(p: Seq<char>, q: Seq<char>, from: int)
    requires
        0 <= from,
        alternatives(p, from) is Some,
    ensures
        alternatives(p + q, from) == alternatives(p, from),
    decreases p.len() - from,
{
    lemma_alternative_end_concat(p, q, from, 1);
    lemma_alternative_end_bound(p, from, 1);
    let end = alternative_end(p, from, 1)->0;
    assert((p + q)[end] == p[end]);
    assert((p + q).subrange(from, end) =~= p.subrange(from, end));
    if p[end] == ',' {
        lemma_alternatives_concat(p, q, end + 1);
    }
}

/// What a group holds does not depend on what stands before it.
pub proof fn lemma_alternatives_shift(x: Seq<char>, y: Seq<char>, from: int)
    requires
        0 <= from,
    ensures
        alternatives(x + y, x.len() + from) == match alternatives(y, from) {
            Some((alts, close)) => Some((alts, x.len() + close)),
            None => None,
        },
    decreases y.len() - from,
{
    lemma_alternative_end_shift(x, y, from, 1);
    lemma_alternative_end_bound(y, from, 1);
    if let Some(end) = alternative_end(y, from, 1) {
        assert((x + y)[x.len() + end] == y[end]);
        assert((x + y).subrange(x.len() + from, x.len() + end) =~= y.subrange(from, end));
        if y[end] == ',' {
            lemma_alternatives_shift(x, y, end + 1);
            assert(x.len() + (end + 1) == x.len() + end + 1);
        }
    }
}

pub proof fn lemma_ends_escaping_shift(x: Seq<char>, y: Seq<char>, i: int)
    requires
        0 <= i,
    ensures
        ends_escaping(x + y, x.len() + i) == ends_escaping(y, i),
    decreases y.len() - i,
{
    if i < y.len() {
        assert((x + y)[x.len() + i] == y[i]);
        if i + 1 < y.len() {
            lemma_ends_escaping_shift(x, y, i + 2);
            assert(x.len() + (i + 2) == x.len() + i + 2);
        }
        lemma_ends_escaping_shift(x, y, i + 1);
        assert(x.len() + (i + 1) == x.len() + i + 1);
    }
}

/// No escape reaches across the first `{` of `p`, in any text that agrees with
/// `p` up to there.
pub proof fn lemma_ends_escaping_prefix(p: Seq<char>, q: Seq<char>, i: int, open: int)
    requires
        0 <= i,
        first_open(p, i) == Some(open),
        open <= q.len(),
        forall|k: int| 0 <= k < open ==> q[k] == p[k],
    ensures
        ends_escaping(q, i) == ends_escaping(q, open),
    decreases p.len() - i,
{
    lemma_first_open_bound(p, i);
    if i < open {
        assert(q[i] == p[i]);
        if p[i] == '\\' {
            lemma_first_open_bound(p, i + 2);
            lemma_ends_escaping_prefix(p, q, i + 2, open);
        } else {
            lemma_ends_escaping_prefix(p, q, i + 1, open);
        }
    }
}

/// No escape reaches across the end of an alternative: here `q` holds the
/// alternative `p[from..end]` at index `at`.
proof fn lemma_ends_escaping_inside(
    p: Seq<char>,
    q: Seq<char>,
    at: int,
    from: int,
    end: int,
    j: int,
    depth: int,
)
    requires
        0 <= at,
        0 <= from <= j <= end <= p.len(),
        alternative_end(p, j, depth) == Some(end),
        at + (end - from) <= q.len(),
        forall|k: int| from <= k < end ==> q[at + (k - from)] == #[trigger] p[k],
    ensures
        ends_escaping(q, at + (j - from)) == ends_escaping(q, at + (end - from)),
    decreases end - j,
{
    lemma_alternative_end_bound(p, j, depth);
    if depth == 1 && (p[j] == '}' || p[j] == ',') {
    } else if p[j] == '\\' {
        lemma_alternative_end_bound(p, j + 2, depth);
        assert(q[at + (j - from)] == p[j]);
        lemma_ends_escaping_inside(p, q, at, from, end, j + 2, depth);
    } else {
        let inner = if p[j] == '{' {
            depth + 1
        } else if p[j] == '}' {
            depth - 1
        } else {
            depth
        };
        lemma_alternative_end_bound(p, j + 1, inner);
        assert(q[at + (j - from)] == p[j]);
        lemma_ends_escaping_inside(p, q, at, from, end, j + 1, inner);
    }
}

/// No escape reaches across the end of a group.
pub proof fn lemma_ends_escaping_group(p: Seq<char>, from: int)
    requires
        0 <= from,
        alternatives(p, from) is Some,
    ensures
        alternatives(p, from) matches Some((_, close)) && ends_escaping(p, from) == ends_escaping(
            p,
            close + 1,
        ),
    decreases p.len() - from,
{
    lemma_alternative_end_bound(p, from, 1);
    let end = alternative_end(p, from, 1)->0;
    lemma_ends_escaping_inside(p, p, from, from, end, from, 1);
    if p[end] == ',' {
        lemma_ends_escaping_group(p, end + 1);
    }
}

/// Replacing the leftmost group by one of its alternatives leaves no dangling
/// escape that was not there before.
pub proof fn lemma_ends_escaping_spliced(p: Seq<char>, open: int, from: int)
    requires
        first_open(p, 0) == Some(open),
        open < from,
        alternatives(p, from) is Some,
    ensures
        alternatives(p, from) matches Some((alts, close)) && forall|k: int|
            0 <= k < alts.len() ==> ends_escaping(
                #[trigger] spliced(p, open, close, alts[k]),
                0,
            ) == ends_escaping(p, close + 1),
    decreases p.len() - from,
{
    let (alts, close) = alternatives(p, from)->0;
    lemma_first_open_bound(p, 0);
    lemma_alternative_end_bound(p, from, 1);
    lemma_alternatives_bound(p, from);
    let end = alternative_end(p, from, 1)->0;
    let alt = p.subrange(from, end);
    let q = spliced(p, open, close, alt);
    assert forall|k: int| 0 <= k < open implies q[k] == p[k] by {}
    lemma_ends_escaping_prefix(p, q, 0, open);
    assert forall|k: int| from <= k < end implies q[open + (k - from)] == #[trigger] p[k] by {
        assert(alt[k - from] == p[k]);
    }
    lemma_ends_escaping_inside(p, q, open, from, end, from, 1);
    let suffix = p.skip(close + 1);
    lemma_ends_escaping_shift(p.take(open) + alt, suffix, 0);
    lemma_ends_escaping_shift(p.take(close + 1), suffix, 0);
    assert(p.take(close + 1) + suffix =~= p);
    assert(alts[0] == alt);
    if p[end] == ',' {
        lemma_ends_escaping_spliced(p, open, end + 1);
        let (rest, rest_close) = alternatives(p, end + 1)->0;
        assert forall|k: int| 0 <= k < alts.len() implies ends_escaping(
            #[trigger] spliced(p, open, close, alts[k]),
            0,
        ) == ends_escaping(p, close + 1) by {
            if k > 0 {
                assert(alts[k] == rest[k - 1]);
                assert(spliced(p, open, close, rest[k - 1]) == spliced(p, open, close, alts[k]));
            }
        }
    }
}

/// Text without a group and without a dangling escape goes before each
/// expansion of what follows it.
proof fn lemma_expansion_after_plain(p: Seq<char>, q: Seq<char>)
    requires
        first_open(p, 0) is None,
        !ends_escaping(p, 0),
    ensures
        expansion(q) matches Ok(ys) ==> expansion(p + q) == Ok::<Seq<Seq<char>>, Seq<char>>(
            prefixed(p, ys),
        ),
    decreases q.len(), 1int, 0int,
{
    let n = p.len() as int;
    lemma_first_open_concat(p, q, 0);
    lemma_first_open_shift(p, q, 0);
    lemma_first_open_bound(q, 0);
    if let Some(open) = first_open(q, 0) {
        lemma_alternatives_shift(p, q, open + 1);
        assert(n + (open + 1) == n + open + 1);
        lemma_alternatives_bound(q, open + 1);
        if let Some((alts, close)) = alternatives(q, open + 1) {
            lemma_each_after_plain(p, q, open, close, alts);
        }
    } else {
        assert(prefixed(p, seq![q]) =~= seq![p + q]);
    }
}

/// [`lemma_expansion_after_plain`], for the alternatives of a group.
proof fn lemma_each_after_plain(
    p: Seq<char>,
    q: Seq<char>,
    open: int,
    close: int,
    alts: Seq<Seq<char>>,
)
    requires
        first_open(p, 0) is None,
        !ends_escaping(p, 0),
        0 <= open < close < q.len(),
        forall|k: int| 0 <= k < alts.len() ==> (#[trigger] alts[k]).len() < close - open,
    ensures
        expansion_of_each(q, open, close, alts) matches Ok(ys) ==> expansion_of_each(
            p + q,
            p.len() + open,
            p.len() + close,
            alts,
        ) == Ok::<Seq<Seq<char>>, Seq<char>>(prefixed(p, ys)),
    decreases q.len(), 0int, alts.len(),
{
    if alts.len() == 0 {
        assert(prefixed(p, Seq::empty()) =~= Seq::empty());
    } else {
        let small = spliced(q, open, close, alts[0]);
        let large = spliced(p + q, p.len() + open, p.len() + close, alts[0]);
        let rest = alts.drop_first();
        assert(small.len() < q.len());
        assert(large =~= p + small);
        lemma_expansion_after_plain(p, small);
        assert forall|k: int| 0 <= k < rest.len() implies (#[trigger] rest[k]).len() < close
            - open by {
            assert(rest[k] == alts[k + 1]);
        }
        lemma_each_after_plain(p, q, open, close, rest);
        if let Ok(ys) = expansion_of_each(q, open, close, alts) {
            let first = expansion(small)->Ok_0;
            let more = expansion_of_each(q, open, close, rest)->Ok_0;
            assert(prefixed(p, first) + prefixed(p, more) =~= prefixed(p, first + more));
        }
    }
}

/// Law: a pattern made of two stands for each expansion of the first followed
/// by each expansion of the second, with the first outside and the second
/// inside, unless the first ends in a `\` that would escape the start of the
/// second.
pub proof fn law_expansion_of_concat(p: Seq<char>, q: Seq<char>)
    requires
        expansion(p) is Ok,
        expansion(q) is Ok,
        !ends_escaping(p, 0),
    ensures
        expansion(p + q) == Ok::<Seq<Seq<char>>, Seq<char>>(
            product(expansion(p)->Ok_0, expansion(q)->Ok_0),
        ),
        product(expansion(p)->Ok_0, expansion(q)->Ok_0).len() == expansion(p)->Ok_0.len()
            * expansion(q)->Ok_0.len(),
        forall|i: int, j: int|
            0 <= i < expansion(p)->Ok_0.len() && 0 <= j < expansion(q)->Ok_0.len()
                ==> #[trigger] (expansion(p)->Ok_0[i] + expansion(q)->Ok_0[j]) == product(
                expansion(p)->Ok_0,
                expansion(q)->Ok_0,
            )[i * expansion(q)->Ok_0.len() + j] && 0 <= i * expansion(q)->Ok_0.len() + j < product(
                expansion(p)->Ok_0,
                expansion(q)->Ok_0,
            ).len(),
{
    lemma_expansion_of_concat(p, q);
    lemma_product(expansion(p)->Ok_0, expansion(q)->Ok_0);
}

proof fn lemma_expansion_of_concat(p: Seq<char>, q: Seq<char>)
    requires
        expansion(p) is Ok,
        expansion(q) is Ok,
        !ends_escaping(p, 0),
    ensures
        expansion(p + q) == Ok::<Seq<Seq<char>>, Seq<char>>(
            product(expansion(p)->Ok_0, expansion(q)->Ok_0),
        ),
    decreases p.len(), 1int, 0int,
{
    let ys = expansion(q)->Ok_0;
    if let Some(open) = first_open(p, 0) {
        lemma_first_open_bound(p, 0);
        lemma_first_open_concat(p, q, 0);
        let (alts, close) = alternatives(p, open + 1)->0;
        lemma_alternatives_bound(p, open + 1);
        lemma_alternatives_concat(p, q, open + 1);
        lemma_ends_escaping_prefix(p, p, 0, open);
        lemma_ends_escaping_group(p, open + 1);
        lemma_ends_escaping_spliced(p, open, open + 1);
        lemma_concat_of_each(p, q, open, close, alts);
    } else {
        lemma_expansion_after_plain(p, q);
        let one = seq![p];
        assert(product(one.drop_first(), ys) =~= Seq::empty());
        assert(product(one, ys) =~= prefixed(p, ys));
    }
}

/// [`lemma_expansion_of_concat`], for the alternatives of a group.
proof fn lemma_concat_of_each(
    p: Seq<char>,
    q: Seq<char>,
    open: int,
    close: int,
    alts: Seq<Seq<char>>,
)
    requires
        expansion_of_each(p, open, close, alts) is Ok,
        expansion(q) is Ok,
        0 <= open < close < p.len(),
        forall|k: int| 0 <= k < alts.len() ==> (#[trigger] alts[k]).len() < close - open,
        forall|k: int|
            0 <= k < alts.len() ==> !ends_escaping(
                #[trigger] spliced(p, open, close, alts[k]),
                0,
            ),
    ensures
        expansion_of_each(p + q, open, close, alts) == Ok::<Seq<Seq<char>>, Seq<char>>(
            product(expansion_of_each(p, open, close, alts)->Ok_0, expansion(q)->Ok_0),
        ),
    decreases p.len(), 0int, alts.len(),
{
    let ys = expansion(q)->Ok_0;
    if alts.len() > 0 {
        let small = spliced(p, open, close, alts[0]);
        let large = spliced(p + q, open, close, alts[0]);
        let rest = alts.drop_first();
        assert(small.len() < p.len());
        assert(large =~= small + q);
        lemma_expansion_of_concat(small, q);
        assert forall|k: int| 0 <= k < rest.len() implies (#[trigger] rest[k]).len() < close
            - open by {
            assert(rest[k] == alts[k + 1]);
        }
        assert forall|k: int| 0 <= k < rest.len() implies !ends_escaping(
            #[trigger] spliced(p, open, close, rest[k]),
            0,
        ) by {
            assert(rest[k] == alts[k + 1]);
            assert(spliced(p, open, close, alts[k + 1]) == spliced(p, open, close, rest[k]));
        }
        lemma_concat_of_each(p, q, open, close, rest);
        lemma_product_concat(
            expansion(small)->Ok_0,
            expansion_of_each(p, open, close, rest)->Ok_0,
            ys,
        );
    }
}

} // verus!
