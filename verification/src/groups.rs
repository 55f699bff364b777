//! What brace groups mean: a group stands for each of its alternatives in turn.

use vstd::prelude::*;

use crate::braces::alternative_end;
use crate::braces::alternatives;
use crate::braces::ends_escaping;
use crate::braces::expansion;
use crate::braces::expansion_of_each;
use crate::braces::first_open;
use crate::braces::law_expansion_of_concat;
use crate::braces::law_expansions_are_brace_free;
use crate::braces::law_pattern_without_group_is_its_expansion;
use crate::braces::law_unclosed_group_is_an_error;
use crate::braces::lemma_alternatives_bound;
use crate::braces::lemma_alternatives_concat;
use crate::braces::lemma_alternatives_shift;
use crate::braces::lemma_ends_escaping_group;
use crate::braces::lemma_ends_escaping_prefix;
use crate::braces::lemma_ends_escaping_shift;
use crate::braces::lemma_ends_escaping_spliced;
use crate::braces::lemma_first_open_bound;
use crate::braces::lemma_first_open_concat;
use crate::braces::lemma_first_open_shift;
use crate::braces::open_groups;
use crate::braces::product;
use crate::braces::spliced;

verus! {

/// Whether `t`, read from index `i` on with `depth` groups open, can stand as an
/// alternative: all its groups are closed, and outside of them it has neither a
/// `,` nor a `}`. A `\` keeps the character after it from counting, and there is
/// one after it.
pub open spec fn stands_alone(t: Seq<char>, i: int, depth: int) -> bool
    decreases t.len() - i,
{
    if i >= t.len() {
        depth == 0
    } else if t[i] == '\\' {
        i + 1 < t.len() && stands_alone(t, i + 2, depth)
    } else if t[i] == '{' {
        stands_alone(t, i + 1, depth + 1)
    } else if t[i] == '}' {
        depth > 0 && stands_alone(t, i + 1, depth - 1)
    } else {
        !(t[i] == ',' && depth == 0) && stands_alone(t, i + 1, depth)
    }
}

/// Alternatives with a `,` between them.
pub open spec fn with_commas(alts: Seq<Seq<char>>) -> Seq<char>
    decreases alts.len(),
{
    if alts.len() == 0 {
        Seq::empty()
    } else if alts.len() == 1 {
        alts[0]
    } else {
        alts[0] + seq![','] + with_commas(alts.drop_first())
    }
}

/// The group of the given alternatives.
pub open spec fn group_of(alts: Seq<Seq<char>>) -> Seq<char> {
    seq!['{'] + with_commas(alts) + seq!['}']
}

/// The expansions of all of `alts`, one after the other.
pub open spec fn all_expansions(alts: Seq<Seq<char>>) -> Seq<Seq<char>>
    decreases alts.len(),
{
    if alts.len() == 0 {
        Seq::empty()
    } else {
        expansion(alts[0])->Ok_0 + all_expansions(alts.drop_first())
    }
}

/// Whether all of `alts` can stand as alternatives.
pub open spec fn all_stand_alone(alts: Seq<Seq<char>>) -> bool {
    forall|k: int| 0 <= k < alts.len() ==> stands_alone(#[trigger] alts[k], 0, 0)
}

proof fn lemma_nothing_left_open(t: Seq<char>, i: int, depth: int)
    requires
        stands_alone(t, i, depth),
        depth >= 0,
    ensures
        open_groups(t, i, depth) == 0,
    decreases t.len() - i,
{
    if i < t.len() {
        if t[i] == '\\' {
            lemma_nothing_left_open(t, i + 2, depth);
        } else if t[i] == '{' {
            lemma_nothing_left_open(t, i + 1, depth + 1);
        } else if t[i] == '}' {
            lemma_nothing_left_open(t, i + 1, depth - 1);
        } else {
            lemma_nothing_left_open(t, i + 1, depth);
        }
    }
}

/// An alternative ends where its text ends.
proof fn lemma_alternative_is_read(
    x: Seq<char>,
    t: Seq<char>,
    y: Seq<char>,
    i: int,
    depth: int,
)
    requires
        0 <= i <= t.len(),
        depth >= 0,
        stands_alone(t, i, depth),
        y.len() > 0,
        y[0] == ',' || y[0] == '}',
    ensures
        alternative_end(x + t + y, x.len() + i, depth + 1) == Some((x.len() + t.len()) as int),
    decreases t.len() - i,
{
    let p = x + t + y;
    let at = x.len() + i;
    if i == t.len() {
        assert(p[at as int] == y[0]);
    } else {
        assert(p[at as int] == t[i]);
        if t[i] == '\\' {
            lemma_alternative_is_read(x, t, y, i + 2, depth);
            assert(x.len() + (i + 2) == at + 2);
        } else if t[i] == '{' {
            lemma_alternative_is_read(x, t, y, i + 1, depth + 1);
            assert(x.len() + (i + 1) == at + 1);
        } else if t[i] == '}' {
            lemma_alternative_is_read(x, t, y, i + 1, depth - 1);
            assert(x.len() + (i + 1) == at + 1);
        } else {
            lemma_alternative_is_read(x, t, y, i + 1, depth);
            assert(x.len() + (i + 1) == at + 1);
        }
    }
}

/// The alternatives of a group are read as such.
proof fn lemma_group_is_read(x: Seq<char>, alts: Seq<Seq<char>>)
    requires
        alts.len() > 0,
        all_stand_alone(alts),
    ensures
        alternatives(x + with_commas(alts) + seq!['}'], x.len() as int) == Some(
            (alts, (x.len() + with_commas(alts).len()) as int),
        ),
    decreases alts.len(),
{
    let t = alts[0];
    let p = x + with_commas(alts) + seq!['}'];
    let from = x.len() as int;
    let end = from + t.len();
    assert(stands_alone(alts[0], 0, 0));
    if alts.len() == 1 {
        lemma_alternative_is_read(x, t, seq!['}'], 0, 0);
        assert(p[end] == '}');
        assert(p.subrange(from, end) =~= t);
        assert(seq![t] =~= alts);
    } else {
        let more = alts.drop_first();
        let tail = seq![','] + with_commas(more) + seq!['}'];
        assert(p =~= x + t + tail);
        lemma_alternative_is_read(x, t, tail, 0, 0);
        assert(p[end] == ',');
        assert(p.subrange(from, end) =~= t);
        let front = x + t + seq![','];
        assert(p =~= front + with_commas(more) + seq!['}']);
        assert forall|k: int| 0 <= k < more.len() implies stands_alone(
            #[trigger] more[k],
            0,
            0,
        ) by {
            assert(more[k] == alts[k + 1]);
        }
        lemma_group_is_read(front, more);
        assert(seq![t] + more =~= alts);
    }
}

/// Replacing a whole pattern that is one group by each alternative gives the
/// expansions of all alternatives.
proof fn lemma_each_alternative(p: Seq<char>, alts: Seq<Seq<char>>)
    requires
        p.len() > 0,
        all_stand_alone(alts),
        forall|k: int| 0 <= k < alts.len() ==> (#[trigger] alts[k]).len() < p.len(),
    ensures
        expansion_of_each(p, 0, p.len() - 1, alts) == Ok::<Seq<Seq<char>>, Seq<char>>(
            all_expansions(alts),
        ),
    decreases alts.len(),
{
    if alts.len() > 0 {
        let first = alts[0];
        let more = alts.drop_first();
        assert(spliced(p, 0, p.len() - 1, first) =~= first);
        assert(stands_alone(alts[0], 0, 0));
        lemma_nothing_left_open(first, 0, 0);
        law_unclosed_group_is_an_error(first);
        assert forall|k: int| 0 <= k < more.len() implies stands_alone(
            #[trigger] more[k],
            0,
            0,
        ) && more[k].len() < p.len() by {
            assert(more[k] == alts[k + 1]);
        }
        lemma_each_alternative(p, more);
    }
}

proof fn lemma_alternatives_are_shorter(alts: Seq<Seq<char>>, k: int)
    requires
        0 <= k < alts.len(),
    ensures
        alts[k].len() <= with_commas(alts).len(),
    decreases alts.len(),
{
    if alts.len() > 1 && k > 0 {
        lemma_alternatives_are_shorter(alts.drop_first(), k - 1);
        assert(alts.drop_first()[k - 1] == alts[k]);
    }
}

/// Law: a group stands for all that its alternatives stand for, one after the
/// other, none of them left out.
pub proof fn law_group_stands_for_its_alternatives(alts: Seq<Seq<char>>)
    requires
        alts.len() > 0,
        all_stand_alone(alts),
    ensures
        expansion(group_of(alts)) == Ok::<Seq<Seq<char>>, Seq<char>>(all_expansions(alts)),
        forall|k: int| 0 <= k < alts.len() ==> expansion(#[trigger] alts[k]) is Ok,
        !ends_escaping(group_of(alts), 0),
{
    let p = group_of(alts);
    let x = seq!['{'];
    let close = p.len() - 1;
    assert(p == x + with_commas(alts) + seq!['}']);
    assert(p[0] == '{');
    assert(first_open(p, 0) == Some(0int));
    lemma_group_is_read(x, alts);
    assert(alternatives(p, 1) == Some((alts, close)));
    assert forall|k: int| 0 <= k < alts.len() implies (#[trigger] alts[k]).len() < p.len()
        && expansion(alts[k]) is Ok by {
        assert(stands_alone(alts[k], 0, 0));
        lemma_alternatives_are_shorter(alts, k);
        lemma_nothing_left_open(alts[k], 0, 0);
        law_unclosed_group_is_an_error(alts[k]);
    }
    lemma_each_alternative(p, alts);
    lemma_ends_escaping_group(p, 1);
    assert(ends_escaping(p, 0) == ends_escaping(p, 1));
}

/// Law: a group with something before and after it stands for each expansion of
/// what is before, followed by each of all that its alternatives stand for,
/// followed by each expansion of what is after.
pub proof fn law_group_between(before: Seq<char>, alts: Seq<Seq<char>>, after: Seq<char>)
    requires
        expansion(before) is Ok,
        !ends_escaping(before, 0),
        alts.len() > 0,
        all_stand_alone(alts),
        expansion(after) is Ok,
    ensures
        expansion(before + (group_of(alts) + after)) == Ok::<Seq<Seq<char>>, Seq<char>>(
            product(
                expansion(before)->Ok_0,
                product(all_expansions(alts), expansion(after)->Ok_0),
            ),
        ),
{
    law_group_stands_for_its_alternatives(alts);
    law_expansion_of_concat(group_of(alts), after);
    law_expansion_of_concat(before, group_of(alts) + after);
}

/// Whether `t` holds none of the characters that mean something to groups.
pub open spec fn is_free_of_groups(t: Seq<char>) -> bool {
    !t.contains('{') && !t.contains('}') && !t.contains(',') && !t.contains('\\')
}

proof fn lemma_free_of_groups(t: Seq<char>, i: int)
    requires
        is_free_of_groups(t),
        0 <= i <= t.len(),
    ensures
        stands_alone(t, i, 0),
        first_open(t, i) is None,
    decreases t.len() - i,
{
    if i < t.len() {
        assert(t.contains(t[i]));
        lemma_free_of_groups(t, i + 1);
    }
}

/// Law: a group of texts that hold no `{`, `}`, `,` and `\` stands for exactly
/// these texts, in order.
pub proof fn law_group_of_texts(texts: Seq<Seq<char>>)
    requires
        texts.len() > 0,
        forall|k: int| 0 <= k < texts.len() ==> is_free_of_groups(#[trigger] texts[k]),
    ensures
        expansion(group_of(texts)) == Ok::<Seq<Seq<char>>, Seq<char>>(texts),
{
    assert forall|k: int| 0 <= k < texts.len() implies stands_alone(#[trigger] texts[k], 0, 0) by {
        lemma_free_of_groups(texts[k], 0);
    }
    law_group_stands_for_its_alternatives(texts);
    lemma_expansions_of_texts(texts);
}

proof fn lemma_expansions_of_texts(texts: Seq<Seq<char>>)
    requires
        forall|k: int| 0 <= k < texts.len() ==> is_free_of_groups(#[trigger] texts[k]),
    ensures
        all_expansions(texts) == texts,
    decreases texts.len(),
{
    if texts.len() == 0 {
        assert(texts =~= Seq::empty());
    } else {
        let more = texts.drop_first();
        assert forall|k: int| 0 <= k < more.len() implies is_free_of_groups(#[trigger] more[k]) by {
            assert(more[k] == texts[k + 1]);
        }
        assert(is_free_of_groups(texts[0]));
        lemma_free_of_groups(texts[0], 0);
        law_pattern_without_group_is_its_expansion(texts[0]);
        lemma_expansions_of_texts(more);
        assert(seq![texts[0]] + more =~= texts);
    }
}

/// Law: a character other than `{` and `\` stands for itself, be it `}` or `,`;
/// so does a `\` with the character that it escapes, whichever that is; and so
/// does a `\` at the end. None of them but the last escapes what follows.
pub proof fn law_characters_stand_for_themselves(c: char)
    ensures
        c != '{' && c != '\\' ==> expansion(seq![c]) == Ok::<Seq<Seq<char>>, Seq<char>>(
            seq![seq![c]],
        ) && !ends_escaping(seq![c], 0),
        expansion(seq!['\\', c]) == Ok::<Seq<Seq<char>>, Seq<char>>(seq![seq!['\\', c]]),
        !ends_escaping(seq!['\\', c], 0),
        expansion(seq!['\\']) == Ok::<Seq<Seq<char>>, Seq<char>>(seq![seq!['\\']]),
        ends_escaping(seq!['\\'], 0),
        expansion(Seq::empty()) == Ok::<Seq<Seq<char>>, Seq<char>>(seq![Seq::empty()]),
        !ends_escaping(Seq::empty(), 0),
{
    if c != '{' && c != '\\' {
        assert(first_open(seq![c], 1) is None);
        assert(!ends_escaping(seq![c], 1));
        law_pattern_without_group_is_its_expansion(seq![c]);
    }
    assert(first_open(seq!['\\', c], 2) is None);
    assert(!ends_escaping(seq!['\\', c], 2));
    law_pattern_without_group_is_its_expansion(seq!['\\', c]);
    assert(first_open(seq!['\\'], 0) is None);
    law_pattern_without_group_is_its_expansion(seq!['\\']);
    law_pattern_without_group_is_its_expansion(Seq::empty());
}

proof fn lemma_escape_after(p: Seq<char>, q: Seq<char>, i: int)
    requires
        0 <= i <= p.len(),
        !ends_escaping(p, i),
    ensures
        ends_escaping(p + q, i) == ends_escaping(q, 0),
    decreases p.len() - i,
{
    if i == p.len() {
        lemma_ends_escaping_shift(p, q, 0);
    } else if p[i] == '\\' {
        lemma_escape_after(p, q, i + 2);
    } else {
        lemma_escape_after(p, q, i + 1);
    }
}

/// Law: whether a pattern ends in a `\` that would escape what follows is told
/// from its second part alone, if its first part does not escape the start of
/// the second.
pub proof fn law_escape_after(p: Seq<char>, q: Seq<char>)
    requires
        !ends_escaping(p, 0),
    ensures
        ends_escaping(p + q, 0) == ends_escaping(q, 0),
{
    lemma_escape_after(p, q, 0);
}

/// Whether no `}` in `t`, read from index `i` on with `depth` groups open, closes
/// the outermost of them.
pub open spec fn never_closes(t: Seq<char>, i: int, depth: int) -> bool
    decreases t.len() - i,
{
    if i >= t.len() {
        true
    } else if t[i] == '\\' {
        i + 1 >= t.len() || never_closes(t, i + 2, depth)
    } else if t[i] == '{' {
        never_closes(t, i + 1, depth + 1)
    } else if t[i] == '}' {
        depth > 1 && never_closes(t, i + 1, depth - 1)
    } else {
        never_closes(t, i + 1, depth)
    }
}

/// In a group that is never closed, an alternative either does not end or ends
/// at a `,` after which the group is not closed either.
proof fn lemma_never_closes(t: Seq<char>, i: int, depth: int)
    requires
        0 <= i,
        depth >= 1,
        never_closes(t, i, depth),
    ensures
        match alternative_end(t, i, depth) {
            None => true,
            Some(end) => i <= end < t.len() && t[end] == ',' && never_closes(t, end + 1, 1),
        },
    decreases t.len() - i,
{
    if i < t.len() {
        if t[i] == '\\' {
            if i + 1 < t.len() {
                lemma_never_closes(t, i + 2, depth);
            }
        } else if t[i] == '{' {
            lemma_never_closes(t, i + 1, depth + 1);
        } else if t[i] == '}' {
            lemma_never_closes(t, i + 1, depth - 1);
        } else if t[i] == ',' && depth == 1 {
        } else {
            lemma_never_closes(t, i + 1, depth);
        }
    }
}

proof fn lemma_no_alternatives(t: Seq<char>, from: int)
    requires
        0 <= from,
        never_closes(t, from, 1),
    ensures
        alternatives(t, from) is None,
    decreases t.len() - from,
{
    lemma_never_closes(t, from, 1);
    if let Some(end) = alternative_end(t, from, 1) {
        lemma_no_alternatives(t, end + 1);
    }
}

/// Law: a pattern that starts with a group which is never closed is an error,
/// and the error names the pattern.
pub proof fn law_unclosed_group_is_named(p: Seq<char>)
    requires
        p.len() > 0,
        p[0] == '{',
        never_closes(p, 1, 1),
    ensures
        expansion(p) == Err::<Seq<Seq<char>>, Seq<char>>(p),
{
    assert(first_open(p, 0) == Some(0int));
    lemma_no_alternatives(p, 1);
}

/// Law: if what follows is an error, the whole is one, and names the first
/// expansion of what is before, followed by what the error names.
pub proof fn law_error_after(p: Seq<char>, q: Seq<char>)
    requires
        expansion(p) is Ok,
        !ends_escaping(p, 0),
        expansion(q) is Err,
    ensures
        expansion(p)->Ok_0.len() > 0,
        expansion(p + q) == Err::<Seq<Seq<char>>, Seq<char>>(
            expansion(p)->Ok_0[0] + expansion(q)->Err_0,
        ),
    decreases p.len(),
{
    law_expansions_are_brace_free(p);
    if let Some(open) = first_open(p, 0) {
        lemma_first_open_bound(p, 0);
        lemma_first_open_concat(p, q, 0);
        let (alts, close) = alternatives(p, open + 1)->0;
        lemma_alternatives_bound(p, open + 1);
        lemma_alternatives_concat(p, q, open + 1);
        lemma_ends_escaping_prefix(p, p, 0, open);
        lemma_ends_escaping_group(p, open + 1);
        lemma_ends_escaping_spliced(p, open, open + 1);
        let small = spliced(p, open, close, alts[0]);
        let large = spliced(p + q, open, close, alts[0]);
        assert(small.len() < p.len());
        assert(large =~= small + q);
        assert(expansion(small) is Ok);
        law_error_after(small, q);
        let first = expansion(small)->Ok_0;
        assert(expansion(p)->Ok_0[0] == first[0]);
    } else {
        lemma_error_after_plain(p, q);
    }
}

proof fn lemma_error_after_plain(p: Seq<char>, q: Seq<char>)
    requires
        first_open(p, 0) is None,
        !ends_escaping(p, 0),
    ensures
        match expansion(q) {
            Err(unclosed) => expansion(p + q) == Err::<Seq<Seq<char>>, Seq<char>>(p + unclosed),
            Ok(_) => expansion(p + q) is Ok,
        },
    decreases q.len(), 1int, 0int,
{
    let n = p.len() as int;
    lemma_first_open_concat(p, q, 0);
    lemma_first_open_shift(p, q, 0);
    lemma_first_open_bound(q, 0);
    if let Some(open) = first_open(q, 0) {
        lemma_alternatives_shift(p, q, open + 1);
        assert(n + (open + 1) == n + open + 1);
        lemma_alternatives_bound(q, open + 1);
        if let Some((alts, close)) = alternatives(q, open + 1) {
            lemma_error_in_each_after_plain(p, q, open, close, alts);
        }
    }
}

proof fn lemma_error_in_each_after_plain(
    p: Seq<char>,
    q: Seq<char>,
    open: int,
    close: int,
    alts: Seq<Seq<char>>,
)
    requires
        first_open(p, 0) is None,
        !ends_escaping(p, 0),
        0 <= open < close < q.len(),
        forall|k: int| 0 <= k < alts.len() ==> (#[trigger] alts[k]).len() < close - open,
    ensures
        match expansion_of_each(q, open, close, alts) {
            Err(unclosed) => expansion_of_each(p + q, p.len() + open, p.len() + close, alts)
                == Err::<Seq<Seq<char>>, Seq<char>>(p + unclosed),
            Ok(_) => expansion_of_each(p + q, p.len() + open, p.len() + close, alts) is Ok,
        },
    decreases q.len(), 0int, alts.len(),
{
    if alts.len() > 0 {
        let small = spliced(q, open, close, alts[0]);
        let large = spliced(p + q, p.len() + open, p.len() + close, alts[0]);
        let rest = alts.drop_first();
        assert(small.len() < q.len());
        assert(large =~= p + small);
        lemma_error_after_plain(p, small);
        assert forall|k: int| 0 <= k < rest.len() implies (#[trigger] rest[k]).len() < close
            - open by {
            assert(rest[k] == alts[k + 1]);
        }
        lemma_error_in_each_after_plain(p, q, open, close, rest);
    }
}

} // verus!
