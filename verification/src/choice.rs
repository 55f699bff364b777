//! What a glob pattern selects, told from the patterns that it is made of.

use vstd::prelude::*;

use crate::braces::ends_escaping;
use crate::braces::expansion;
use crate::braces::first_open;
use crate::braces::law_expansion_of_concat;
use crate::braces::law_expansions_are_brace_free;
use crate::braces::law_pattern_without_group_is_its_expansion;
use crate::braces::law_unclosed_group_is_an_error;
use crate::braces::lemma_product;
use crate::braces::open_groups;
use crate::braces::prefixed;
use crate::braces::product;
use crate::component::comp_matches;
use crate::component::component_of;
use crate::component::components_of;
use crate::component::has_wildcard;
use crate::component::law_component_matches_as_pattern;
use crate::component::lemma_literal_tokens;
use crate::component::lemma_next_slash_bound;
use crate::component::next_slash;
use crate::component::pieces;
use crate::component::unescaped;
use crate::component::Comp;
use crate::error::ErrorModel;
use crate::error::KindModel;
use crate::glob::compiled;
use crate::glob::component_lists;
use crate::glob::has_two_crawls;
use crate::glob::literal_names;
use crate::glob::path_of;
use crate::glob::plan_of;
use crate::glob::shared_literal;
use crate::glob::shared_literals;
use crate::glob::slashed;
use crate::glob::start_states;
use crate::glob::PlanModel;
use crate::groups::all_expansions;
use crate::groups::all_stand_alone;
use crate::groups::group_of;
use crate::groups::law_group_between;
use crate::groups::law_group_stands_for_its_alternatives;
use crate::groups::stands_alone;
use crate::pattern::matches_pattern;
use crate::pattern::tokens_from;
use crate::reach::root_names;
use crate::selection::lemma_last_crawl;
use crate::selection::lemma_literal_prefix;
use crate::selection::lemma_shared_literals;
use crate::selection::path_matches;
use crate::selection::selects;

verus! {

/// Law: no text, no components.
pub proof fn law_components_of_nothing()
    ensures
        components_of(Seq::empty()) == Seq::<Comp>::empty(),
{
    assert(pieces(Seq::empty(), 0) == Seq::<Seq<char>>::empty());
    assert(components_of(Seq::empty()) =~= Seq::<Comp>::empty());
}

proof fn lemma_no_slash(t: Seq<char>, i: int)
    requires
        !t.contains('/'),
        0 <= i <= t.len(),
    ensures
        next_slash(t, i) == t.len(),
    decreases t.len() - i,
{
    if i < t.len() {
        assert(t.contains(t[i]));
        lemma_no_slash(t, i + 1);
    }
}

/// Law: text without a `/` is one component.
pub proof fn law_components_of_name(t: Seq<char>)
    requires
        t.len() > 0,
        !t.contains('/'),
    ensures
        components_of(t) == seq![component_of(t)],
{
    lemma_no_slash(t, 0);
    assert(t.subrange(0, t.len() as int) =~= t);
    assert(pieces(t, t.len() as int) == Seq::<Seq<char>>::empty());
    assert(pieces(t, 0) =~= seq![t]);
    assert(components_of(t) =~= seq![component_of(t)]);
}

/// A `/` behind a text ends its last piece, if nothing else did.
proof fn lemma_next_slash_concat(a: Seq<char>, b: Seq<char>, i: int)
    requires
        0 <= i <= a.len(),
    ensures
        next_slash(a + seq!['/'] + b, i) == next_slash(a, i),
    decreases a.len() - i,
{
    let s = a + seq!['/'] + b;
    if i < a.len() {
        assert(s[i] == a[i]);
        lemma_next_slash_concat(a, b, i + 1);
    } else {
        assert(s[i] == '/');
    }
}

proof fn lemma_next_slash_shift(x: Seq<char>, y: Seq<char>, i: int)
    requires
        0 <= i <= y.len(),
    ensures
        next_slash(x + y, x.len() + i) == x.len() + next_slash(y, i),
    decreases y.len() - i,
{
    if i < y.len() {
        assert((x + y)[x.len() + i] == y[i]);
        lemma_next_slash_shift(x, y, i + 1);
        assert(x.len() + (i + 1) == x.len() + i + 1);
    }
}

proof fn lemma_pieces_shift(x: Seq<char>, y: Seq<char>, i: int)
    requires
        0 <= i <= y.len(),
    ensures
        pieces(x + y, x.len() + i) == pieces(y, i),
    decreases y.len() - i,
{
    let s = x + y;
    if i < y.len() {
        lemma_next_slash_bound(y, i);
        lemma_next_slash_shift(x, y, i);
        let end = next_slash(y, i);
        if end == i {
            lemma_pieces_shift(x, y, i + 1);
            assert(x.len() + (i + 1) == x.len() + i + 1);
        } else {
            lemma_pieces_shift(x, y, end);
            assert(s.subrange(x.len() + i, x.len() + end) =~= y.subrange(i, end));
        }
    }
}

proof fn lemma_pieces_concat(a: Seq<char>, b: Seq<char>, i: int)
    requires
        0 <= i <= a.len(),
    ensures
        pieces(a + seq!['/'] + b, i) == pieces(a, i) + pieces(b, 0),
    decreases a.len() - i,
{
    let s = a + seq!['/'] + b;
    let n = a.len() as int;
    if i == n {
        assert(s[n] == '/');
        assert(next_slash(s, n) == n);
        lemma_pieces_shift(a + seq!['/'], b, 0);
        assert(pieces(s, n) == pieces(s, n + 1));
        assert(pieces(a, n) + pieces(b, 0) =~= pieces(b, 0));
    } else {
        lemma_next_slash_bound(a, i);
        lemma_next_slash_concat(a, b, i);
        let end = next_slash(a, i);
        if end == i {
            lemma_pieces_concat(a, b, i + 1);
        } else {
            lemma_pieces_concat(a, b, end);
            assert(s.subrange(i, end) =~= a.subrange(i, end));
            assert(seq![a.subrange(i, end)] + (pieces(a, end) + pieces(b, 0)) =~= (seq![
                a.subrange(i, end),
            ] + pieces(a, end)) + pieces(b, 0));
        }
    }
}

/// Law: a `/` divides a pattern: its components are those before the `/` and
/// those after it.
pub proof fn law_components_of_slash(a: Seq<char>, b: Seq<char>)
    ensures
        components_of(a + seq!['/'] + b) == components_of(a) + components_of(b),
{
    lemma_pieces_concat(a, b, 0);
    assert(components_of(a + seq!['/'] + b) =~= components_of(a) + components_of(b));
}

/// Law: a component crawls exactly if its text is `**`.
pub proof fn law_crawl_is_two_stars(t: Seq<char>)
    ensures
        component_of(t) is Crawl <==> t == seq!['*', '*'],
{
}

proof fn lemma_well_formed_without_wildcard(c: Seq<char>, i: int)
    requires
        0 <= i <= c.len(),
        !has_wildcard(c, i),
        !ends_escaping(c, i),
    ensures
        tokens_from(c, i) is Some,
    decreases c.len() - i,
{
    if i < c.len() {
        if c[i] == '\\' {
            lemma_well_formed_without_wildcard(c, i + 2);
        } else {
            lemma_well_formed_without_wildcard(c, i + 1);
        }
    }
}

/// Law: a component that is not `**` and has no dangling escape matches exactly
/// the names that its text matches as a pattern.
pub proof fn law_component_matches(t: Seq<char>, name: Seq<char>)
    requires
        t != seq!['*', '*'],
        !ends_escaping(t, 0),
    ensures
        comp_matches(component_of(t), name) == matches_pattern(name, t),
{
    if !has_wildcard(t, 0) {
        lemma_well_formed_without_wildcard(t, 0);
    }
    law_component_matches_as_pattern(t, name);
}

proof fn lemma_dangling(t: Seq<char>, i: int)
    requires
        0 <= i <= t.len(),
        !t.contains('*'),
        !t.contains('?'),
        !t.contains('['),
        !ends_escaping(t, i),
    ensures
        !has_wildcard(t + seq!['\\'], i),
        !has_wildcard(t, i),
        unescaped(t + seq!['\\'], i) == unescaped(t, i) + seq!['\\'],
    decreases t.len() - i,
{
    let c = t + seq!['\\'];
    if i == t.len() {
        assert(c[i] == '\\');
        assert(unescaped(t, i) + seq!['\\'] =~= seq!['\\']);
    } else {
        assert(c[i] == t[i]);
        assert(t.contains(t[i]));
        if t[i] == '\\' {
            assert(c[i + 1] == t[i + 1]);
            lemma_dangling(t, i + 2);
            assert(seq![t[i + 1]] + (unescaped(t, i + 2) + seq!['\\']) =~= (seq![t[i + 1]]
                + unescaped(t, i + 2)) + seq!['\\']);
        } else {
            lemma_dangling(t, i + 1);
            assert(seq![t[i]] + (unescaped(t, i + 1) + seq!['\\']) =~= (seq![t[i]] + unescaped(
                t,
                i + 1,
            )) + seq!['\\']);
        }
    }
}

/// Law: a component without wildcards and with a dangling escape keeps the
/// escape as a character: it matches what it would match without it, followed by
/// a `\`.
pub proof fn law_dangling_escape_is_kept(t: Seq<char>, name: Seq<char>)
    requires
        !t.contains('*'),
        !t.contains('?'),
        !t.contains('['),
        !ends_escaping(t, 0),
    ensures
        comp_matches(component_of(t + seq!['\\']), name) <==> name.len() > 0 && name.last() == '\\'
            && matches_pattern(name.drop_last(), t),
{
    let c = t + seq!['\\'];
    lemma_dangling(t, 0);
    lemma_well_formed_without_wildcard(t, 0);
    assert(c.last() == '\\');
    assert(c != seq!['*', '*']);
    if name.len() > 0 {
        lemma_literal_tokens(t, 0, name.drop_last());
        if name.last() == '\\' {
            assert(name =~= name.drop_last() + seq!['\\']);
        }
        if name == unescaped(t, 0) + seq!['\\'] {
            assert(name.drop_last() =~= unescaped(t, 0));
        }
    }
}

/// Whether the first `k` of `names` are matched by `a` and the others by `b`.
pub open spec fn path_divides(
    a: Seq<Comp>,
    b: Seq<Comp>,
    names: Seq<Seq<char>>,
    k: int,
) -> bool {
    0 <= k <= names.len() && path_matches(a, names.take(k)) && path_matches(b, names.skip(k))
}

/// Law: components one after the other match exactly the paths that can be
/// divided into a path that the first match and a path that the second match.
pub proof fn law_path_matches_concat(a: Seq<Comp>, b: Seq<Comp>, names: Seq<Seq<char>>)
    ensures
        path_matches(a + b, names) <==> exists|k: int| path_divides(a, b, names, k),
    decreases a.len(), names.len(),
{
    if a.len() == 0 {
        assert(a + b =~= b);
        assert(names.skip(0) =~= names);
        assert(names.take(0).len() == 0);
        if path_matches(b, names) {
            assert(path_divides(a, b, names, 0));
        }
    } else {
        let rest = a.skip(1);
        assert((a + b).skip(1) =~= rest + b);
        assert((a + b)[0] == a[0]);
        if a[0] is Crawl {
            law_path_matches_concat(rest, b, names);
            if names.len() > 0 {
                law_path_matches_concat(a, b, names.skip(1));
            }
            if path_matches(rest + b, names) {
                let k = choose|k: int| path_divides(rest, b, names, k);
                assert(path_divides(a, b, names, k));
            } else if path_matches(a + b, names) {
                let tail = names.skip(1);
                let k = choose|k: int| path_divides(a, b, tail, k);
                assert(names.take(k + 1).skip(1) =~= tail.take(k));
                assert(names.skip(k + 1) =~= tail.skip(k));
                assert(path_divides(a, b, names, k + 1));
            }
            assert forall|k: int| path_divides(a, b, names, k) implies path_matches(a + b, names) by {
                if path_matches(rest, names.take(k)) {
                    assert(path_divides(rest, b, names, k));
                } else {
                    let tail = names.skip(1);
                    assert(names.take(k).skip(1) =~= tail.take(k - 1));
                    assert(names.skip(k) =~= tail.skip(k - 1));
                    assert(path_divides(a, b, tail, k - 1));
                }
            }
        } else if names.len() > 0 {
            let tail = names.skip(1);
            law_path_matches_concat(rest, b, tail);
            if path_matches(a + b, names) {
                let k = choose|k: int| path_divides(rest, b, tail, k);
                assert(names.take(k + 1).skip(1) =~= tail.take(k));
                assert(names.skip(k + 1) =~= tail.skip(k));
                assert(path_divides(a, b, names, k + 1));
            }
            assert forall|k: int| path_divides(a, b, names, k) implies path_matches(a + b, names) by {
                assert(names.take(k).skip(1) =~= tail.take(k - 1));
                assert(names.skip(k) =~= tail.skip(k - 1));
                assert(path_divides(rest, b, tail, k - 1));
            }
        }
    }
}

/// Law: no components match no names; a `**` matches any number of names; any
/// other component matches one name, which it matches.
pub proof fn law_path_matches_one(c: Comp, names: Seq<Seq<char>>)
    ensures
        path_matches(Seq::empty(), names) <==> names.len() == 0,
        c is Crawl ==> path_matches(seq![c], names),
        !(c is Crawl) ==> (path_matches(seq![c], names) <==> names.len() == 1 && comp_matches(
            c,
            names[0],
        )),
{
    if c is Crawl {
        lemma_last_crawl(seq![c], names);
    } else if names.len() > 0 {
        assert(seq![c].skip(1) =~= Seq::empty());
        assert(path_matches(seq![c].skip(1), names.skip(1)) == (names.skip(1).len() == 0));
    }
}

/// Whether the first `k` of `names` are selected by `a` and the others by `b`.
pub open spec fn selection_divides(
    a: Seq<char>,
    b: Seq<char>,
    names: Seq<Seq<char>>,
    k: int,
) -> bool {
    0 <= k <= names.len() && selects(a, names.take(k)) && selects(b, names.skip(k))
}

/// What is in a product is one of the first followed by one of the second.
proof fn lemma_in_product(xs: Seq<Seq<char>>, ys: Seq<Seq<char>>, k: int) -> (r: (int, int))
    requires
        0 <= k < product(xs, ys).len(),
    ensures
        0 <= r.0 < xs.len(),
        0 <= r.1 < ys.len(),
        product(xs, ys)[k] == xs[r.0] + ys[r.1],
    decreases xs.len(),
{
    let first = prefixed(xs[0], ys);
    if k < first.len() {
        (0, k)
    } else {
        let rest = xs.drop_first();
        let (i, j) = lemma_in_product(rest, ys, k - first.len());
        assert(rest[i] == xs[i + 1]);
        (i + 1, j)
    }
}

proof fn lemma_product_has(xs: Seq<Seq<char>>, ys: Seq<Seq<char>>, i: int, j: int) -> (k: int)
    requires
        0 <= i < xs.len(),
        0 <= j < ys.len(),
    ensures
        0 <= k < product(xs, ys).len(),
        product(xs, ys)[k] == xs[i] + ys[j],
{
    lemma_product(xs, ys);
    assert(xs[i] + ys[j] == product(xs, ys)[i * ys.len() + j]);
    i * ys.len() + j
}

/// Law: a `/` divides a pattern: it selects exactly the paths that can be
/// divided into one that the part before the `/` selects and one that the part
/// after it selects.
pub proof fn law_selects_slash(a: Seq<char>, b: Seq<char>, names: Seq<Seq<char>>)
    requires
        expansion(a) is Ok,
        expansion(b) is Ok,
        !ends_escaping(a, 0),
    ensures
        selects(a + (seq!['/'] + b), names) <==> exists|k: int| selection_divides(a, b, names, k),
{
    let slash = seq!['/'];
    let xs = expansion(a)->Ok_0;
    let ys = expansion(b)->Ok_0;
    let tails = prefixed(slash, ys);
    let all = product(xs, tails);
    assert(first_open(slash, 0) is None) by {
        assert(first_open(slash, 1) is None);
    }
    assert(!ends_escaping(slash, 0)) by {
        assert(!ends_escaping(slash, 1));
    }
    law_pattern_without_group_is_its_expansion(slash);
    law_expansion_of_concat(slash, b);
    assert(product(seq![slash].drop_first(), ys) =~= Seq::empty());
    assert(product(seq![slash], ys) =~= tails);
    law_expansion_of_concat(a, slash + b);
    if selects(a + (slash + b), names) {
        let n = choose|n: int|
            0 <= n < all.len() && path_matches(components_of(#[trigger] all[n]), names);
        let (i, j) = lemma_in_product(xs, tails, n);
        assert(xs[i] + (slash + ys[j]) =~= xs[i] + slash + ys[j]);
        law_components_of_slash(xs[i], ys[j]);
        law_path_matches_concat(components_of(xs[i]), components_of(ys[j]), names);
        let k = choose|k: int|
            path_divides(components_of(xs[i]), components_of(ys[j]), names, k);
        assert(selects(a, names.take(k)));
        assert(selects(b, names.skip(k)));
        assert(selection_divides(a, b, names, k));
    }
    assert forall|k: int| selection_divides(a, b, names, k) implies selects(
        a + (slash + b),
        names,
    ) by {
        let i = choose|i: int|
            0 <= i < xs.len() && path_matches(components_of(#[trigger] xs[i]), names.take(k));
        let j = choose|j: int|
            0 <= j < ys.len() && path_matches(components_of(#[trigger] ys[j]), names.skip(k));
        let n = lemma_product_has(xs, tails, i, j);
        assert(xs[i] + (slash + ys[j]) =~= xs[i] + slash + ys[j]);
        law_components_of_slash(xs[i], ys[j]);
        assert(path_divides(components_of(xs[i]), components_of(ys[j]), names, k));
        law_path_matches_concat(components_of(xs[i]), components_of(ys[j]), names);
        assert(path_matches(components_of(all[n]), names));
    }
}

proof fn lemma_no_open(t: Seq<char>, i: int)
    requires
        !t.contains('{'),
        0 <= i,
    ensures
        first_open(t, i) is None,
    decreases t.len() - i,
{
    if i < t.len() {
        assert(t.contains(t[i]));
        if i + 1 < t.len() {
            lemma_no_open(t, i + 2);
        }
        lemma_no_open(t, i + 1);
    }
}

/// Law: a pattern of one component, without groups, selects exactly the paths of
/// one name that it matches; `**` selects every path; and the empty pattern
/// selects the path without names.
pub proof fn law_selects_component(t: Seq<char>, names: Seq<Seq<char>>)
    requires
        !t.contains('/'),
        !t.contains('{'),
        !ends_escaping(t, 0),
    ensures
        t.len() == 0 ==> (selects(t, names) <==> names.len() == 0),
        t == seq!['*', '*'] ==> selects(t, names),
        t.len() > 0 && t != seq!['*', '*'] ==> (selects(t, names) <==> names.len() == 1
            && matches_pattern(names[0], t)),
{
    lemma_no_open(t, 0);
    law_pattern_without_group_is_its_expansion(t);
    let xs = expansion(t)->Ok_0;
    assert(xs.len() == 1 && xs[0] == t);
    if path_matches(components_of(t), names) {
        assert(path_matches(components_of(xs[0]), names));
    }
    assert(selects(t, names) == path_matches(components_of(t), names));
    law_path_matches_one(component_of(t), names);
    if t.len() == 0 {
        assert(t =~= Seq::empty());
        law_components_of_nothing();
    } else {
        law_components_of_name(t);
        if t != seq!['*', '*'] && names.len() == 1 {
            law_component_matches(t, names[0]);
        }
    }
}

proof fn lemma_alternative_ends_whole(t: Seq<char>, i: int, depth: int)
    requires
        stands_alone(t, i, depth),
    ensures
        !ends_escaping(t, i),
    decreases t.len() - i,
{
    if i < t.len() {
        if t[i] == '\\' {
            lemma_alternative_ends_whole(t, i + 2, depth);
        } else if t[i] == '{' {
            lemma_alternative_ends_whole(t, i + 1, depth + 1);
        } else if t[i] == '}' {
            lemma_alternative_ends_whole(t, i + 1, depth - 1);
        } else {
            lemma_alternative_ends_whole(t, i + 1, depth);
        }
    }
}

/// What is among the expansions of all alternatives is among those of one.
proof fn lemma_in_all_expansions(alts: Seq<Seq<char>>, n: int) -> (r: (int, int))
    requires
        0 <= n < all_expansions(alts).len(),
    ensures
        0 <= r.0 < alts.len(),
        0 <= r.1 < expansion(alts[r.0])->Ok_0.len(),
        all_expansions(alts)[n] == expansion(alts[r.0])->Ok_0[r.1],
    decreases alts.len(),
{
    let first = expansion(alts[0])->Ok_0;
    if n < first.len() {
        (0, n)
    } else {
        let rest = alts.drop_first();
        let (k, j) = lemma_in_all_expansions(rest, n - first.len());
        assert(rest[k] == alts[k + 1]);
        (k + 1, j)
    }
}

proof fn lemma_all_expansions_have(alts: Seq<Seq<char>>, k: int, j: int) -> (n: int)
    requires
        0 <= k < alts.len(),
        0 <= j < expansion(alts[k])->Ok_0.len(),
    ensures
        0 <= n < all_expansions(alts).len(),
        all_expansions(alts)[n] == expansion(alts[k])->Ok_0[j],
    decreases alts.len(),
{
    let first = expansion(alts[0])->Ok_0;
    if k == 0 {
        assert(all_expansions(alts)[j] == first[j]);
        j
    } else {
        let rest = alts.drop_first();
        assert(rest[k - 1] == alts[k]);
        let n = lemma_all_expansions_have(rest, k - 1, j);
        assert(all_expansions(alts)[first.len() + n] == all_expansions(rest)[n]);
        first.len() + n
    }
}

/// Law: a group selects what its alternatives select: a pattern with a group in
/// it selects exactly the paths that one of the patterns selects in which one of
/// the alternatives, each of them, stands in place of the group.
pub proof fn law_selects_alternatives(
    before: Seq<char>,
    alts: Seq<Seq<char>>,
    after: Seq<char>,
    names: Seq<Seq<char>>,
)
    requires
        expansion(before) is Ok,
        !ends_escaping(before, 0),
        alts.len() > 0,
        all_stand_alone(alts),
        expansion(after) is Ok,
    ensures
        selects(before + (group_of(alts) + after), names) <==> exists|k: int|
            0 <= k < alts.len() && selects(before + (#[trigger] alts[k] + after), names),
{
    let xs = expansion(before)->Ok_0;
    let ys = expansion(after)->Ok_0;
    let middle = all_expansions(alts);
    law_group_between(before, alts, after);
    law_group_stands_for_its_alternatives(alts);
    assert forall|k: int| 0 <= k < alts.len() implies expansion(
        before + (#[trigger] alts[k] + after),
    ) == Ok::<Seq<Seq<char>>, Seq<char>>(
        product(xs, product(expansion(alts[k])->Ok_0, ys)),
    ) by {
        assert(stands_alone(alts[k], 0, 0));
        lemma_alternative_ends_whole(alts[k], 0, 0);
        law_expansion_of_concat(alts[k], after);
        law_expansion_of_concat(before, alts[k] + after);
    }
    let all = product(xs, product(middle, ys));
    if selects(before + (group_of(alts) + after), names) {
        let n = choose|n: int|
            0 <= n < all.len() && path_matches(components_of(#[trigger] all[n]), names);
        let (x, m) = lemma_in_product(xs, product(middle, ys), n);
        let (z, y) = lemma_in_product(middle, ys, m);
        let (k, j) = lemma_in_all_expansions(alts, z);
        let part = expansion(alts[k])->Ok_0;
        let m2 = lemma_product_has(part, ys, j, y);
        let n2 = lemma_product_has(xs, product(part, ys), x, m2);
        let one = product(xs, product(part, ys));
        assert(expansion(before + (alts[k] + after))->Ok_0 == one);
        assert(one[n2] == all[n]);
        assert(selects(before + (alts[k] + after), names));
    }
    assert forall|k: int|
        0 <= k < alts.len() && selects(
            before + (#[trigger] alts[k] + after),
            names,
        ) implies selects(before + (group_of(alts) + after), names) by {
        let part = expansion(alts[k])->Ok_0;
        let one = product(xs, product(part, ys));
        let n = choose|n: int|
            0 <= n < one.len() && path_matches(components_of(#[trigger] one[n]), names);
        let (x, m) = lemma_in_product(xs, product(part, ys), n);
        let (j, y) = lemma_in_product(part, ys, m);
        let z = lemma_all_expansions_have(alts, k, j);
        let m2 = lemma_product_has(middle, ys, z, y);
        let n2 = lemma_product_has(xs, product(middle, ys), x, m2);
        assert(path_matches(components_of(all[n2]), names));
    }
}

/// Whether two components of `text` are `**`.
pub open spec fn crawls_twice(text: Seq<char>) -> bool {
    exists|i: int, j: int|
        0 <= i < j < components_of(text).len() && (#[trigger] components_of(text)[i]) is Crawl && (
        #[trigger] components_of(text)[j]) is Crawl
}

/// Law: a pattern is refused exactly if some group in it is never closed or one
/// of its alternatives has more than one `**`, and it is refused as a path that
/// is not valid.
pub proof fn law_refused_patterns(pattern: Seq<char>)
    ensures
        compiled(pattern) is Err <==> open_groups(pattern, 0, 0) > 0 || exists|k: int|
            0 <= k < expansion(pattern)->Ok_0.len() && crawls_twice(
                #[trigger] expansion(pattern)->Ok_0[k],
            ),
        compiled(pattern) is Err ==> compiled(pattern)->Err_0.kind == KindModel::InvalidPath,
{
    law_unclosed_group_is_an_error(pattern);
    if let Ok(expansions) = expansion(pattern) {
        let patterns = component_lists(expansions);
        assert forall|k: int| 0 <= k < expansions.len() implies crawls_twice(
            #[trigger] expansions[k],
        ) == has_two_crawls(patterns[k]) by {
            assert(patterns[k] == components_of(expansions[k]));
        }
        if exists|k: int| 0 <= k < patterns.len() && has_two_crawls(#[trigger] patterns[k]) {
            let k = choose|k: int| 0 <= k < patterns.len() && has_two_crawls(#[trigger] patterns[k]);
            assert(crawls_twice(expansions[k]));
        }
        if exists|k: int| 0 <= k < expansions.len() && crawls_twice(#[trigger] expansions[k]) {
            let k = choose|k: int| 0 <= k < expansions.len() && crawls_twice(#[trigger] expansions[k]);
            assert(has_two_crawls(patterns[k]));
        }
    }
}

/// Law: what is said of a pattern that is refused: it names the pattern or, for
/// a group that is never closed, the part of its expansion that has the group.
pub proof fn law_refusals_are_told(pattern: Seq<char>)
    requires
        compiled(pattern) is Err,
    ensures
        compiled(pattern)->Err_0.text == match expansion(pattern) {
            Err(unclosed) => "invalid path: Unclosed brace group in glob pattern '"@ + unclosed
                + "'"@,
            Ok(_) => "invalid path: Cannot use multiple '**' in one path: '"@ + pattern + "'"@,
        },
{
    reveal_strlit("invalid path: ");
    reveal_strlit("'");
    reveal_strlit("Unclosed brace group in glob pattern '");
    reveal_strlit("invalid path: Unclosed brace group in glob pattern '");
    reveal_strlit("Cannot use multiple '**' in one path: '");
    reveal_strlit("invalid path: Cannot use multiple '**' in one path: '");
    if let Err(unclosed) = expansion(pattern) {
        assert("invalid path: "@ + ("Unclosed brace group in glob pattern '"@ + unclosed + "'"@)
            =~= "invalid path: Unclosed brace group in glob pattern '"@ + unclosed + "'"@);
    } else {
        assert("invalid path: "@ + ("Cannot use multiple '**' in one path: '"@ + pattern + "'"@)
            =~= "invalid path: Cannot use multiple '**' in one path: '"@ + pattern + "'"@);
    }
}

/// Whether the components of `text` start with the literals `names`.
pub open spec fn starts_with_names(text: Seq<char>, names: Seq<Seq<char>>) -> bool {
    &&& names.len() <= components_of(text).len()
    &&& forall|j: int|
        0 <= j < names.len() ==> #[trigger] components_of(text)[j] == Comp::Literal(names[j])
}

/// Law: the walk starts as deep as it can: its root is what all alternatives
/// start with, and whatever else they all start with is above it.
pub proof fn law_root_is_the_longest_shared_start(pattern: Seq<char>, names: Seq<Seq<char>>)
    requires
        compiled(pattern) is Ok,
    ensures
        forall|k: int|
            0 <= k < expansion(pattern)->Ok_0.len() ==> starts_with_names(
                #[trigger] expansion(pattern)->Ok_0[k],
                root_names(pattern),
            ),
        (forall|k: int|
            0 <= k < expansion(pattern)->Ok_0.len() ==> starts_with_names(
                #[trigger] expansion(pattern)->Ok_0[k],
                names,
            )) ==> names.is_prefix_of(root_names(pattern)),
{
    let expansions = expansion(pattern)->Ok_0;
    let patterns = component_lists(expansions);
    let n = shared_literals(patterns, 0);
    let root = root_names(pattern);
    law_expansions_are_brace_free(pattern);
    assert(compiled(pattern)->Ok_0 == plan_of(patterns));
    lemma_shared_literals(patterns, 0);
    assert forall|k: int| 0 <= k < expansions.len() implies starts_with_names(
        #[trigger] expansions[k],
        root,
    ) by {
        assert(patterns[k] == components_of(expansions[k]));
        if n > 0 {
            assert(shared_literal(patterns, n - 1));
        }
        assert forall|j: int| 0 <= j < root.len() implies #[trigger] components_of(
            expansions[k],
        )[j] == Comp::Literal(root[j]) by {
            assert(shared_literal(patterns, j));
            assert(patterns[k][j] == patterns[0][j]);
        }
    }
    if forall|k: int|
        0 <= k < expansions.len() ==> starts_with_names(#[trigger] expansions[k], names) {
        assert(starts_with_names(expansions[0], names));
        assert(patterns[0] == components_of(expansions[0]));
        if names.len() > n {
            assert forall|i: int| 0 <= i < patterns.len() implies n < (
            #[trigger] patterns[i]).len() && patterns[i][n] is Literal && patterns[i][n]
                == patterns[0][n] by {
                assert(starts_with_names(expansions[i], names));
                assert(patterns[i] == components_of(expansions[i]));
                assert(components_of(expansions[i])[n] == Comp::Literal(names[n]));
                assert(components_of(expansions[0])[n] == Comp::Literal(names[n]));
            }
            assert(shared_literal(patterns, n));
            lemma_shared_stops(patterns, 0);
        }
        assert forall|j: int| 0 <= j < names.len() implies names[j] == root[j] by {
            assert(components_of(expansions[0])[j] == Comp::Literal(names[j]));
        }
        assert(names =~= root.take(names.len() as int));
    }
}

/// The component after the shared literals is not a shared literal.
proof fn lemma_shared_stops(patterns: Seq<Seq<Comp>>, k: int)
    requires
        patterns.len() > 0,
        0 <= k <= patterns[0].len(),
    ensures
        !shared_literal(patterns, k + shared_literals(patterns, k)),
    decreases patterns[0].len() - k,
{
    if k < patterns[0].len() && shared_literal(patterns, k) {
        lemma_shared_stops(patterns, k + 1);
    } else if k == patterns[0].len() {
        assert(!(k < patterns[0].len()));
    }
}

/// Law: a path is a `/` and, for each name, the name, with a `/` between them.
pub proof fn law_paths(names: Seq<Seq<char>>, name: Seq<char>)
    ensures
        path_of(Seq::empty()) == seq!['/'],
        path_of(seq![name]) == seq!['/'] + name,
        names.len() > 0 ==> path_of(names.push(name)) == path_of(names) + seq!['/'] + name,
{
    assert(seq![name].drop_last() =~= Seq::empty());
    assert(slashed(Seq::empty()) =~= Seq::empty());
    assert(path_of(seq![name]) =~= seq!['/'] + name);
    assert(names.push(name).drop_last() =~= names);
    if names.len() > 0 {
        assert(path_of(names.push(name)) =~= path_of(names) + seq!['/'] + name);
    }
}

/// Whether `t` can be a name and has no character that is special in a pattern.
pub open spec fn is_plain_name(t: Seq<char>) -> bool {
    &&& t.len() > 0
    &&& forall|k: int|
        0 <= k < t.len() ==> {
            let c = #[trigger] t[k];
            c != '/' && c != '*' && c != '?' && c != '[' && c != '\\' && c != '{'
        }
}

proof fn lemma_plain_component(t: Seq<char>, i: int)
    requires
        is_plain_name(t),
        0 <= i <= t.len(),
    ensures
        !has_wildcard(t, i),
        unescaped(t, i) == t.skip(i),
    decreases t.len() - i,
{
    if i < t.len() {
        assert(t[i] != '\\');
        lemma_plain_component(t, i + 1);
        assert(seq![t[i]] + t.skip(i + 1) =~= t.skip(i));
    } else {
        assert(t.skip(i) =~= Seq::empty());
    }
}

proof fn lemma_plain_path(names: Seq<Seq<char>>)
    requires
        forall|k: int| 0 <= k < names.len() ==> is_plain_name(#[trigger] names[k]),
    ensures
        components_of(slashed(names)).len() == names.len(),
        forall|k: int|
            0 <= k < names.len() ==> #[trigger] components_of(slashed(names))[k] == Comp::Literal(
                names[k],
            ),
        !slashed(names).contains('{'),
    decreases names.len(),
{
    if names.len() == 0 {
        law_components_of_nothing();
        assert(slashed(names) =~= Seq::empty());
    } else {
        let front = names.drop_last();
        let name = names.last();
        assert(is_plain_name(names[names.len() - 1]));
        assert forall|k: int| 0 <= k < front.len() implies is_plain_name(#[trigger] front[k]) by {
            assert(is_plain_name(names[k]));
        }
        lemma_plain_path(front);
        let path = slashed(names);
        assert(path =~= slashed(front) + seq!['/'] + name);
        assert forall|k: int| 0 <= k < name.len() implies name[k] != '/' by {}
        assert(!name.contains('/'));
        law_components_of_slash(slashed(front), name);
        law_components_of_name(name);
        lemma_plain_component(name, 0);
        assert(name.skip(0) =~= name);
        assert(name[0] != '*');
        assert(component_of(name) == Comp::Literal(name));
        assert forall|k: int| 0 <= k < path.len() implies path[k] != '{' by {
            let n = slashed(front).len() as int;
            if k < n {
                assert(slashed(front).contains(slashed(front)[k]));
            } else if k > n {
                assert(path[k] == name[k - n - 1]);
            }
        }
        assert(!path.contains('{'));
    }
}

/// Law: an absolute path without special characters is a pattern for itself: the
/// walk starts there, hands out what is there, and lists nothing.
pub proof fn law_plain_path_is_its_own_pattern(names: Seq<Seq<char>>, others: Seq<Seq<char>>)
    requires
        forall|k: int| 0 <= k < names.len() ==> is_plain_name(#[trigger] names[k]),
    ensures
        compiled(path_of(names)) is Ok,
        compiled(path_of(names))->Ok_0.root == path_of(names),
        compiled(path_of(names))->Ok_0.emit_root,
        compiled(path_of(names))->Ok_0.initial.len() == 0,
        selects(path_of(names), others) <==> others == names,
{
    let p = path_of(names);
    lemma_plain_path(names);
    if names.len() == 0 {
        law_components_of_nothing();
        law_components_of_slash(Seq::empty(), Seq::empty());
        assert(p =~= Seq::empty() + seq!['/'] + Seq::empty());
        assert(!p.contains('{'));
    }
    let components = components_of(p);
    assert(components.len() == names.len());
    lemma_no_open(p, 0);
    law_pattern_without_group_is_its_expansion(p);
    let expansions = expansion(p)->Ok_0;
    assert(expansions == seq![p]);
    let patterns = component_lists(expansions);
    assert(patterns.len() == 1);
    assert(patterns[0] == components);
    assert(compiled(p) == Ok::<PlanModel, ErrorModel>(plan_of(patterns)));
    assert(starts_with_names(expansions[0], names));
    law_root_is_the_longest_shared_start(p, names);
    assert(starts_with_names(expansions[0], root_names(p)));
    assert(root_names(p) =~= names);
    lemma_shared_literals(patterns, 0);
    assert(patterns[0].len() == shared_literals(patterns, 0));
    assert(start_states(patterns, names.len() as int, 0) =~= Seq::empty());
    assert(start_states(patterns, names.len() as int, 1) =~= Seq::empty());
    lemma_literals_match_names(components, names, others);
    assert(path_matches(components_of(expansions[0]), others) <==> others == names);
}

/// Literals match the names that they are, and nothing else.
proof fn lemma_literals_match_names(
    components: Seq<Comp>,
    names: Seq<Seq<char>>,
    others: Seq<Seq<char>>,
)
    requires
        components.len() == names.len(),
        forall|k: int|
            0 <= k < names.len() ==> #[trigger] components[k] == Comp::Literal(names[k]),
    ensures
        path_matches(components, others) <==> others == names,
{
    let n = names.len() as int;
    lemma_literal_prefix(components, n, others);
    assert(literal_names(components, n) =~= names);
    assert(components.skip(n) =~= Seq::empty());
    if others.len() >= n {
        law_path_matches_one(Comp::Crawl, others.skip(n));
        if others.len() == n {
            assert(others.take(n) =~= others);
        }
    }
}

} // verus!
