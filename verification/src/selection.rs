//! What a glob pattern selects, and that a walk along a plan's states finds
//! exactly that.

use vstd::prelude::*;

use crate::braces::expansion;
use crate::braces::law_expansions_are_brace_free;
use crate::component::comp_matches;
use crate::component::components_of;
use crate::component::Comp;
use crate::glob::advanced;
use crate::glob::compiled;
use crate::glob::component_lists;
use crate::glob::has_two_crawls;
use crate::glob::literal_names;
use crate::glob::path_of;
use crate::glob::plan_of;
use crate::glob::position_emits;
use crate::glob::position_next;
use crate::glob::shared_literal;
use crate::glob::shared_literals;
use crate::glob::single_crawls;
use crate::glob::start_states;
use crate::glob::step_emits;
use crate::glob::step_next;
use crate::glob::valid_position;
use crate::glob::valid_positions;
use crate::glob::with_state;
use crate::glob::with_states;

verus! {

/// Whether `components` match the path with the given `names`, level by level.
/// A `**` stands for zero or more levels.
pub open spec fn path_matches(components: Seq<Comp>, names: Seq<Seq<char>>) -> bool
    decreases components.len(), names.len(),
{
    if components.len() == 0 {
        names.len() == 0
    } else if components[0] is Crawl {
        path_matches(components.skip(1), names) || (names.len() > 0 && path_matches(
            components,
            names.skip(1),
        ))
    } else {
        names.len() > 0 && comp_matches(components[0], names[0]) && path_matches(
            components.skip(1),
            names.skip(1),
        )
    }
}

/// Whether `pattern` selects the path with the given `names`: one of its
/// brace expansions matches it.
pub open spec fn selects(pattern: Seq<char>, names: Seq<Seq<char>>) -> bool {
    match expansion(pattern) {
        Ok(expansions) => exists|k: int|
            0 <= k < expansions.len() && path_matches(
                components_of(#[trigger] expansions[k]),
                names,
            ),
        Err(_) => false,
    }
}

/// Whether a walk in a directory with `states` emits the entry with the given
/// `names` below that directory, if all names but the last are directories.
pub open spec fn walk_emits(
    patterns: Seq<Seq<Comp>>,
    states: Seq<(int, int)>,
    names: Seq<Seq<char>>,
) -> bool
    decreases names.len(),
{
    if names.len() == 0 {
        false
    } else if names.len() == 1 {
        step_emits(patterns, states, names[0])
    } else {
        walk_emits(patterns, step_next(patterns, states, names[0], true), names.skip(1))
    }
}

/// The components that are still to be matched in state `q`.
pub open spec fn remaining(patterns: Seq<Seq<Comp>>, q: (int, int)) -> Seq<Comp> {
    patterns[q.0].skip(q.1)
}

/// Whether one of `states` matches the path with the given `names` below it.
pub open spec fn states_match(
    patterns: Seq<Seq<Comp>>,
    states: Seq<(int, int)>,
    names: Seq<Seq<char>>,
) -> bool {
    exists|k: int|
        0 <= k < states.len() && path_matches(remaining(patterns, #[trigger] states[k]), names)
}

proof fn lemma_with_state_contains(states: Seq<(int, int)>, more: (int, int), q: (int, int))
    ensures
        with_state(states, more).contains(q) <==> states.contains(q) || q == more,
{
    if !states.contains(more) {
        let all = states.push(more);
        assert(all[states.len() as int] == more);
        if states.contains(q) {
            let k = choose|k: int| 0 <= k < states.len() && states[k] == q;
            assert(all[k] == q);
        }
        if all.contains(q) && q != more {
            let k = choose|k: int| 0 <= k < all.len() && all[k] == q;
            assert(states[k] == q);
        }
    }
}

proof fn lemma_with_states_contains(
    states: Seq<(int, int)>,
    more: Seq<(int, int)>,
    q: (int, int),
)
    ensures
        with_states(states, more).contains(q) <==> states.contains(q) || more.contains(q),
    decreases more.len(),
{
    if more.len() > 0 {
        lemma_with_states_contains(states, more.drop_last(), q);
        lemma_with_state_contains(with_states(states, more.drop_last()), more.last(), q);
        assert(more =~= more.drop_last().push(more.last()));
        if more.contains(q) {
            let k = choose|k: int| 0 <= k < more.len() && more[k] == q;
            if k < more.len() - 1 {
                assert(more.drop_last()[k] == q);
            }
        }
        if more.drop_last().contains(q) {
            let k = choose|k: int| 0 <= k < more.drop_last().len() && more.drop_last()[k] == q;
            assert(more[k] == q);
        }
        assert(more[more.len() - 1] == more.last());
    }
}

/// A state is entered exactly if one of the directory's states leads to it.
pub proof fn lemma_step_next_contains(
    patterns: Seq<Seq<Comp>>,
    states: Seq<(int, int)>,
    name: Seq<char>,
    is_dir: bool,
    q: (int, int),
)
    ensures
        step_next(patterns, states, name, is_dir).contains(q) <==> exists|k: int|
            0 <= k < states.len() && position_next(
                patterns,
                #[trigger] states[k],
                name,
                is_dir,
            ).contains(q),
    decreases states.len(),
{
    if states.len() > 0 {
        let before = states.drop_last();
        lemma_step_next_contains(patterns, before, name, is_dir, q);
        lemma_with_states_contains(
            step_next(patterns, before, name, is_dir),
            position_next(patterns, states.last(), name, is_dir),
            q,
        );
        if step_next(patterns, before, name, is_dir).contains(q) {
            let k = choose|k: int|
                0 <= k < before.len() && position_next(
                    patterns,
                    #[trigger] before[k],
                    name,
                    is_dir,
                ).contains(q);
            assert(states[k] == before[k]);
        }
        assert forall|k: int|
            0 <= k < states.len() && position_next(
                patterns,
                #[trigger] states[k],
                name,
                is_dir,
            ).contains(q) implies step_next(patterns, states, name, is_dir).contains(q) by {
            if k < states.len() - 1 {
                assert(before[k] == states[k]);
            }
        }
    }
}

proof fn lemma_with_states_distinct(states: Seq<(int, int)>, more: Seq<(int, int)>)
    requires
        states.no_duplicates(),
    ensures
        with_states(states, more).no_duplicates(),
    decreases more.len(),
{
    if more.len() > 0 {
        lemma_with_states_distinct(states, more.drop_last());
    }
}

/// Law: overlapping alternatives do not multiply: the states with which a
/// child is entered are all different.
pub proof fn law_step_states_are_distinct(
    patterns: Seq<Seq<Comp>>,
    states: Seq<(int, int)>,
    name: Seq<char>,
    is_dir: bool,
)
    ensures
        step_next(patterns, states, name, is_dir).no_duplicates(),
    decreases states.len(),
{
    if states.len() > 0 {
        law_step_states_are_distinct(patterns, states.drop_last(), name, is_dir);
        lemma_with_states_distinct(
            step_next(patterns, states.drop_last(), name, is_dir),
            position_next(patterns, states.last(), name, is_dir),
        );
    }
}

/// Law: the states with which a child is entered are states of a walk again.
pub proof fn law_step_states_are_valid(
    patterns: Seq<Seq<Comp>>,
    states: Seq<(int, int)>,
    name: Seq<char>,
    is_dir: bool,
)
    requires
        valid_positions(patterns, states),
    ensures
        valid_positions(patterns, step_next(patterns, states, name, is_dir)),
{
    let next = step_next(patterns, states, name, is_dir);
    assert forall|j: int| 0 <= j < next.len() implies valid_position(
        patterns,
        #[trigger] next[j],
    ) by {
        lemma_step_next_contains(patterns, states, name, is_dir, next[j]);
        let k = choose|k: int|
            0 <= k < states.len() && position_next(
                patterns,
                #[trigger] states[k],
                name,
                is_dir,
            ).contains(next[j]);
        assert(valid_position(patterns, states[k]));
    }
}

/// Law: nothing but a directory is ever entered.
pub proof fn law_only_directories_are_entered(
    patterns: Seq<Seq<Comp>>,
    states: Seq<(int, int)>,
    name: Seq<char>,
)
    ensures
        step_next(patterns, states, name, false).len() == 0,
    decreases states.len(),
{
    if states.len() > 0 {
        law_only_directories_are_entered(patterns, states.drop_last(), name);
        let more = position_next(patterns, states.last(), name, false);
        assert(more.len() == 0);
    }
}

/// Whether `components` are at their end, but for a `**`.
pub open spec fn is_at_end(components: Seq<Comp>) -> bool {
    components.len() == 0 || (components.len() == 1 && components[0] is Crawl)
}

/// The end of the path is matched by nothing but the end of the components, or
/// a `**` before it.
proof fn lemma_no_names(components: Seq<Comp>)
    requires
        !has_two_crawls(components),
    ensures
        path_matches(components, Seq::empty()) == is_at_end(components),
{
    if components.len() > 0 && components[0] is Crawl {
        let after = components.skip(1);
        if components.len() > 1 {
            assert(!(components[1] is Crawl));
            assert(after[0] == components[1]);
        }
        assert(path_matches(after, Seq::empty()) == (after.len() == 0));
    }
}

/// A `**` at the end matches everything.
pub proof fn lemma_last_crawl(components: Seq<Comp>, names: Seq<Seq<char>>)
    requires
        components.len() == 1,
        components[0] is Crawl,
    ensures
        path_matches(components, names),
    decreases names.len(),
{
    if names.len() == 0 {
        assert(path_matches(components.skip(1), names));
    } else {
        lemma_last_crawl(components, names.skip(1));
    }
}

proof fn lemma_skip_one_crawl(components: Seq<Comp>, n: int)
    requires
        0 <= n <= components.len(),
        !has_two_crawls(components),
    ensures
        !has_two_crawls(components.skip(n)),
{
    let tail = components.skip(n);
    if has_two_crawls(tail) {
        let (i, j) = choose|i: int, j: int|
            0 <= i < j < tail.len() && (#[trigger] tail[i]) is Crawl && (#[trigger] tail[j]) is Crawl;
        assert(components[i + n] is Crawl && components[j + n] is Crawl);
    }
}

/// A state emits exactly the children that match what is left of it.
proof fn lemma_position_emits(patterns: Seq<Seq<Comp>>, q: (int, int), name: Seq<char>)
    requires
        single_crawls(patterns),
        valid_position(patterns, q),
    ensures
        position_emits(patterns, q, name) == path_matches(remaining(patterns, q), seq![name]),
{
    let components = patterns[q.0];
    let left = remaining(patterns, q);
    let names = seq![name];
    let none = Seq::<Seq<char>>::empty();
    assert(!has_two_crawls(components));
    assert(names.skip(1) =~= none);
    lemma_skip_one_crawl(components, q.1);
    if left[0] is Crawl {
        if left.len() > 1 {
            let after = left.skip(1);
            assert(after[0] == components[q.1 + 1]);
            assert(!(components[q.1 + 1] is Crawl));
            lemma_no_names(left);
            lemma_skip_one_crawl(left, 2);
            assert(after.skip(1) =~= left.skip(2));
            lemma_no_names(after.skip(1));
            if after.len() > 1 {
                assert(left[0] is Crawl && !(left[2] is Crawl));
                assert(after.skip(1)[0] == left[2]);
            }
            assert(path_matches(after, names) == (comp_matches(after[0], name) && path_matches(
                after.skip(1),
                none,
            )));
        } else {
            lemma_last_crawl(left, names);
        }
    } else {
        lemma_skip_one_crawl(left, 1);
        lemma_no_names(left.skip(1));
        if left.len() > 1 {
            assert(left.skip(1)[0] == components[q.1 + 1]);
        }
    }
}

/// What is left of a state matches a path of more than one name exactly if what
/// is left of one of the states that the first name leads to matches the rest.
proof fn lemma_position_next(
    patterns: Seq<Seq<Comp>>,
    q: (int, int),
    names: Seq<Seq<char>>,
)
    requires
        single_crawls(patterns),
        valid_position(patterns, q),
        names.len() > 1,
    ensures
        path_matches(remaining(patterns, q), names) <==> states_match(
            patterns,
            position_next(patterns, q, names[0], true),
            names.skip(1),
        ),
{
    let components = patterns[q.0];
    let left = remaining(patterns, q);
    let next = position_next(patterns, q, names[0], true);
    let rest = names.skip(1);
    assert(!has_two_crawls(components));
    if components[q.1] is Crawl {
        if left.len() == 1 {
            lemma_last_crawl(left, names);
            lemma_last_crawl(left, rest);
            assert(next[0] == q);
            assert(path_matches(remaining(patterns, next[0]), rest));
        } else {
            let q1 = (q.0, q.1 + 1);
            let after = left.skip(1);
            let moved = advanced(patterns, q1, names[0], true);
            assert(!(components[q.1 + 1] is Crawl));
            assert(after =~= remaining(patterns, q1));
            lemma_advanced(patterns, q1, names);
            assert(next == moved + seq![q]);
            assert(next[moved.len() as int] == q);
            if states_match(patterns, moved, rest) {
                let k = choose|k: int|
                    0 <= k < moved.len() && path_matches(
                        remaining(patterns, #[trigger] moved[k]),
                        rest,
                    );
                assert(next[k] == moved[k]);
            }
            if path_matches(left, rest) {
                assert(path_matches(remaining(patterns, next[moved.len() as int]), rest));
            }
            if states_match(patterns, next, rest) {
                let k = choose|k: int|
                    0 <= k < next.len() && path_matches(
                        remaining(patterns, #[trigger] next[k]),
                        rest,
                    );
                if k < moved.len() {
                    assert(moved[k] == next[k]);
                }
            }
        }
    } else {
        lemma_advanced(patterns, q, names);
    }
}

/// [`lemma_position_next`] where the component is not a `**`.
proof fn lemma_advanced(patterns: Seq<Seq<Comp>>, q: (int, int), names: Seq<Seq<char>>)
    requires
        valid_position(patterns, q),
        !(patterns[q.0][q.1] is Crawl),
        names.len() > 1,
    ensures
        path_matches(remaining(patterns, q), names) <==> states_match(
            patterns,
            advanced(patterns, q, names[0], true),
            names.skip(1),
        ),
{
    let left = remaining(patterns, q);
    let rest = names.skip(1);
    let moved = advanced(patterns, q, names[0], true);
    assert(left[0] == patterns[q.0][q.1]);
    if moved.len() > 0 {
        assert(left.skip(1) =~= remaining(patterns, moved[0]));
        if path_matches(left, names) {
            assert(path_matches(remaining(patterns, moved[0]), rest));
        }
        if states_match(patterns, moved, rest) {
            let k = choose|k: int|
                0 <= k < moved.len() && path_matches(
                    remaining(patterns, #[trigger] moved[k]),
                    rest,
                );
            assert(k == 0);
        }
    } else if left.len() == 1 {
        assert(!path_matches(left.skip(1), rest));
    }
}

/// Law: a walk in a directory with `states` emits an entry below it exactly if
/// what is left of one of the states matches the entry's path from there.
pub proof fn law_walk_emits_what_states_match(
    patterns: Seq<Seq<Comp>>,
    states: Seq<(int, int)>,
    names: Seq<Seq<char>>,
)
    requires
        single_crawls(patterns),
        valid_positions(patterns, states),
        names.len() > 0,
    ensures
        walk_emits(patterns, states, names) <==> states_match(patterns, states, names),
    decreases names.len(),
{
    if names.len() == 1 {
        assert(names =~= seq![names[0]]);
        assert forall|k: int| 0 <= k < states.len() implies position_emits(
            patterns,
            #[trigger] states[k],
            names[0],
        ) == path_matches(remaining(patterns, states[k]), names) by {
            assert(valid_position(patterns, states[k]));
            lemma_position_emits(patterns, states[k], names[0]);
        }
    } else {
        let name = names[0];
        let rest = names.skip(1);
        let next = step_next(patterns, states, name, true);
        law_step_states_are_valid(patterns, states, name, true);
        law_walk_emits_what_states_match(patterns, next, rest);
        if states_match(patterns, next, rest) {
            let j = choose|j: int|
                0 <= j < next.len() && path_matches(remaining(patterns, #[trigger] next[j]), rest);
            lemma_step_next_contains(patterns, states, name, true, next[j]);
            let k = choose|k: int|
                0 <= k < states.len() && position_next(
                    patterns,
                    #[trigger] states[k],
                    name,
                    true,
                ).contains(next[j]);
            let from_k = position_next(patterns, states[k], name, true);
            let i = choose|i: int| 0 <= i < from_k.len() && from_k[i] == next[j];
            assert(path_matches(remaining(patterns, from_k[i]), rest));
            assert(valid_position(patterns, states[k]));
            lemma_position_next(patterns, states[k], names);
            assert(path_matches(remaining(patterns, states[k]), names));
        }
        if states_match(patterns, states, names) {
            let k = choose|k: int|
                0 <= k < states.len() && path_matches(
                    remaining(patterns, #[trigger] states[k]),
                    names,
                );
            assert(valid_position(patterns, states[k]));
            lemma_position_next(patterns, states[k], names);
            let from_k = position_next(patterns, states[k], name, true);
            let i = choose|i: int|
                0 <= i < from_k.len() && path_matches(
                    remaining(patterns, #[trigger] from_k[i]),
                    rest,
                );
            assert(from_k.contains(from_k[i]));
            lemma_step_next_contains(patterns, states, name, true, from_k[i]);
            let j = choose|j: int| 0 <= j < next.len() && next[j] == from_k[i];
            assert(path_matches(remaining(patterns, next[j]), rest));
        }
    }
}

/// The components before the first that is not shared are shared literals.
pub proof fn lemma_shared_literals(patterns: Seq<Seq<Comp>>, k: int)
    requires
        patterns.len() > 0,
        0 <= k <= patterns[0].len(),
    ensures
        0 <= shared_literals(patterns, k) <= patterns[0].len() - k,
        forall|i: int|
            k <= i < k + shared_literals(patterns, k) ==> #[trigger] shared_literal(patterns, i),
    decreases patterns[0].len() - k,
{
    if k < patterns[0].len() && shared_literal(patterns, k) {
        lemma_shared_literals(patterns, k + 1);
    }
}

/// A list that starts with `n` literals matches exactly the paths that start
/// with their names and go on with a match of the rest.
pub proof fn lemma_literal_prefix(components: Seq<Comp>, n: int, names: Seq<Seq<char>>)
    requires
        0 <= n <= components.len(),
        forall|k: int| 0 <= k < n ==> (#[trigger] components[k]) is Literal,
    ensures
        path_matches(components, names) <==> (names.len() >= n && names.take(n) == literal_names(
            components,
            n,
        ) && path_matches(components.skip(n), names.skip(n))),
    decreases n,
{
    if n == 0 {
        assert(components.skip(0) =~= components);
        if names.len() >= 0 {
            assert(names.skip(0) =~= names);
            assert(names.take(0) =~= literal_names(components, 0));
        }
    } else {
        let tail = components.skip(1);
        let literals = literal_names(components, n);
        assert(literals.len() == n);
        if names.len() > 0 {
            let rest = names.skip(1);
            assert forall|k: int| 0 <= k < n - 1 implies (#[trigger] tail[k]) is Literal by {
                assert(tail[k] == components[k + 1]);
            }
            lemma_literal_prefix(tail, n - 1, rest);
            assert(tail.skip(n - 1) =~= components.skip(n));
            if names.len() >= n {
                assert(rest.skip(n - 1) =~= names.skip(n));
                assert(literals[0] == components[0]->Literal_0);
                if names[0] == literals[0] && rest.take(n - 1) == literal_names(tail, n - 1) {
                    assert forall|k: int| 0 <= k < n implies names.take(n)[k] == literals[k] by {
                        if k > 0 {
                            assert(rest.take(n - 1)[k - 1] == names[k]);
                            assert(literal_names(tail, n - 1)[k - 1] == literals[k]);
                        }
                    }
                    assert(names.take(n) =~= literals);
                }
                if names.take(n) == literals {
                    assert(names[0] == names.take(n)[0]);
                    let front = rest.take(n - 1);
                    assert forall|k: int| 0 <= k < n - 1 implies #[trigger] front[k]
                        == tail[k]->Literal_0 by {
                        assert(names.take(n)[k + 1] == literals[k + 1]);
                    }
                    assert(front =~= literal_names(tail, n - 1));
                }
            }
        }
    }
}

/// The start states are one for each pattern that goes on below the root.
pub proof fn lemma_start_states(patterns: Seq<Seq<Comp>>, consumed: int, n: int)
    requires
        0 <= n <= patterns.len(),
    ensures
        forall|k: int|
            0 <= k < start_states(patterns, consumed, n).len() ==> {
                let q = #[trigger] start_states(patterns, consumed, n)[k];
                0 <= q.0 < n && q.1 == consumed && patterns[q.0].len() != consumed
            },
        forall|i: int|
            0 <= i < n && (#[trigger] patterns[i]).len() != consumed ==> start_states(
                patterns,
                consumed,
                n,
            ).contains((i, consumed)),
    decreases n,
{
    if n > 0 {
        lemma_start_states(patterns, consumed, n - 1);
        let before = start_states(patterns, consumed, n - 1);
        let all = start_states(patterns, consumed, n);
        assert forall|i: int|
            0 <= i < n && (#[trigger] patterns[i]).len() != consumed implies all.contains(
            (i, consumed),
        ) by {
            if i < n - 1 {
                let k = choose|k: int| 0 <= k < before.len() && before[k] == (i, consumed);
                assert(all[k] == (i, consumed));
            } else {
                assert(all[before.len() as int] == (i, consumed));
            }
        }
    }
}

/// Whether one of `patterns` matches the path with the given `names`.
pub open spec fn any_matches(patterns: Seq<Seq<Comp>>, names: Seq<Seq<char>>) -> bool {
    exists|k: int| 0 <= k < patterns.len() && path_matches(#[trigger] patterns[k], names)
}

/// Whether one of `patterns` has nothing but a `**` after its first `n`
/// components.
pub open spec fn crawls_from(patterns: Seq<Seq<Comp>>, n: int) -> bool {
    exists|k: int|
        0 <= k < patterns.len() && (#[trigger] patterns[k]).len() == n + 1 && patterns[k][n] is Crawl
}

/// Law: the walk finds exactly what the pattern selects. The paths that a
/// pattern selects all lie at or below the plan's root, and a path below the
/// root is selected exactly if the walk that starts there with the plan's
/// initial states emits it. The root itself is selected if the plan says so,
/// which is if some alternative is fully literal. There is one exception: an
/// alternative that has nothing but a `**` after the root selects the root too,
/// by taking zero levels, and does not make the plan say so.
pub proof fn law_walk_finds_the_selected_paths(
    pattern: Seq<char>,
    root_names: Seq<Seq<char>>,
    names: Seq<Seq<char>>,
)
    requires
        compiled(pattern) is Ok,
        root_names == literal_names(
            compiled(pattern)->Ok_0.patterns[0],
            shared_literals(compiled(pattern)->Ok_0.patterns, 0),
        ),
    ensures
        compiled(pattern)->Ok_0.root == path_of(root_names),
        selects(pattern, names) <==> {
            &&& names.len() >= root_names.len()
            &&& names.take(root_names.len() as int) == root_names
            &&& if names.len() == root_names.len() {
                compiled(pattern)->Ok_0.emit_root || crawls_from(
                    compiled(pattern)->Ok_0.patterns,
                    root_names.len() as int,
                )
            } else {
                walk_emits(
                    compiled(pattern)->Ok_0.patterns,
                    compiled(pattern)->Ok_0.initial,
                    names.skip(root_names.len() as int),
                )
            }
        },
{
    let plan = compiled(pattern)->Ok_0;
    let expansions = expansion(pattern)->Ok_0;
    let patterns = component_lists(expansions);
    law_expansions_are_brace_free(pattern);
    assert(plan == plan_of(patterns));
    let n = shared_literals(patterns, 0);
    lemma_shared_literals(patterns, 0);
    assert(root_names.len() == n);
    // Selecting is matching one of the component lists.
    if selects(pattern, names) {
        let k = choose|k: int|
            0 <= k < expansions.len() && path_matches(
                components_of(#[trigger] expansions[k]),
                names,
            );
        assert(path_matches(patterns[k], names));
    }
    if any_matches(patterns, names) {
        let k = choose|k: int| 0 <= k < patterns.len() && path_matches(#[trigger] patterns[k], names);
        assert(path_matches(components_of(expansions[k]), names));
    }
    assert(selects(pattern, names) == any_matches(patterns, names));
    // Each list starts with the root's names.
    assert forall|k: int| 0 <= k < patterns.len() implies path_matches(
        #[trigger] patterns[k],
        names,
    ) == (names.len() >= n && names.take(n) == root_names && path_matches(
        patterns[k].skip(n),
        names.skip(n),
    )) by {
        lemma_starts_with_root(patterns, k, n);
        lemma_literal_prefix(patterns[k], n, names);
    }
    if names.len() >= n && names.take(n) == root_names {
        let rest = names.skip(n);
        if names.len() == n {
            assert(rest =~= Seq::empty());
            assert forall|k: int| 0 <= k < patterns.len() implies path_matches(
                (#[trigger] patterns[k]).skip(n),
                rest,
            ) == (patterns[k].len() == n || (patterns[k].len() == n + 1
                && patterns[k][n] is Crawl)) by {
                lemma_starts_with_root(patterns, k, n);
                lemma_skip_one_crawl(patterns[k], n);
                lemma_no_names(patterns[k].skip(n));
            }
        } else {
            let initial = plan.initial;
            lemma_start_states(patterns, n, patterns.len() as int);
            assert forall|k: int| 0 <= k < initial.len() implies valid_position(
                patterns,
                #[trigger] initial[k],
            ) by {
                lemma_starts_with_root(patterns, initial[k].0, n);
            }
            law_walk_emits_what_states_match(patterns, initial, rest);
            if states_match(patterns, initial, rest) {
                let k = choose|k: int|
                    0 <= k < initial.len() && path_matches(
                        remaining(patterns, #[trigger] initial[k]),
                        rest,
                    );
                assert(path_matches(patterns[initial[k].0], names));
            }
            if any_matches(patterns, names) {
                let i = choose|i: int|
                    0 <= i < patterns.len() && path_matches(#[trigger] patterns[i], names);
                assert(path_matches(patterns[i].skip(n), rest));
                assert(patterns[i].len() != n);
                let k = choose|k: int| 0 <= k < initial.len() && initial[k] == (i, n);
                assert(path_matches(remaining(patterns, initial[k]), rest));
            }
        }
    }
}

/// Each list starts with the literals that make up the root.
pub proof fn lemma_starts_with_root(patterns: Seq<Seq<Comp>>, i: int, n: int)
    requires
        0 <= i < patterns.len(),
        n == shared_literals(patterns, 0),
    ensures
        0 <= n <= patterns[i].len(),
        forall|k: int| 0 <= k < n ==> (#[trigger] patterns[i][k]) is Literal,
        literal_names(patterns[i], n) == literal_names(patterns[0], n),
{
    lemma_shared_literals(patterns, 0);
    if n > 0 {
        assert(shared_literal(patterns, n - 1));
    }
    assert forall|k: int| 0 <= k < n implies (#[trigger] patterns[i][k]) is Literal && patterns[i][k]
        == patterns[0][k] by {
        assert(shared_literal(patterns, k));
    }
    assert(literal_names(patterns[i], n) =~= literal_names(patterns[0], n));
}

} // verus!
