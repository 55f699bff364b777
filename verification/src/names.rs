//! Paths made up of names.

use vstd::prelude::*;

use crate::braces::expansion;
use crate::braces::law_expansions_are_brace_free;
use crate::component::component_of;
use crate::component::components_of;
use crate::component::lemma_next_slash_bound;
use crate::component::next_slash;
use crate::component::pieces;
use crate::component::unescaped;
use crate::glob::compiled;
use crate::glob::component_lists;
use crate::glob::literal_names;
use crate::glob::path_of;
use crate::glob::plan_of;
use crate::glob::shared_literals;
use crate::glob::slashed;
use crate::reach::root_names;
use crate::selection::lemma_starts_with_root;
use crate::walk::base_name;

verus! {

/// Whether `name` can be the name of a file or directory.
pub open spec fn is_name(name: Seq<char>) -> bool {
    name.len() > 0 && !name.contains('/')
}

/// Whether all of `names` can be names of files or directories.
pub open spec fn are_names(names: Seq<Seq<char>>) -> bool {
    forall|k: int| 0 <= k < names.len() ==> is_name(#[trigger] names[k])
}

/// The name at the end of a path is what follows its last `/`.
pub proof fn lemma_base_name(front: Seq<char>, name: Seq<char>)
    requires
        front.len() > 0,
        front.last() == '/',
        !name.contains('/'),
    ensures
        base_name(front + name) == name,
    decreases name.len(),
{
    let path = front + name;
    if name.len() == 0 {
        assert(path =~= front);
    } else {
        let shorter = name.drop_last();
        assert(name.contains(name.last()));
        assert forall|k: int| 0 <= k < shorter.len() implies shorter[k] != '/' by {
            assert(name.contains(name[k]));
        }
        lemma_base_name(front, shorter);
        assert(path.drop_last() =~= front + shorter);
        assert(shorter.push(name.last()) =~= name);
    }
}

proof fn lemma_base_name_of_path(names: Seq<Seq<char>>)
    requires
        are_names(names),
        names.len() > 0,
    ensures
        base_name(path_of(names)) == names.last(),
        path_of(names).last() != '/',
{
    let front = slashed(names.drop_last()).push('/');
    lemma_base_name(front, names.last());
    assert(is_name(names[names.len() - 1]));
    assert(names.last().contains(names.last().last()));
    assert(path_of(names) == front + names.last());
    assert(path_of(names).last() == names.last().last());
}

/// Different names make up different paths.
pub proof fn lemma_path_determines_names(a: Seq<Seq<char>>, b: Seq<Seq<char>>)
    requires
        are_names(a),
        are_names(b),
        path_of(a) == path_of(b),
    ensures
        a == b,
{
    if a.len() == 0 || b.len() == 0 {
        if a.len() > 0 {
            lemma_base_name_of_path(a);
        }
        if b.len() > 0 {
            lemma_base_name_of_path(b);
        }
        assert(a =~= b);
    } else {
        lemma_slashed_determines_names(a, b);
    }
}

proof fn lemma_slashed_determines_names(a: Seq<Seq<char>>, b: Seq<Seq<char>>)
    requires
        are_names(a),
        are_names(b),
        slashed(a) == slashed(b),
    ensures
        a == b,
    decreases a.len(),
{
    if a.len() == 0 || b.len() == 0 {
        if a.len() > 0 {
            assert(slashed(a) == slashed(a.drop_last()).push('/') + a.last());
        }
        if b.len() > 0 {
            assert(slashed(b) == slashed(b.drop_last()).push('/') + b.last());
        }
        assert(slashed(a).len() == slashed(b).len());
        assert(a =~= b);
    } else {
        lemma_base_name_of_path(a);
        lemma_base_name_of_path(b);
        let a_front = slashed(a.drop_last());
        let b_front = slashed(b.drop_last());
        let name = a.last();
        assert(slashed(a) == a_front.push('/') + name);
        assert(slashed(b) == b_front.push('/') + name);
        assert(a_front.len() == b_front.len());
        assert forall|k: int| 0 <= k < a_front.len() implies a_front[k] == b_front[k] by {
            assert(slashed(a)[k] == a_front[k]);
            assert(slashed(b)[k] == b_front[k]);
        }
        assert(a_front =~= b_front);
        lemma_slashed_determines_names(a.drop_last(), b.drop_last());
        assert(a =~= a.drop_last().push(name));
        assert(b =~= b.drop_last().push(name));
    }
}

pub proof fn lemma_names_push(names: Seq<Seq<char>>, name: Seq<char>)
    requires
        are_names(names),
        is_name(name),
    ensures
        are_names(names.push(name)),
{
}

pub proof fn lemma_names_concat(a: Seq<Seq<char>>, b: Seq<Seq<char>>)
    requires
        are_names(a),
        are_names(b),
    ensures
        are_names(a + b),
{
}

/// Text without its escapes holds characters of the text, and some if there is
/// any text.
proof fn lemma_unescaped(c: Seq<char>, i: int)
    requires
        0 <= i,
        !c.contains('/'),
    ensures
        !unescaped(c, i).contains('/'),
        i < c.len() ==> unescaped(c, i).len() > 0,
    decreases c.len() - i,
{
    if i < c.len() {
        assert(c.contains(c[i]));
        if c[i] == '\\' {
            if i + 1 < c.len() {
                assert(c.contains(c[i + 1]));
                lemma_unescaped(c, i + 2);
            }
        } else {
            lemma_unescaped(c, i + 1);
        }
    }
}

proof fn lemma_no_slash_before_next(s: Seq<char>, i: int)
    requires
        0 <= i <= s.len(),
    ensures
        i <= next_slash(s, i) <= s.len(),
        !s.subrange(i, next_slash(s, i)).contains('/'),
    decreases s.len() - i,
{
    let end = next_slash(s, i);
    lemma_next_slash_bound(s, i);
    if i < s.len() && s[i] != '/' {
        lemma_no_slash_before_next(s, i + 1);
        let piece = s.subrange(i, end);
        let tail = s.subrange(i + 1, end);
        assert forall|k: int| 0 <= k < piece.len() implies piece[k] != '/' by {
            if k > 0 {
                assert(tail[k - 1] == piece[k]);
                assert(tail.contains(tail[k - 1]));
            }
        }
    }
}

/// The pieces between the `/`s of a text are not empty and hold no `/`.
proof fn lemma_pieces(s: Seq<char>, i: int, k: int)
    requires
        0 <= k < pieces(s, i).len(),
    ensures
        is_name(pieces(s, i)[k]),
    decreases s.len() - i,
{
    if 0 <= i < s.len() {
        lemma_no_slash_before_next(s, i);
        let end = next_slash(s, i);
        if end == i {
            lemma_pieces(s, i + 1, k);
        } else if k > 0 {
            lemma_pieces(s, end, k - 1);
        }
    }
}

/// The text of a literal component can be the name of a file or directory.
proof fn lemma_literals_are_names(text: Seq<char>, k: int)
    requires
        0 <= k < components_of(text).len(),
        components_of(text)[k] is Literal,
    ensures
        is_name(components_of(text)[k]->Literal_0),
{
    assert(components_of(text)[k] == component_of(pieces(text, 0)[k]));
    lemma_pieces(text, 0, k);
    lemma_unescaped(pieces(text, 0)[k], 0);
}

/// The names of a plan's root can be names of files or directories.
pub proof fn lemma_root_names(pattern: Seq<char>)
    requires
        compiled(pattern) is Ok,
    ensures
        are_names(root_names(pattern)),
{
    let plan = compiled(pattern)->Ok_0;
    let expansions = expansion(pattern)->Ok_0;
    let patterns = component_lists(expansions);
    law_expansions_are_brace_free(pattern);
    assert(plan.patterns == patterns);
    lemma_starts_with_root(patterns, 0, shared_literals(patterns, 0));
    let names = root_names(pattern);
    assert forall|k: int| 0 <= k < names.len() implies is_name(#[trigger] names[k]) by {
        assert(patterns[0][k] is Literal);
        lemma_literals_are_names(expansions[0], k);
    }
}

/// Whether `text` has no components but literals, whose names make up `path`.
pub open spec fn spells(text: Seq<char>, path: Seq<char>) -> bool {
    let components = components_of(text);
    &&& forall|k: int| 0 <= k < components.len() ==> (#[trigger] components[k]) is Literal
    &&& path_of(literal_names(components, components.len() as int)) == path
}

/// Law: the root of a plan is itself a match exactly if one of the pattern's
/// alternatives is fully literal and spells the root's path.
pub proof fn law_root_is_a_literal_alternative(pattern: Seq<char>)
    requires
        compiled(pattern) is Ok,
    ensures
        compiled(pattern)->Ok_0.emit_root <==> exists|k: int|
            0 <= k < expansion(pattern)->Ok_0.len() && spells(
                #[trigger] expansion(pattern)->Ok_0[k],
                compiled(pattern)->Ok_0.root,
            ),
{
    let plan = compiled(pattern)->Ok_0;
    let expansions = expansion(pattern)->Ok_0;
    let patterns = component_lists(expansions);
    let n = shared_literals(patterns, 0);
    law_expansions_are_brace_free(pattern);
    lemma_root_names(pattern);
    assert(plan == plan_of(patterns));
    if plan.emit_root {
        let k = choose|k: int| 0 <= k < patterns.len() && (#[trigger] patterns[k]).len() == n;
        lemma_starts_with_root(patterns, k, n);
        assert(patterns[k] == components_of(expansions[k]));
        assert(spells(expansions[k], plan.root));
    }
    assert forall|k: int|
        0 <= k < expansions.len() && spells(
            #[trigger] expansions[k],
            plan.root,
        ) implies plan.emit_root by {
        let components = components_of(expansions[k]);
        let names = literal_names(components, components.len() as int);
        assert forall|j: int| 0 <= j < names.len() implies is_name(#[trigger] names[j]) by {
            assert(components[j] is Literal);
            lemma_literals_are_names(expansions[k], j);
        }
        lemma_path_determines_names(names, root_names(pattern));
        lemma_starts_with_root(patterns, k, n);
        assert(patterns[k].len() == n);
    }
}

} // verus!
