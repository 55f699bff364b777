//! Glob pattern compilation and matching for streaming directory walks.
//!
//! The syntax is `*`, `?`, `[abc]`, `[a-b]`, `[!abc]`, `\` escapes, `**` as a
//! whole component matching zero or more levels, and `{a,b}` brace
//! alternation. `**` must be an entire component (elsewhere consecutive `*`s
//! collapse to one), at most one `**` per pattern, and malformed character
//! classes match nothing rather than erroring.
//!
//! A pattern compiles to a [`GlobPlan`]: brace groups are expanded into a set
//! of component lists, and matching runs as a small NFA over directory levels.
//! A walk carries a set of [`Pos`] states per directory and calls
//! [`GlobPlan::step`] for each child to learn whether to emit it and with
//! which states to descend.

use vstd::prelude::*;

use crate::braces::expand_braces;
use crate::braces::expansion;
use crate::braces::law_expansions_are_brace_free;
use crate::braces::unclosed_error;
use crate::component::comp_matches;
use crate::component::components_of;
use crate::component::comps;
use crate::component::parse_components;
use crate::component::Comp;
use crate::component::Component;
use crate::error::invalid_path_text;
use crate::error::BridgeError;
use crate::error::ErrorModel;
use crate::error::KindModel;
use crate::selection::law_step_states_are_valid;
use crate::text::concat3;
use crate::text::views;

verus! {

/// An NFA state: the walk's current directory has matched components
/// `0..comp` of pattern `pat`, so children are matched against `comp`.
#[derive(Debug, Clone, Copy, PartialEq, Eq, Structural)]
pub struct Pos {
    pat: usize,
    comp: usize,
}

impl View for Pos {
    type V = (int, int);

    closed spec fn view(&self) -> (int, int) {
        (self.pat as int, self.comp as int)
    }
}

/// What a sequence of states stands for: for each, the index of its pattern
/// and of the component that children are matched against.
pub open spec fn positions(states: Seq<Pos>) -> Seq<(int, int)> {
    Seq::new(states.len(), |k: int| states[k]@)
}

/// The result of matching one directory child against a state set.
pub struct Step {
    /// The child is itself a match: emit it.
    pub emit: bool,
    /// States to descend into the child with (empty: don't descend).
    pub next: Vec<Pos>,
}

/// A compiled glob pattern: brace-expanded component lists plus the literal
/// root the walk starts from.
pub struct GlobPlan {
    patterns: Vec<Vec<Component>>,
    root: String,
    initial: Vec<Pos>,
    emit_root: bool,
}

/// What a [`GlobPlan`] stands for.
pub struct PlanModel {
    /// The component lists.
    pub patterns: Seq<Seq<Comp>>,
    /// The path the walk starts from.
    pub root: Seq<char>,
    /// The states for the root's children.
    pub initial: Seq<(int, int)>,
    /// Whether the root itself is a match.
    pub emit_root: bool,
}

/// What a sequence of component lists stands for.
pub open spec fn comp_lists(lists: Seq<Vec<Component>>) -> Seq<Seq<Comp>> {
    Seq::new(lists.len(), |k: int| comps(lists[k]@))
}

impl View for GlobPlan {
    type V = PlanModel;

    closed spec fn view(&self) -> PlanModel {
        PlanModel {
            patterns: comp_lists(self.patterns@),
            root: self.root@,
            initial: positions(self.initial@),
            emit_root: self.emit_root,
        }
    }
}

/// Whether `components` holds more than one `**`.
pub open spec fn has_two_crawls(components: Seq<Comp>) -> bool {
    exists|i: int, j: int|
        0 <= i < j < components.len() && (#[trigger] components[i]) is Crawl
            && (#[trigger] components[j]) is Crawl
}

/// Whether all `patterns` have one and the same literal as component `k`.
pub open spec fn shared_literal(patterns: Seq<Seq<Comp>>, k: int) -> bool {
    forall|i: int|
        0 <= i < patterns.len() ==> k < (#[trigger] patterns[i]).len() && patterns[i][k] is Literal
            && patterns[i][k] == patterns[0][k]
}

/// How many components from `k` on all `patterns` share as literals, before the
/// first that they do not.
pub open spec fn shared_literals(patterns: Seq<Seq<Comp>>, k: int) -> int
    decreases patterns[0].len() - k,
{
    if patterns.len() > 0 && k < patterns[0].len() && shared_literal(patterns, k) {
        1 + shared_literals(patterns, k + 1)
    } else {
        0
    }
}

/// The names of the first `n` components of a list, which are literals.
pub open spec fn literal_names(components: Seq<Comp>, n: int) -> Seq<Seq<char>> {
    Seq::new(n as nat, |k: int| components[k]->Literal_0)
}

/// `names`, each with a `/` before it.
pub open spec fn slashed(names: Seq<Seq<char>>) -> Seq<char>
    decreases names.len(),
{
    if names.len() == 0 {
        Seq::empty()
    } else {
        slashed(names.drop_last()).push('/') + names.last()
    }
}

/// The absolute path with the given names.
pub open spec fn path_of(names: Seq<Seq<char>>) -> Seq<char> {
    if names.len() == 0 {
        seq!['/']
    } else {
        slashed(names)
    }
}

/// The states in which the first `n` patterns start, if `consumed` components
/// of each make up the root: none for a pattern that ends there.
pub open spec fn start_states(patterns: Seq<Seq<Comp>>, consumed: int, n: int) -> Seq<(int, int)>
    decreases n,
{
    if n <= 0 {
        Seq::empty()
    } else {
        let before = start_states(patterns, consumed, n - 1);
        if patterns[n - 1].len() == consumed {
            before
        } else {
            before.push((n - 1, consumed))
        }
    }
}

/// The component lists that a pattern's expansions stand for.
pub open spec fn component_lists(expansions: Seq<Seq<char>>) -> Seq<Seq<Comp>> {
    Seq::new(expansions.len(), |k: int| components_of(expansions[k]))
}

/// The error for more than one `**` in a pattern.
pub open spec fn two_crawls_error(pattern: Seq<char>) -> ErrorModel {
    ErrorModel {
        kind: KindModel::InvalidPath,
        text: invalid_path_text(
            "Cannot use multiple '**' in one path: '"@ + pattern + "'"@,
        ),
    }
}

/// The plan for the given component lists: the root is the longest literal
/// prefix that they share.
pub open spec fn plan_of(patterns: Seq<Seq<Comp>>) -> PlanModel {
    let consumed = shared_literals(patterns, 0);
    PlanModel {
        patterns,
        root: path_of(literal_names(patterns[0], consumed)),
        initial: start_states(patterns, consumed, patterns.len() as int),
        emit_root: exists|k: int|
            0 <= k < patterns.len() && (#[trigger] patterns[k]).len() == consumed,
    }
}

/// What compiling `pattern` gives.
pub open spec fn compiled(pattern: Seq<char>) -> Result<PlanModel, ErrorModel> {
    match expansion(pattern) {
        Err(unclosed) => Err(unclosed_error(unclosed)),
        Ok(expansions) => {
            let patterns = component_lists(expansions);
            if exists|k: int| 0 <= k < patterns.len() && has_two_crawls(#[trigger] patterns[k]) {
                Err(two_crawls_error(pattern))
            } else {
                Ok(plan_of(patterns))
            }
        },
    }
}

/// Whether `q` is a state of a walk over `patterns`.
pub open spec fn valid_position(patterns: Seq<Seq<Comp>>, q: (int, int)) -> bool {
    0 <= q.0 < patterns.len() && 0 <= q.1 < patterns[q.0].len()
}

/// Whether all of `states` are states of a walk over `patterns`.
pub open spec fn valid_positions(patterns: Seq<Seq<Comp>>, states: Seq<(int, int)>) -> bool {
    forall|k: int| 0 <= k < states.len() ==> valid_position(patterns, #[trigger] states[k])
}

/// Whether no pattern holds more than one `**`.
pub open spec fn single_crawls(patterns: Seq<Seq<Comp>>) -> bool {
    forall|k: int| 0 <= k < patterns.len() ==> !has_two_crawls(#[trigger] patterns[k])
}

/// Whether a walk can be run along `plan`: each pattern holds at most one `**`,
/// and the initial states are states of a walk.
pub open spec fn is_walkable(plan: PlanModel) -> bool {
    &&& single_crawls(plan.patterns)
    &&& valid_positions(plan.patterns, plan.initial)
}

/// Whether a child called `name` of a directory in state `q` is a match.
pub open spec fn position_emits(
    patterns: Seq<Seq<Comp>>,
    q: (int, int),
    name: Seq<char>,
) -> bool {
    let components = patterns[q.0];
    if components[q.1] is Crawl {
        // A `**` at the end matches everything; before a component it may also
        // match zero levels.
        q.1 + 1 == components.len() || (q.1 + 2 == components.len() && comp_matches(
            components[q.1 + 1],
            name,
        ))
    } else {
        // The last component, or the last before a `**`, which may match zero
        // levels.
        comp_matches(components[q.1], name) && (q.1 + 1 == components.len() || (q.1 + 2
            == components.len() && components[q.1 + 1] is Crawl))
    }
}

/// The state after the component at `q`, if a directory called `name` matches
/// it and it is not the last.
pub open spec fn advanced(
    patterns: Seq<Seq<Comp>>,
    q: (int, int),
    name: Seq<char>,
    is_dir: bool,
) -> Seq<(int, int)> {
    if is_dir && q.1 + 1 < patterns[q.0].len() && comp_matches(patterns[q.0][q.1], name) {
        seq![(q.0, q.1 + 1)]
    } else {
        Seq::empty()
    }
}

/// The states with which a child called `name` of a directory in state `q` is
/// entered.
pub open spec fn position_next(
    patterns: Seq<Seq<Comp>>,
    q: (int, int),
    name: Seq<char>,
    is_dir: bool,
) -> Seq<(int, int)> {
    if patterns[q.0][q.1] is Crawl {
        // A `**` may match zero levels, and it goes on below every directory.
        (if q.1 + 1 < patterns[q.0].len() {
            advanced(patterns, (q.0, q.1 + 1), name, is_dir)
        } else {
            Seq::empty()
        }) + (if is_dir {
            seq![q]
        } else {
            Seq::empty()
        })
    } else {
        advanced(patterns, q, name, is_dir)
    }
}

/// `states` with `q` at the end, unless it is there already.
pub open spec fn with_state(states: Seq<(int, int)>, q: (int, int)) -> Seq<(int, int)> {
    if states.contains(q) {
        states
    } else {
        states.push(q)
    }
}

/// Law: a state that is added is present then, and the states from before keep
/// their places. Distinct states stay distinct, and to add the state again
/// changes nothing.
pub proof fn law_with_state_adds_once(states: Seq<(int, int)>, q: (int, int))
    ensures
        with_state(states, q).contains(q),
        states.is_prefix_of(with_state(states, q)),
        with_state(states, q).len() == states.len() + if states.contains(q) {
            0int
        } else {
            1int
        },
        states.no_duplicates() ==> with_state(states, q).no_duplicates(),
        with_state(with_state(states, q), q) == with_state(states, q),
{
    let all = with_state(states, q);
    if !states.contains(q) {
        assert(all[states.len() as int] == q);
    }
    assert(states =~= all.take(states.len() as int));
}

/// `states` with each of `more` at the end, unless it is there already.
pub open spec fn with_states(states: Seq<(int, int)>, more: Seq<(int, int)>) -> Seq<(int, int)>
    decreases more.len(),
{
    if more.len() == 0 {
        states
    } else {
        with_state(with_states(states, more.drop_last()), more.last())
    }
}

/// Whether a child called `name` of a directory with `states` is a match.
pub open spec fn step_emits(
    patterns: Seq<Seq<Comp>>,
    states: Seq<(int, int)>,
    name: Seq<char>,
) -> bool {
    exists|k: int| 0 <= k < states.len() && position_emits(patterns, #[trigger] states[k], name)
}

/// The states with which a child called `name` of a directory with `states` is
/// entered, in the order in which they are found, each of them once.
pub open spec fn step_next(
    patterns: Seq<Seq<Comp>>,
    states: Seq<(int, int)>,
    name: Seq<char>,
    is_dir: bool,
) -> Seq<(int, int)>
    decreases states.len(),
{
    if states.len() == 0 {
        Seq::empty()
    } else {
        with_states(
            step_next(patterns, states.drop_last(), name, is_dir),
            position_next(patterns, states.last(), name, is_dir),
        )
    }
}

/// Insert a state, keeping the (tiny) set duplicate-free.
pub fn push_state(states: &mut Vec<Pos>, pos: Pos)
    ensures
        positions(final(states)@) == with_state(positions(old(states)@), pos@),
        positions(final(states)@).contains(pos@),
        positions(old(states)@).is_prefix_of(positions(final(states)@)),
        positions(final(states)@).len() == positions(old(states)@).len() + if positions(
            old(states)@,
        ).contains(pos@) {
            0int
        } else {
            1int
        },
        positions(old(states)@).no_duplicates() ==> positions(final(states)@).no_duplicates(),
{
    let ghost before = positions(states@);
    proof {
        law_with_state_adds_once(before, pos@);
    }
    let mut i: usize = 0;
    while i < states.len()
        invariant
            i <= states@.len(),
            states@ == old(states)@,
            before == positions(states@),
            forall|k: int| 0 <= k < i ==> before[k] != pos@,
        decreases states@.len() - i,
    {
        if states[i] == pos {
            assert(before[i as int] == pos@);
            return;
        }
        i += 1;
    }
    assert(!before.contains(pos@));
    states.push(pos);
    assert(positions(states@) =~= before.push(pos@));
}

/// Whether `components` holds more than one `**`.
fn holds_two_crawls(components: &Vec<Component>) -> (r: bool)
    ensures
        r == has_two_crawls(comps(components@)),
{
    let ghost model = comps(components@);
    let mut found: Option<usize> = None;
    let mut i: usize = 0;
    while i < components.len()
        invariant
            i <= components@.len(),
            model == comps(components@),
            match found {
                Some(at) => at < i && model[at as int] is Crawl && forall|k: int|
                    0 <= k < i && k != at ==> !((#[trigger] model[k]) is Crawl),
                None => forall|k: int| 0 <= k < i ==> !((#[trigger] model[k]) is Crawl),
            },
        decreases components@.len() - i,
    {
        assert(model[i as int] == components@[i as int]@);
        if let Component::Crawl = &components[i] {
            if let Some(at) = found {
                assert(model[at as int] is Crawl && model[i as int] is Crawl);
                return true;
            }
            found = Some(i);
        }
        i += 1;
    }
    false
}

/// The text of component `k`, if there is one and it is a literal.
fn literal_at(components: &Vec<Component>, k: usize) -> (r: Option<&String>)
    ensures
        match r {
            Some(text) => k < components@.len() && comps(components@)[k as int] == Comp::Literal(
                text@,
            ),
            None => k < components@.len() ==> !(comps(components@)[k as int] is Literal),
        },
{
    if k < components.len() {
        match &components[k] {
            Component::Literal(text) => Some(text),
            _ => None,
        }
    } else {
        None
    }
}

/// Whether all patterns have the same literal as component `k`, and which.
fn shared_literal_at(patterns: &Vec<Vec<Component>>, k: usize) -> (r: Option<&String>)
    requires
        patterns@.len() > 0,
    ensures
        match r {
            Some(text) => shared_literal(comp_lists(patterns@), k as int) && comp_lists(
                patterns@,
            )[0][k as int] == Comp::Literal(text@),
            None => !shared_literal(comp_lists(patterns@), k as int),
        },
{
    let ghost model = comp_lists(patterns@);
    assert(model[0] == comps(patterns@[0]@));
    let first: &String = match literal_at(&patterns[0], k) {
        Some(text) => text,
        None => {
            return None;
        },
    };
    let mut i: usize = 1;
    while i < patterns.len()
        invariant
            1 <= i <= patterns@.len(),
            model == comp_lists(patterns@),
            k < model[0].len(),
            model[0][k as int] == Comp::Literal(first@),
            forall|j: int|
                0 <= j < i ==> k < (#[trigger] model[j]).len() && model[j][k as int] is Literal
                    && model[j][k as int] == model[0][k as int],
        decreases patterns@.len() - i,
    {
        assert(model[i as int] == comps(patterns@[i as int]@));
        match literal_at(&patterns[i], k) {
            Some(text) => {
                if *text != *first {
                    return None;
                }
            },
            None => {
                return None;
            },
        }
        i += 1;
    }
    Some(first)
}

impl GlobPlan {
    /// Whether a walk can be run along the plan.
    pub open spec fn wf(&self) -> bool {
        is_walkable(self@)
    }

    /// Compile `pattern`.
    pub fn parse(pattern: &str) -> (r: Result<GlobPlan, BridgeError>)
        ensures
            match compiled(pattern@) {
                Ok(plan) => r matches Ok(p) && p@ == plan && p.wf(),
                Err(error) => r matches Err(e) && e@ == error,
            },
    {
        let expanded: Vec<String> = match expand_braces(pattern) {
            Ok(expanded) => expanded,
            Err(e) => {
                return Err(e);
            },
        };
        let ghost expansions = views(expanded@);
        let ghost lists = component_lists(expansions);
        proof {
            law_expansions_are_brace_free(pattern@);
        }
        let mut patterns: Vec<Vec<Component>> = Vec::new();
        let mut i: usize = 0;
        while i < expanded.len()
            invariant
                i <= expanded@.len(),
                expansions == views(expanded@),
                lists == component_lists(expansions),
                expansion(pattern@) == Ok::<Seq<Seq<char>>, Seq<char>>(expansions),
                comp_lists(patterns@) == lists.take(i as int),
                forall|k: int| 0 <= k < i ==> !has_two_crawls(#[trigger] lists[k]),
            decreases expanded@.len() - i,
        {
            let components: Vec<Component> = parse_components(expanded[i].as_str());
            proof {
                assert(expansions[i as int] == expanded@[i as int]@);
                assert(lists[i as int] == comps(components@));
            }
            if holds_two_crawls(&components) {
                let message: String = concat3(
                    "Cannot use multiple '**' in one path: '",
                    pattern,
                    "'",
                );
                return Err(BridgeError::invalid_path(message.as_str()));
            }
            let ghost before = comp_lists(patterns@);
            patterns.push(components);
            proof {
                assert(comp_lists(patterns@) =~= before.push(lists[i as int]));
                assert(lists.take(i + 1) =~= lists.take(i as int).push(lists[i as int]));
            }
            i += 1;
        }
        assert(comp_lists(patterns@) =~= lists);
        Ok(GlobPlan::from_patterns(patterns))
    }

    /// The plan for the given component lists.
    fn from_patterns(patterns: Vec<Vec<Component>>) -> (r: GlobPlan)
        requires
            patterns@.len() > 0,
            single_crawls(comp_lists(patterns@)),
        ensures
            r@ == plan_of(comp_lists(patterns@)),
            r.wf(),
    {
        let ghost lists = comp_lists(patterns@);
        // The longest literal prefix shared by all patterns is the walk root:
        // nothing above it needs listing. Patterns keep their full component
        // lists; only the starting index moves.
        let first_len: usize = patterns[0].len();
        let mut root = String::new();
        let mut consumed: usize = 0;
        assert(lists[0] == comps(patterns@[0]@));
        assert(literal_names(lists[0], 0) =~= Seq::empty());
        loop
            invariant
                patterns@.len() > 0,
                lists == comp_lists(patterns@),
                consumed <= lists[0].len(),
                lists[0].len() == first_len,
                shared_literals(lists, 0) == consumed + shared_literals(lists, consumed as int),
                forall|k: int| 0 <= k < consumed ==> #[trigger] shared_literal(lists, k),
                root@ == slashed(literal_names(lists[0], consumed as int)),
            ensures
                shared_literals(lists, 0) == consumed,
            decreases lists[0].len() - consumed,
        {
            match shared_literal_at(&patterns, consumed) {
                Some(text) => {
                    let ghost names = literal_names(lists[0], consumed + 1);
                    proof {
                        assert(lists[0].len() > consumed);
                        assert(names.drop_last() =~= literal_names(lists[0], consumed as int));
                        assert(names.last() == text@);
                    }
                    root.push('/');
                    root.append(text.as_str());
                    consumed += 1;
                },
                None => {
                    break ;
                },
            }
        }
        if consumed == 0 {
            root.push('/');
            assert(root@ =~= seq!['/']);
        }
        // A pattern fully consumed by the prefix (i.e. entirely literal)
        // matches the root itself; the rest start matching at `consumed`.
        let mut initial: Vec<Pos> = Vec::new();
        let mut emit_root: bool = false;
        let mut pat: usize = 0;
        assert(positions(initial@) =~= start_states(lists, consumed as int, 0));
        while pat < patterns.len()
            invariant
                pat <= patterns@.len(),
                lists == comp_lists(patterns@),
                forall|k: int| 0 <= k < consumed ==> #[trigger] shared_literal(lists, k),
                positions(initial@) == start_states(lists, consumed as int, pat as int),
                valid_positions(lists, positions(initial@)),
                emit_root == exists|k: int|
                    0 <= k < pat && (#[trigger] lists[k]).len() == consumed,
            decreases patterns@.len() - pat,
        {
            let ghost before = positions(initial@);
            proof {
                assert(lists[pat as int] == comps(patterns@[pat as int]@));
                if consumed > 0 {
                    assert(shared_literal(lists, consumed - 1));
                    assert(lists[pat as int].len() >= consumed);
                }
            }
            if patterns[pat].len() == consumed {
                emit_root = true;
                assert(lists[pat as int].len() == consumed);
            } else {
                let pos = Pos { pat, comp: consumed };
                initial.push(pos);
                proof {
                    assert(positions(initial@) =~= before.push((pat as int, consumed as int)));
                    assert(valid_position(lists, (pat as int, consumed as int)));
                }
            }
            pat += 1;
        }
        GlobPlan { patterns, root, initial, emit_root }
    }

    /// The literal directory (or, for an all-literal pattern, path) the walk
    /// starts from.
    pub fn root(&self) -> (r: &str)
        ensures
            r@ == self@.root,
    {
        self.root.as_str()
    }

    /// States for the root directory's children. Empty for all-literal
    /// patterns (then [`GlobPlan::emit_root`] is the entire result).
    pub fn initial(&self) -> (r: &[Pos])
        ensures
            positions(r@) == self@.initial,
    {
        self.initial.as_slice()
    }

    /// Whether the root itself is a match (some pattern is fully literal).
    pub fn emit_root(&self) -> (r: bool)
        ensures
            r == self@.emit_root,
    {
        self.emit_root
    }

    /// Match one child (of a directory holding `states`) by name.
    pub fn step(&self, states: &[Pos], name: &str, is_dir: bool) -> (r: Step)
        requires
            self.wf(),
            valid_positions(self@.patterns, positions(states@)),
        ensures
            r.emit == step_emits(self@.patterns, positions(states@), name@),
            positions(r.next@) == step_next(
                self@.patterns,
                positions(states@),
                name@,
                is_dir,
            ),
            valid_positions(self@.patterns, positions(r.next@)),
    {
        let ghost patterns = self@.patterns;
        let ghost all = positions(states@);
        let mut step = Step { emit: false, next: Vec::new() };
        let mut i: usize = 0;
        proof {
            assert(positions(step.next@) =~= step_next(patterns, all.take(0), name@, is_dir));
        }
        while i < states.len()
            invariant
                i <= states@.len(),
                self.wf(),
                patterns == self@.patterns,
                all == positions(states@),
                valid_positions(patterns, all),
                step.emit == exists|k: int|
                    0 <= k < i && position_emits(patterns, #[trigger] all[k], name@),
                positions(step.next@) == step_next(patterns, all.take(i as int), name@, is_dir),
            decreases states@.len() - i,
        {
            let pos: Pos = states[i];
            let ghost q = all[i as int];
            let ghost next_before = positions(step.next@);
            proof {
                assert(q == pos@);
                assert(valid_position(patterns, q));
                assert(patterns[q.0] == comps(self.patterns@[q.0]@));
                assert(all.take(i + 1).drop_last() =~= all.take(i as int));
                assert(all.take(i + 1).last() == q);
            }
            let components: &Vec<Component> = &self.patterns[pos.pat];
            let n: usize = components.len();
            if let Component::Crawl = &components[pos.comp] {
                // A crawl consumes the child as an intermediate level...
                let ghost mut found: Seq<(int, int)> = Seq::empty();
                if pos.comp + 1 == n {
                    step.emit = true;  // terminal `**`: everything matches
                } else {
                    // ...or matches zero levels, deferring to the component
                    // after it.
                    let after = Pos { pat: pos.pat, comp: pos.comp + 1 };
                    proof {
                        assert(!has_two_crawls(patterns[q.0]));
                        assert(patterns[q.0][q.1] is Crawl);
                        assert(!(patterns[q.0][q.1 + 1] is Crawl));
                        found = advanced(patterns, after@, name@, is_dir);
                    }
                    self.match_at(after, name, is_dir, &mut step);
                }
                assert(positions(step.next@) == with_states(next_before, found));
                if is_dir {
                    push_state(&mut step.next, pos);  // keep crawling below
                    proof {
                        assert((found + seq![q]).drop_last() =~= found);
                        assert((found + seq![q]).last() == q);
                    }
                } else {
                    assert(found + Seq::<(int, int)>::empty() =~= found);
                }
            } else {
                self.match_at(pos, name, is_dir, &mut step);
            }
            i += 1;
        }
        proof {
            assert(all.take(i as int) =~= all);
            law_step_states_are_valid(patterns, all, name@, is_dir);
        }
        step
    }

    /// Match `name` against the single (non-crawl) component at `pos`,
    /// recording an emission or a descent state in `step`.
    fn match_at(&self, pos: Pos, name: &str, is_dir: bool, step: &mut Step)
        requires
            valid_position(self@.patterns, pos@),
            !(self@.patterns[pos@.0][pos@.1] is Crawl),
        ensures
            final(step).emit == (old(step).emit || position_emits(
                self@.patterns,
                pos@,
                name@,
            )),
            positions(final(step).next@) == with_states(
                positions(old(step).next@),
                advanced(self@.patterns, pos@, name@, is_dir),
            ),
    {
        let ghost before = positions(step.next@);
        let ghost q = pos@;
        let components: &Vec<Component> = &self.patterns[pos.pat];
        let n: usize = components.len();
        assert(self@.patterns[q.0] == comps(components@));
        if !components[pos.comp].matches(name) {
            return;
        }
        if pos.comp + 1 == n {
            step.emit = true;
        } else if pos.comp + 2 == n {
            if let Component::Crawl = &components[pos.comp + 1] {
                step.emit = true;  // terminal `**`: zero levels match too
            }
        }
        if pos.comp + 1 < n && is_dir {
            push_state(&mut step.next, Pos { pat: pos.pat, comp: pos.comp + 1 });
            proof {
                let one = seq![(q.0, q.1 + 1)];
                assert(one.drop_last() =~= Seq::empty());
                assert(with_states(before, one.drop_last()) == before);
            }
        }
    }
}

} // verus!
