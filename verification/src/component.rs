//! Path components of a glob pattern.

use vstd::prelude::*;

use crate::pattern::accepts;
use crate::pattern::lemma_token_at_bound;
use crate::pattern::match_component;
use crate::pattern::matches_pattern;
use crate::pattern::token_at;
use crate::pattern::tokens;
use crate::pattern::tokens_from;
use crate::pattern::tokens_match;
use crate::text::chars_of;
use crate::text::string_of;

verus! {

/// One component (one path level) of an expanded pattern.
#[derive(Debug)]
pub enum Component {
    /// `**`: matches zero or more path levels.
    Crawl,
    /// No unescaped wildcards; matched by string equality (stored unescaped).
    Literal(String),
    /// Contains wildcards; matched by [`match_component`] (stored raw).
    Pattern(String),
}

/// What a [`Component`] stands for.
pub enum Comp {
    Crawl,
    Literal(Seq<char>),
    Pattern(Seq<char>),
}

impl View for Component {
    type V = Comp;

    open spec fn view(&self) -> Comp {
        match *self {
            Component::Crawl => Comp::Crawl,
            Component::Literal(text) => Comp::Literal(text@),
            Component::Pattern(text) => Comp::Pattern(text@),
        }
    }
}

/// Whether the text `c`, from index `i` on, holds a wildcard that no `\`
/// escapes.
pub open spec fn has_wildcard(c: Seq<char>, i: int) -> bool
    decreases c.len() - i,
{
    if i >= c.len() {
        false
    } else if c[i] == '\\' {
        i + 1 < c.len() && has_wildcard(c, i + 2)
    } else {
        c[i] == '*' || c[i] == '?' || c[i] == '[' || has_wildcard(c, i + 1)
    }
}

/// The text `c`, from index `i` on, without its escapes; a `\` at the end
/// stands for itself.
pub open spec fn unescaped(c: Seq<char>, i: int) -> Seq<char>
    decreases c.len() - i,
{
    if i >= c.len() {
        Seq::empty()
    } else if c[i] == '\\' {
        if i + 1 < c.len() {
            seq![c[i + 1]] + unescaped(c, i + 2)
        } else {
            seq!['\\']
        }
    } else {
        seq![c[i]] + unescaped(c, i + 1)
    }
}

/// The component that the text `c` stands for.
pub open spec fn component_of(c: Seq<char>) -> Comp {
    if c == seq!['*', '*'] {
        Comp::Crawl
    } else if has_wildcard(c, 0) {
        Comp::Pattern(c)
    } else {
        Comp::Literal(unescaped(c, 0))
    }
}

/// Whether the component `c`, which is not a crawl, matches `name`.
pub open spec fn comp_matches(c: Comp, name: Seq<char>) -> bool {
    match c {
        Comp::Crawl => false,
        Comp::Literal(text) => name == text,
        Comp::Pattern(text) => matches_pattern(name, text),
    }
}

/// The index of the first `/` of `s` at or after `i`, or the length of `s`.
pub open spec fn next_slash(s: Seq<char>, i: int) -> int
    decreases s.len() - i,
{
    if i >= s.len() {
        s.len() as int
    } else if s[i] == '/' {
        i
    } else {
        next_slash(s, i + 1)
    }
}

/// The first `/` lies ahead, within the text or at its end.
pub proof fn lemma_next_slash_bound(s: Seq<char>, i: int)
    requires
        0 <= i <= s.len(),
    ensures
        i <= next_slash(s, i) <= s.len(),
    decreases s.len() - i,
{
    if i < s.len() && s[i] != '/' {
        lemma_next_slash_bound(s, i + 1);
    }
}

/// The non-empty pieces between the `/`s of `s`, from index `i` on.
pub open spec fn pieces(s: Seq<char>, i: int) -> Seq<Seq<char>>
    decreases s.len() - i,
{
    if i < 0 || i >= s.len() {
        Seq::empty()
    } else {
        proof {
            lemma_next_slash_bound(s, i);
        }
        let end = next_slash(s, i);
        if end == i {
            pieces(s, i + 1)
        } else {
            seq![s.subrange(i, end)] + pieces(s, end)
        }
    }
}

/// The components of an expanded pattern, one for each non-empty piece between
/// its `/`s.
pub open spec fn components_of(s: Seq<char>) -> Seq<Comp> {
    Seq::new(pieces(s, 0).len(), |k: int| component_of(pieces(s, 0)[k]))
}

/// What a sequence of components stands for.
pub open spec fn comps(components: Seq<Component>) -> Seq<Comp> {
    Seq::new(components.len(), |k: int| components[k]@)
}

impl Component {
    /// Whether this component, which is not a crawl, matches `name`.
    pub fn matches(&self, name: &str) -> (r: bool)
        ensures
            r == comp_matches(self@, name@),
    {
        match self {
            Component::Crawl => false,
            Component::Literal(text) => name.to_owned() == *text,
            Component::Pattern(text) => match_component(name, text.as_str()),
        }
    }
}

/// Classify one raw path component. `**` must be the entire component to act
/// as a crawl; anywhere else consecutive `*`s collapse to one.
pub fn parse_component(comp: &str) -> (r: Component)
    ensures
        r@ == component_of(comp@),
{
    let ghost c = comp@;
    let chars: Vec<char> = chars_of(comp);
    let n: usize = chars.len();
    if n == 2 && chars[0] == '*' && chars[1] == '*' {
        assert(c =~= seq!['*', '*']);
        return Component::Crawl;
    }
    assert(c != seq!['*', '*']);
    let mut literal = String::new();
    let mut i: usize = 0;
    assert(literal@ + unescaped(c, 0) =~= unescaped(c, 0));
    while i < n
        invariant
            n == c.len(),
            chars@ == c,
            c == comp@,
            c != seq!['*', '*'],
            i <= n,
            has_wildcard(c, 0) == has_wildcard(c, i as int),
            unescaped(c, 0) == literal@ + unescaped(c, i as int),
        decreases n - i,
    {
        let ch: char = chars[i];
        let ghost before = literal@;
        if ch == '\\' {
            if i + 1 < n {
                literal.push(chars[i + 1]);
                assert(literal@ + unescaped(c, i + 2) =~= before + (seq![c[i + 1]] + unescaped(
                    c,
                    i + 2,
                )));
                i += 2;
            } else {
                literal.push('\\');  // dangling escape: keep it literal
                assert(literal@ =~= before + seq!['\\']);
                return Component::Literal(literal);
            }
        } else if ch == '*' || ch == '?' || ch == '[' {
            return Component::Pattern(comp.to_owned());
        } else {
            literal.push(ch);
            assert(literal@ + unescaped(c, i + 1) =~= before + (seq![c[i as int]] + unescaped(
                c,
                i + 1,
            )));
            i += 1;
        }
    }
    assert(literal@ + unescaped(c, i as int) =~= literal@);
    Component::Literal(literal)
}

/// The components of an expanded pattern.
pub fn parse_components(pattern: &str) -> (r: Vec<Component>)
    ensures
        comps(r@) == components_of(pattern@),
{
    let ghost s = pattern@;
    let chars: Vec<char> = chars_of(pattern);
    let n: usize = chars.len();
    let mut out: Vec<Component> = Vec::new();
    let mut i: usize = 0;
    let ghost mut read: Seq<Seq<char>> = Seq::empty();
    assert(read + pieces(s, 0) =~= pieces(s, 0));
    while i < n
        invariant
            n == s.len(),
            chars@ == s,
            s == pattern@,
            i <= n,
            pieces(s, 0) == read + pieces(s, i as int),
            comps(out@) == Seq::new(read.len(), |k: int| component_of(read[k])),
        decreases n - i,
    {
        proof {
            lemma_next_slash_bound(s, i as int);
        }
        if chars[i] == '/' {
            i += 1;
        } else {
            let mut end: usize = i;
            while end < n && chars[end] != '/'
                invariant
                    n == s.len(),
                    chars@ == s,
                    i <= end <= n,
                    next_slash(s, i as int) == next_slash(s, end as int),
                decreases n - end,
            {
                end += 1;
            }
            let piece: String = string_of(chars.as_slice(), i, end);
            let component: Component = parse_component(piece.as_str());
            let ghost before = read;
            let ghost out_before = comps(out@);
            out.push(component);
            proof {
                read = before.push(piece@);
                assert(read + pieces(s, end as int) =~= before + (seq![piece@] + pieces(
                    s,
                    end as int,
                )));
                assert(comps(out@) =~= out_before.push(component_of(piece@)));
                assert(comps(out@) =~= Seq::new(read.len(), |k: int| component_of(read[k])));
            }
            i = end;
        }
    }
    assert(read + pieces(s, i as int) =~= read);
    out
}

/// Text without wildcards, from index `i` on, matches what it says.
pub proof fn lemma_literal_tokens(c: Seq<char>, i: int, name: Seq<char>)
    requires
        0 <= i,
        !has_wildcard(c, i),
        tokens_from(c, i) is Some,
    ensures
        tokens_match(name, tokens_from(c, i)->0) <==> name == unescaped(c, i),
    decreases c.len() - i,
{
    let toks = tokens_from(c, i)->0;
    if i >= c.len() {
        if name.len() == 0 {
            assert(name =~= unescaped(c, i));
        }
    } else {
        lemma_token_at_bound(c, i);
        let (token, next) = token_at(c, i)->0;
        let rest = tokens_from(c, next)->0;
        assert(toks.drop_first() =~= rest);
        let head = if c[i] == '\\' {
            c[i + 1]
        } else {
            c[i]
        };
        assert(unescaped(c, i) == seq![head] + unescaped(c, next));
        if name.len() > 0 {
            lemma_literal_tokens(c, next, name.skip(1));
            assert(accepts(token, name[0]) == (name[0] == head));
            assert(name =~= seq![name[0]] + name.skip(1));
            if name == unescaped(c, i) {
                assert(name.skip(1) =~= unescaped(c, next));
            }
        }
    }
}

/// Law: storing a component as a literal is only a shortcut: apart from `**`,
/// and from wildcard-free text with a dangling escape, a component matches
/// exactly the names that its text matches as a pattern.
pub proof fn law_component_matches_as_pattern(c: Seq<char>, name: Seq<char>)
    requires
        c != seq!['*', '*'],
        has_wildcard(c, 0) || tokens(c) is Some,
    ensures
        comp_matches(component_of(c), name) == matches_pattern(name, c),
{
    if !has_wildcard(c, 0) {
        lemma_literal_tokens(c, 0, name);
    }
}

} // verus!
