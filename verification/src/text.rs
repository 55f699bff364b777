//! Small verified building blocks over strings, seen as sequences of
//! characters.

use vstd::prelude::*;

verus! {

/// `String::push` appends one character to the end of the string and leaves
/// what was there before it in place.
pub assume_specification[ String::push ](s: &mut String, c: char)
    ensures
        final(s)@ == old(s)@.push(c),
;

/// The texts of a sequence of strings.
pub open spec fn views(strings: Seq<String>) -> Seq<Seq<char>> {
    Seq::new(strings.len(), |i: int| strings[i]@)
}

/// Law: the texts of strings are those of each of them.
pub proof fn law_views(strings: Seq<String>, k: int)
    ensures
        views(strings).len() == strings.len(),
        0 <= k < strings.len() ==> views(strings)[k] == strings[k]@,
{
}

/// Whether `part` occurs in `whole` at index `at`.
pub open spec fn occurs_at(whole: Seq<char>, part: Seq<char>, at: int) -> bool {
    &&& 0 <= at <= whole.len() - part.len()
    &&& whole.subrange(at, at + part.len()) == part
}

/// Whether `part` occurs in `whole`.
pub open spec fn contains_text(whole: Seq<char>, part: Seq<char>) -> bool {
    exists|at: int| occurs_at(whole, part, at)
}

/// Law: a text occurs in another exactly if the other is made up of something
/// before it, the text, and something after it.
pub proof fn law_contains_text(whole: Seq<char>, part: Seq<char>)
    ensures
        contains_text(whole, part) <==> exists|before: Seq<char>, after: Seq<char>|
            whole == #[trigger] (before + part + after),
{
    if contains_text(whole, part) {
        let at = choose|at: int| occurs_at(whole, part, at);
        let before = whole.take(at);
        let after = whole.skip(at + part.len());
        assert(whole =~= before + part + after);
    }
    assert forall|before: Seq<char>, after: Seq<char>|
        whole == #[trigger] (before + part + after) implies contains_text(whole, part) by {
        let at = before.len() as int;
        assert(whole.subrange(at, at + part.len()) =~= part);
        assert(occurs_at(whole, part, at));
    }
}

/// The characters of `s`, in order.
pub fn chars_of(s: &str) -> (r: Vec<char>)
    ensures
        r@ == s@,
{
    let mut out: Vec<char> = Vec::new();
    for c in it: s.chars()
        invariant
            out@ == it.seq().take(it.index() as int),
            it.seq() == s@,
    {
        out.push(c);
    }
    out
}

/// The string holding `chars[from..to]`.
pub fn string_of(chars: &[char], from: usize, to: usize) -> (r: String)
    requires
        from <= to <= chars@.len(),
    ensures
        r@ == chars@.subrange(from as int, to as int),
{
    let mut out = String::new();
    let mut i: usize = from;
    while i < to
        invariant
            from <= i <= to <= chars@.len(),
            out@ == chars@.subrange(from as int, i as int),
        decreases to - i,
    {
        out.push(chars[i]);
        i += 1;
    }
    out
}

/// Whether `part` occurs in `whole`.
pub fn contains(whole: &str, part: &str) -> (r: bool)
    ensures
        r == contains_text(whole@, part@),
{
    let whole_chars: Vec<char> = chars_of(whole);
    let part_chars: Vec<char> = chars_of(part);
    let mut at: usize = 0;
    while at <= whole_chars.len() && part_chars.len() <= whole_chars.len() - at
        invariant
            whole_chars@ == whole@,
            part_chars@ == part@,
            at <= whole@.len() + 1,
            forall|k: int| 0 <= k < at ==> !occurs_at(whole@, part@, k),
        decreases whole@.len() + 1 - at,
    {
        if starts_with_at(&whole_chars, &part_chars, at) {
            assert(occurs_at(whole@, part@, at as int));
            return true;
        }
        if at == whole_chars.len() {
            return false;
        }
        at += 1;
    }
    false
}

/// Whether `part` occurs in `whole` at index `at`, where there is room for it.
fn starts_with_at(whole: &Vec<char>, part: &Vec<char>, at: usize) -> (r: bool)
    requires
        at <= whole@.len() - part@.len(),
    ensures
        r == occurs_at(whole@, part@, at as int),
{
    let whole_len: usize = whole.len();
    let mut i: usize = 0;
    while i < part.len()
        invariant
            whole_len == whole@.len(),
            at <= whole_len - part@.len(),
            i <= part@.len(),
            forall|k: int| 0 <= k < i ==> whole@[at + k] == part@[k],
        decreases part@.len() - i,
    {
        if whole[at + i] != part[i] {
            assert(whole@.subrange(at as int, at + part@.len())[i as int] != part@[i as int]);
            return false;
        }
        i += 1;
    }
    assert(whole@.subrange(at as int, at + part@.len()) =~= part@);
    true
}

/// `a`, `b` and `c` joined together.
pub fn concat3(a: &str, b: &str, c: &str) -> (r: String)
    ensures
        r@ == a@ + b@ + c@,
{
    let mut out = String::from_str(a);
    out.append(b);
    out.append(c);
    out
}

} // verus!
