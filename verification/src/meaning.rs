//! What a component pattern means.
//!
//! A pattern is the text of a sequence of pieces: `*`, `?`, plain and escaped
//! characters, and classes. It matches a name exactly if the name can be divided
//! into parts, one for each piece, that the pieces fit.

use vstd::prelude::*;

use crate::pattern::accepts;
use crate::pattern::class_at;
use crate::pattern::class_members;
use crate::pattern::in_ranges;
use crate::pattern::law_tokens_concat;
use crate::pattern::lemma_class_members_bound;
use crate::pattern::lemma_token_at_bound;
use crate::pattern::lemma_tokens_match_concat;
use crate::pattern::matches_pattern;
use crate::pattern::token_at;
use crate::pattern::tokens;
use crate::pattern::tokens_from;
use crate::pattern::tokens_match;
use crate::pattern::Token;

verus! {

/// A member of a class.
pub enum Member {
    /// A character.
    One(char),
    /// The characters from one to another, both included.
    Range(char, char),
}

/// The text of a member.
pub open spec fn member_text(member: Member) -> Seq<char> {
    match member {
        Member::One(c) => seq![c],
        Member::Range(a, b) => seq![a, '-', b],
    }
}

/// The text of members, one after the other.
pub open spec fn members_text(members: Seq<Member>) -> Seq<char>
    decreases members.len(),
{
    if members.len() == 0 {
        Seq::empty()
    } else {
        member_text(members[0]) + members_text(members.drop_first())
    }
}

/// The character that the text of a member starts with.
pub open spec fn head(member: Member) -> char {
    match member {
        Member::One(c) => c,
        Member::Range(a, _) => a,
    }
}

/// Whether the text of `members` is read as these members: a `]` stands first or
/// not at all, and a `-` after a single character stands last.
pub open spec fn are_members(members: Seq<Member>) -> bool {
    &&& forall|k: int| 0 < k < members.len() ==> head(#[trigger] members[k]) != ']'
    &&& forall|k: int|
        0 <= k < members.len() ==> ((#[trigger] members[k]) matches Member::Range(_, b) ==> b
            != ']')
    &&& forall|k: int|
        0 < k < members.len() && head(#[trigger] members[k]) == '-' && members[k - 1] is One
            ==> members[k] is One && k + 1 == members.len()
}

/// Whether a member is or takes in the character `c`.
pub open spec fn takes_in(member: Member, c: char) -> bool {
    match member {
        Member::One(d) => c == d,
        Member::Range(a, b) => a <= c && c <= b,
    }
}

/// Whether one of `members` is or takes in the character `c`.
pub open spec fn one_takes_in(members: Seq<Member>, c: char) -> bool {
    exists|k: int| 0 <= k < members.len() && takes_in(#[trigger] members[k], c)
}

/// A piece of a component pattern.
pub enum Piece {
    /// `*`.
    Run,
    /// `?`.
    Any,
    /// A character that stands for itself.
    Plain(char),
    /// A character with a `\` before it.
    Escaped(char),
    /// A class: its members or, with a `!`, all but its members.
    Class(bool, Seq<Member>),
}

/// The text of a piece.
pub open spec fn piece_text(piece: Piece) -> Seq<char> {
    match piece {
        Piece::Run => seq!['*'],
        Piece::Any => seq!['?'],
        Piece::Plain(c) => seq![c],
        Piece::Escaped(c) => seq!['\\', c],
        Piece::Class(negated, members) => (if negated {
            seq!['[', '!']
        } else {
            seq!['[']
        }) + members_text(members) + seq![']'],
    }
}

/// Whether the text of a piece is read as this piece.
pub open spec fn is_piece(piece: Piece) -> bool {
    match piece {
        Piece::Plain(c) => c != '*' && c != '?' && c != '[' && c != '\\',
        Piece::Class(negated, members) => {
            &&& members.len() > 0
            &&& are_members(members)
            &&& negated || head(members[0]) != '!'
        },
        _ => true,
    }
}

/// Whether a piece fits a part of a name.
pub open spec fn fits(piece: Piece, part: Seq<char>) -> bool {
    match piece {
        Piece::Run => true,
        Piece::Any => part.len() == 1,
        Piece::Plain(c) => part == seq![c],
        Piece::Escaped(c) => part == seq![c],
        Piece::Class(negated, members) => part.len() == 1 && (if negated {
            !one_takes_in(members, part[0])
        } else {
            one_takes_in(members, part[0])
        }),
    }
}

/// The text of pieces, one after the other.
pub open spec fn pieces_text(pieces: Seq<Piece>) -> Seq<char>
    decreases pieces.len(),
{
    if pieces.len() == 0 {
        Seq::empty()
    } else {
        piece_text(pieces[0]) + pieces_text(pieces.drop_first())
    }
}

/// Parts, one after the other.
pub open spec fn joined(parts: Seq<Seq<char>>) -> Seq<char>
    decreases parts.len(),
{
    if parts.len() == 0 {
        Seq::empty()
    } else {
        parts[0] + joined(parts.drop_first())
    }
}

/// Whether `parts` are parts of `name` that `pieces` fit, one by one.
pub open spec fn fit_parts(
    pieces: Seq<Piece>,
    parts: Seq<Seq<char>>,
    name: Seq<char>,
) -> bool {
    &&& parts.len() == pieces.len()
    &&& joined(parts) == name
    &&& forall|k: int| 0 <= k < pieces.len() ==> fits(#[trigger] pieces[k], parts[k])
}

/// Whether `name` can be divided into parts that `pieces` fit, one by one.
pub open spec fn fit_all(pieces: Seq<Piece>, name: Seq<char>) -> bool {
    exists|parts: Seq<Seq<char>>| fit_parts(pieces, parts, name)
}

/// Whether `p` is the text of `pieces`, and is read as these.
pub open spec fn reads_as(p: Seq<char>, pieces: Seq<Piece>) -> bool {
    &&& p == pieces_text(pieces)
    &&& forall|k: int| 0 <= k < pieces.len() ==> is_piece(#[trigger] pieces[k])
}

spec fn range_of(member: Member) -> (char, char) {
    match member {
        Member::One(c) => (c, c),
        Member::Range(a, b) => (a, b),
    }
}

spec fn ranges_of(members: Seq<Member>) -> Seq<(char, char)> {
    Seq::new(members.len(), |k: int| range_of(members[k]))
}

spec fn token_of(piece: Piece) -> Token {
    match piece {
        Piece::Run => Token::Star,
        Piece::Any => Token::AnyChar,
        Piece::Plain(c) => Token::Char(c),
        Piece::Escaped(c) => Token::Char(c),
        Piece::Class(negated, members) => Token::Class {
            invert: negated,
            ranges: ranges_of(members),
        },
    }
}

proof fn lemma_in_ranges(members: Seq<Member>, c: char)
    ensures
        in_ranges(c, ranges_of(members)) == one_takes_in(members, c),
{
    let ranges = ranges_of(members);
    if one_takes_in(members, c) {
        let k = choose|k: int| 0 <= k < members.len() && takes_in(#[trigger] members[k], c);
        assert(ranges[k].0 <= c <= ranges[k].1);
    }
    if in_ranges(c, ranges) {
        let k = choose|k: int| 0 <= k < ranges.len() && (#[trigger] ranges[k]).0 <= c <= ranges[k].1;
        assert(takes_in(members[k], c));
    }
}

proof fn lemma_members_after_first(members: Seq<Member>)
    requires
        are_members(members),
        members.len() > 0,
    ensures
        are_members(members.drop_first()),
{
    let more = members.drop_first();
    assert forall|k: int| 0 < k < more.len() implies head(#[trigger] more[k]) != ']' by {
        assert(more[k] == members[k + 1]);
    }
    assert forall|k: int| 0 <= k < more.len() implies ((
    #[trigger] more[k]) matches Member::Range(_, b) ==> b != ']') by {
        assert(more[k] == members[k + 1]);
    }
    assert forall|k: int|
        0 < k < more.len() && head(#[trigger] more[k]) == '-' && more[k - 1] is One implies
        more[k] is One && k + 1 == more.len() by {
        assert(more[k] == members[k + 1] && more[k - 1] == members[k]);
    }
}

/// The text of members is read as these members.
proof fn lemma_members_are_read(
    p: Seq<char>,
    start: int,
    i: int,
    members: Seq<Member>,
    rest: Seq<char>,
)
    requires
        0 <= start <= i <= p.len(),
        p.skip(i) == members_text(members) + seq![']'] + rest,
        are_members(members),
        i == start ==> members.len() > 0,
        i > start ==> members.len() > 0 ==> head(members[0]) != ']',
    ensures
        class_members(p, start, i) == Some(
            (ranges_of(members), i + members_text(members).len() + 1),
        ),
    decreases members.len(),
{
    let tail = p.skip(i);
    assert(tail.len() > 0);
    assert(p[i] == tail[0]);
    if members.len() == 0 {
        assert(p[i] == ']');
        assert(ranges_of(members) =~= Seq::empty());
    } else {
        let member = members[0];
        let more = members.drop_first();
        let text = member_text(member);
        let after = members_text(more) + seq![']'] + rest;
        assert(tail =~= text + after);
        assert(p[i] == head(member));
        let n = text.len() as int;
        assert(tail.skip(n) =~= after);
        assert(p.skip(i + n) =~= tail.skip(n));
        lemma_members_after_first(members);
        if more.len() > 0 {
            assert(more[0] == members[1]);
            assert(members_text(more)[0] == head(more[0]));
            assert(after[0] == head(more[0]));
        } else {
            assert(after[0] == ']');
        }
        assert(p[i + n] == after[0]);
        lemma_members_are_read(p, start, i + n, more, rest);
        assert(seq![range_of(member)] + ranges_of(more) =~= ranges_of(members));
        match member {
            Member::Range(a, b) => {
                assert(p[i + 1] == tail[1] && p[i + 2] == tail[2]);
            },
            Member::One(c) => {
                if p[i + 1] == '-' && i + 2 < p.len() {
                    assert(more.len() == 1 && more[0] == Member::One('-'));
                    assert(more.drop_first() =~= Seq::empty());
                    assert(members_text(more.drop_first()) == Seq::<char>::empty());
                    assert(members_text(more) =~= member_text(more[0]));
                    assert(after[1] == ']');
                    assert(p[i + 2] == after[1]);
                }
            },
        }
    }
}

/// The text of a piece is read as this piece.
proof fn lemma_piece_is_read(piece: Piece)
    requires
        is_piece(piece),
    ensures
        tokens(piece_text(piece)) == Some(seq![token_of(piece)]),
        piece_text(piece).len() > 0,
{
    let p = piece_text(piece);
    if let Piece::Class(negated, members) = piece {
        let text = members_text(members);
        let start: int = if negated {
            2
        } else {
            1
        };
        assert(text[0] == head(members[0]));
        assert(p.skip(start) =~= text + seq![']'] + Seq::empty());
        assert(p[0] == '[');
        if negated {
            assert(p[1] == '!');
        } else {
            assert(p[1] == text[0]);
        }
        lemma_members_are_read(p, start, start, members, Seq::empty());
        assert(class_at(p, 1) == Some((token_of(piece), p.len() as int)));
    }
    assert(token_at(p, 0) == Some((token_of(piece), p.len() as int)));
    assert(tokens_from(p, p.len() as int) == Some(Seq::<Token>::empty()));
    assert(seq![token_of(piece)] + Seq::<Token>::empty() =~= seq![token_of(piece)]);
}

spec fn tokens_of(pieces: Seq<Piece>) -> Seq<Token> {
    Seq::new(pieces.len(), |k: int| token_of(pieces[k]))
}

proof fn lemma_pieces_are_read(pieces: Seq<Piece>)
    requires
        forall|k: int| 0 <= k < pieces.len() ==> is_piece(#[trigger] pieces[k]),
    ensures
        tokens(pieces_text(pieces)) == Some(tokens_of(pieces)),
    decreases pieces.len(),
{
    if pieces.len() == 0 {
        assert(tokens_of(pieces) =~= Seq::empty());
    } else {
        let more = pieces.drop_first();
        assert forall|k: int| 0 <= k < more.len() implies is_piece(#[trigger] more[k]) by {
            assert(more[k] == pieces[k + 1]);
        }
        lemma_piece_is_read(pieces[0]);
        lemma_pieces_are_read(more);
        law_tokens_concat(piece_text(pieces[0]), pieces_text(more));
        assert(seq![token_of(pieces[0])] + tokens_of(more) =~= tokens_of(pieces));
    }
}

/// One token takes the parts that its piece fits.
proof fn lemma_piece_fits(piece: Piece, part: Seq<char>)
    ensures
        tokens_match(part, seq![token_of(piece)]) == fits(piece, part),
    decreases part.len(),
{
    let toks = seq![token_of(piece)];
    let none = toks.drop_first();
    assert(none =~= Seq::empty());
    if part.len() > 0 {
        let tail = part.skip(1);
        assert(tokens_match(tail, none) == (tail.len() == 0));
        if piece is Run {
            lemma_piece_fits(piece, tail);
        }
        if let Piece::Class(negated, members) = piece {
            lemma_in_ranges(members, part[0]);
        }
        if tail.len() == 0 {
            assert(part =~= seq![part[0]]);
        }
    } else {
        assert(tokens_match(part, none));
    }
}

proof fn lemma_pieces_fit(pieces: Seq<Piece>, name: Seq<char>)
    ensures
        tokens_match(name, tokens_of(pieces)) == fit_all(pieces, name),
    decreases pieces.len(),
{
    if pieces.len() == 0 {
        let none = Seq::<Seq<char>>::empty();
        if name.len() == 0 {
            assert(joined(none) =~= name);
            assert(fit_parts(pieces, none, name));
        }
        if fit_all(pieces, name) {
            let parts = choose|parts: Seq<Seq<char>>| fit_parts(pieces, parts, name);
            assert(parts.len() == 0);
        }
    } else {
        let first = seq![token_of(pieces[0])];
        let more = pieces.drop_first();
        assert(tokens_of(pieces) =~= first + tokens_of(more));
        lemma_tokens_match_concat(name, first, tokens_of(more));
        if tokens_match(name, tokens_of(pieces)) {
            let k = choose|k: int|
                0 <= k <= name.len() && tokens_match(name.take(k), first)
                    && #[trigger] tokens_match(name.skip(k), tokens_of(more));
            lemma_piece_fits(pieces[0], name.take(k));
            lemma_pieces_fit(more, name.skip(k));
            let rest = choose|parts: Seq<Seq<char>>| fit_parts(more, parts, name.skip(k));
            let parts = seq![name.take(k)] + rest;
            assert(parts.drop_first() =~= rest);
            assert(name.take(k) + name.skip(k) =~= name);
            assert forall|j: int| 0 <= j < pieces.len() implies fits(
                #[trigger] pieces[j],
                parts[j],
            ) by {
                if j > 0 {
                    assert(pieces[j] == more[j - 1]);
                    assert(parts[j] == rest[j - 1]);
                }
            }
            assert(fit_parts(pieces, parts, name));
        }
        if fit_all(pieces, name) {
            let parts = choose|parts: Seq<Seq<char>>| fit_parts(pieces, parts, name);
            let rest = parts.drop_first();
            let k = parts[0].len() as int;
            assert(name.take(k) =~= parts[0]);
            assert(name.skip(k) =~= joined(rest));
            assert forall|j: int| 0 <= j < more.len() implies fits(#[trigger] more[j], rest[j]) by {
                assert(more[j] == pieces[j + 1]);
                assert(rest[j] == parts[j + 1]);
            }
            assert(fit_parts(more, rest, name.skip(k)));
            assert(fits(pieces[0], parts[0]));
            lemma_piece_fits(pieces[0], name.take(k));
            lemma_pieces_fit(more, name.skip(k));
            assert(tokens_match(name.skip(k), tokens_of(more)));
        }
    }
}

/// The member whose text starts at `p[i]`.
spec fn member_at(p: Seq<char>, i: int) -> Member {
    if i + 2 < p.len() && p[i + 1] == '-' && p[i + 2] != ']' {
        Member::Range(p[i], p[i + 2])
    } else {
        Member::One(p[i])
    }
}

/// The piece whose text starts at `p[i]`, with `members` if it is a class.
spec fn piece_at(p: Seq<char>, i: int, members: Seq<Member>) -> Piece {
    if p[i] == '*' {
        Piece::Run
    } else if p[i] == '?' {
        Piece::Any
    } else if p[i] == '[' {
        Piece::Class(i + 1 < p.len() && p[i + 1] == '!', members)
    } else if p[i] == '\\' {
        Piece::Escaped(p[i + 1])
    } else {
        Piece::Plain(p[i])
    }
}

/// A character as a member.
spec fn one(c: char) -> Member {
    Member::One(c)
}

/// A closed class has members.
proof fn lemma_class_has_members(p: Seq<char>, start: int, i: int) -> (members: Seq<Member>)
    requires
        0 <= start <= i,
        class_members(p, start, i) is Some,
    ensures
        class_members(p, start, i) matches Some((_, end)) && i < end <= p.len() && p.subrange(
            i,
            end,
        ) == members_text(members) + seq![']'],
        are_members(members),
        i == start ==> members.len() > 0,
        i > start && members.len() > 0 ==> head(members[0]) != ']',
        members.len() > 0 ==> head(members[0]) == p[i],
    decreases p.len() - i,
{
    lemma_class_members_bound(p, start, i);
    let end = (class_members(p, start, i)->0).1;
    if p[i] == ']' && i > start {
        assert(p.subrange(i, end) =~= Seq::<char>::empty() + seq![']']);
        Seq::empty()
    } else {
        let member = member_at(p, i);
        let n = member_text(member).len() as int;
        let more = lemma_class_has_members(p, start, i + n);
        let members = seq![member] + more;
        assert(members.drop_first() =~= more);
        lemma_class_members_bound(p, start, i + n);
        assert(p.subrange(i, end) =~= member_text(member) + p.subrange(i + n, end));
        assert(member_text(member) + (members_text(more) + seq![']']) =~= members_text(members)
            + seq![']']);
        assert forall|k: int| 0 < k < members.len() implies head(#[trigger] members[k]) != ']' by {
            assert(members[k] == more[k - 1]);
        }
        assert forall|k: int| 0 <= k < members.len() implies ((
        #[trigger] members[k]) matches Member::Range(_, b) ==> b != ']') by {
            if k > 0 {
                assert(members[k] == more[k - 1]);
            }
        }
        assert forall|k: int|
            0 < k < members.len() && head(#[trigger] members[k]) == '-'
                && members[k - 1] is One implies members[k] is One && k + 1 == members.len() by {
            assert(members[k] == more[k - 1]);
            if k > 1 {
                assert(members[k - 1] == more[k - 2]);
            } else {
                // The `-` is followed by the closing `]`.
                assert(p[i + 1] == '-');
                lemma_class_members_bound(p, start, i + 2);
                assert(p[i + 2] == ']');
                assert(class_members(p, start, i + 2) == Some(
                    (Seq::<(char, char)>::empty(), i + 3),
                ));
                assert(end == i + 3);
                let text = p.subrange(i + 1, end);
                assert(text.len() == 2);
                assert(members_text(more).len() == 1);
                assert(members_text(more) == member_text(more[0]) + members_text(
                    more.drop_first(),
                ));
                if more.len() > 1 {
                    assert(members_text(more.drop_first()) == member_text(more[1])
                        + members_text(more.drop_first().drop_first()));
                }
            }
        }
        members
    }
}

/// A pattern that is not malformed is the text of pieces.
proof fn lemma_pattern_has_pieces(p: Seq<char>, i: int) -> (pieces: Seq<Piece>)
    requires
        0 <= i <= p.len(),
        tokens_from(p, i) is Some,
    ensures
        reads_as(p.skip(i), pieces),
    decreases p.len() - i,
{
    if i == p.len() {
        assert(p.skip(i) =~= Seq::empty());
        Seq::empty()
    } else {
        lemma_token_at_bound(p, i);
        let (token, next) = token_at(p, i)->0;
        let more = lemma_pattern_has_pieces(p, next);
        let negated = i + 1 < p.len() && p[i + 1] == '!';
        let start = if negated {
            i + 2
        } else {
            i + 1
        };
        let members = if p[i] == '[' {
            lemma_class_has_members(p, start, start)
        } else {
            Seq::empty()
        };
        let piece = piece_at(p, i, members);
        let pieces = seq![piece] + more;
        assert(pieces.drop_first() =~= more);
        if p[i] == '[' {
            let front = if negated {
                seq!['[', '!']
            } else {
                seq!['[']
            };
            assert(p.subrange(i, next) =~= front + p.subrange(start, next));
            assert(front + (members_text(members) + seq![']']) =~= front + members_text(members)
                + seq![']']);
        }
        assert(p.subrange(i, next) =~= piece_text(piece));
        assert(p.skip(i) =~= p.subrange(i, next) + p.skip(next));
        assert forall|k: int| 0 <= k < pieces.len() implies is_piece(#[trigger] pieces[k]) by {
            if k > 0 {
                assert(pieces[k] == more[k - 1]);
            }
        }
        pieces
    }
}

/// Law: a pattern matches a name exactly if it is the text of pieces, and the
/// name can be divided into parts that the pieces fit, one by one.
pub proof fn law_pattern_means_its_pieces(name: Seq<char>, p: Seq<char>)
    ensures
        matches_pattern(name, p) <==> exists|pieces: Seq<Piece>| #[trigger] reads_as(p, pieces)
            && fit_all(pieces, name),
{
    if matches_pattern(name, p) {
        let pieces = lemma_pattern_has_pieces(p, 0);
        assert(p.skip(0) =~= p);
        lemma_pieces_are_read(pieces);
        lemma_pieces_fit(pieces, name);
        assert(reads_as(p, pieces) && fit_all(pieces, name));
    }
    assert forall|pieces: Seq<Piece>| #[trigger] reads_as(p, pieces) && fit_all(
        pieces,
        name,
    ) implies matches_pattern(name, p) by {
        lemma_pieces_are_read(pieces);
        lemma_pieces_fit(pieces, name);
    }
}

/// Law: a pattern that is the text of pieces matches exactly the names that can
/// be divided into parts that these pieces fit.
pub proof fn law_pieces_mean_one_thing(name: Seq<char>, p: Seq<char>, pieces: Seq<Piece>)
    requires
        reads_as(p, pieces),
    ensures
        matches_pattern(name, p) == fit_all(pieces, name),
{
    lemma_pieces_are_read(pieces);
    lemma_pieces_fit(pieces, name);
}

/// Law: a class matches exactly the names of one character that is one of its
/// members or lies in one of its ranges, and with a `!` exactly the names of one
/// character that the class without the `!` does not match.
pub proof fn law_class_matches_its_members(name: Seq<char>, members: Seq<Member>)
    requires
        members.len() > 0,
        are_members(members),
        head(members[0]) != '!',
    ensures
        matches_pattern(name, seq!['['] + members_text(members) + seq![']']) <==> name.len() == 1
            && one_takes_in(members, name[0]),
        matches_pattern(name, seq!['[', '!'] + members_text(members) + seq![']']) <==> name.len()
            == 1 && !matches_pattern(name, seq!['['] + members_text(members) + seq![']']),
{
    let class = Piece::Class(false, members);
    let negated = Piece::Class(true, members);
    lemma_piece_is_read(class);
    lemma_piece_is_read(negated);
    lemma_piece_fits(class, name);
    lemma_piece_fits(negated, name);
}

/// Law: a class of single characters, none of which is special in a class,
/// matches exactly the names of one of these characters.
pub proof fn law_class_of_characters(name: Seq<char>, chars: Seq<char>)
    requires
        chars.len() > 0,
        !chars.contains(']'),
        !chars.contains('-'),
        !chars.contains('!'),
    ensures
        matches_pattern(name, seq!['['] + chars + seq![']']) <==> name.len() == 1
            && chars.contains(name[0]),
        matches_pattern(name, seq!['[', '!'] + chars + seq![']']) <==> name.len() == 1
            && !chars.contains(name[0]),
{
    let members = Seq::new(chars.len(), |k: int| one(chars[k]));
    assert forall|k: int| 0 <= k < chars.len() implies chars.contains(#[trigger] chars[k]) by {}
    assert forall|k: int| 0 <= k < members.len() implies head(#[trigger] members[k]) != ']' && head(
        members[k],
    ) != '-' && head(members[k]) != '!' by {
        assert(chars.contains(chars[k]));
    }
    lemma_text_of_ones(chars);
    law_class_matches_its_members(name, members);
    if name.len() == 1 {
        if chars.contains(name[0]) {
            let k = choose|k: int| 0 <= k < chars.len() && chars[k] == name[0];
            assert(takes_in(members[k], name[0]));
        }
        if one_takes_in(members, name[0]) {
            let k = choose|k: int| 0 <= k < members.len() && takes_in(#[trigger] members[k], name[0]);
            assert(chars[k] == name[0]);
        }
    }
}

proof fn lemma_text_of_ones(chars: Seq<char>)
    ensures
        members_text(Seq::new(chars.len(), |k: int| one(chars[k]))) == chars,
    decreases chars.len(),
{
    let members = Seq::new(chars.len(), |k: int| one(chars[k]));
    if chars.len() == 0 {
        assert(chars =~= Seq::empty());
    } else {
        let rest = chars.drop_first();
        lemma_text_of_ones(rest);
        assert(members.drop_first() =~= Seq::new(rest.len(), |k: int| one(rest[k])));
        assert(seq![chars[0]] + rest =~= chars);
    }
}

/// Law: text without special characters matches itself and nothing else.
pub proof fn law_plain_text_matches_itself(name: Seq<char>, p: Seq<char>)
    requires
        !p.contains('*'),
        !p.contains('?'),
        !p.contains('['),
        !p.contains('\\'),
    ensures
        matches_pattern(name, p) <==> name == p,
    decreases p.len(),
{
    if p.len() == 0 {
        assert(p =~= Seq::empty());
        assert(tokens(p) == Some(Seq::<Token>::empty()));
        if name.len() == 0 {
            assert(name =~= p);
        }
    } else {
        let c = p[0];
        let rest = p.drop_first();
        let first = seq![c];
        assert(p.contains(p[0]));
        assert forall|d: char| #[trigger] rest.contains(d) implies p.contains(d) by {
            let k = choose|k: int| 0 <= k < rest.len() && rest[k] == d;
            assert(p[k + 1] == d);
        }
        lemma_piece_is_read(Piece::Plain(c));
        lemma_plain_is_well_formed(rest);
        assert(p =~= first + rest);
        law_tokens_concat(first, rest);
        let toks = tokens(rest)->0;
        lemma_tokens_match_concat(name, seq![Token::Char(c)], toks);
        assert forall|k: int| 0 <= k <= name.len() implies tokens_match(
            name.take(k),
            seq![Token::Char(c)],
        ) == (name.take(k) == first) && #[trigger] tokens_match(name.skip(k), toks) == (name.skip(k)
            == rest) by {
            lemma_piece_fits(Piece::Plain(c), name.take(k));
            law_plain_text_matches_itself(name.skip(k), rest);
        }
        if name == p {
            assert(name.take(1) =~= first);
            assert(name.skip(1) =~= rest);
            assert(tokens_match(name.skip(1), toks));
        }
        if matches_pattern(name, p) {
            let k = choose|k: int|
                0 <= k <= name.len() && tokens_match(name.take(k), seq![Token::Char(c)])
                    && #[trigger] tokens_match(name.skip(k), toks);
            assert(name =~= name.take(k) + name.skip(k));
        }
    }
}

proof fn lemma_plain_is_well_formed(p: Seq<char>)
    requires
        !p.contains('*'),
        !p.contains('?'),
        !p.contains('['),
        !p.contains('\\'),
    ensures
        tokens(p) is Some,
    decreases p.len(),
{
    if p.len() > 0 {
        let rest = p.drop_first();
        assert(p.contains(p[0]));
        assert forall|d: char| #[trigger] rest.contains(d) implies p.contains(d) by {
            let k = choose|k: int| 0 <= k < rest.len() && rest[k] == d;
            assert(p[k + 1] == d);
        }
        lemma_plain_is_well_formed(rest);
        lemma_piece_is_read(Piece::Plain(p[0]));
        assert(p =~= seq![p[0]] + rest);
        law_tokens_concat(seq![p[0]], rest);
    }
}

/// Whether `tail` is the text of a class, from behind its `[` on, and then
/// `rest`.
pub open spec fn is_class_text(
    tail: Seq<char>,
    negated: bool,
    members: Seq<Member>,
    rest: Seq<char>,
) -> bool {
    &&& is_piece(Piece::Class(negated, members))
    &&& tail == (if negated {
        seq!['!']
    } else {
        Seq::empty()
    }) + members_text(members) + seq![']'] + rest
}

/// Law: a class whose text stands at some place is read from there to its
/// closing `]`, whatever follows, and accepts exactly the characters that its
/// members take in or, with a `!`, those that they do not.
pub proof fn law_class_is_read_to_its_end(
    p: Seq<char>,
    i: int,
    negated: bool,
    members: Seq<Member>,
    rest: Seq<char>,
    c: char,
)
    requires
        0 <= i <= p.len(),
        is_class_text(p.skip(i), negated, members, rest),
    ensures
        class_at(p, i) matches Some((token, end)) && end == p.len() - rest.len() && accepts(
            token,
            c,
        ) == (if negated {
            !one_takes_in(members, c)
        } else {
            one_takes_in(members, c)
        }),
{
    let text = members_text(members);
    let start = if negated {
        i + 1
    } else {
        i
    };
    let tail = p.skip(i);
    assert(text[0] == head(members[0]));
    assert(tail.len() > 0);
    assert(p[i] == tail[0]);
    assert(p.skip(start) =~= text + seq![']'] + rest) by {
        assert(p.skip(start) =~= tail.skip(start - i));
    }
    lemma_members_are_read(p, start, start, members, rest);
    lemma_in_ranges(members, c);
}

/// Law: what is read as a class is the text of one, up to its closing `]`. So a
/// class that is not closed is none.
pub proof fn law_class_has_a_text(p: Seq<char>, i: int)
    requires
        0 <= i <= p.len(),
        class_at(p, i) is Some,
    ensures
        exists|negated: bool, members: Seq<Member>, rest: Seq<char>|
            is_class_text(p.skip(i), negated, members, rest),
{
    let negated = i < p.len() && p[i] == '!';
    let start = if negated {
        i + 1
    } else {
        i
    };
    let members = lemma_class_has_members(p, start, start);
    let end = (class_at(p, i)->0).1;
    let rest = p.skip(end);
    let front = if negated {
        seq!['!']
    } else {
        Seq::empty()
    };
    assert(p.skip(i) =~= front + p.subrange(start, end) + rest);
    assert(front + (members_text(members) + seq![']']) =~= front + members_text(members)
        + seq![']']);
    assert(is_class_text(p.skip(i), negated, members, rest));
}

} // verus!
