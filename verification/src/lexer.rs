//! The lexer's choice: which token a piece of the source is, given how far
//! each token's pattern matches there. Matching itself is the work of a
//! regular expression engine and stands outside this library.
use vstd::prelude::*;
use crate::grammar::{PatternKind, TokenPattern, TokenPatternView};
use crate::lexeme::Position;
use crate::parse::pattern_views;

verus! {

/// Whether a match of `length` by the token at `token` is to be preferred to
/// the choice so far: a longer match is, and so is a literal that matches as
/// far as a regular expression does. Of two literals, or two regular
/// expressions, that match equally far, the earlier token stays.
pub open spec fn preferred(
    patterns: Seq<TokenPatternView>,
    token: int,
    length: usize,
    chosen: (usize, usize),
) -> bool {
    ||| length > chosen.1
    ||| (length == chosen.1 && length > 0 && patterns[token].kind == PatternKind::Constant
        && patterns[chosen.0 as int].kind != PatternKind::Constant)
}

/// The choice among the first `count` tokens: the token and the length of
/// its match. Before any token is looked at, the choice is unrecognised
/// input, which matches nothing.
pub open spec fn choice_among(
    patterns: Seq<TokenPatternView>,
    lengths: Seq<usize>,
    count: int,
) -> (usize, usize)
    decreases count,
{
    if count <= 0 {
        (0usize, 0usize)
    } else {
        let chosen = choice_among(patterns, lengths, count - 1);
        if preferred(patterns, count - 1, lengths[count - 1], chosen) {
            ((count - 1) as usize, lengths[count - 1])
        } else {
            chosen
        }
    }
}

/// The lexer's choice at a place of the source, where `lengths` holds for
/// each token how far its pattern matches there, and zero where it does not.
pub open spec fn choice(patterns: Seq<TokenPatternView>, lengths: Seq<usize>) -> (usize, usize) {
    choice_among(patterns, lengths, patterns.len() as int)
}

/// The choice is a longest match: no token matches further, the chosen
/// token matches that far, and it is unrecognised input only where nothing
/// matches. A regular expression is chosen only where no literal matches as
/// far.
pub proof fn lemma_choice_is_longest(
    patterns: Seq<TokenPatternView>,
    lengths: Seq<usize>,
    count: int,
)
    requires
        0 <= count <= patterns.len() <= usize::MAX,
        lengths.len() == patterns.len(),
    ensures
        ({
            let chosen = choice_among(patterns, lengths, count);
            &&& forall|i: int| 0 <= i < count ==> (#[trigger] lengths[i]) <= chosen.1
            &&& chosen.1 == 0 ==> chosen.0 == 0
            &&& chosen.1 > 0 ==> chosen.0 < count && lengths[chosen.0 as int] == chosen.1
            &&& chosen.1 > 0 && patterns[chosen.0 as int].kind != PatternKind::Constant
                ==> forall|i: int|
                0 <= i < count && (#[trigger] lengths[i]) == chosen.1 ==> patterns[i].kind
                    != PatternKind::Constant
        }),
    decreases count,
{
    if count > 0 {
        lemma_choice_is_longest(patterns, lengths, count - 1);
    }
}

/// Choose the token of the piece of the source at a place, where `lengths`
/// holds for each token how far its pattern matches there, and zero where it
/// does not: the token that matches furthest, a literal rather than a regular
/// expression, the earlier rather than the later. Where nothing matches, the
/// choice is unrecognised input, of length zero.
pub fn best_match(patterns: &Vec<TokenPattern>, lengths: &Vec<usize>) -> (chosen: (usize, usize))
    requires
        lengths@.len() == patterns@.len(),
    ensures
        chosen == choice(pattern_views(patterns@), lengths@),
        forall|i: int| 0 <= i < lengths@.len() ==> (#[trigger] lengths@[i]) <= chosen.1,
        chosen.1 == 0 ==> chosen.0 == 0,
        chosen.1 > 0 ==> chosen.0 < patterns@.len() && lengths@[chosen.0 as int] == chosen.1,
{
    let mut chosen: (usize, usize) = (0, 0);
    let mut i: usize = 0;
    let ghost views = pattern_views(patterns@);
    while i < patterns.len()
        invariant
            i <= patterns.len(),
            lengths@.len() == patterns@.len(),
            views == pattern_views(patterns@),
            chosen == choice_among(views, lengths@, i as int),
            chosen.1 > 0 ==> chosen.0 < i,
        decreases patterns.len() - i,
    {
        let length = lengths[i];
        let better = if length > chosen.1 {
            true
        } else if length == chosen.1 && length > 0 {
            match patterns[i].kind {
                PatternKind::Constant => match patterns[chosen.0].kind {
                    PatternKind::Constant => false,
                    _ => true,
                },
                _ => false,
            }
        } else {
            false
        };
        if better {
            chosen = (i, length);
        }
        i = i + 1;
    }
    proof {
        lemma_choice_is_longest(views, lengths@, patterns@.len() as int);
    }
    chosen
}

/// The place behind the first `count` bytes of a piece of the source that
/// begins at `pos`. A line feed begins a new line at column one; any other
/// byte is one column further. Columns are counted in bytes.
pub open spec fn advanced(pos: Position, bytes: Seq<u8>, count: int) -> Position
    decreases count,
{
    if count <= 0 {
        pos
    } else {
        let before = advanced(pos, bytes, count - 1);
        if bytes[count - 1] == 10u8 {
            Position {
                line: (before.line + 1) as usize,
                column: 1,
                offset: (before.offset + 1) as usize,
            }
        } else {
            Position {
                line: before.line,
                column: (before.column + 1) as usize,
                offset: (before.offset + 1) as usize,
            }
        }
    }
}

/// The place behind a piece of the source that begins at `pos`.
pub fn advance(pos: Position, bytes: &[u8]) -> (end: Position)
    requires
        pos.line + bytes@.len() <= usize::MAX,
        pos.column + bytes@.len() <= usize::MAX,
        pos.offset + bytes@.len() <= usize::MAX,
    ensures
        end == advanced(pos, bytes@, bytes@.len() as int),
        end.offset == pos.offset + bytes@.len(),
{
    let mut end = pos;
    let mut i: usize = 0;
    while i < bytes.len()
        invariant
            i <= bytes@.len(),
            pos.line + bytes@.len() <= usize::MAX,
            pos.column + bytes@.len() <= usize::MAX,
            pos.offset + bytes@.len() <= usize::MAX,
            end == advanced(pos, bytes@, i as int),
            end.line <= pos.line + i,
            end.column <= pos.column + i,
            end.offset == pos.offset + i,
        decreases bytes.len() - i,
    {
        if bytes[i] == 10u8 {
            end = Position { line: end.line + 1, column: 1, offset: end.offset + 1 };
        } else {
            end = Position { line: end.line, column: end.column + 1, offset: end.offset + 1 };
        }
        i = i + 1;
    }
    end
}

} // verus!
