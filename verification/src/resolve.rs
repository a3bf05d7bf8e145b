//! Resolving tokens to operator tokens: each token is read in the role that
//! its place calls for, and what is absent is filled in.
use vstd::prelude::*;
use crate::grammar::Binding;
use crate::lexeme::{Lexeme, Position};

verus! {

/// What a token is bound to in a table of bindings; nothing where the table
/// does not reach it.
pub open spec fn binding_of(table: Seq<Binding>, token: usize) -> Binding {
    if token < table.len() {
        table[token as int]
    } else {
        None
    }
}

/// A lexeme of no text at a place, for what the parser fills in.
pub open spec fn implicit<'s>(op_token: usize, at: Position) -> Lexeme<'s> {
    Lexeme { token: op_token, lexeme: "", start: at, end: at }
}

/// The lexeme with an operator token in place of its token.
pub open spec fn retokened<'s>(lexeme: Lexeme<'s>, op_token: usize) -> Lexeme<'s> {
    Lexeme { token: op_token, ..lexeme }
}

/// Whether the invisible operator is installed.
pub open spec fn has_juxtapose(suffixy: Seq<Binding>) -> bool {
    binding_of(suffixy, 2) is Some
}

/// Whether an operator is absent in front of the lexeme: an argument is
/// complete, and the lexeme's token does not take one on its left.
pub open spec fn gap_before<'s>(suffixy: Seq<Binding>, lexeme: Lexeme<'s>, expecting: bool) -> bool {
    !expecting && binding_of(suffixy, lexeme.token) is None
}

/// What the lexeme is bound to at its place. Where an argument is expected
/// it is read without a left argument if it can be, else with one; where an
/// argument is complete, the other way round. A token that is bound in
/// neither role is read as unrecognised input.
pub open spec fn bound_at<'s>(
    prefixy: Seq<Binding>,
    suffixy: Seq<Binding>,
    lexeme: Lexeme<'s>,
    expecting: bool,
) -> (usize, bool) {
    let pre = binding_of(prefixy, lexeme.token);
    let suf = binding_of(suffixy, lexeme.token);
    if expecting && pre is Some {
        pre->0
    } else if suf is Some {
        suf->0
    } else if pre is Some {
        pre->0
    } else {
        (0usize, false)
    }
}

/// What is filled in before the lexeme: a blank where an argument is
/// expected and the lexeme takes one on its left, the invisible operator
/// where an argument is complete and the lexeme does not, else nothing.
pub open spec fn filled_before<'s>(
    prefixy: Seq<Binding>,
    suffixy: Seq<Binding>,
    lexeme: Lexeme<'s>,
    expecting: bool,
) -> Seq<Lexeme<'s>> {
    if expecting {
        if binding_of(prefixy, lexeme.token) is None && binding_of(suffixy, lexeme.token) is Some {
            seq![implicit(1, lexeme.start)]
        } else {
            Seq::empty()
        }
    } else if binding_of(suffixy, lexeme.token) is None {
        seq![implicit(2, lexeme.start)]
    } else {
        Seq::empty()
    }
}

/// The place of the end of the input.
pub open spec fn end_of<'s>(input: Seq<Lexeme<'s>>) -> Position {
    if input.len() == 0 {
        Position { line: 1, column: 1, offset: 0 }
    } else {
        input.last().end
    }
}

/// The lexemes in front of what follows, where anything follows.
pub open spec fn before<'s>(
    front: Seq<Lexeme<'s>>,
    rest: Result<Seq<Lexeme<'s>>, Lexeme<'s>>,
) -> Result<Seq<Lexeme<'s>>, Lexeme<'s>> {
    match rest {
        Ok(lexemes) => Ok(front + lexemes),
        Err(lexeme) => Err(lexeme),
    }
}

/// The operator tokens of `input[next..]`, where `expecting` says whether an
/// argument is expected at `next`. At the end of the input a blank is filled
/// in where an argument is still expected. The result is the lexeme at which
/// reading stops where an operator is absent and the invisible operator is
/// not installed.
pub open spec fn resolve_from<'s>(
    prefixy: Seq<Binding>,
    suffixy: Seq<Binding>,
    input: Seq<Lexeme<'s>>,
    next: int,
    expecting: bool,
) -> Result<Seq<Lexeme<'s>>, Lexeme<'s>>
    decreases input.len() - next,
{
    if next < 0 || next >= input.len() {
        if expecting {
            Ok(seq![implicit(1, end_of(input))])
        } else {
            Ok(Seq::empty())
        }
    } else if gap_before(suffixy, input[next], expecting) && !has_juxtapose(suffixy) {
        Err(input[next])
    } else {
        let bound = bound_at(prefixy, suffixy, input[next], expecting);
        before(
            filled_before(prefixy, suffixy, input[next], expecting).push(
                retokened(input[next], bound.0),
            ),
            resolve_from(prefixy, suffixy, input, next + 1, bound.1),
        )
    }
}

/// The operator tokens of the whole input, which begins where an argument is
/// expected.
pub open spec fn resolved<'s>(
    prefixy: Seq<Binding>,
    suffixy: Seq<Binding>,
    input: Seq<Lexeme<'s>>,
) -> Result<Seq<Lexeme<'s>>, Lexeme<'s>> {
    resolve_from(prefixy, suffixy, input, 0, true)
}

/// Whether every binding of the table leads to an operator token below
/// `limit`.
pub open spec fn bindings_below(table: Seq<Binding>, limit: nat) -> bool {
    forall|t: int| 0 <= t < table.len() ==> (#[trigger] table[t]) is Some ==> (table[t]->0).0 < limit
}

/// Whether every lexeme's token is below `limit`.
pub open spec fn tokens_below<'s>(lexemes: Seq<Lexeme<'s>>, limit: nat) -> bool {
    forall|i: int| 0 <= i < lexemes.len() ==> (#[trigger] lexemes[i]).token < limit
}

/// What a token is bound to in a table of bindings.
pub fn lookup(table: &Vec<Binding>, token: usize) -> (binding: Binding)
    ensures
        binding == binding_of(table@, token),
{
    if token < table.len() {
        table[token]
    } else {
        None
    }
}

/// Resolve the tokens of the input to operator tokens, filling in a blank for
/// each absent argument and the invisible operator for each absent operator.
/// Fails with the lexeme in front of which an operator is absent, where the
/// invisible operator is not installed.
pub fn resolve<'s>(prefixy: &Vec<Binding>, suffixy: &Vec<Binding>, input: &Vec<Lexeme<'s>>) -> (result:
    Result<Vec<Lexeme<'s>>, Lexeme<'s>>)
    ensures
        match result {
            Ok(lexemes) => resolved(prefixy@, suffixy@, input@) == Ok::<
                Seq<Lexeme<'s>>,
                Lexeme<'s>,
            >(lexemes@),
            Err(lexeme) => resolved(prefixy@, suffixy@, input@) == Err::<
                Seq<Lexeme<'s>>,
                Lexeme<'s>,
            >(lexeme),
        },
        forall|limit: nat|
            limit >= 3 && bindings_below(prefixy@, limit) && bindings_below(suffixy@, limit)
                && result is Ok ==> #[trigger] tokens_below(result->Ok_0@, limit),
{
    let juxtapose = lookup(suffixy, 2).is_some();
    let mut output: Vec<Lexeme<'s>> = Vec::new();
    let mut expecting = true;
    let mut next: usize = 0;
    while next < input.len()
        invariant
            next <= input.len(),
            juxtapose == has_juxtapose(suffixy@),
            before(output@, resolve_from(prefixy@, suffixy@, input@, next as int, expecting))
                == resolved(prefixy@, suffixy@, input@),
            forall|limit: nat|
                limit >= 3 && bindings_below(prefixy@, limit) && bindings_below(suffixy@, limit)
                    ==> #[trigger] tokens_below(output@, limit),
        decreases input.len() - next,
    {
        let lexeme = input[next];
        let pre = lookup(prefixy, lexeme.token);
        let suf = lookup(suffixy, lexeme.token);
        let ghost done = output@;
        let ghost bound = bound_at(prefixy@, suffixy@, lexeme, expecting);
        let ghost filled = filled_before(prefixy@, suffixy@, lexeme, expecting);
        let ghost rest = resolve_from(prefixy@, suffixy@, input@, next + 1, bound.1);
        if !expecting && suf.is_none() {
            if !juxtapose {
                return Err(lexeme);
            }
            output.push(Lexeme { token: 2, lexeme: "", start: lexeme.start, end: lexeme.start });
        }
        if expecting && pre.is_none() && suf.is_some() {
            output.push(Lexeme { token: 1, lexeme: "", start: lexeme.start, end: lexeme.start });
        }
        let (op_token, has_right) = if expecting && pre.is_some() {
            pre.unwrap()
        } else if suf.is_some() {
            suf.unwrap()
        } else if pre.is_some() {
            pre.unwrap()
        } else {
            (0, false)
        };
        output.push(
            Lexeme { token: op_token, lexeme: lexeme.lexeme, start: lexeme.start, end: lexeme.end },
        );
        proof {
            assert(output@ =~= done + filled.push(retokened(lexeme, bound.0)));
            match rest {
                Ok(lexemes) => {
                    assert((done + filled.push(retokened(lexeme, bound.0))) + lexemes =~= done + (
                    filled.push(retokened(lexeme, bound.0)) + lexemes));
                },
                Err(_) => {},
            }
            assert forall|limit: nat|
                limit >= 3 && bindings_below(prefixy@, limit) && bindings_below(
                    suffixy@,
                    limit,
                ) implies #[trigger] tokens_below(output@, limit) by {
                assert(tokens_below(done, limit));
                assert(op_token < limit);
            }
        }
        expecting = has_right;
        next = next + 1;
    }
    if expecting {
        let at = if input.len() == 0 {
            Position::start()
        } else {
            input[input.len() - 1].end
        };
        let ghost done = output@;
        output.push(Lexeme { token: 1, lexeme: "", start: at, end: at });
        proof {
            assert(output@ =~= done + seq![implicit(1, end_of(input@))]);
            assert forall|limit: nat|
                limit >= 3 && bindings_below(prefixy@, limit) && bindings_below(
                    suffixy@,
                    limit,
                ) implies #[trigger] tokens_below(output@, limit) by {
                assert(tokens_below(done, limit));
            }
        }
    } else {
        assert(output@ + Seq::<Lexeme<'s>>::empty() =~= output@);
    }
    Ok(output)
}

} // verus!
