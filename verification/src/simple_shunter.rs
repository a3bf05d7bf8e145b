//! The shunting step: from lexemes in source order to lexemes in postfix
//! order, by left and right precedences alone.
use vstd::prelude::*;
use crate::lexeme::Lexeme;
use crate::op::{infix_entry, Assoc, Prec, PREC_MAX};

verus! {

/// Whether every lexeme's token has an entry in the precedence table.
pub open spec fn tokens_in_table<'s>(table: Seq<(Prec, Prec)>, lexemes: Seq<Lexeme<'s>>) -> bool {
    forall|i: int| 0 <= i < lexemes.len() ==> (#[trigger] lexemes[i]).token < table.len()
}

/// The right precedence of the lexeme on top of the stack; that of a wall
/// where the stack is empty.
pub open spec fn top_rprec_of<'s>(table: Seq<(Prec, Prec)>, stack: Seq<Lexeme<'s>>) -> Prec {
    if stack.len() == 0 {
        PREC_MAX
    } else {
        table[stack.last().token as int].1
    }
}

/// What the shunter emits from a given state on: `stack` holds the lexemes
/// that wait, `input[next..]` is still to be read, and `pop_mode` says that
/// the shunter has decided to pop.
///
/// While popping, the top of the stack is emitted, and popping goes on unless
/// the new top holds tighter on its right than the emitted lexeme did on its
/// left, or nothing is left to pop. Otherwise the next lexeme is shifted where
/// the top of the stack lets it bind, and popping begins where it does not.
/// At the end of the input the stack is emitted from the top down.
pub open spec fn shunt_from<'s>(
    table: Seq<(Prec, Prec)>,
    stack: Seq<Lexeme<'s>>,
    input: Seq<Lexeme<'s>>,
    next: int,
    pop_mode: bool,
) -> Seq<Lexeme<'s>>
    decreases input.len() - next, stack.len(), (if pop_mode { 0int } else { 1int }),
{
    if pop_mode && stack.len() > 0 {
        let lexeme = stack.last();
        let rest = stack.drop_last();
        let stay = top_rprec_of(table, rest) <= table[lexeme.token as int].0;
        seq![lexeme] + shunt_from(table, rest, input, next, stay)
    } else if 0 <= next < input.len() {
        let lexeme = input[next];
        if top_rprec_of(table, stack) >= table[lexeme.token as int].0 {
            shunt_from(table, stack.push(lexeme), input, next + 1, false)
        } else {
            shunt_from(table, stack, input, next, true)
        }
    } else if stack.len() > 0 {
        seq![stack.last()] + shunt_from(table, stack.drop_last(), input, next, false)
    } else {
        Seq::empty()
    }
}

/// The postfix order of `input` under the precedence table.
pub open spec fn shunted<'s>(table: Seq<(Prec, Prec)>, input: Seq<Lexeme<'s>>) -> Seq<Lexeme<'s>> {
    shunt_from(table, Seq::empty(), input, 0, false)
}

/// The shunter emits as many lexemes as wait on the stack and are still to
/// be read.
pub proof fn lemma_shunt_from_len<'s>(
    table: Seq<(Prec, Prec)>,
    stack: Seq<Lexeme<'s>>,
    input: Seq<Lexeme<'s>>,
    next: int,
    pop_mode: bool,
)
    requires
        0 <= next <= input.len(),
    ensures
        shunt_from(table, stack, input, next, pop_mode).len() == stack.len() + input.len() - next,
    decreases input.len() - next, stack.len(), (if pop_mode { 0int } else { 1int }),
{
    if pop_mode && stack.len() > 0 {
        let lexeme = stack.last();
        let rest = stack.drop_last();
        let stay = top_rprec_of(table, rest) <= table[lexeme.token as int].0;
        lemma_shunt_from_len(table, rest, input, next, stay);
    } else if 0 <= next < input.len() {
        let lexeme = input[next];
        if top_rprec_of(table, stack) >= table[lexeme.token as int].0 {
            lemma_shunt_from_len(table, stack.push(lexeme), input, next + 1, false);
        } else {
            lemma_shunt_from_len(table, stack, input, next, true);
        }
    } else if stack.len() > 0 {
        lemma_shunt_from_len(table, stack.drop_last(), input, next, false);
    }
}

/// The shunter emits the lexemes that wait on the stack and those that are
/// still to be read, each as often as it occurs there, and nothing else.
pub proof fn lemma_shunt_from_permutes<'s>(
    table: Seq<(Prec, Prec)>,
    stack: Seq<Lexeme<'s>>,
    input: Seq<Lexeme<'s>>,
    next: int,
    pop_mode: bool,
)
    requires
        0 <= next <= input.len(),
    ensures
        shunt_from(table, stack, input, next, pop_mode).to_multiset() == stack.to_multiset().add(
            input.subrange(next, input.len() as int).to_multiset(),
        ),
    decreases input.len() - next, stack.len(), (if pop_mode { 0int } else { 1int }),
{
    broadcast use vstd::multiset::group_multiset_axioms;

    let unread = input.subrange(next, input.len() as int);
    let emitted = shunt_from(table, stack, input, next, pop_mode);
    if stack.len() > 0 && (pop_mode || next >= input.len()) {
        let lexeme = stack.last();
        let rest = stack.drop_last();
        let stay = if pop_mode {
            top_rprec_of(table, rest) <= table[lexeme.token as int].0
        } else {
            false
        };
        let tail = shunt_from(table, rest, input, next, stay);
        lemma_shunt_from_permutes(table, rest, input, next, stay);
        assert(emitted == seq![lexeme] + tail);
        vstd::seq_lib::lemma_multiset_commutative(seq![lexeme], tail);
        assert(seq![lexeme] =~= Seq::<Lexeme<'s>>::empty().push(lexeme));
        vstd::seq_lib::to_multiset_build(Seq::<Lexeme<'s>>::empty(), lexeme);
        assert(stack =~= rest.push(lexeme));
        vstd::seq_lib::to_multiset_build(rest, lexeme);
        assert(Seq::<Lexeme<'s>>::empty().to_multiset() =~= vstd::multiset::Multiset::empty()) by {
            Seq::<Lexeme<'s>>::empty().to_multiset_ensures();
        }
        assert(emitted.to_multiset() =~= stack.to_multiset().add(unread.to_multiset()));
    } else if next < input.len() {
        let lexeme = input[next];
        if top_rprec_of(table, stack) >= table[lexeme.token as int].0 {
            lemma_shunt_from_permutes(table, stack.push(lexeme), input, next + 1, false);
            let later = input.subrange(next + 1, input.len() as int);
            assert(unread =~= seq![lexeme] + later);
            vstd::seq_lib::lemma_multiset_commutative(seq![lexeme], later);
            assert(seq![lexeme] =~= Seq::<Lexeme<'s>>::empty().push(lexeme));
            vstd::seq_lib::to_multiset_build(Seq::<Lexeme<'s>>::empty(), lexeme);
            vstd::seq_lib::to_multiset_build(stack, lexeme);
            assert(Seq::<Lexeme<'s>>::empty().to_multiset() =~= vstd::multiset::Multiset::empty())
                by {
                Seq::<Lexeme<'s>>::empty().to_multiset_ensures();
            }
            assert(emitted.to_multiset() =~= stack.to_multiset().add(unread.to_multiset()));
        } else {
            lemma_shunt_from_permutes(table, stack, input, next, true);
        }
    } else {
        assert(unread =~= Seq::<Lexeme<'s>>::empty());
        assert(stack =~= Seq::<Lexeme<'s>>::empty());
        assert(Seq::<Lexeme<'s>>::empty().to_multiset() =~= vstd::multiset::Multiset::empty()) by {
            Seq::<Lexeme<'s>>::empty().to_multiset_ensures();
        }
        assert(emitted.to_multiset() =~= stack.to_multiset().add(unread.to_multiset()));
    }
}

/// The postfix order of an input holds the lexemes of the input, each as
/// often as it occurs there, and nothing else.
pub proof fn lemma_shunted_permutes<'s>(table: Seq<(Prec, Prec)>, input: Seq<Lexeme<'s>>)
    ensures
        shunted(table, input).to_multiset() == input.to_multiset(),
{
    broadcast use vstd::multiset::group_multiset_axioms;

    lemma_shunt_from_permutes(table, Seq::empty(), input, 0, false);
    assert(input.subrange(0, input.len() as int) =~= input);
    assert(Seq::<Lexeme<'s>>::empty().to_multiset() =~= vstd::multiset::Multiset::empty()) by {
        Seq::<Lexeme<'s>>::empty().to_multiset_ensures();
    }
    assert(Seq::<Lexeme<'s>>::empty().to_multiset().add(input.to_multiset())
        =~= input.to_multiset());
}

/// Whether the lexeme's token is in the table as an atom.
pub open spec fn is_atom<'s>(table: Seq<(Prec, Prec)>, lexeme: Lexeme<'s>) -> bool {
    lexeme.token < table.len() && table[lexeme.token as int] == (0u16, 0u16)
}

/// Whether the lexeme's token is in the table as an infix operator of the
/// given associativity and precedence.
pub open spec fn is_infix<'s>(
    table: Seq<(Prec, Prec)>,
    lexeme: Lexeme<'s>,
    assoc: Assoc,
    prec: Prec,
) -> bool {
    lexeme.token < table.len() && prec >= 1 && table[lexeme.token as int] == infix_entry(
        assoc,
        prec,
    )
}

/// A left-associative infix operator groups to the left: of `a o b o c` the
/// first `o` is emitted before `c` is read, so that it holds `a` and `b`, and
/// the second holds the first and `c`.
pub proof fn lemma_left_assoc_groups_left<'s>(
    table: Seq<(Prec, Prec)>,
    a: Lexeme<'s>,
    o1: Lexeme<'s>,
    b: Lexeme<'s>,
    o2: Lexeme<'s>,
    c: Lexeme<'s>,
    prec: Prec,
)
    requires
        is_atom(table, a),
        is_atom(table, b),
        is_atom(table, c),
        is_infix(table, o1, Assoc::Left, prec),
        is_infix(table, o2, Assoc::Left, prec),
    ensures
        shunted(table, seq![a, o1, b, o2, c]) == seq![a, b, o1, c, o2],
{
    reveal_with_fuel(shunt_from, 20);
    assert(shunted(table, seq![a, o1, b, o2, c]) =~= seq![a, b, o1, c, o2]);
}

/// A right-associative infix operator groups to the right: of `a o b o c`
/// both `o` wait until `c` is read, so that the second holds `b` and `c`, and
/// the first holds `a` and the second. The operator's left precedence, one
/// below its declared precedence, must lie above that of an atom.
pub proof fn lemma_right_assoc_groups_right<'s>(
    table: Seq<(Prec, Prec)>,
    a: Lexeme<'s>,
    o1: Lexeme<'s>,
    b: Lexeme<'s>,
    o2: Lexeme<'s>,
    c: Lexeme<'s>,
    prec: Prec,
)
    requires
        is_atom(table, a),
        is_atom(table, b),
        is_atom(table, c),
        is_infix(table, o1, Assoc::Right, prec),
        is_infix(table, o2, Assoc::Right, prec),
        prec >= 2,
    ensures
        shunted(table, seq![a, o1, b, o2, c]) == seq![a, b, c, o2, o1],
{
    reveal_with_fuel(shunt_from, 20);
    assert(shunted(table, seq![a, o1, b, o2, c]) =~= seq![a, b, c, o2, o1]);
}

/// An operator of smaller precedence binds tighter: of `a loose b tight c`
/// the tight operator holds `b` and `c`, and the loose one holds `a` and the
/// tight one, whatever the associativity of either. The tight operator's left
/// precedence must lie above that of an atom.
pub proof fn lemma_tighter_binds_first<'s>(
    table: Seq<(Prec, Prec)>,
    a: Lexeme<'s>,
    loose: Lexeme<'s>,
    b: Lexeme<'s>,
    tight: Lexeme<'s>,
    c: Lexeme<'s>,
    loose_assoc: Assoc,
    loose_prec: Prec,
    tight_assoc: Assoc,
    tight_prec: Prec,
)
    requires
        is_atom(table, a),
        is_atom(table, b),
        is_atom(table, c),
        is_infix(table, loose, loose_assoc, loose_prec),
        is_infix(table, tight, tight_assoc, tight_prec),
        tight_prec < loose_prec,
        tight_assoc == Assoc::Right ==> tight_prec >= 2,
    ensures
        shunted(table, seq![a, loose, b, tight, c]) == seq![a, b, c, tight, loose],
{
    reveal_with_fuel(shunt_from, 20);
    assert(shunted(table, seq![a, loose, b, tight, c]) =~= seq![a, b, c, tight, loose]);
}

/// The same operators the other way round: of `a tight b loose c` the tight
/// operator is emitted before the loose one is shifted, so that it holds `a`
/// and `b`, and the loose one holds the tight one and `c`. Here the two
/// declared precedences must lie at least two apart, as those of two groups
/// do: otherwise one operator's lowered side meets the other's declared one.
pub proof fn lemma_tighter_binds_first_on_the_left<'s>(
    table: Seq<(Prec, Prec)>,
    a: Lexeme<'s>,
    tight: Lexeme<'s>,
    b: Lexeme<'s>,
    loose: Lexeme<'s>,
    c: Lexeme<'s>,
    loose_assoc: Assoc,
    loose_prec: Prec,
    tight_assoc: Assoc,
    tight_prec: Prec,
)
    requires
        is_atom(table, a),
        is_atom(table, b),
        is_atom(table, c),
        is_infix(table, loose, loose_assoc, loose_prec),
        is_infix(table, tight, tight_assoc, tight_prec),
        tight_prec + 1 < loose_prec,
        tight_assoc == Assoc::Right ==> tight_prec >= 2,
    ensures
        shunted(table, seq![a, tight, b, loose, c]) == seq![a, b, tight, c, loose],
{
    reveal_with_fuel(shunt_from, 20);
    assert(shunted(table, seq![a, tight, b, loose, c]) =~= seq![a, b, tight, c, loose]);
}

/// The shunter at work: the lexemes that wait on its stack, the input that it
/// has still to read, and whether it has decided to pop.
pub struct Shunter<'a, 's> {
    prec_table: &'a Vec<(Prec, Prec)>,
    stack: Vec<Lexeme<'s>>,
    input: Vec<Lexeme<'s>>,
    next: usize,
    pop_mode: bool,
}

impl<'a, 's> Shunter<'a, 's> {
    /// The precedence table that the shunter reads.
    pub closed spec fn table(&self) -> Seq<(Prec, Prec)> {
        self.prec_table@
    }

    /// The lexemes that wait on the stack, the top last.
    pub closed spec fn waiting(&self) -> Seq<Lexeme<'s>> {
        self.stack@
    }

    /// Every lexeme that the shunter holds has an entry in the table.
    pub closed spec fn wf(&self) -> bool {
        &&& self.next <= self.input@.len()
        &&& tokens_in_table(self.prec_table@, self.input@)
        &&& tokens_in_table(self.prec_table@, self.stack@)
    }

    /// The lexemes that the shunter has still to emit, in order.
    pub closed spec fn remaining(&self) -> Seq<Lexeme<'s>> {
        shunt_from(self.prec_table@, self.stack@, self.input@, self.next as int, self.pop_mode)
    }

    /// A shunter at the start of the input.
    pub fn new(prec_table: &'a Vec<(Prec, Prec)>, input: Vec<Lexeme<'s>>) -> (shunter: Self)
        requires
            tokens_in_table(prec_table@, input@),
        ensures
            shunter.wf(),
            shunter.table() == prec_table@,
            shunter.waiting() == Seq::<Lexeme<'s>>::empty(),
            shunter.remaining() == shunted(prec_table@, input@),
    {
        Shunter { prec_table, stack: Vec::new(), input, next: 0, pop_mode: false }
    }

    /// The right precedence of the lexeme on top of the stack; that of a wall
    /// where the stack is empty.
    pub fn top_rprec(&self) -> (rprec: Prec)
        requires
            self.wf(),
        ensures
            rprec == top_rprec_of(self.table(), self.waiting()),
    {
        if self.stack.len() == 0 {
            PREC_MAX
        } else {
            let top = self.stack[self.stack.len() - 1];
            self.prec_table[top.token].1
        }
    }

    /// The next lexeme in postfix order, or nothing where all are emitted.
    pub fn next(&mut self) -> (emitted: Option<Lexeme<'s>>)
        requires
            old(self).wf(),
        ensures
            final(self).wf(),
            final(self).table() == old(self).table(),
            match emitted {
                Some(lexeme) => old(self).remaining() == seq![lexeme] + final(self).remaining()
                    && lexeme.token < old(self).table().len(),
                None => old(self).remaining().len() == 0 && final(self).remaining().len() == 0,
            },
    {
        loop
            invariant
                self.wf(),
                self.prec_table == old(self).prec_table,
                self.remaining() == old(self).remaining(),
            decreases self.input.len() - self.next, self.stack.len(), (if self.pop_mode {
                0int
            } else {
                1int
            }),
        {
            if self.pop_mode && self.stack.len() > 0 {
                let ghost before = self.stack@;
                let lexeme = self.stack.pop().unwrap();
                assert(lexeme == before.last());
                assert(self.stack@ == before.drop_last());
                let lprec = self.prec_table[lexeme.token].0;
                let rprec = self.top_rprec();
                self.pop_mode = rprec <= lprec;
                return Some(lexeme);
            } else if self.next < self.input.len() {
                let lexeme = self.input[self.next];
                let rprec = self.top_rprec();
                let lprec = self.prec_table[lexeme.token].0;
                if rprec >= lprec {
                    self.stack.push(lexeme);
                    self.next = self.next + 1;
                    self.pop_mode = false;
                } else {
                    self.pop_mode = true;
                }
            } else if self.stack.len() > 0 {
                let ghost before = self.stack@;
                let lexeme = self.stack.pop().unwrap();
                assert(self.stack@ == before.drop_last());
                self.pop_mode = false;
                return Some(lexeme);
            } else {
                return None;
            }
        }
    }
}

/// Convert a lexeme sequence into reverse polish notation. For example,
/// `1 * 2 + 3 * 4` becomes `1 2 * 3 4 * +`.
///
/// The precedence table is indexed by token, and says what that token's left
/// and right precedence is. Smaller precedence binds tighter.
pub fn shunt<'s>(prec_table: &Vec<(Prec, Prec)>, input: Vec<Lexeme<'s>>) -> (output: Vec<Lexeme<'s>>)
    requires
        tokens_in_table(prec_table@, input@),
    ensures
        output@ == shunted(prec_table@, input@),
        output@.len() == input@.len(),
        output@.to_multiset() == input@.to_multiset(),
        tokens_in_table(prec_table@, output@),
{
    proof {
        lemma_shunt_from_len(prec_table@, Seq::empty(), input@, 0, false);
        lemma_shunted_permutes(prec_table@, input@);
    }
    let mut shunter = Shunter::new(prec_table, input);
    let mut output: Vec<Lexeme<'s>> = Vec::new();
    loop
        invariant
            shunter.wf(),
            shunter.table() == prec_table@,
            tokens_in_table(prec_table@, output@),
            shunted(prec_table@, input@).len() == input@.len(),
            shunted(prec_table@, input@).to_multiset() == input@.to_multiset(),
            output@ + shunter.remaining() == shunted(prec_table@, input@),
        decreases shunter.remaining().len(),
    {
        let ghost done = output@;
        let ghost rest = shunter.remaining();
        match shunter.next() {
            Some(lexeme) => {
                output.push(lexeme);
                assert(output@ + shunter.remaining() =~= done + rest);
            },
            None => {
                assert(output@ + Seq::<Lexeme<'s>>::empty() =~= output@);
                assert(shunter.remaining() =~= Seq::<Lexeme<'s>>::empty());
                return output;
            },
        }
    }
}

} // verus!
