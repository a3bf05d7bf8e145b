//! What holds of every grammar and every input: how the parser reads the
//! smallest inputs, and how operators group.
use vstd::prelude::*;
use crate::grammar::{blank_op, follower_rprec, head_rprec, GrammarErrorView, GrammarView};
use crate::lexeme::{Lexeme, Position};
use crate::op::{infix_entry, prec_entry, Assoc, OpView, PREC_MAX};
use crate::parse::{
    assemble_from, assembled, matched_followers, node_of, nodes_of, on_its_own, parse_of,
    waiting_at, ParseErrorView,
};
use crate::resolve::{binding_of, implicit, resolve_from, resolved, retokened};
use crate::rpn::{
    forest_of, lemma_forest_written_out, lemma_postfix_read_back, postfix_of, postfix_of_all,
    tree_complete, written_out, NodeView, TreeView,
};
use crate::simple_shunter::{
    lemma_left_assoc_groups_left, lemma_right_assoc_groups_right, lemma_tighter_binds_first,
    shunt_from, shunted,
};

verus! {

/// A tree without children.
pub open spec fn leaf(node: NodeView) -> TreeView {
    TreeView { node, children: Seq::empty() }
}

/// A tree with two children.
pub open spec fn fork(node: NodeView, left: TreeView, right: TreeView) -> TreeView {
    TreeView { node, children: seq![left, right] }
}

/// A tree with three children.
pub open spec fn three_fork(
    node: NodeView,
    first: TreeView,
    second: TreeView,
    third: TreeView,
) -> TreeView {
    TreeView { node, children: seq![first, second, third] }
}

/// The node of a blank that the parser fills in at a place.
pub open spec fn blank_at(at: Position) -> NodeView {
    NodeView { op: blank_op(), span: (at.offset, at.offset), text: ""@ }
}

/// Whether the token is that of an atom of the grammar: bound without a left
/// argument, with nothing expected behind it, to an operator without
/// arguments.
pub open spec fn atom_token(tables: GrammarView, token: usize, op: OpView) -> bool {
    let bound = binding_of(tables.prefixy, token);
    &&& bound is Some
    &&& !(bound->0).1
    &&& (bound->0).0 != 0
    &&& tables.ops[(bound->0).0 as int] == Some(op)
    &&& tables.prec_table[(bound->0).0 as int] == (0u16, 0u16)
    &&& op.arity == 0
    &&& op.followers.len() == 0
}

/// Whether the token is that of an infix operator of the grammar without
/// followers: bound with a left argument only, with an argument expected
/// behind it, to an operator of two arguments.
pub open spec fn infix_token(tables: GrammarView, token: usize, op: OpView) -> bool {
    let bound = binding_of(tables.suffixy, token);
    &&& binding_of(tables.prefixy, token) is None
    &&& bound is Some
    &&& (bound->0).1
    &&& (bound->0).0 != 0
    &&& tables.ops[(bound->0).0 as int] == Some(op)
    &&& op.arity == 2
    &&& op.followers.len() == 0
}

/// The precedences of the operator token that a token is bound to with a
/// left argument.
pub open spec fn infix_precs(tables: GrammarView, token: usize) -> (u16, u16) {
    tables.prec_table[(binding_of(tables.suffixy, token)->0).0 as int]
}

/// The empty input parses to a single blank.
pub proof fn lemma_empty_input_is_blank<'s>(tables: GrammarView)
    requires
        tables.wf(),
    ensures
        parse_of(tables, Seq::<Lexeme<'s>>::empty()) == Ok::<Seq<TreeView>, ParseErrorView>(
            seq![leaf(blank_at(Position { line: 1, column: 1, offset: 0 }))],
        ),
{
    let input = Seq::<Lexeme<'s>>::empty();
    let blank: Lexeme<'s> = implicit(1, Position { line: 1, column: 1, offset: 0 });
    assert(resolved(tables.prefixy, tables.suffixy, input) == Ok::<Seq<Lexeme<'s>>, Lexeme<'s>>(
        seq![blank],
    ));
    lemma_single_lexeme(tables, blank, blank_op());
}

/// A single lexeme of an operator without arguments or followers, once
/// resolved, comes out of shunting, assembling and reading as a leaf.
proof fn lemma_single_lexeme<'s>(tables: GrammarView, lexeme: Lexeme<'s>, op: OpView)
    requires
        tables.wf(),
        lexeme.token != 0,
        lexeme.token < tables.ops.len(),
        tables.ops[lexeme.token as int] == Some(op),
        op.arity == 0,
        op.followers.len() == 0,
    ensures
        shunted(tables.prec_table, seq![lexeme]) == seq![lexeme],
        assembled(tables.ops, tables.tokens, seq![lexeme]) == Ok::<
            Seq<NodeView>,
            ParseErrorView,
        >(seq![node_of(op, lexeme)]),
        forest_of(seq![node_of(op, lexeme)]) == seq![leaf(node_of(op, lexeme))],
{
    reveal_with_fuel(shunt_from, 4);
    assert(shunted(tables.prec_table, seq![lexeme]) =~= seq![lexeme]);
    reveal_with_fuel(assemble_from, 3);
    let nodes = seq![node_of(op, lexeme)];
    assert(seq![node_of(op, lexeme)] + Seq::<NodeView>::empty() =~= nodes);
    let tree = leaf(node_of(op, lexeme));
    assert(tree_complete(tree));
    assert(postfix_of(tree) =~= nodes);
    lemma_postfix_read_back(tree);
}

/// Parsing a single atom yields a single node without children, which has
/// the operator of the atom and the place and text of the lexeme.
pub proof fn lemma_atom_parses_to_itself<'s>(tables: GrammarView, lexeme: Lexeme<'s>, op: OpView)
    requires
        tables.wf(),
        atom_token(tables, lexeme.token, op),
    ensures
        parse_of(tables, seq![lexeme]) == Ok::<Seq<TreeView>, ParseErrorView>(
            seq![leaf(node_of(op, lexeme))],
        ),
{
    let bound = binding_of(tables.prefixy, lexeme.token)->0;
    let read = retokened(lexeme, bound.0);
    reveal_with_fuel(resolve_from, 3);
    assert(resolved(tables.prefixy, tables.suffixy, seq![lexeme]) == Ok::<
        Seq<Lexeme<'s>>,
        Lexeme<'s>,
    >(seq![read])) by {
        assert(Seq::<Lexeme<'s>>::empty().push(read) + Seq::<Lexeme<'s>>::empty() =~= seq![read]);
    }
    assert(tables.prefixy[lexeme.token as int] is Some);
    lemma_single_lexeme(tables, read, op);
    assert(node_of(op, read) == node_of(op, lexeme));
}

/// Whether every lexeme is the first token of an operator without followers.
pub open spec fn plain_lexemes<'s>(ops: Seq<Option<OpView>>, postfix: Seq<Lexeme<'s>>) -> bool {
    forall|i: int|
        0 <= i < postfix.len() ==> {
            &&& (#[trigger] postfix[i]).token != 0
            &&& postfix[i].token < ops.len()
            &&& ops[postfix[i].token as int] is Some
            &&& (ops[postfix[i].token as int]->0).followers.len() == 0
        }
}

/// The nodes of lexemes of which each is the first token of an operator.
pub open spec fn plain_nodes<'s>(ops: Seq<Option<OpView>>, postfix: Seq<Lexeme<'s>>, from: int) -> Seq<
    NodeView,
> {
    Seq::new(
        (postfix.len() - from) as nat,
        |i: int| node_of(ops[postfix[from + i].token as int]->0, postfix[from + i]),
    )
}

/// Where no lexeme is a follower or unrecognised, and no operator has
/// followers, assembling makes one node of each lexeme, in order.
pub proof fn lemma_assemble_plain<'s>(tables: GrammarView, postfix: Seq<Lexeme<'s>>, from: int)
    requires
        plain_lexemes(tables.ops, postfix),
        0 <= from <= postfix.len(),
    ensures
        assemble_from(tables.ops, tables.tokens, postfix, from, Seq::empty()) == Ok::<
            Seq<NodeView>,
            ParseErrorView,
        >(plain_nodes(tables.ops, postfix, from)),
    decreases postfix.len() - from,
{
    if from < postfix.len() {
        lemma_assemble_plain(tables, postfix, from + 1);
        let lexeme = postfix[from];
        let op = tables.ops[lexeme.token as int]->0;
        assert(matched_followers(lexeme.token as int, 0, Seq::<Lexeme<'s>>::empty(), 0) == 0);
        assert(seq![node_of(op, lexeme)] + plain_nodes(tables.ops, postfix, from + 1)
            =~= plain_nodes(tables.ops, postfix, from));
    } else {
        assert(plain_nodes(tables.ops, postfix, from) =~= Seq::<NodeView>::empty());
    }
}

/// Three atoms with two infix operators between them resolve to their
/// operator tokens, with nothing filled in.
proof fn lemma_resolve_chain<'s>(
    tables: GrammarView,
    a: Lexeme<'s>,
    o1: Lexeme<'s>,
    b: Lexeme<'s>,
    o2: Lexeme<'s>,
    c: Lexeme<'s>,
)
    requires
        binding_of(tables.prefixy, a.token) is Some,
        !(binding_of(tables.prefixy, a.token)->0).1,
        binding_of(tables.prefixy, b.token) is Some,
        !(binding_of(tables.prefixy, b.token)->0).1,
        binding_of(tables.prefixy, c.token) is Some,
        !(binding_of(tables.prefixy, c.token)->0).1,
        binding_of(tables.suffixy, o1.token) is Some,
        (binding_of(tables.suffixy, o1.token)->0).1,
        binding_of(tables.suffixy, o2.token) is Some,
        (binding_of(tables.suffixy, o2.token)->0).1,
    ensures
        resolved(tables.prefixy, tables.suffixy, seq![a, o1, b, o2, c]) == Ok::<
            Seq<Lexeme<'s>>,
            Lexeme<'s>,
        >(
            seq![
                retokened(a, (binding_of(tables.prefixy, a.token)->0).0),
                retokened(o1, (binding_of(tables.suffixy, o1.token)->0).0),
                retokened(b, (binding_of(tables.prefixy, b.token)->0).0),
                retokened(o2, (binding_of(tables.suffixy, o2.token)->0).0),
                retokened(c, (binding_of(tables.prefixy, c.token)->0).0),
            ],
        ),
{
    reveal_with_fuel(resolve_from, 7);
    let input = seq![a, o1, b, o2, c];
    let wanted = seq![
        retokened(a, (binding_of(tables.prefixy, a.token)->0).0),
        retokened(o1, (binding_of(tables.suffixy, o1.token)->0).0),
        retokened(b, (binding_of(tables.prefixy, b.token)->0).0),
        retokened(o2, (binding_of(tables.suffixy, o2.token)->0).0),
        retokened(c, (binding_of(tables.prefixy, c.token)->0).0),
    ];
    let got = resolved(tables.prefixy, tables.suffixy, input);
    assert(got is Ok);
    assert(got->Ok_0 =~= wanted);
}

/// The nodes `a b o1 c o2` read as the tree in which `o2` holds `o1` and
/// `c`, and `o1` holds `a` and `b`.
proof fn lemma_read_left(a: NodeView, o1: NodeView, b: NodeView, o2: NodeView, c: NodeView)
    requires
        a.op.arity == 0,
        b.op.arity == 0,
        c.op.arity == 0,
        o1.op.arity == 2,
        o2.op.arity == 2,
    ensures
        forest_of(seq![a, b, o1, c, o2]) == seq![fork(o2, fork(o1, leaf(a), leaf(b)), leaf(c))],
{
    let inner = fork(o1, leaf(a), leaf(b));
    let tree = fork(o2, inner, leaf(c));
    reveal_with_fuel(postfix_of, 4);
    reveal_with_fuel(postfix_of_all, 4);
    reveal_with_fuel(tree_complete, 4);
    assert(tree_complete(leaf(a)) && tree_complete(leaf(b)) && tree_complete(leaf(c)));
    assert(tree_complete(inner));
    assert(tree_complete(tree));
    assert(postfix_of(inner) =~= seq![a, b, o1]);
    assert(postfix_of(leaf(c)) =~= seq![c]);
    assert(postfix_of(tree) =~= seq![a, b, o1, c, o2]);
    lemma_postfix_read_back(tree);
}

/// The nodes `a b c o2 o1` read as the tree in which `o1` holds `a` and
/// `o2`, and `o2` holds `b` and `c`.
proof fn lemma_read_right(a: NodeView, o1: NodeView, b: NodeView, o2: NodeView, c: NodeView)
    requires
        a.op.arity == 0,
        b.op.arity == 0,
        c.op.arity == 0,
        o1.op.arity == 2,
        o2.op.arity == 2,
    ensures
        forest_of(seq![a, b, c, o2, o1]) == seq![fork(o1, leaf(a), fork(o2, leaf(b), leaf(c)))],
{
    let inner = fork(o2, leaf(b), leaf(c));
    let tree = fork(o1, leaf(a), inner);
    reveal_with_fuel(postfix_of, 4);
    reveal_with_fuel(postfix_of_all, 4);
    reveal_with_fuel(tree_complete, 4);
    assert(tree_complete(leaf(a)) && tree_complete(leaf(b)) && tree_complete(leaf(c)));
    assert(tree_complete(inner));
    assert(tree_complete(tree));
    assert(postfix_of(inner) =~= seq![b, c, o2]);
    assert(postfix_of(leaf(a)) =~= seq![a]);
    assert(postfix_of(tree) =~= seq![a, b, c, o2, o1]);
    lemma_postfix_read_back(tree);
}

/// For any left-associative infix operator and atoms `a`, `b`, `c`, parsing
/// `a o b o c` yields the tree `(a o b) o c`.
pub proof fn lemma_left_assoc_parses_left<'s>(
    tables: GrammarView,
    a: Lexeme<'s>,
    o1: Lexeme<'s>,
    b: Lexeme<'s>,
    o2: Lexeme<'s>,
    c: Lexeme<'s>,
    atom_a: OpView,
    atom_b: OpView,
    atom_c: OpView,
    op: OpView,
    prec: u16,
)
    requires
        tables.wf(),
        atom_token(tables, a.token, atom_a),
        atom_token(tables, b.token, atom_b),
        atom_token(tables, c.token, atom_c),
        infix_token(tables, o1.token, op),
        o2.token == o1.token,
        prec >= 1,
        infix_precs(tables, o1.token) == infix_entry(Assoc::Left, prec),
    ensures
        parse_of(tables, seq![a, o1, b, o2, c]) == Ok::<Seq<TreeView>, ParseErrorView>(
            seq![
                fork(
                    node_of(op, o2),
                    fork(node_of(op, o1), leaf(node_of(atom_a, a)), leaf(node_of(atom_b, b))),
                    leaf(node_of(atom_c, c)),
                ),
            ],
        ),
{
    let ra = retokened(a, (binding_of(tables.prefixy, a.token)->0).0);
    let rb = retokened(b, (binding_of(tables.prefixy, b.token)->0).0);
    let rc = retokened(c, (binding_of(tables.prefixy, c.token)->0).0);
    let r1 = retokened(o1, (binding_of(tables.suffixy, o1.token)->0).0);
    let r2 = retokened(o2, (binding_of(tables.suffixy, o2.token)->0).0);
    lemma_resolve_chain(tables, a, o1, b, o2, c);
    lemma_bound_in_table(tables, a.token);
    lemma_bound_in_table(tables, b.token);
    lemma_bound_in_table(tables, c.token);
    lemma_bound_in_table(tables, o1.token);
    lemma_left_assoc_groups_left(tables.prec_table, ra, r1, rb, r2, rc, prec);
    let postfix = seq![ra, rb, r1, rc, r2];
    lemma_assemble_plain(tables, postfix, 0);
    assert(plain_nodes(tables.ops, postfix, 0) =~= seq![
        node_of(atom_a, a),
        node_of(atom_b, b),
        node_of(op, o1),
        node_of(atom_c, c),
        node_of(op, o2),
    ]);
    lemma_read_left(
        node_of(atom_a, a),
        node_of(op, o1),
        node_of(atom_b, b),
        node_of(op, o2),
        node_of(atom_c, c),
    );
}

/// What a token is bound to in a well-formed grammar is an operator token of
/// its tables.
proof fn lemma_bound_in_table(tables: GrammarView, token: usize)
    requires
        tables.wf(),
    ensures
        binding_of(tables.prefixy, token) is Some ==> (binding_of(tables.prefixy, token)->0).0
            < tables.prec_table.len(),
        binding_of(tables.suffixy, token) is Some ==> (binding_of(tables.suffixy, token)->0).0
            < tables.prec_table.len(),
{
    if token < tables.prefixy.len() {
        assert(tables.prefixy[token as int] is Some ==> (tables.prefixy[token as int]->0).0
            < tables.prec_table.len());
    }
    if token < tables.suffixy.len() {
        assert(tables.suffixy[token as int] is Some ==> (tables.suffixy[token as int]->0).0
            < tables.prec_table.len());
    }
}

/// For any right-associative infix operator and atoms `a`, `b`, `c`, parsing
/// `a o b o c` yields the tree `a o (b o c)`. The operator's left precedence,
/// one below its declared precedence, must lie above that of an atom.
pub proof fn lemma_right_assoc_parses_right<'s>(
    tables: GrammarView,
    a: Lexeme<'s>,
    o1: Lexeme<'s>,
    b: Lexeme<'s>,
    o2: Lexeme<'s>,
    c: Lexeme<'s>,
    atom_a: OpView,
    atom_b: OpView,
    atom_c: OpView,
    op: OpView,
    prec: u16,
)
    requires
        tables.wf(),
        atom_token(tables, a.token, atom_a),
        atom_token(tables, b.token, atom_b),
        atom_token(tables, c.token, atom_c),
        infix_token(tables, o1.token, op),
        o2.token == o1.token,
        prec >= 2,
        infix_precs(tables, o1.token) == infix_entry(Assoc::Right, prec),
    ensures
        parse_of(tables, seq![a, o1, b, o2, c]) == Ok::<Seq<TreeView>, ParseErrorView>(
            seq![
                fork(
                    node_of(op, o1),
                    leaf(node_of(atom_a, a)),
                    fork(node_of(op, o2), leaf(node_of(atom_b, b)), leaf(node_of(atom_c, c))),
                ),
            ],
        ),
{
    let ra = retokened(a, (binding_of(tables.prefixy, a.token)->0).0);
    let rb = retokened(b, (binding_of(tables.prefixy, b.token)->0).0);
    let rc = retokened(c, (binding_of(tables.prefixy, c.token)->0).0);
    let r1 = retokened(o1, (binding_of(tables.suffixy, o1.token)->0).0);
    let r2 = retokened(o2, (binding_of(tables.suffixy, o2.token)->0).0);
    lemma_resolve_chain(tables, a, o1, b, o2, c);
    lemma_bound_in_table(tables, a.token);
    lemma_bound_in_table(tables, b.token);
    lemma_bound_in_table(tables, c.token);
    lemma_bound_in_table(tables, o1.token);
    lemma_right_assoc_groups_right(tables.prec_table, ra, r1, rb, r2, rc, prec);
    let postfix = seq![ra, rb, rc, r2, r1];
    lemma_assemble_plain(tables, postfix, 0);
    assert(plain_nodes(tables.ops, postfix, 0) =~= seq![
        node_of(atom_a, a),
        node_of(atom_b, b),
        node_of(atom_c, c),
        node_of(op, o2),
        node_of(op, o1),
    ]);
    lemma_read_right(
        node_of(atom_a, a),
        node_of(op, o1),
        node_of(atom_b, b),
        node_of(op, o2),
        node_of(atom_c, c),
    );
}

/// If one infix operator has a smaller declared precedence than another,
/// then `a loose b tight c` parses as `a loose (b tight c)`, whatever the
/// associativity of either. The tight operator's left precedence must lie
/// above that of an atom.
pub proof fn lemma_tighter_parses_inside<'s>(
    tables: GrammarView,
    a: Lexeme<'s>,
    loose: Lexeme<'s>,
    b: Lexeme<'s>,
    tight: Lexeme<'s>,
    c: Lexeme<'s>,
    atom_a: OpView,
    atom_b: OpView,
    atom_c: OpView,
    loose_op: OpView,
    loose_assoc: Assoc,
    loose_prec: u16,
    tight_op: OpView,
    tight_assoc: Assoc,
    tight_prec: u16,
)
    requires
        tables.wf(),
        atom_token(tables, a.token, atom_a),
        atom_token(tables, b.token, atom_b),
        atom_token(tables, c.token, atom_c),
        infix_token(tables, loose.token, loose_op),
        infix_token(tables, tight.token, tight_op),
        infix_precs(tables, loose.token) == infix_entry(loose_assoc, loose_prec),
        infix_precs(tables, tight.token) == infix_entry(tight_assoc, tight_prec),
        1 <= tight_prec < loose_prec,
        tight_assoc == Assoc::Right ==> tight_prec >= 2,
    ensures
        parse_of(tables, seq![a, loose, b, tight, c]) == Ok::<
            Seq<TreeView>,
            ParseErrorView,
        >(
            seq![
                fork(
                    node_of(loose_op, loose),
                    leaf(node_of(atom_a, a)),
                    fork(
                        node_of(tight_op, tight),
                        leaf(node_of(atom_b, b)),
                        leaf(node_of(atom_c, c)),
                    ),
                ),
            ],
        ),
{
    let ra = retokened(a, (binding_of(tables.prefixy, a.token)->0).0);
    let rb = retokened(b, (binding_of(tables.prefixy, b.token)->0).0);
    let rc = retokened(c, (binding_of(tables.prefixy, c.token)->0).0);
    let r1 = retokened(loose, (binding_of(tables.suffixy, loose.token)->0).0);
    let r2 = retokened(tight, (binding_of(tables.suffixy, tight.token)->0).0);
    lemma_resolve_chain(tables, a, loose, b, tight, c);
    lemma_bound_in_table(tables, a.token);
    lemma_bound_in_table(tables, b.token);
    lemma_bound_in_table(tables, c.token);
    lemma_bound_in_table(tables, loose.token);
    lemma_bound_in_table(tables, tight.token);
    lemma_tighter_binds_first(
        tables.prec_table,
        ra,
        r1,
        rb,
        r2,
        rc,
        loose_assoc,
        loose_prec,
        tight_assoc,
        tight_prec,
    );
    let postfix = seq![ra, rb, rc, r2, r1];
    lemma_assemble_plain(tables, postfix, 0);
    assert(plain_nodes(tables.ops, postfix, 0) =~= seq![
        node_of(atom_a, a),
        node_of(atom_b, b),
        node_of(atom_c, c),
        node_of(tight_op, tight),
        node_of(loose_op, loose),
    ]);
    lemma_read_right(
        node_of(atom_a, a),
        node_of(loose_op, loose),
        node_of(atom_b, b),
        node_of(tight_op, tight),
        node_of(atom_c, c),
    );
}

/// The nodes `a b o` read as the tree in which `o` holds `a` and `b`.
proof fn lemma_read_fork(a: NodeView, o: NodeView, b: NodeView)
    requires
        a.op.arity == 0,
        b.op.arity == 0,
        o.op.arity == 2,
    ensures
        forest_of(seq![a, b, o]) == seq![fork(o, leaf(a), leaf(b))],
{
    let tree = fork(o, leaf(a), leaf(b));
    reveal_with_fuel(postfix_of, 3);
    reveal_with_fuel(postfix_of_all, 3);
    reveal_with_fuel(tree_complete, 3);
    assert(tree_complete(leaf(a)) && tree_complete(leaf(b)));
    assert(tree_complete(tree));
    assert(postfix_of(tree) =~= seq![a, b, o]);
    lemma_postfix_read_back(tree);
}

/// An infix operator alone parses to the operator with a blank on each side:
/// one at its start and one at its end. The operator's left precedence must
/// lie above that of an atom.
pub proof fn lemma_infix_alone_gets_blanks<'s>(tables: GrammarView, o: Lexeme<'s>, op: OpView)
    requires
        tables.wf(),
        infix_token(tables, o.token, op),
        infix_precs(tables, o.token).0 >= 1,
    ensures
        parse_of(tables, seq![o]) == Ok::<Seq<TreeView>, ParseErrorView>(
            seq![fork(node_of(op, o), leaf(blank_at(o.start)), leaf(blank_at(o.end)))],
        ),
{
    let first: Lexeme<'s> = implicit(1, o.start);
    let second: Lexeme<'s> = implicit(1, o.end);
    let read = retokened(o, (binding_of(tables.suffixy, o.token)->0).0);
    lemma_bound_in_table(tables, o.token);
    reveal_with_fuel(resolve_from, 3);
    let got = resolved(tables.prefixy, tables.suffixy, seq![o]);
    assert(got is Ok);
    assert(got->Ok_0 =~= seq![first, read, second]);
    reveal_with_fuel(shunt_from, 10);
    assert(shunted(tables.prec_table, seq![first, read, second]) =~= seq![first, second, read]);
    let postfix = seq![first, second, read];
    lemma_assemble_plain(tables, postfix, 0);
    assert(plain_nodes(tables.ops, postfix, 0) =~= seq![
        blank_at(o.start),
        blank_at(o.end),
        node_of(op, o),
    ]);
    lemma_read_fork(blank_at(o.start), node_of(op, o), blank_at(o.end));
}

/// Whether the invisible operator is installed as an operator of two
/// arguments.
pub open spec fn juxtapose_op(tables: GrammarView, op: OpView) -> bool {
    &&& binding_of(tables.suffixy, 2) is Some
    &&& tables.ops[2] == Some(op)
    &&& op.arity == 2
    &&& op.followers.len() == 0
}

/// Two adjacent atoms `a b` parse as the invisible operator with `a` and `b`
/// as its arguments, where that operator is installed. The operator stands
/// where `b` starts. Its left precedence must lie above that of an atom.
pub proof fn lemma_adjacent_atoms_are_juxtaposed<'s>(
    tables: GrammarView,
    a: Lexeme<'s>,
    b: Lexeme<'s>,
    atom_a: OpView,
    atom_b: OpView,
    op: OpView,
)
    requires
        tables.wf(),
        atom_token(tables, a.token, atom_a),
        atom_token(tables, b.token, atom_b),
        binding_of(tables.suffixy, b.token) is None,
        juxtapose_op(tables, op),
        tables.prec_table[2].0 >= 1,
    ensures
        parse_of(tables, seq![a, b]) == Ok::<Seq<TreeView>, ParseErrorView>(
            seq![
                fork(
                    node_of(op, implicit(2, b.start)),
                    leaf(node_of(atom_a, a)),
                    leaf(node_of(atom_b, b)),
                ),
            ],
        ),
{
    let ra = retokened(a, (binding_of(tables.prefixy, a.token)->0).0);
    let rb = retokened(b, (binding_of(tables.prefixy, b.token)->0).0);
    let between: Lexeme<'s> = implicit(2, b.start);
    lemma_bound_in_table(tables, a.token);
    lemma_bound_in_table(tables, b.token);
    reveal_with_fuel(resolve_from, 4);
    let got = resolved(tables.prefixy, tables.suffixy, seq![a, b]);
    assert(got is Ok);
    assert(got->Ok_0 =~= seq![ra, between, rb]);
    reveal_with_fuel(shunt_from, 10);
    assert(shunted(tables.prec_table, seq![ra, between, rb]) =~= seq![ra, rb, between]);
    let postfix = seq![ra, rb, between];
    lemma_assemble_plain(tables, postfix, 0);
    assert(plain_nodes(tables.ops, postfix, 0) =~= seq![
        node_of(atom_a, a),
        node_of(atom_b, b),
        node_of(op, between),
    ]);
    lemma_read_fork(node_of(atom_a, a), node_of(op, between), node_of(atom_b, b));
}

/// Two adjacent atoms `a b` are an error where the invisible operator is not
/// installed: `b` stands on its own.
pub proof fn lemma_adjacent_atoms_need_juxtapose<'s>(
    tables: GrammarView,
    a: Lexeme<'s>,
    b: Lexeme<'s>,
    atom_a: OpView,
)
    requires
        tables.wf(),
        atom_token(tables, a.token, atom_a),
        binding_of(tables.suffixy, b.token) is None,
        binding_of(tables.suffixy, 2) is None,
    ensures
        parse_of(tables, seq![a, b]) == Err::<Seq<TreeView>, ParseErrorView>(
            on_its_own(b),
        ),
{
    reveal_with_fuel(resolve_from, 4);
    assert(resolved(tables.prefixy, tables.suffixy, seq![a, b]) == Err::<
        Seq<Lexeme<'s>>,
        Lexeme<'s>,
    >(b));
}

/// Whether the token is one of the first `count` followers.
pub open spec fn among(followers: Seq<usize>, count: int, token: int) -> bool {
    exists|i: int| 0 <= i < count && followers[i] == token
}

/// Binding followers leaves alone what was there: the tokens, the bindings
/// without a left argument, the operators and precedences up to then, and the
/// binding with a left argument of every token that is not such a follower.
pub proof fn lemma_bind_followers_keeps(
    tables: GrammarView,
    followers: Seq<usize>,
    rprec: Option<u16>,
    count: int,
)
    requires
        0 <= count <= followers.len(),
        tables.ops.len() == tables.prec_table.len(),
        forall|i: int| 0 <= i < followers.len() ==> (#[trigger] followers[i]) < tables.suffixy.len(),
    ensures
        ({
            let after = tables.bind_followers(followers, rprec, count);
            &&& after.tokens == tables.tokens
            &&& after.prefixy == tables.prefixy
            &&& after.suffixy.len() == tables.suffixy.len()
            &&& after.ops.len() == tables.ops.len() + count
            &&& after.prec_table.len() == tables.prec_table.len() + count
            &&& forall|k: int| 0 <= k < tables.ops.len() ==> after.ops[k] == tables.ops[k]
            &&& forall|k: int|
                0 <= k < tables.prec_table.len() ==> after.prec_table[k] == tables.prec_table[k]
            &&& forall|t: int|
                0 <= t < tables.suffixy.len() && !among(followers, count, t)
                    ==> #[trigger] after.suffixy[t] == tables.suffixy[t]
        }),
    decreases count,
{
    if count > 0 {
        lemma_bind_followers_keeps(tables, followers, rprec, count - 1);
        let before = tables.bind_followers(followers, rprec, count - 1);
        let after = tables.bind_followers(followers, rprec, count);
        let last = followers[count - 1] as int;
        assert(after.suffixy == before.suffixy.update(
            last,
            Some((before.prec_table.len() as usize, follower_rprec(
                rprec,
                count - 1,
                followers.len() as int,
            ) is Some)),
        ));
        assert forall|t: int|
            0 <= t < tables.suffixy.len() && !among(followers, count, t) implies #[trigger] after.suffixy[t]
            == tables.suffixy[t] by {
            if last == t {
                assert(0 <= count - 1 < count && followers[count - 1] == t);
            }
            if among(followers, count - 1, t) {
                let i = choose|i: int| 0 <= i < count - 1 && followers[i] == t;
                assert(0 <= i < count && followers[i] == t);
            }
            assert(before.suffixy[t] == tables.suffixy[t]);
        }
    }
}

/// Where no follower is in the way from `from` on, none of them clashes.
pub proof fn lemma_no_clash(tables: GrammarView, op: OpView, from: int)
    requires
        0 <= from <= op.followers.len(),
        tables.first_clash(op, from) == op.followers.len(),
    ensures
        forall|i: int| from <= i < op.followers.len() ==> !tables.follower_clash(op, i),
    decreases op.followers.len() - from,
{
    if from < op.followers.len() {
        lemma_clash_in_range(tables, op, from + 1);
        lemma_no_clash(tables, op, from + 1);
    }
}

/// The first follower in the way, if any, is one of the followers.
pub proof fn lemma_clash_in_range(tables: GrammarView, op: OpView, from: int)
    requires
        0 <= from <= op.followers.len(),
    ensures
        from <= tables.first_clash(op, from) <= op.followers.len(),
    decreases op.followers.len() - from,
{
    if from < op.followers.len() {
        lemma_clash_in_range(tables, op, from + 1);
    }
}

/// Whether the operator can be held against the tables: its tokens exist.
pub open spec fn op_known(tables: GrammarView, op: OpView) -> bool {
    &&& op.first_token < tables.tokens.len()
    &&& forall|j: int| 0 <= j < op.followers.len() ==> (#[trigger] op.followers[j]) < tables.tokens.len()
}

/// Adding a second operator that begins with the same token in the same role
/// is refused as a duplicate that names both operators.
pub proof fn lemma_duplicate_is_rejected(tables: GrammarView, first: OpView, second: OpView)
    requires
        tables.wf(),
        op_known(tables, first),
        tables.op_error(first) is None,
        second.first_token == first.first_token,
        (second.left_prec is None) == (first.left_prec is None),
    ensures
        tables.with_op(first).op_error(second) == Some(
            GrammarErrorView::DuplicateOp { op_1: first.name, op_2: second.name },
        ),
{
    let headed = tables.bind(
        Some(first),
        first.first_token as int,
        first.left_prec,
        head_rprec(first),
    );
    lemma_bind_followers_keeps(
        headed,
        first.followers,
        first.right_prec,
        first.followers.len() as int,
    );
    lemma_clash_in_range(tables, first, 0);
    lemma_no_clash(tables, first, 0);
    let after = tables.with_op(first);
    let token = first.first_token as int;
    assert(tables.binding(token, first.left_prec) is None);
    if first.left_prec is Some {
        if among(first.followers, first.followers.len() as int, token) {
            let i = choose|i: int| 0 <= i < first.followers.len() && first.followers[i] == token;
            assert(!tables.follower_clash(first, i));
        }
        assert(after.suffixy[token] == headed.suffixy[token]);
    }
    assert(headed.ops[tables.ops.len() as int] == Some(first));
    assert(after.ops[tables.ops.len() as int] == headed.ops[tables.ops.len() as int]);
    assert(after.binding(token, second.left_prec) == Some(
        (tables.prec_table.len() as usize, head_rprec(first) is Some),
    ));
}

/// One token may begin an operator in each role: where an operator was added
/// that begins with a token in one role, an operator without followers that
/// begins with it in the other role is not refused, unless that place was
/// taken before or the first operator has the token as a follower.
pub proof fn lemma_other_role_stays_free(tables: GrammarView, first: OpView, second: OpView)
    requires
        tables.wf(),
        op_known(tables, first),
        tables.op_error(first) is None,
        second.first_token == first.first_token,
        second.followers.len() == 0,
        (second.left_prec is None) != (first.left_prec is None),
        tables.binding(second.first_token as int, second.left_prec) is None,
        forall|i: int| 0 <= i < first.followers.len() ==> first.followers[i] != first.first_token,
    ensures
        tables.with_op(first).op_error(second) is None,
{
    let headed = tables.bind(
        Some(first),
        first.first_token as int,
        first.left_prec,
        head_rprec(first),
    );
    lemma_bind_followers_keeps(
        headed,
        first.followers,
        first.right_prec,
        first.followers.len() as int,
    );
    let after = tables.with_op(first);
    let token = first.first_token as int;
    if second.left_prec is Some {
        if among(first.followers, first.followers.len() as int, token) {
            let i = choose|i: int| 0 <= i < first.followers.len() && first.followers[i] == token;
            assert(first.followers[i] != first.first_token);
        }
        assert(after.suffixy[token] == headed.suffixy[token]);
    }
    assert(after.binding(token, second.left_prec) is None);
}

/// An atom that is added to a grammar is an atom of the grammar: its token
/// is read as that operator where an argument is expected.
pub proof fn lemma_added_atom_is_atom(tables: GrammarView, op: OpView)
    requires
        tables.wf(),
        op_known(tables, op),
        tables.op_error(op) is None,
        op.left_prec is None,
        op.right_prec is None,
        op.followers.len() == 0,
        op.arity == 0,
    ensures
        atom_token(tables.with_op(op), op.first_token, op),
{
    reveal_with_fuel(GrammarView::bind_followers, 1);
}

/// An infix operator without followers that is added to a grammar is an
/// infix operator of the grammar, with the precedences of its declaration,
/// unless its token begins an operator without a left argument.
pub proof fn lemma_added_infix_is_infix(tables: GrammarView, op: OpView)
    requires
        tables.wf(),
        op_known(tables, op),
        tables.op_error(op) is None,
        tables.prefixy[op.first_token as int] is None,
        op.left_prec is Some,
        op.right_prec is Some,
        op.followers.len() == 0,
        op.arity == 2,
    ensures
        infix_token(tables.with_op(op), op.first_token, op),
        infix_precs(tables.with_op(op), op.first_token) == prec_entry(
            op.left_prec,
            op.right_prec,
        ),
{
    reveal_with_fuel(GrammarView::bind_followers, 1);
}

/// An atom of a grammar stays one when another operator is added.
pub proof fn lemma_atom_stays(tables: GrammarView, token: usize, atom: OpView, added: OpView)
    requires
        tables.wf(),
        op_known(tables, added),
        tables.op_error(added) is None,
        atom_token(tables, token, atom),
    ensures
        atom_token(tables.with_op(added), token, atom),
{
    let headed = tables.bind(
        Some(added),
        added.first_token as int,
        added.left_prec,
        head_rprec(added),
    );
    lemma_bind_followers_keeps(
        headed,
        added.followers,
        added.right_prec,
        added.followers.len() as int,
    );
    lemma_bound_in_table(tables, token);
    let bound = (binding_of(tables.prefixy, token)->0).0 as int;
    let after = tables.with_op(added);
    assert(tables.binding(added.first_token as int, added.left_prec) is None);
    assert(after.prefixy[token as int] == tables.prefixy[token as int]);
    assert(after.ops[bound] == headed.ops[bound]);
    assert(after.prec_table[bound] == headed.prec_table[bound]);
}

/// An infix operator of a grammar stays one when another operator is added,
/// unless that one begins with the same token without a left argument.
pub proof fn lemma_infix_stays(tables: GrammarView, token: usize, op: OpView, added: OpView)
    requires
        tables.wf(),
        op_known(tables, added),
        tables.op_error(added) is None,
        infix_token(tables, token, op),
        added.left_prec is None ==> added.first_token != token,
    ensures
        infix_token(tables.with_op(added), token, op),
        infix_precs(tables.with_op(added), token) == infix_precs(tables, token),
{
    let headed = tables.bind(
        Some(added),
        added.first_token as int,
        added.left_prec,
        head_rprec(added),
    );
    lemma_bind_followers_keeps(
        headed,
        added.followers,
        added.right_prec,
        added.followers.len() as int,
    );
    lemma_bound_in_table(tables, token);
    lemma_clash_in_range(tables, added, 0);
    lemma_no_clash(tables, added, 0);
    let bound = (binding_of(tables.suffixy, token)->0).0 as int;
    let after = tables.with_op(added);
    assert(tables.binding(added.first_token as int, added.left_prec) is None);
    if among(added.followers, added.followers.len() as int, token as int) {
        let i = choose|i: int| 0 <= i < added.followers.len() && added.followers[i] == token;
        assert(!tables.follower_clash(added, i));
    }
    assert(after.suffixy[token as int] == headed.suffixy[token as int]);
    assert(after.prefixy[token as int] == tables.prefixy[token as int]);
    assert(after.ops[bound] == headed.ops[bound]);
    assert(after.prec_table[bound] == headed.prec_table[bound]);
}

/// Whether the follower at `index` of an operator stands in the tables as a
/// follower does: at the operator token `index` steps behind `first`, which
/// has no operator of its own and a wall on its left; on its right it has a
/// wall too, unless it is the last follower, which has the operator's right
/// precedence. The follower's token is bound to it with a left argument.
pub open spec fn follower_entered(
    after: GrammarView,
    first: int,
    followers: Seq<usize>,
    rprec: Option<u16>,
    index: int,
) -> bool {
    let right = follower_rprec(rprec, index, followers.len() as int);
    &&& after.prec_table[first + index] == prec_entry(
        Some(PREC_MAX),
        right,
    )
    &&& after.ops[first + index] is None
    &&& after.suffixy[followers[index] as int] == Some(((first + index) as usize, right is Some))
}

/// Each follower that is bound stands in the tables as a follower does, at
/// the next operator token.
pub proof fn lemma_bind_followers_entries(
    tables: GrammarView,
    followers: Seq<usize>,
    rprec: Option<u16>,
    count: int,
)
    requires
        0 <= count <= followers.len(),
        tables.ops.len() == tables.prec_table.len(),
        tables.prec_table.len() + followers.len() <= usize::MAX,
        forall|i: int| 0 <= i < followers.len() ==> (#[trigger] followers[i]) < tables.suffixy.len(),
        forall|i: int, j: int|
            0 <= i < j < followers.len() ==> followers[i] != followers[j],
    ensures
        forall|i: int|
            0 <= i < count ==> #[trigger] follower_entered(
                tables.bind_followers(followers, rprec, count),
                tables.prec_table.len() as int,
                followers,
                rprec,
                i,
            ),
    decreases count,
{
    if count > 0 {
        lemma_bind_followers_entries(tables, followers, rprec, count - 1);
        lemma_bind_followers_keeps(tables, followers, rprec, count - 1);
        let before = tables.bind_followers(followers, rprec, count - 1);
        let after = tables.bind_followers(followers, rprec, count);
        let base = tables.prec_table.len() as int;
        assert forall|i: int| 0 <= i < count implies #[trigger] follower_entered(
            after,
            base,
            followers,
            rprec,
            i,
        ) by {
            assert(followers[i] < tables.suffixy.len());
            if i < count - 1 {
                assert(follower_entered(before, base, followers, rprec, i));
                assert(followers[i] != followers[count - 1]);
            }
        }
    }
}

/// What adding an operator puts into the tables. The operator's first token
/// gets the next operator token, with the operator's left precedence and,
/// on its right, the operator's right precedence or a wall where followers
/// come. Each follower stands behind it as a follower does. What was in the
/// tables before stays.
pub proof fn lemma_added_op_entries(tables: GrammarView, op: OpView)
    requires
        tables.wf(),
        tables.prec_table.len() + 1 + op.followers.len() <= usize::MAX,
        op_known(tables, op),
        tables.op_error(op) is None,
    ensures
        tables.with_op(op).tokens == tables.tokens,
        tables.with_op(op).prefixy.len() == tables.prefixy.len(),
        tables.with_op(op).suffixy.len() == tables.suffixy.len(),
        tables.with_op(op).prec_table.len() == tables.prec_table.len() + 1 + op.followers.len(),
        tables.with_op(op).ops.len() == tables.prec_table.len() + 1 + op.followers.len(),
        tables.with_op(op).prec_table[tables.prec_table.len() as int] == prec_entry(
            op.left_prec,
            head_rprec(op),
        ),
        tables.with_op(op).ops[tables.prec_table.len() as int] == Some(op),
        tables.with_op(op).binding(op.first_token as int, op.left_prec) == Some(
            (tables.prec_table.len() as usize, head_rprec(op) is Some),
        ),
        forall|k: int|
            0 <= k < tables.prec_table.len() ==> (#[trigger] tables.with_op(op).prec_table[k])
                == tables.prec_table[k],
        forall|k: int|
            0 <= k < tables.ops.len() ==> (#[trigger] tables.with_op(op).ops[k]) == tables.ops[k],
        forall|i: int|
            0 <= i < op.followers.len() ==> #[trigger] follower_entered(
                tables.with_op(op),
                tables.prec_table.len() as int + 1,
                op.followers,
                op.right_prec,
                i,
            ),
{
    let headed = tables.bind(
        Some(op),
        op.first_token as int,
        op.left_prec,
        head_rprec(op),
    );
    let count = op.followers.len() as int;
    let base = tables.prec_table.len() as int;
    lemma_clash_in_range(tables, op, 0);
    lemma_no_clash(tables, op, 0);
    assert forall|i: int, j: int| 0 <= i < j < op.followers.len() implies op.followers[i]
        != op.followers[j] by {
        assert(!tables.follower_clash(op, j));
    }
    lemma_bind_followers_keeps(headed, op.followers, op.right_prec, count);
    lemma_bind_followers_entries(headed, op.followers, op.right_prec, count);
    let after = tables.with_op(op);
    let token = op.first_token as int;
    assert(tables.binding(token, op.left_prec) is None);
    if op.left_prec is Some {
        if among(op.followers, count, token) {
            let i = choose|i: int| 0 <= i < count && op.followers[i] == token;
            assert(!tables.follower_clash(op, i));
        }
        assert(after.suffixy[token] == headed.suffixy[token]);
    }
    assert(after.ops[base] == headed.ops[base]);
    assert(after.prec_table[base] == headed.prec_table[base]);
    assert forall|k: int| 0 <= k < tables.prec_table.len() implies (#[trigger] after.prec_table[k])
        == tables.prec_table[k] by {
        assert(after.prec_table[k] == headed.prec_table[k]);
    }
    assert forall|k: int| 0 <= k < tables.ops.len() implies (#[trigger] after.ops[k])
        == tables.ops[k] by {
        assert(after.ops[k] == headed.ops[k]);
    }
    assert forall|i: int| 0 <= i < count implies #[trigger] follower_entered(
        after,
        base + 1,
        op.followers,
        op.right_prec,
        i,
    ) by {
        assert(follower_entered(after, headed.prec_table.len() as int, op.followers, op.right_prec, i));
    }
}

/// Whether the token begins an operator of the grammar that takes no left
/// argument, has two followers and takes an argument behind the last one, as
/// `if _ then _ else _` does: the tokens of the operator and of its two
/// followers are bound to three operator tokens in a row, with walls between
/// them.
pub open spec fn two_follower_prefix(
    tables: GrammarView,
    head: usize,
    first: usize,
    second: usize,
    op: OpView,
) -> bool {
    let bound = binding_of(tables.prefixy, head);
    let at = (bound->0).0 as int;
    &&& bound is Some
    &&& (bound->0).1
    &&& at != 0
    &&& at + 2 < tables.prec_table.len()
    &&& tables.ops[at] == Some(op)
    &&& op.followers.len() == 2
    &&& op.arity == 3
    &&& tables.prec_table[at].1 == PREC_MAX
    &&& binding_of(tables.suffixy, first) == Some(((at + 1) as usize, true))
    &&& binding_of(tables.suffixy, second) == Some(((at + 2) as usize, true))
    &&& tables.ops[at + 1] is None
    &&& tables.ops[at + 2] is None
    &&& tables.prec_table[at + 1] == (PREC_MAX, PREC_MAX)
    &&& tables.prec_table[at + 2].0 == PREC_MAX
}

/// An operator with two followers is one node: `h a f b g c`, where `f` and
/// `g` are the followers of `h` and `a`, `b`, `c` are atoms, parses to the
/// node of `h` with `a`, `b` and `c` as its children, whatever the
/// precedence of the operator is.
pub proof fn lemma_followers_make_one_node<'s>(
    tables: GrammarView,
    h: Lexeme<'s>,
    a: Lexeme<'s>,
    f: Lexeme<'s>,
    b: Lexeme<'s>,
    g: Lexeme<'s>,
    c: Lexeme<'s>,
    atom_a: OpView,
    atom_b: OpView,
    atom_c: OpView,
    op: OpView,
)
    requires
        tables.wf(),
        atom_token(tables, a.token, atom_a),
        atom_token(tables, b.token, atom_b),
        atom_token(tables, c.token, atom_c),
        two_follower_prefix(tables, h.token, f.token, g.token, op),
    ensures
        parse_of(tables, seq![h, a, f, b, g, c]) == Ok::<Seq<TreeView>, ParseErrorView>(
            seq![
                three_fork(
                    node_of(op, h),
                    leaf(node_of(atom_a, a)),
                    leaf(node_of(atom_b, b)),
                    leaf(node_of(atom_c, c)),
                ),
            ],
        ),
{
    let at = (binding_of(tables.prefixy, h.token)->0).0;
    let rh = retokened(h, at);
    let ra = retokened(a, (binding_of(tables.prefixy, a.token)->0).0);
    let rb = retokened(b, (binding_of(tables.prefixy, b.token)->0).0);
    let rc = retokened(c, (binding_of(tables.prefixy, c.token)->0).0);
    let rf = retokened(f, (at + 1) as usize);
    let rg = retokened(g, (at + 2) as usize);
    lemma_bound_in_table(tables, a.token);
    lemma_bound_in_table(tables, b.token);
    lemma_bound_in_table(tables, c.token);
    assert(resolved(tables.prefixy, tables.suffixy, seq![h, a, f, b, g, c]) == Ok::<
        Seq<Lexeme<'s>>,
        Lexeme<'s>,
    >(seq![rh, ra, rf, rb, rg, rc])) by {
        reveal_with_fuel(resolve_from, 8);
        let got = resolved(tables.prefixy, tables.suffixy, seq![h, a, f, b, g, c]);
        assert(got is Ok);
        assert(got->Ok_0 =~= seq![rh, ra, rf, rb, rg, rc]);
    }
    assert(shunted(tables.prec_table, seq![rh, ra, rf, rb, rg, rc]) == seq![
        ra,
        rb,
        rc,
        rg,
        rf,
        rh,
    ]) by {
        reveal_with_fuel(shunt_from, 20);
        assert(shunted(tables.prec_table, seq![rh, ra, rf, rb, rg, rc]) =~= seq![
            ra,
            rb,
            rc,
            rg,
            rf,
            rh,
        ]);
    }
    let postfix = seq![ra, rb, rc, rg, rf, rh];
    let nodes = seq![node_of(atom_a, a), node_of(atom_b, b), node_of(atom_c, c), node_of(op, h)];
    assert(assembled(tables.ops, tables.tokens, postfix) == Ok::<
        Seq<NodeView>,
        ParseErrorView,
    >(nodes)) by {
        reveal_with_fuel(assemble_from, 8);
        reveal_with_fuel(matched_followers, 4);
        let pending = Seq::<Lexeme<'s>>::empty().push(rg).push(rf);
        assert(waiting_at(pending, 0) == rf);
        assert(waiting_at(pending, 1) == rg);
        assert(matched_followers(at as int, 2, pending, 0) == 2);
        assert(matched_followers(ra.token as int, 0, Seq::<Lexeme<'s>>::empty(), 0) == 0);
        assert(matched_followers(rb.token as int, 0, Seq::<Lexeme<'s>>::empty(), 0) == 0);
        assert(matched_followers(rc.token as int, 0, Seq::<Lexeme<'s>>::empty(), 0) == 0);
        let got = assembled(tables.ops, tables.tokens, postfix);
        assert(got is Ok);
        assert(got->Ok_0 =~= nodes);
    }
    let tree = TreeView {
        node: node_of(op, h),
        children: seq![
            leaf(node_of(atom_a, a)),
            leaf(node_of(atom_b, b)),
            leaf(node_of(atom_c, c)),
        ],
    };
    assert(forest_of(nodes) == seq![tree]) by {
        reveal_with_fuel(postfix_of, 3);
        reveal_with_fuel(postfix_of_all, 6);
        reveal_with_fuel(tree_complete, 3);
        assert(postfix_of(leaf(node_of(atom_a, a))) =~= seq![node_of(atom_a, a)]);
        assert(postfix_of(leaf(node_of(atom_b, b))) =~= seq![node_of(atom_b, b)]);
        assert(postfix_of(leaf(node_of(atom_c, c))) =~= seq![node_of(atom_c, c)]);
        assert(postfix_of_all(tree.children, 1) =~= seq![node_of(atom_a, a)]);
        assert(postfix_of_all(tree.children, 2) =~= seq![node_of(atom_a, a), node_of(atom_b, b)]);
        assert(tree_complete(leaf(node_of(atom_a, a))));
        assert(tree_complete(leaf(node_of(atom_b, b))));
        assert(tree_complete(leaf(node_of(atom_c, c))));
        assert(tree_complete(tree));
        assert(postfix_of(tree) =~= nodes);
        lemma_postfix_read_back(tree);
    }
}

/// The nodes `a b c h` read as the tree in which `h` holds `a`, `b`, `c`.
proof fn lemma_read_three_fork(a: TreeView, b: TreeView, c: TreeView, h: NodeView)
    requires
        tree_complete(a),
        tree_complete(b),
        tree_complete(c),
        h.op.arity == 3,
    ensures
        tree_complete(three_fork(h, a, b, c)),
        postfix_of(three_fork(h, a, b, c)) == postfix_of(a) + postfix_of(b) + postfix_of(c)
            + seq![h],
{
    let tree = three_fork(h, a, b, c);
    reveal_with_fuel(postfix_of, 2);
    reveal_with_fuel(postfix_of_all, 5);
    reveal_with_fuel(tree_complete, 2);
    assert(postfix_of_all(tree.children, 1) =~= postfix_of(a));
    assert(postfix_of_all(tree.children, 2) =~= postfix_of(a) + postfix_of(b));
    assert(postfix_of(tree) =~= postfix_of(a) + postfix_of(b) + postfix_of(c) + seq![h]);
}

/// Followers bind as walls, case one: an infix operator that binds looser
/// than an operator with two followers takes the whole of it as its left
/// argument. `h a f b g c o d` parses as `(h a f b g c) o d`.
pub proof fn lemma_looser_infix_takes_whole_mixfix<'s>(
    tables: GrammarView,
    h: Lexeme<'s>,
    a: Lexeme<'s>,
    f: Lexeme<'s>,
    b: Lexeme<'s>,
    g: Lexeme<'s>,
    c: Lexeme<'s>,
    o: Lexeme<'s>,
    d: Lexeme<'s>,
    atom_a: OpView,
    atom_b: OpView,
    atom_c: OpView,
    atom_d: OpView,
    op: OpView,
    infix: OpView,
)
    requires
        tables.wf(),
        atom_token(tables, a.token, atom_a),
        atom_token(tables, b.token, atom_b),
        atom_token(tables, c.token, atom_c),
        atom_token(tables, d.token, atom_d),
        two_follower_prefix(tables, h.token, f.token, g.token, op),
        tables.prec_table[(binding_of(tables.prefixy, h.token)->0).0 as int].0 == 0,
        infix_token(tables, o.token, infix),
        infix_precs(tables, o.token).0 > tables.prec_table[(binding_of(
            tables.prefixy,
            h.token,
        )->0).0 + 2].1,
    ensures
        parse_of(tables, seq![h, a, f, b, g, c, o, d]) == Ok::<
            Seq<TreeView>,
            ParseErrorView,
        >(
            seq![
                fork(
                    node_of(infix, o),
                    three_fork(
                        node_of(op, h),
                        leaf(node_of(atom_a, a)),
                        leaf(node_of(atom_b, b)),
                        leaf(node_of(atom_c, c)),
                    ),
                    leaf(node_of(atom_d, d)),
                ),
            ],
        ),
{
    let at = (binding_of(tables.prefixy, h.token)->0).0;
    let rh = retokened(h, at);
    let ra = retokened(a, (binding_of(tables.prefixy, a.token)->0).0);
    let rb = retokened(b, (binding_of(tables.prefixy, b.token)->0).0);
    let rc = retokened(c, (binding_of(tables.prefixy, c.token)->0).0);
    let rd = retokened(d, (binding_of(tables.prefixy, d.token)->0).0);
    let rf = retokened(f, (at + 1) as usize);
    let rg = retokened(g, (at + 2) as usize);
    let ro = retokened(o, (binding_of(tables.suffixy, o.token)->0).0);
    lemma_bound_in_table(tables, a.token);
    lemma_bound_in_table(tables, b.token);
    lemma_bound_in_table(tables, c.token);
    lemma_bound_in_table(tables, d.token);
    lemma_bound_in_table(tables, o.token);
    let input = seq![h, a, f, b, g, c, o, d];
    let read = seq![rh, ra, rf, rb, rg, rc, ro, rd];
    assert(resolved(tables.prefixy, tables.suffixy, input) == Ok::<Seq<Lexeme<'s>>, Lexeme<'s>>(
        read,
    )) by {
        reveal_with_fuel(resolve_from, 10);
        let got = resolved(tables.prefixy, tables.suffixy, input);
        assert(got is Ok);
        assert(got->Ok_0 =~= read);
    }
    let postfix = seq![ra, rb, rc, rg, rf, rh, rd, ro];
    assert(shunted(tables.prec_table, read) == postfix) by {
        reveal_with_fuel(shunt_from, 26);
        assert(shunted(tables.prec_table, read) =~= postfix);
    }
    let na = node_of(atom_a, a);
    let nb = node_of(atom_b, b);
    let nc = node_of(atom_c, c);
    let nd = node_of(atom_d, d);
    let nh = node_of(op, h);
    let no = node_of(infix, o);
    let nodes = seq![na, nb, nc, nh, nd, no];
    assert(assembled(tables.ops, tables.tokens, postfix) == Ok::<
        Seq<NodeView>,
        ParseErrorView,
    >(nodes)) by {
        reveal_with_fuel(assemble_from, 10);
        reveal_with_fuel(matched_followers, 4);
        let pending = Seq::<Lexeme<'s>>::empty().push(rg).push(rf);
        assert(waiting_at(pending, 0) == rf);
        assert(waiting_at(pending, 1) == rg);
        assert(matched_followers(at as int, 2, pending, 0) == 2);
        let got = assembled(tables.ops, tables.tokens, postfix);
        assert(got is Ok);
        assert(got->Ok_0 =~= nodes);
    }
    let inner = three_fork(nh, leaf(na), leaf(nb), leaf(nc));
    let tree = fork(no, inner, leaf(nd));
    assert(forest_of(nodes) == seq![tree]) by {
        reveal_with_fuel(postfix_of, 2);
        reveal_with_fuel(postfix_of_all, 4);
        reveal_with_fuel(tree_complete, 2);
        assert(postfix_of(leaf(na)) =~= seq![na]);
        assert(postfix_of(leaf(nb)) =~= seq![nb]);
        assert(postfix_of(leaf(nc)) =~= seq![nc]);
        assert(postfix_of(leaf(nd)) =~= seq![nd]);
        lemma_read_three_fork(leaf(na), leaf(nb), leaf(nc), nh);
        assert(postfix_of(inner) =~= seq![na, nb, nc, nh]);
        assert(postfix_of_all(tree.children, 1) =~= postfix_of(inner));
        assert(tree_complete(tree));
        assert(postfix_of(tree) =~= nodes);
        lemma_postfix_read_back(tree);
    }
}

/// Followers bind as walls, case two: an infix operator that binds at least
/// as tight as the right side of an operator with two followers stays
/// inside its last argument. `h a f b g c o d` parses as `h a f b g (c o d)`.
/// The infix operator's left precedence must lie above that of an atom.
pub proof fn lemma_tighter_infix_stays_inside_mixfix<'s>(
    tables: GrammarView,
    h: Lexeme<'s>,
    a: Lexeme<'s>,
    f: Lexeme<'s>,
    b: Lexeme<'s>,
    g: Lexeme<'s>,
    c: Lexeme<'s>,
    o: Lexeme<'s>,
    d: Lexeme<'s>,
    atom_a: OpView,
    atom_b: OpView,
    atom_c: OpView,
    atom_d: OpView,
    op: OpView,
    infix: OpView,
)
    requires
        tables.wf(),
        atom_token(tables, a.token, atom_a),
        atom_token(tables, b.token, atom_b),
        atom_token(tables, c.token, atom_c),
        atom_token(tables, d.token, atom_d),
        two_follower_prefix(tables, h.token, f.token, g.token, op),
        infix_token(tables, o.token, infix),
        1 <= infix_precs(tables, o.token).0 <= tables.prec_table[(binding_of(
            tables.prefixy,
            h.token,
        )->0).0 + 2].1,
    ensures
        parse_of(tables, seq![h, a, f, b, g, c, o, d]) == Ok::<
            Seq<TreeView>,
            ParseErrorView,
        >(
            seq![
                three_fork(
                    node_of(op, h),
                    leaf(node_of(atom_a, a)),
                    leaf(node_of(atom_b, b)),
                    fork(node_of(infix, o), leaf(node_of(atom_c, c)), leaf(node_of(atom_d, d))),
                ),
            ],
        ),
{
    let at = (binding_of(tables.prefixy, h.token)->0).0;
    let rh = retokened(h, at);
    let ra = retokened(a, (binding_of(tables.prefixy, a.token)->0).0);
    let rb = retokened(b, (binding_of(tables.prefixy, b.token)->0).0);
    let rc = retokened(c, (binding_of(tables.prefixy, c.token)->0).0);
    let rd = retokened(d, (binding_of(tables.prefixy, d.token)->0).0);
    let rf = retokened(f, (at + 1) as usize);
    let rg = retokened(g, (at + 2) as usize);
    let ro = retokened(o, (binding_of(tables.suffixy, o.token)->0).0);
    lemma_bound_in_table(tables, a.token);
    lemma_bound_in_table(tables, b.token);
    lemma_bound_in_table(tables, c.token);
    lemma_bound_in_table(tables, d.token);
    lemma_bound_in_table(tables, o.token);
    let input = seq![h, a, f, b, g, c, o, d];
    let read = seq![rh, ra, rf, rb, rg, rc, ro, rd];
    assert(resolved(tables.prefixy, tables.suffixy, input) == Ok::<Seq<Lexeme<'s>>, Lexeme<'s>>(
        read,
    )) by {
        reveal_with_fuel(resolve_from, 10);
        let got = resolved(tables.prefixy, tables.suffixy, input);
        assert(got is Ok);
        assert(got->Ok_0 =~= read);
    }
    let postfix = seq![ra, rb, rc, rd, ro, rg, rf, rh];
    assert(shunted(tables.prec_table, read) == postfix) by {
        reveal_with_fuel(shunt_from, 26);
        assert(shunted(tables.prec_table, read) =~= postfix);
    }
    let na = node_of(atom_a, a);
    let nb = node_of(atom_b, b);
    let nc = node_of(atom_c, c);
    let nd = node_of(atom_d, d);
    let nh = node_of(op, h);
    let no = node_of(infix, o);
    let nodes = seq![na, nb, nc, nd, no, nh];
    assert(assembled(tables.ops, tables.tokens, postfix) == Ok::<
        Seq<NodeView>,
        ParseErrorView,
    >(nodes)) by {
        reveal_with_fuel(assemble_from, 10);
        reveal_with_fuel(matched_followers, 4);
        let pending = Seq::<Lexeme<'s>>::empty().push(rg).push(rf);
        assert(waiting_at(pending, 0) == rf);
        assert(waiting_at(pending, 1) == rg);
        assert(matched_followers(at as int, 2, pending, 0) == 2);
        let got = assembled(tables.ops, tables.tokens, postfix);
        assert(got is Ok);
        assert(got->Ok_0 =~= nodes);
    }
    let inner = fork(no, leaf(nc), leaf(nd));
    let tree = three_fork(nh, leaf(na), leaf(nb), inner);
    assert(forest_of(nodes) == seq![tree]) by {
        reveal_with_fuel(postfix_of, 2);
        reveal_with_fuel(postfix_of_all, 4);
        reveal_with_fuel(tree_complete, 2);
        assert(postfix_of(leaf(na)) =~= seq![na]);
        assert(postfix_of(leaf(nb)) =~= seq![nb]);
        assert(postfix_of(leaf(nc)) =~= seq![nc]);
        assert(postfix_of(leaf(nd)) =~= seq![nd]);
        assert(postfix_of_all(inner.children, 1) =~= seq![nc]);
        assert(postfix_of(inner) =~= seq![nc, nd, no]);
        assert(tree_complete(inner));
        lemma_read_three_fork(leaf(na), leaf(nb), inner, nh);
        assert(postfix_of(tree) =~= nodes);
        lemma_postfix_read_back(tree);
    }
}

/// An operator without a left argument, with two followers and a right
/// argument, that is added to a grammar stands in its tables as such an
/// operator does: with no precedence on its left, and behind its last
/// follower the right precedence of its declaration.
pub proof fn lemma_added_mixfix_is_mixfix(tables: GrammarView, op: OpView)
    requires
        tables.wf(),
        tables.prec_table.len() + 3 <= usize::MAX,
        op_known(tables, op),
        tables.op_error(op) is None,
        op.left_prec is None,
        op.right_prec is Some,
        op.followers.len() == 2,
        op.arity == 3,
    ensures
        two_follower_prefix(
            tables.with_op(op),
            op.first_token,
            op.followers[0],
            op.followers[1],
            op,
        ),
        tables.with_op(op).prec_table[tables.prec_table.len() as int].0 == 0,
        tables.with_op(op).prec_table[tables.prec_table.len() as int + 2].1 == op.right_prec->0,
{
    lemma_added_op_entries(tables, op);
    let after = tables.with_op(op);
    let base = tables.prec_table.len() as int;
    assert(follower_entered(after, base + 1, op.followers, op.right_prec, 0));
    assert(follower_entered(after, base + 1, op.followers, op.right_prec, 1));
    assert(op.followers[0] < tables.tokens.len());
    assert(op.followers[1] < tables.tokens.len());
}

/// Whether the token begins a prefix operator of the grammar without
/// followers: bound without a left argument, with an argument expected behind
/// it, to an operator of one argument.
pub open spec fn prefix_token(tables: GrammarView, token: usize, op: OpView) -> bool {
    let bound = binding_of(tables.prefixy, token);
    &&& bound is Some
    &&& (bound->0).1
    &&& (bound->0).0 != 0
    &&& tables.ops[(bound->0).0 as int] == Some(op)
    &&& tables.prec_table[(bound->0).0 as int].0 == 0
    &&& op.arity == 1
    &&& op.followers.len() == 0
}

/// Whether the token is bound, with a left argument and an argument expected
/// behind it, to an operator of two arguments without followers. Unlike an
/// infix token it may begin another operator where no left argument
/// precedes it.
pub open spec fn infix_role(tables: GrammarView, token: usize, op: OpView) -> bool {
    let bound = binding_of(tables.suffixy, token);
    &&& bound is Some
    &&& (bound->0).1
    &&& (bound->0).0 != 0
    &&& tables.ops[(bound->0).0 as int] == Some(op)
    &&& op.arity == 2
    &&& op.followers.len() == 0
}

/// A token that begins a prefix operator and an infix operator is read in the
/// role of its place: `m x m y` parses as the infix operator with the prefix
/// operator on `x` as its left argument and `y` as its right one, where the
/// infix operator binds looser than the prefix operator.
pub proof fn lemma_token_is_read_by_its_place<'s>(
    tables: GrammarView,
    m1: Lexeme<'s>,
    x: Lexeme<'s>,
    m2: Lexeme<'s>,
    y: Lexeme<'s>,
    atom_x: OpView,
    atom_y: OpView,
    prefix: OpView,
    infix: OpView,
)
    requires
        tables.wf(),
        m2.token == m1.token,
        atom_token(tables, x.token, atom_x),
        atom_token(tables, y.token, atom_y),
        prefix_token(tables, m1.token, prefix),
        infix_role(tables, m1.token, infix),
        infix_precs(tables, m1.token).0 > tables.prec_table[(binding_of(
            tables.prefixy,
            m1.token,
        )->0).0 as int].1,
    ensures
        parse_of(tables, seq![m1, x, m2, y]) == Ok::<Seq<TreeView>, ParseErrorView>(
            seq![
                fork(
                    node_of(infix, m2),
                    TreeView { node: node_of(prefix, m1), children: seq![leaf(node_of(atom_x, x))] },
                    leaf(node_of(atom_y, y)),
                ),
            ],
        ),
{
    let rp = retokened(m1, (binding_of(tables.prefixy, m1.token)->0).0);
    let ri = retokened(m2, (binding_of(tables.suffixy, m2.token)->0).0);
    let rx = retokened(x, (binding_of(tables.prefixy, x.token)->0).0);
    let ry = retokened(y, (binding_of(tables.prefixy, y.token)->0).0);
    lemma_bound_in_table(tables, x.token);
    lemma_bound_in_table(tables, y.token);
    lemma_bound_in_table(tables, m1.token);
    let input = seq![m1, x, m2, y];
    let read = seq![rp, rx, ri, ry];
    assert(resolved(tables.prefixy, tables.suffixy, input) == Ok::<Seq<Lexeme<'s>>, Lexeme<'s>>(
        read,
    )) by {
        reveal_with_fuel(resolve_from, 6);
        let got = resolved(tables.prefixy, tables.suffixy, input);
        assert(got is Ok);
        assert(got->Ok_0 =~= read);
    }
    let postfix = seq![rx, rp, ry, ri];
    assert(shunted(tables.prec_table, read) == postfix) by {
        reveal_with_fuel(shunt_from, 14);
        assert(shunted(tables.prec_table, read) =~= postfix);
    }
    let nx = node_of(atom_x, x);
    let ny = node_of(atom_y, y);
    let np = node_of(prefix, m1);
    let ni = node_of(infix, m2);
    let nodes = seq![nx, np, ny, ni];
    lemma_assemble_plain(tables, postfix, 0);
    assert(plain_nodes(tables.ops, postfix, 0) =~= nodes);
    let inner = TreeView { node: np, children: seq![leaf(nx)] };
    let tree = fork(ni, inner, leaf(ny));
    assert(forest_of(nodes) == seq![tree]) by {
        reveal_with_fuel(postfix_of, 3);
        reveal_with_fuel(postfix_of_all, 4);
        reveal_with_fuel(tree_complete, 3);
        assert(postfix_of(leaf(nx)) =~= seq![nx]);
        assert(postfix_of(leaf(ny)) =~= seq![ny]);
        assert(postfix_of_all(inner.children, 1) =~= seq![nx]);
        assert(postfix_of(inner) =~= seq![nx, np]);
        assert(tree_complete(leaf(nx)) && tree_complete(leaf(ny)));
        assert(tree_complete(inner));
        assert(postfix_of_all(tree.children, 1) =~= seq![nx, np]);
        assert(tree_complete(tree));
        assert(postfix_of(tree) =~= nodes);
        lemma_postfix_read_back(tree);
    }
}

/// The trees of a parse hold the nodes of the parse and nothing else: written
/// out children first, one tree after the other, they give back the nodes in
/// postfix order.
pub proof fn lemma_parse_trees_hold_the_nodes<'s>(tables: GrammarView, input: Seq<Lexeme<'s>>)
    requires
        parse_of(tables, input) is Ok,
    ensures
        written_out(parse_of(tables, input)->Ok_0) == nodes_of(tables, input),
{
    lemma_forest_written_out(nodes_of(tables, input));
}

} // verus!
