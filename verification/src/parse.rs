//! Parsing: from the lexemes of a source text to its parse trees.
use vstd::prelude::*;
use crate::grammar::{
    described, op_fits, op_view_of, GrammarView, Parser, TokenPattern, TokenPatternView,
};
use crate::lexeme::{Lexeme, Position};
use crate::op::{Fixity, Op, OpView};
use crate::resolve::{bindings_below, resolve, resolved, tokens_below};
use crate::rpn::{
    forest_of, lemma_forest_written_out, node_views, postfix_of_all, read_postfix, tree_views,
    written_out, Node, NodeView, ParseTree, TreeView,
};
use crate::simple_shunter::{shunt, shunted};

verus! {

/// What is wrong with an input.
#[derive(Debug, Clone)]
pub enum ParseError {
    /// The lexer did not recognise a piece of the input.
    LexError { lexeme: String, pos: Position },
    /// A token stands on its own: a separator that no operator is waiting
    /// for, or an argument where an operator was due.
    ExtraSeparator { separator: String, pos: Position },
    /// An operator did not find the separator that it was waiting for.
    MissingSeparator { op_name: String, separator: String, pos: Position },
}

/// A parse error as plain values.
pub enum ParseErrorView {
    LexError { lexeme: Seq<char>, pos: Position },
    ExtraSeparator { separator: Seq<char>, pos: Position },
    MissingSeparator { op_name: Seq<char>, separator: Seq<char>, pos: Position },
}

impl View for ParseError {
    type V = ParseErrorView;

    open spec fn view(&self) -> ParseErrorView {
        match self {
            ParseError::LexError { lexeme, pos } => ParseErrorView::LexError {
                lexeme: lexeme@,
                pos: *pos,
            },
            ParseError::ExtraSeparator { separator, pos } => ParseErrorView::ExtraSeparator {
                separator: separator@,
                pos: *pos,
            },
            ParseError::MissingSeparator { op_name, separator, pos } => {
                ParseErrorView::MissingSeparator {
                    op_name: op_name@,
                    separator: separator@,
                    pos: *pos,
                }
            },
        }
    }
}

/// The operators as plain values.
pub open spec fn op_views(ops: Seq<Option<Op>>) -> Seq<Option<OpView>> {
    Seq::new(ops.len(), |k: int| op_view_of(ops[k]))
}

/// The token patterns as plain values.
pub open spec fn pattern_views(patterns: Seq<TokenPattern>) -> Seq<TokenPatternView> {
    Seq::new(patterns.len(), |i: int| patterns[i]@)
}

/// The error that a lexeme on its own gives.
pub open spec fn on_its_own<'s>(lexeme: Lexeme<'s>) -> ParseErrorView {
    ParseErrorView::ExtraSeparator { separator: lexeme.lexeme@, pos: lexeme.start }
}

/// The node of an operator whose first token is the lexeme.
pub open spec fn node_of<'s>(op: OpView, lexeme: Lexeme<'s>) -> NodeView {
    NodeView { op, span: (lexeme.start.offset, lexeme.end.offset), text: lexeme.lexeme@ }
}

/// The follower of the source that stands at `index` behind the operator's
/// first token. The followers are emitted in front of the first token, the
/// last one first, so that they wait in reverse.
pub open spec fn waiting_at<'s>(pending: Seq<Lexeme<'s>>, index: int) -> Lexeme<'s> {
    pending[pending.len() - 1 - index]
}

/// How many followers stand as the operator expects them, from `from` on. The
/// followers of an operator have the operator tokens that come after that of
/// its first token.
pub open spec fn matched_followers<'s>(
    head: int,
    count: int,
    pending: Seq<Lexeme<'s>>,
    from: int,
) -> int
    decreases count - from,
{
    if from < 0 || from >= count || from >= pending.len() || waiting_at(pending, from).token
        != head + 1 + from {
        from
    } else {
        matched_followers(head, count, pending, from + 1)
    }
}

/// What is wrong with the followers that wait for an operator, if anything.
/// Where one is absent, or another stands in its place, the separator is
/// missing: at the lexeme that stands there, or at the operator's first token
/// where none does. Where more wait than the operator has, the first of them
/// stands on its own.
pub open spec fn follower_error<'s>(
    name: Seq<char>,
    followers: Seq<usize>,
    tokens: Seq<TokenPatternView>,
    head: Lexeme<'s>,
    pending: Seq<Lexeme<'s>>,
) -> Option<ParseErrorView> {
    let matched = matched_followers(head.token as int, followers.len() as int, pending, 0);
    if matched < followers.len() {
        Some(
            ParseErrorView::MissingSeparator {
                op_name: name,
                separator: described(tokens[followers[matched] as int]),
                pos: if matched < pending.len() {
                    waiting_at(pending, matched).start
                } else {
                    head.start
                },
            },
        )
    } else if matched < pending.len() {
        Some(on_its_own(waiting_at(pending, matched)))
    } else {
        None
    }
}

/// The nodes in front of what follows, where anything follows.
pub open spec fn nodes_before(
    front: Seq<NodeView>,
    rest: Result<Seq<NodeView>, ParseErrorView>,
) -> Result<Seq<NodeView>, ParseErrorView> {
    match rest {
        Ok(nodes) => Ok(front + nodes),
        Err(error) => Err(error),
    }
}

/// The nodes of `postfix[next..]`, where `pending` holds the followers that
/// wait for their operator. A lexeme without an operator of its own is a
/// follower and waits. An operator's first token takes the followers that
/// wait and becomes a node. Unrecognised input is an error, and so is a
/// follower that still waits at the end.
pub open spec fn assemble_from<'s>(
    ops: Seq<Option<OpView>>,
    tokens: Seq<TokenPatternView>,
    postfix: Seq<Lexeme<'s>>,
    next: int,
    pending: Seq<Lexeme<'s>>,
) -> Result<Seq<NodeView>, ParseErrorView>
    decreases postfix.len() - next,
{
    if next < 0 || next >= postfix.len() {
        if pending.len() > 0 {
            Err(on_its_own(pending.last()))
        } else {
            Ok(Seq::empty())
        }
    } else if postfix[next].token == 0 {
        if pending.len() > 0 {
            Err(on_its_own(pending.last()))
        } else {
            Err(
                ParseErrorView::LexError {
                    lexeme: postfix[next].lexeme@,
                    pos: postfix[next].start,
                },
            )
        }
    } else {
        match ops[postfix[next].token as int] {
            None => assemble_from(ops, tokens, postfix, next + 1, pending.push(postfix[next])),
            Some(op) => match follower_error(
                op.name,
                op.followers,
                tokens,
                postfix[next],
                pending,
            ) {
                Some(error) => Err(error),
                None => nodes_before(
                    seq![node_of(op, postfix[next])],
                    assemble_from(ops, tokens, postfix, next + 1, Seq::empty()),
                ),
            },
        }
    }
}

/// The nodes of lexemes in postfix order.
pub open spec fn assembled<'s>(
    ops: Seq<Option<OpView>>,
    tokens: Seq<TokenPatternView>,
    postfix: Seq<Lexeme<'s>>,
) -> Result<Seq<NodeView>, ParseErrorView> {
    assemble_from(ops, tokens, postfix, 0, Seq::empty())
}

/// Whether every operator speaks of followers that are tokens.
pub open spec fn followers_known(ops: Seq<Option<OpView>>, tokens: nat) -> bool {
    forall|k: int, j: int|
        0 <= k < ops.len() && ops[k] is Some && 0 <= j < (ops[k]->0).followers.len() ==> (
        #[trigger] (ops[k]->0).followers[j]) < tokens
}

/// The error that a lexeme on its own gives.
fn stray<'s>(lexeme: Lexeme<'s>) -> (error: ParseError)
    ensures
        error@ == on_its_own(lexeme),
{
    ParseError::ExtraSeparator { separator: lexeme.lexeme.to_owned(), pos: lexeme.start }
}

/// Turn lexemes in postfix order into nodes: every operator's first token
/// becomes a node, once the followers in front of it are found to be those of
/// the operator. Fails with the first error in postfix order.
pub fn assemble<'a>(
    ops: &'a Vec<Option<Op>>,
    tokens: &Vec<TokenPattern>,
    postfix: &Vec<Lexeme<'a>>,
) -> (result: Result<Vec<Node<'a>>, ParseError>)
    requires
        tokens_below(postfix@, ops@.len() as nat),
        followers_known(op_views(ops@), tokens@.len() as nat),
    ensures
        match result {
            Ok(nodes) => assembled(op_views(ops@), pattern_views(tokens@), postfix@) == Ok::<
                Seq<NodeView>,
                ParseErrorView,
            >(node_views(nodes@)),
            Err(error) => assembled(op_views(ops@), pattern_views(tokens@), postfix@) == Err::<
                Seq<NodeView>,
                ParseErrorView,
            >(error@),
        },
{
    let mut nodes: Vec<Node<'a>> = Vec::new();
    let mut pending: Vec<Lexeme<'a>> = Vec::new();
    let mut next: usize = 0;
    let ghost the_ops = op_views(ops@);
    let ghost the_tokens = pattern_views(tokens@);
    assert(node_views(nodes@) =~= Seq::<NodeView>::empty());
    while next < postfix.len()
        invariant
            next <= postfix.len(),
            the_ops == op_views(ops@),
            the_tokens == pattern_views(tokens@),
            tokens_below(postfix@, ops@.len() as nat),
            followers_known(the_ops, tokens@.len() as nat),
            nodes_before(
                node_views(nodes@),
                assemble_from(the_ops, the_tokens, postfix@, next as int, pending@),
            ) == assembled(the_ops, the_tokens, postfix@),
        decreases postfix.len() - next,
    {
        let lexeme = postfix[next];
        let waiting = pending.len();
        if lexeme.token == 0 {
            if waiting > 0 {
                return Err(stray(pending[waiting - 1]));
            }
            return Err(
                ParseError::LexError { lexeme: lexeme.lexeme.to_owned(), pos: lexeme.start },
            );
        }
        assert(the_ops[lexeme.token as int] == op_view_of(ops@[lexeme.token as int]));
        match &ops[lexeme.token] {
            None => {
                pending.push(lexeme);
            },
            Some(op) => {
                let count = op.followers.len();
                let mut matched: usize = 0;
                while matched < count && matched < waiting && pending[waiting - 1 - matched].token
                    > lexeme.token && pending[waiting - 1 - matched].token - lexeme.token - 1
                    == matched
                    invariant
                        matched <= count,
                        matched <= waiting,
                        waiting == pending@.len(),
                        count == op@.followers.len(),
                        matched_followers(lexeme.token as int, count as int, pending@, 0)
                            == matched_followers(
                            lexeme.token as int,
                            count as int,
                            pending@,
                            matched as int,
                        ),
                    decreases count - matched,
                {
                    matched = matched + 1;
                }
                if matched < count {
                    let follower = op.followers[matched];
                    assert(follower == (the_ops[lexeme.token as int]->0).followers[matched as int]);
                    assert(follower < tokens@.len());
                    let pos = if matched < waiting {
                        pending[waiting - 1 - matched].start
                    } else {
                        lexeme.start
                    };
                    return Err(
                        ParseError::MissingSeparator {
                            op_name: op.name.clone(),
                            separator: tokens[follower].describe(),
                            pos,
                        },
                    );
                }
                if matched < waiting {
                    return Err(stray(pending[waiting - 1 - matched]));
                }
                let ghost done = node_views(nodes@);
                let ghost rest = assemble_from(
                    the_ops,
                    the_tokens,
                    postfix@,
                    next + 1,
                    Seq::empty(),
                );
                nodes.push(
                    Node {
                        op,
                        span: (lexeme.start.offset, lexeme.end.offset),
                        text: lexeme.lexeme,
                    },
                );
                pending = Vec::new();
                proof {
                    assert(node_views(nodes@) =~= done + seq![node_of(op@, lexeme)]);
                    match rest {
                        Ok(more) => {
                            assert((done + seq![node_of(op@, lexeme)]) + more =~= done + (
                            seq![node_of(op@, lexeme)] + more));
                        },
                        Err(_) => {},
                    }
                }
            },
        }
        next = next + 1;
    }
    if pending.len() > 0 {
        return Err(stray(pending[pending.len() - 1]));
    }
    assert(node_views(nodes@) + Seq::<NodeView>::empty() =~= node_views(nodes@));
    Ok(nodes)
}

/// What parsing makes of the lexemes of a source text: its tokens are
/// resolved to operator tokens, brought into postfix order, turned into
/// nodes, and read as trees.
pub open spec fn parse_of<'s>(tables: GrammarView, input: Seq<Lexeme<'s>>) -> Result<
    Seq<TreeView>,
    ParseErrorView,
> {
    match resolved(tables.prefixy, tables.suffixy, input) {
        Err(lexeme) => Err(on_its_own(lexeme)),
        Ok(lexemes) => match assembled(
            tables.ops,
            tables.tokens,
            shunted(tables.prec_table, lexemes),
        ) {
            Err(error) => Err(error),
            Ok(nodes) => Ok(forest_of(nodes)),
        },
    }
}

/// The nodes that a parse is made of: those that the lexemes, resolved and
/// brought into postfix order, are turned into.
pub open spec fn nodes_of<'s>(tables: GrammarView, input: Seq<Lexeme<'s>>) -> Seq<NodeView> {
    assembled(
        tables.ops,
        tables.tokens,
        shunted(tables.prec_table, resolved(tables.prefixy, tables.suffixy, input)->Ok_0),
    )->Ok_0
}

/// The outcome of a parse: the source text and its parse trees.
#[derive(Debug)]
pub struct Parsed<'a> {
    source: &'a str,
    trees: Vec<ParseTree<'a>>,
}

impl<'a> View for Parsed<'a> {
    type V = Seq<TreeView>;

    closed spec fn view(&self) -> Seq<TreeView> {
        tree_views(self.trees@)
    }
}

impl Parser {
    /// Parse the lexemes of a source text. The lexemes are those that a lexer
    /// for this grammar's tokens makes of `source`, in order.
    pub fn parse<'s>(&'s self, source: &'s str, lexemes: Vec<Lexeme<'s>>) -> (result: Result<
        Parsed<'s>,
        ParseError,
    >)
        requires
            self@.wf(),
        ensures
            match result {
                Ok(parsed) => parse_of(self@, lexemes@) == Ok::<Seq<TreeView>, ParseErrorView>(
                    parsed@,
                ) && parsed.source_text() == source@ && written_out(parsed@) == nodes_of(
                    self@,
                    lexemes@,
                ),
                Err(error) => parse_of(self@, lexemes@) == Err::<Seq<TreeView>, ParseErrorView>(
                    error@,
                ),
            },
    {
        let prec_table = self.prec_table();
        let ops = self.ops();
        let tokens = self.token_patterns();
        let resolved = match resolve(self.prefixy_tokens(), self.suffixy_tokens(), &lexemes) {
            Ok(resolved) => resolved,
            Err(lexeme) => {
                return Err(stray(lexeme));
            },
        };
        proof {
            assert(bindings_below(self@.prefixy, prec_table@.len() as nat));
            assert(bindings_below(self@.suffixy, prec_table@.len() as nat));
            assert(tokens_below(resolved@, prec_table@.len() as nat));
            assert(op_views(ops@) =~= self@.ops);
            assert(pattern_views(tokens@) =~= self@.tokens);
            assert forall|k: int, j: int|
                0 <= k < self@.ops.len() && self@.ops[k] is Some && 0 <= j < (
                self@.ops[k]->0).followers.len() implies (#[trigger] (
            self@.ops[k]->0).followers[j]) < self@.tokens.len() by {
                assert(op_fits(self@.ops[k]->0, self@.tokens.len()));
            }
        }
        let postfix = shunt(prec_table, resolved);
        let nodes = match assemble(ops, tokens, &postfix) {
            Ok(nodes) => nodes,
            Err(error) => {
                return Err(error);
            },
        };
        let trees = read_postfix(&nodes);
        proof {
            lemma_forest_written_out(node_views(nodes@));
        }
        Ok(Parsed { source, trees })
    }
}

impl<'a> Parsed<'a> {
    /// The source text, as plain values.
    pub closed spec fn source_text(&self) -> Seq<char> {
        self.source@
    }

    /// The source text that was parsed.
    pub fn source(&self) -> (source: &'a str)
        ensures
            source@ == self.source_text(),
    {
        self.source
    }

    /// The nodes of all the parse trees in postfix order: each tree written
    /// out children first, one tree after the other.
    pub fn postfix(&self) -> (nodes: Vec<Node<'a>>)
        ensures
            node_views(nodes@) == written_out(self@),
    {
        let mut nodes: Vec<Node<'a>> = Vec::new();
        let mut i: usize = 0;
        assert(node_views(nodes@) =~= postfix_of_all(self@, 0));
        while i < self.trees.len()
            invariant
                i <= self.trees.len(),
                node_views(nodes@) == postfix_of_all(self@, i as int),
            decreases self.trees.len() - i,
        {
            self.trees[i].emit(&mut nodes);
            i = i + 1;
        }
        nodes
    }

    /// The parse trees of the source, from left to right.
    pub fn groups(&'a self) -> (groups: VisitorIter<'a>)
        ensures
            groups@ == self@,
            groups.source_text() == self.source_text(),
    {
        let groups = VisitorIter { source: self.source, trees: &self.trees, next: 0 };
        assert(groups@ =~= self@);
        groups
    }
}

/// A place in a parse tree: the tree below it.
#[derive(Debug, Clone, Copy)]
pub struct Visitor<'a> {
    source: &'a str,
    tree: &'a ParseTree<'a>,
}

impl<'a> View for Visitor<'a> {
    type V = TreeView;

    closed spec fn view(&self) -> TreeView {
        self.tree@
    }
}

/// The tokens of an operator: its first token, then its followers.
pub open spec fn tokens_of(op: OpView) -> Seq<usize> {
    seq![op.first_token] + op.followers
}

impl<'a> Visitor<'a> {
    /// The source text of the parse, as plain values.
    pub closed spec fn source_text(&self) -> Seq<char> {
        self.source@
    }

    /// The source text of the parse that this node is part of.
    pub fn source(&self) -> (source: &'a str)
        ensures
            source@ == self.source_text(),
    {
        self.source
    }

    /// The name of the operator at this node.
    pub fn name(&self) -> (name: &'a str)
        ensures
            name@ == self@.node.op.name,
    {
        self.tree.node.op.name.as_str()
    }

    /// The fixity of the operator at this node.
    pub fn fixity(&self) -> (fixity: Fixity)
        ensures
            fixity == self@.node.op.fixity,
    {
        self.tree.node.op.fixity
    }

    /// The patterns of the tokens of the operator at this node, its first
    /// token first; none for a token that the parser does not have.
    pub fn op_patterns<'p>(&self, parser: &'p Parser) -> (patterns: Vec<Option<&'p TokenPattern>>)
        ensures
            patterns@.len() == tokens_of(self@.node.op).len(),
            forall|i: int|
                0 <= i < patterns@.len() ==> match #[trigger] patterns@[i] {
                    Some(pattern) => tokens_of(self@.node.op)[i] < parser@.tokens.len()
                        && pattern@ == parser@.tokens[tokens_of(self@.node.op)[i] as int],
                    None => tokens_of(self@.node.op)[i] >= parser@.tokens.len(),
                },
    {
        let known = parser.token_patterns();
        let op = self.tree.node.op;
        let mut patterns: Vec<Option<&'p TokenPattern>> = Vec::new();
        let first = op.first_token;
        if first < known.len() {
            patterns.push(Some(&known[first]));
        } else {
            patterns.push(None);
        }
        let mut j: usize = 0;
        while j < op.followers.len()
            invariant
                j <= op.followers.len(),
                op@ == self@.node.op,
                known@.len() == parser@.tokens.len(),
                forall|i: int| 0 <= i < known@.len() ==> (#[trigger] known@[i])@ == parser@.tokens[i],
                patterns@.len() == j + 1,
                forall|i: int|
                    0 <= i < patterns@.len() ==> match #[trigger] patterns@[i] {
                        Some(pattern) => tokens_of(op@)[i] < parser@.tokens.len() && pattern@
                            == parser@.tokens[tokens_of(op@)[i] as int],
                        None => tokens_of(op@)[i] >= parser@.tokens.len(),
                    },
            decreases op.followers.len() - j,
        {
            let token = op.followers[j];
            assert(tokens_of(op@)[j + 1] == token);
            if token < known.len() {
                patterns.push(Some(&known[token]));
            } else {
                patterns.push(None);
            }
            j = j + 1;
        }
        patterns
    }

    /// The piece of the source that the operator's first token covers: the
    /// byte at which it starts, and the byte behind its end.
    pub fn span(&self) -> (span: (usize, usize))
        ensures
            span == self@.node.span,
    {
        self.tree.node.span
    }

    /// The number of arguments of the operator at this node.
    pub fn arity(&self) -> (arity: usize)
        ensures
            arity == self@.node.op.arity,
    {
        self.tree.node.op.arity
    }

    /// The text of the operator's first token; empty for what the parser
    /// filled in.
    pub fn text(&self) -> (text: &'a str)
        ensures
            text@ == self@.node.text,
    {
        self.tree.node.text
    }

    /// The arguments of this node, from left to right.
    pub fn children(&self) -> (children: VisitorIter<'a>)
        ensures
            children@ == self@.children,
            children.source_text() == self.source_text(),
    {
        let children = VisitorIter { source: self.source, trees: &self.tree.children, next: 0 };
        assert(children@ =~= self@.children);
        children
    }

    /// The two arguments of a node that has two.
    pub fn expect_2_children(&self) -> (children: (Visitor<'a>, Visitor<'a>))
        requires
            self@.children.len() == 2,
        ensures
            children.0@ == self@.children[0],
            children.1@ == self@.children[1],
    {
        let mut children = self.children();
        let child_1 = children.next().unwrap();
        let child_2 = children.next().unwrap();
        (child_1, child_2)
    }

    /// The three arguments of a node that has three.
    pub fn expect_3_children(&self) -> (children: (Visitor<'a>, Visitor<'a>, Visitor<'a>))
        requires
            self@.children.len() == 3,
        ensures
            children.0@ == self@.children[0],
            children.1@ == self@.children[1],
            children.2@ == self@.children[2],
    {
        let mut children = self.children();
        let child_1 = children.next().unwrap();
        let child_2 = children.next().unwrap();
        let child_3 = children.next().unwrap();
        (child_1, child_2, child_3)
    }

    /// The four arguments of a node that has four.
    pub fn expect_4_children(&self) -> (children: (
        Visitor<'a>,
        Visitor<'a>,
        Visitor<'a>,
        Visitor<'a>,
    ))
        requires
            self@.children.len() == 4,
        ensures
            children.0@ == self@.children[0],
            children.1@ == self@.children[1],
            children.2@ == self@.children[2],
            children.3@ == self@.children[3],
    {
        let mut children = self.children();
        let child_1 = children.next().unwrap();
        let child_2 = children.next().unwrap();
        let child_3 = children.next().unwrap();
        let child_4 = children.next().unwrap();
        (child_1, child_2, child_3, child_4)
    }
}

/// A walk over trees that stand side by side, from left to right.
#[derive(Debug, Clone)]
pub struct VisitorIter<'a> {
    source: &'a str,
    trees: &'a Vec<ParseTree<'a>>,
    next: usize,
}

impl<'a> View for VisitorIter<'a> {
    type V = Seq<TreeView>;

    /// The trees that the walk has still to visit.
    closed spec fn view(&self) -> Seq<TreeView> {
        if self.next <= self.trees@.len() {
            tree_views(self.trees@).subrange(self.next as int, self.trees@.len() as int)
        } else {
            Seq::empty()
        }
    }
}

impl<'a> VisitorIter<'a> {
    /// The source text of the parse, as plain values.
    pub closed spec fn source_text(&self) -> Seq<char> {
        self.source@
    }

    /// The next tree of the walk, if any is left.
    pub fn next(&mut self) -> (visitor: Option<Visitor<'a>>)
        ensures
            final(self).source_text() == old(self).source_text(),
            old(self)@.len() == 0 ==> visitor is None && final(self)@ == old(self)@,
            old(self)@.len() > 0 ==> visitor is Some && visitor->0@ == old(self)@[0] && final(self)@
                == old(self)@.subrange(1, old(self)@.len() as int) && visitor->0.source_text()
                == old(self).source_text(),
    {
        if self.next < self.trees.len() {
            let tree = &self.trees[self.next];
            self.next = self.next + 1;
            assert(self@ =~= old(self)@.subrange(1, old(self)@.len() as int));
            Some(Visitor { source: self.source, tree })
        } else {
            None
        }
    }

    /// How many trees the walk has still to visit.
    pub fn len(&self) -> (len: usize)
        ensures
            len == self@.len(),
    {
        if self.next <= self.trees.len() {
            self.trees.len() - self.next
        } else {
            0
        }
    }

    /// The trees that the walk has still to visit, from left to right.
    pub fn collect(&self) -> (visitors: Vec<Visitor<'a>>)
        ensures
            visitors@.len() == self@.len(),
            forall|i: int|
                0 <= i < visitors@.len() ==> (#[trigger] visitors@[i])@ == self@[i]
                    && visitors@[i].source_text() == self.source_text(),
    {
        let mut visitors: Vec<Visitor<'a>> = Vec::new();
        if self.next > self.trees.len() {
            return visitors;
        }
        let mut i: usize = self.next;
        while i < self.trees.len()
            invariant
                self.next <= i,
                i <= self.trees@.len(),
                visitors@.len() == i - self.next,
                forall|k: int|
                    0 <= k < visitors@.len() ==> (#[trigger] visitors@[k])@ == self@[k]
                        && visitors@[k].source_text() == self.source_text(),
            decreases self.trees.len() - i,
        {
            visitors.push(Visitor { source: self.source, tree: &self.trees[i] });
            i = i + 1;
        }
        visitors
    }
}

} // verus!
