//! Building a grammar: the tokens, the operators, and the tables that the
//! parser reads.
use vstd::prelude::*;
use vstd::string::StringExecFns;
use crate::op::{
    arity_of, op_of, prec_allowed, prec_entry, reserved_name, Assoc, Fixity, Op, OpView, Prec,
    PREC_MAX,
};

verus! {

/// The distance between the precedences of two groups. It leaves room for an
/// operator's lowered side between its own group and the next tighter one.
pub const PREC_DELTA: Prec = 10;

/// How a token comes to be in the input.
#[derive(Debug, Clone, Copy, PartialEq, Eq, Structural)]
pub enum PatternKind {
    /// One of the three tokens that exist in every grammar.
    Reserved,
    /// The token of a literal string.
    Constant,
    /// The token of a regular expression.
    Regex,
}

/// What the lexer needs to know of a token, and the name to show for it.
#[derive(Debug, Clone)]
pub struct TokenPattern {
    pub kind: PatternKind,
    pub text: String,
    pub name: String,
}

/// A token pattern as plain values.
pub struct TokenPatternView {
    pub kind: PatternKind,
    pub text: Seq<char>,
    pub name: Seq<char>,
}

impl View for TokenPattern {
    type V = TokenPatternView;

    open spec fn view(&self) -> TokenPatternView {
        TokenPatternView { kind: self.kind, text: self.text@, name: self.name@ }
    }
}

/// How a token is written where a message speaks of it: a literal as it is, a
/// regular expression between slashes, a reserved token by its name.
pub open spec fn described(pattern: TokenPatternView) -> Seq<char> {
    match pattern.kind {
        PatternKind::Reserved => pattern.name,
        PatternKind::Constant => pattern.text,
        PatternKind::Regex => "/"@ + pattern.text + "/"@,
    }
}

impl TokenPattern {
    /// How the token is written where a message speaks of it.
    pub fn describe(&self) -> (text: String)
        ensures
            text@ == described(self@),
    {
        match self.kind {
            PatternKind::Reserved => self.name.clone(),
            PatternKind::Constant => self.text.clone(),
            PatternKind::Regex => {
                let open = String::from_str("/");
                open.concat(self.text.as_str()).concat("/")
            },
        }
    }
}

/// The user's description of an operator: its fixity, the token it begins
/// with, and the tokens that separate its inner arguments.
#[derive(Debug, Clone, PartialEq, Eq)]
pub struct Pattern {
    pub fixity: Fixity,
    pub first_token: String,
    pub followers: Vec<String>,
}

/// A pattern as plain values.
pub struct PatternView {
    pub fixity: Fixity,
    pub first_token: Seq<char>,
    pub followers: Seq<Seq<char>>,
}

impl View for Pattern {
    type V = PatternView;

    open spec fn view(&self) -> PatternView {
        PatternView {
            fixity: self.fixity,
            first_token: self.first_token@,
            followers: Seq::new(self.followers@.len(), |i: int| self.followers@[i]@),
        }
    }
}

/// An error while constructing a grammar.
#[derive(Debug, Clone)]
pub enum GrammarError {
    /// Two operators begin with the same token in the same role.
    DuplicateOp { op_1: String, op_2: String },
    /// The token already stands where no left argument precedes it.
    PrefixyConflict { token: String },
    /// The token already stands where a left argument precedes it.
    SuffixyConflict { token: String },
    /// The lexer cannot be built from a pattern.
    RegexError(String),
    /// An operator was added before any group was begun.
    PrecNotSet,
}

/// A grammar error as plain values.
pub enum GrammarErrorView {
    DuplicateOp { op_1: Seq<char>, op_2: Seq<char> },
    PrefixyConflict { token: Seq<char> },
    SuffixyConflict { token: Seq<char> },
    RegexError(Seq<char>),
    PrecNotSet,
}

impl View for GrammarError {
    type V = GrammarErrorView;

    open spec fn view(&self) -> GrammarErrorView {
        match self {
            GrammarError::DuplicateOp { op_1, op_2 } => GrammarErrorView::DuplicateOp {
                op_1: op_1@,
                op_2: op_2@,
            },
            GrammarError::PrefixyConflict { token } => GrammarErrorView::PrefixyConflict {
                token: token@,
            },
            GrammarError::SuffixyConflict { token } => GrammarErrorView::SuffixyConflict {
                token: token@,
            },
            GrammarError::RegexError(text) => GrammarErrorView::RegexError(text@),
            GrammarError::PrecNotSet => GrammarErrorView::PrecNotSet,
        }
    }
}

/// What a token is bound to in one role: the operator token, and whether an
/// argument is expected after it.
pub type Binding = Option<(usize, bool)>;

/// The tables of a grammar, as plain values.
pub struct GrammarView {
    /// The regular expression of what the lexer skips.
    pub whitespace: Seq<char>,
    /// The tokens, each at its own number.
    pub tokens: Seq<TokenPatternView>,
    /// Token to operator token, where no left argument precedes the token.
    pub prefixy: Seq<Binding>,
    /// Token to operator token, where a left argument precedes the token.
    pub suffixy: Seq<Binding>,
    /// Operator token to left and right precedence.
    pub prec_table: Seq<(Prec, Prec)>,
    /// Operator token to the operator that begins with it; none for a
    /// follower and for unrecognised input.
    pub ops: Seq<Option<OpView>>,
    /// The precedence of the current group; zero before the first group.
    pub current_prec: Prec,
    /// The associativity of the current group.
    pub current_assoc: Assoc,
}

/// The number of the token of a literal: the first token from `from` on that
/// was registered for it, or the number of tokens where there is none.
pub open spec fn constant_from(tokens: Seq<TokenPatternView>, text: Seq<char>, from: int) -> int
    decreases tokens.len() - from,
{
    if from < 0 || from >= tokens.len() {
        tokens.len() as int
    } else if tokens[from].kind == PatternKind::Constant && tokens[from].text == text {
        from
    } else {
        constant_from(tokens, text, from + 1)
    }
}

/// The number of the token of a literal, or the number of tokens where it has
/// none yet: the number that it is given next.
pub open spec fn constant_token(tokens: Seq<TokenPatternView>, text: Seq<char>) -> int {
    constant_from(tokens, text, 0)
}

/// The atom that fills in for an absent argument.
pub open spec fn blank_op() -> OpView {
    op_of("$Blank"@, Fixity::Nilfix, Assoc::Left, 0, 1, Seq::empty())
}

/// The tables that a fresh grammar has: the three reserved tokens, of which
/// unrecognised input and the blank are atoms, and no group.
pub open spec fn fresh_grammar(whitespace: Seq<char>) -> GrammarView {
    GrammarView {
        whitespace,
        tokens: seq![
            TokenPatternView { kind: PatternKind::Reserved, text: Seq::empty(), name: "$Error"@ },
            TokenPatternView { kind: PatternKind::Reserved, text: Seq::empty(), name: "_"@ },
            TokenPatternView { kind: PatternKind::Reserved, text: Seq::empty(), name: "_"@ },
        ],
        prefixy: seq![Some((0usize, false)), Some((1usize, false)), None],
        suffixy: seq![None, None, None],
        prec_table: seq![(0u16, 0u16), (0u16, 0u16), (10u16, 10u16)],
        ops: seq![
            None,
            Some(blank_op()),
            None,
        ],
        current_prec: 0,
        current_assoc: Assoc::Left,
    }
}

/// The precedence on the right of an operator's first token: the operator's
/// own where it has no followers, a wall where it has.
pub open spec fn head_rprec(op: OpView) -> Option<Prec> {
    if op.followers.len() == 0 {
        op.right_prec
    } else {
        Some(PREC_MAX)
    }
}

/// The precedence on the right of the follower at `index` of `count`: the
/// operator's own for the last one, a wall for the others.
pub open spec fn follower_rprec(rprec: Option<Prec>, index: int, count: int) -> Option<Prec> {
    if index == count - 1 {
        rprec
    } else {
        Some(PREC_MAX)
    }
}

impl GrammarView {
    /// Unrecognised input and the blank are what they are in a fresh grammar:
    /// atoms, the first without an operator, the second with the blank.
    pub open spec fn reserved_intact(self) -> bool {
        &&& self.prefixy[0] == Some((0usize, false))
        &&& self.prefixy[1] == Some((1usize, false))
        &&& self.prec_table[0] == (0u16, 0u16)
        &&& self.prec_table[1] == (0u16, 0u16)
        &&& self.ops[0] is None
        &&& self.ops[1] == Some(blank_op())
    }

    /// The tables are of matching lengths that a machine can hold, the first
    /// three tokens are the reserved ones and their entries are intact, every
    /// binding leads to an operator token of the table, and every operator
    /// speaks of tokens that exist.
    pub open spec fn wf(self) -> bool {
        &&& 3 <= self.tokens.len() <= usize::MAX
        &&& self.prec_table.len() <= usize::MAX
        &&& forall|i: int| 0 <= i < 3 ==> (#[trigger] self.tokens[i]).kind == PatternKind::Reserved
        &&& self.reserved_intact()
        &&& self.prefixy.len() == self.tokens.len()
        &&& self.suffixy.len() == self.tokens.len()
        &&& self.prec_table.len() >= 3
        &&& self.ops.len() == self.prec_table.len()
        &&& forall|t: int|
            0 <= t < self.prefixy.len() ==> (#[trigger] self.prefixy[t]) is Some
                ==> (self.prefixy[t]->0).0 < self.prec_table.len()
        &&& forall|t: int|
            0 <= t < self.suffixy.len() ==> (#[trigger] self.suffixy[t]) is Some
                ==> (self.suffixy[t]->0).0 < self.prec_table.len()
        &&& forall|k: int|
            0 <= k < self.ops.len() ==> (#[trigger] self.ops[k]) is Some ==> op_fits(
                self.ops[k]->0,
                self.tokens.len(),
            )
    }

    /// The tables after the literal has a token: unchanged where it had one,
    /// else with a new token at the end that is bound to nothing.
    pub open spec fn with_constant(self, text: Seq<char>) -> GrammarView {
        if constant_token(self.tokens, text) < self.tokens.len() {
            self
        } else {
            GrammarView {
                tokens: self.tokens.push(
                    TokenPatternView { kind: PatternKind::Constant, text, name: text },
                ),
                prefixy: self.prefixy.push(None),
                suffixy: self.suffixy.push(None),
                ..self
            }
        }
    }

    /// The tables after the first `count` of the literals have tokens.
    pub open spec fn with_constants(self, texts: Seq<Seq<char>>, count: int) -> GrammarView
        decreases count,
    {
        if count <= 0 {
            self
        } else {
            self.with_constants(texts, count - 1).with_constant(texts[count - 1])
        }
    }

    /// The tables after a regular expression was given a new token.
    pub open spec fn with_regex(self, text: Seq<char>, name: Seq<char>) -> GrammarView {
        GrammarView {
            tokens: self.tokens.push(TokenPatternView { kind: PatternKind::Regex, text, name }),
            prefixy: self.prefixy.push(None),
            suffixy: self.suffixy.push(None),
            ..self
        }
    }

    /// What the token is bound to in the role that a left precedence, or the
    /// lack of one, chooses.
    pub open spec fn binding(self, token: int, lprec: Option<Prec>) -> Binding {
        if lprec is None {
            self.prefixy[token]
        } else {
            self.suffixy[token]
        }
    }

    /// The tables after a new operator token was bound to `token`: a new entry
    /// at the end of the precedence table and of the operators, and the token
    /// bound to it, without a left argument where `lprec` is absent, else with
    /// one.
    pub open spec fn bind(
        self,
        op: Option<OpView>,
        token: int,
        lprec: Option<Prec>,
        rprec: Option<Prec>,
    ) -> GrammarView {
        let bound = Some((self.prec_table.len() as usize, rprec is Some));
        GrammarView {
            prec_table: self.prec_table.push(prec_entry(lprec, rprec)),
            ops: self.ops.push(op),
            prefixy: if lprec is None {
                self.prefixy.update(token, bound)
            } else {
                self.prefixy
            },
            suffixy: if lprec is None {
                self.suffixy
            } else {
                self.suffixy.update(token, bound)
            },
            ..self
        }
    }

    /// The tables after the first `count` followers were bound, each behind a
    /// wall on its left.
    pub open spec fn bind_followers(
        self,
        followers: Seq<usize>,
        rprec: Option<Prec>,
        count: int,
    ) -> GrammarView
        decreases count,
    {
        if count <= 0 {
            self
        } else {
            self.bind_followers(followers, rprec, count - 1).bind(
                None,
                followers[count - 1] as int,
                Some(PREC_MAX),
                follower_rprec(rprec, count - 1, followers.len() as int),
            )
        }
    }

    /// The tables after an operator was added whose tokens are registered: its
    /// first token bound with the operator's left precedence, then each
    /// follower in turn.
    pub open spec fn with_op(self, op: OpView) -> GrammarView {
        self.bind(Some(op), op.first_token as int, op.left_prec, head_rprec(op)).bind_followers(
            op.followers,
            op.right_prec,
            op.followers.len() as int,
        )
    }

    /// The tables after the invisible operator was installed at the
    /// precedence of the current group, at the operator token that is
    /// reserved for it.
    pub open spec fn with_juxtapose(self, assoc: Assoc) -> GrammarView {
        let op = op_of("$Juxtapose"@, Fixity::Infix, assoc, self.current_prec, 2, Seq::empty());
        GrammarView {
            prec_table: self.prec_table.update(2, prec_entry(op.left_prec, op.right_prec)),
            ops: self.ops.update(2, Some(op)),
            suffixy: self.suffixy.update(2, Some((2usize, true))),
            ..self
        }
    }

    /// Whether the follower at `index` cannot be bound: its token is bound
    /// with a left argument already, or is the first token of the operator in
    /// that role, or is an earlier follower of the operator.
    pub open spec fn follower_clash(self, op: OpView, index: int) -> bool {
        ||| self.suffixy[op.followers[index] as int] is Some
        ||| (op.left_prec is Some && op.followers[index] == op.first_token)
        ||| exists|j: int| 0 <= j < index && op.followers[j] == op.followers[index]
    }

    /// The first follower from `from` on that cannot be bound, or the number
    /// of followers where all can.
    pub open spec fn first_clash(self, op: OpView, from: int) -> int
        decreases op.followers.len() - from,
    {
        if from < 0 || from >= op.followers.len() {
            op.followers.len() as int
        } else if self.follower_clash(op, from) {
            from
        } else {
            self.first_clash(op, from + 1)
        }
    }

    /// The error that stands in the way of adding the operator, if any. Its
    /// first token comes first: where another operator begins with it in the
    /// same role, the two are duplicates; where a follower holds that place,
    /// the token is in conflict. Then the followers, in order.
    pub open spec fn op_error(self, op: OpView) -> Option<GrammarErrorView> {
        let held = self.binding(op.first_token as int, op.left_prec);
        let clash = self.first_clash(op, 0);
        if held is Some {
            if self.ops[(held->0).0 as int] is Some {
                Some(
                    GrammarErrorView::DuplicateOp {
                        op_1: self.ops[(held->0).0 as int]->0.name,
                        op_2: op.name,
                    },
                )
            } else if op.left_prec is None {
                Some(
                    GrammarErrorView::PrefixyConflict {
                        token: self.tokens[op.first_token as int].name,
                    },
                )
            } else {
                Some(
                    GrammarErrorView::SuffixyConflict {
                        token: self.tokens[op.first_token as int].name,
                    },
                )
            }
        } else if clash < op.followers.len() {
            Some(
                GrammarErrorView::SuffixyConflict {
                    token: self.tokens[op.followers[clash] as int].name,
                },
            )
        } else {
            None
        }
    }
}

/// Whether the operator speaks of existing tokens only, and has the sides and
/// the arity that its declaration gives it.
pub open spec fn op_fits(op: OpView, tokens: nat) -> bool {
    &&& op.first_token < tokens
    &&& forall|j: int| 0 <= j < op.followers.len() ==> (#[trigger] op.followers[j]) < tokens
    &&& op.arity == arity_of(op.fixity, op.followers.len())
    &&& op.arity <= usize::MAX
}

/// The tokens of the literals, in order.
pub open spec fn constant_tokens(tokens: Seq<TokenPatternView>, texts: Seq<Seq<char>>) -> Seq<
    usize,
> {
    Seq::new(texts.len(), |i: int| constant_token(tokens, texts[i]) as usize)
}

/// The operator that a pattern declares, once its literals have tokens.
pub open spec fn op_of_pattern(
    tokens: Seq<TokenPatternView>,
    name: Seq<char>,
    assoc: Assoc,
    prec: Prec,
    pattern: PatternView,
) -> OpView {
    op_of(
        name,
        pattern.fixity,
        assoc,
        prec,
        constant_token(tokens, pattern.first_token) as usize,
        constant_tokens(tokens, pattern.followers),
    )
}

/// A grammar for a language. Add operators until the grammar is complete,
/// then call `finish` to get a `Parser`.
#[derive(Debug, Clone)]
pub struct Grammar {
    whitespace: String,
    tokens: Vec<TokenPattern>,
    prefixy_tokens: Vec<Binding>,
    suffixy_tokens: Vec<Binding>,
    prec_table: Vec<(Prec, Prec)>,
    ops: Vec<Option<Op>>,
    current_prec: Prec,
    current_assoc: Assoc,
}

/// A grammar that is complete: the tables that parsing reads.
#[derive(Debug, Clone)]
pub struct Parser {
    grammar: Grammar,
}

/// The operator in an entry of the operators, as plain values.
pub open spec fn op_view_of(op: Option<Op>) -> Option<OpView> {
    match op {
        Some(op) => Some(op@),
        None => None,
    }
}

/// The error of a result, as plain values.
pub open spec fn error_of(result: Result<(), GrammarError>) -> Option<GrammarErrorView> {
    match result {
        Ok(_) => None,
        Err(error) => Some(error@),
    }
}

/// The tables after every literal of the pattern has a token: its first
/// token, then its followers in order.
pub open spec fn interned(before: GrammarView, pattern: PatternView) -> GrammarView {
    before.with_constant(pattern.first_token).with_constants(
        pattern.followers,
        pattern.followers.len() as int,
    )
}

/// What adding an operator does. The literals of the pattern are given
/// tokens. Then either an error stands in the way and nothing else changes,
/// or the operator is added.
pub open spec fn op_added(
    before: GrammarView,
    name: Seq<char>,
    assoc: Assoc,
    prec: Prec,
    pattern: PatternView,
    after: GrammarView,
    error: Option<GrammarErrorView>,
) -> bool {
    let tables = interned(before, pattern);
    let op = op_of_pattern(tables.tokens, name, assoc, prec, pattern);
    &&& error == tables.op_error(op)
    &&& after == if error is None {
        tables.with_op(op)
    } else {
        tables
    }
}

/// What installing the invisible operator does. Before the first group it
/// fails with `PrecNotSet`; where the operator is installed already, its token
/// is in conflict; either way nothing changes. Otherwise it is installed.
pub open spec fn juxtapose_installed(
    before: GrammarView,
    assoc: Assoc,
    after: GrammarView,
    error: Option<GrammarErrorView>,
) -> bool {
    if before.current_prec == 0 {
        error == Some(GrammarErrorView::PrecNotSet) && after == before
    } else if before.suffixy[2] is Some {
        error == Some(GrammarErrorView::SuffixyConflict { token: before.tokens[2].name })
            && after == before
    } else {
        error is None && after == before.with_juxtapose(assoc)
    }
}

/// A token that a literal has keeps it when another token is registered, and
/// a literal without one gets the number of the token registered for it.
pub proof fn lemma_constant_stable(
    tokens: Seq<TokenPatternView>,
    text: Seq<char>,
    added: TokenPatternView,
    from: int,
)
    requires
        0 <= from <= tokens.len(),
    ensures
        constant_from(tokens, text, from) < tokens.len() ==> constant_from(
            tokens.push(added),
            text,
            from,
        ) == constant_from(tokens, text, from),
        constant_from(tokens, text, from) == tokens.len() && added.kind == PatternKind::Constant
            && added.text == text ==> constant_from(tokens.push(added), text, from)
            == tokens.len(),
        constant_from(tokens, text, from) >= from,
        constant_from(tokens, text, from) <= tokens.len(),
    decreases tokens.len() - from,
{
    if from < tokens.len() {
        assert(tokens.push(added)[from] == tokens[from]);
        lemma_constant_stable(tokens, text, added, from + 1);
    }
}

/// Registering a literal leaves every literal that has a token with it, and
/// gives the literal itself the token that was promised.
pub proof fn lemma_with_constant_keeps(tables: GrammarView, text: Seq<char>, other: Seq<char>)
    ensures
        constant_token(tables.with_constant(text).tokens, text) == constant_token(
            tables.tokens,
            text,
        ),
        constant_token(tables.with_constant(text).tokens, text) < tables.with_constant(
            text,
        ).tokens.len(),
        constant_token(tables.tokens, other) < tables.tokens.len() ==> constant_token(
            tables.with_constant(text).tokens,
            other,
        ) == constant_token(tables.tokens, other),
{
    let added = TokenPatternView { kind: PatternKind::Constant, text, name: text };
    lemma_constant_stable(tables.tokens, text, added, 0);
    lemma_constant_stable(tables.tokens, other, added, 0);
}

/// What the lexer said of a pattern that it was asked to recognise: nothing
/// where it accepts the pattern, its message where it rejects it.
pub type LexerAnswer = Result<(), String>;

/// The error that the lexer's answer stands for, if it is a rejection.
pub open spec fn refusal(accepted: LexerAnswer) -> Option<GrammarErrorView> {
    match accepted {
        Ok(_) => None,
        Err(message) => Some(GrammarErrorView::RegexError(message@)),
    }
}

/// What adding an operator does, given the lexer's answer on the literals of
/// its pattern. Where the lexer rejects one, that is the error and nothing
/// changes. Otherwise the operator is added as `op_added` says.
pub open spec fn op_registered(
    before: GrammarView,
    name: Seq<char>,
    assoc: Assoc,
    prec: Prec,
    pattern: PatternView,
    accepted: LexerAnswer,
    after: GrammarView,
    error: Option<GrammarErrorView>,
) -> bool {
    if accepted is Err {
        error == refusal(accepted) && after == before
    } else {
        op_added(before, name, assoc, prec, pattern, after, error)
    }
}

/// The token of a literal is none of the three reserved ones: its number is
/// at least three.
pub proof fn lemma_constant_is_not_reserved(tokens: Seq<TokenPatternView>, text: Seq<char>)
    requires
        tokens.len() >= 3,
        forall|i: int| 0 <= i < 3 ==> (#[trigger] tokens[i]).kind == PatternKind::Reserved,
    ensures
        constant_token(tokens, text) >= 3,
{
    reveal_with_fuel(constant_from, 4);
    assert(tokens[0].kind == PatternKind::Reserved);
    assert(tokens[1].kind == PatternKind::Reserved);
    assert(tokens[2].kind == PatternKind::Reserved);
    lemma_constant_stable(tokens, text, tokens[0], 3);
}

/// A new token that is bound to nothing leaves the tables well formed.
pub proof fn lemma_new_token_keeps_wf(before: GrammarView, added: TokenPatternView)
    requires
        before.wf(),
        before.tokens.len() < usize::MAX,
    ensures
        (GrammarView {
            tokens: before.tokens.push(added),
            prefixy: before.prefixy.push(None),
            suffixy: before.suffixy.push(None),
            ..before
        }).wf(),
{
    let after = GrammarView {
        tokens: before.tokens.push(added),
        prefixy: before.prefixy.push(None),
        suffixy: before.suffixy.push(None),
        ..before
    };
    assert forall|k: int|
        0 <= k < after.ops.len() && (#[trigger] after.ops[k]) is Some implies op_fits(
        after.ops[k]->0,
        after.tokens.len(),
    ) by {
        assert(op_fits(before.ops[k]->0, before.tokens.len()));
    }
    assert forall|t: int|
        0 <= t < after.prefixy.len() && (#[trigger] after.prefixy[t]) is Some implies (after.prefixy[t]->0).0
        < after.prec_table.len() by {
        assert(before.prefixy[t] is Some);
    }
    assert forall|t: int|
        0 <= t < after.suffixy.len() && (#[trigger] after.suffixy[t]) is Some implies (after.suffixy[t]->0).0
        < after.prec_table.len() by {
        assert(before.suffixy[t] is Some);
    }
}

/// Binding a new operator token to a token that is free in that role leaves
/// the tables well formed.
pub proof fn lemma_bind_keeps_wf(
    before: GrammarView,
    op: Option<OpView>,
    token: int,
    lprec: Option<Prec>,
    rprec: Option<Prec>,
)
    requires
        before.wf(),
        before.prec_table.len() < usize::MAX,
        0 <= token < before.tokens.len(),
        before.binding(token, lprec) is None,
        op is Some ==> op_fits(op->0, before.tokens.len()),
    ensures
        before.bind(op, token, lprec, rprec).wf(),
{
    let after = before.bind(op, token, lprec, rprec);
    assert forall|k: int|
        0 <= k < after.ops.len() && (#[trigger] after.ops[k]) is Some implies op_fits(
        after.ops[k]->0,
        after.tokens.len(),
    ) by {
        if k < before.ops.len() {
            assert(after.ops[k] == before.ops[k]);
            assert(op_fits(before.ops[k]->0, before.tokens.len()));
        }
    }
    assert forall|t: int|
        0 <= t < after.prefixy.len() && (#[trigger] after.prefixy[t]) is Some implies (after.prefixy[t]->0).0
        < after.prec_table.len() by {
        if after.prefixy[t] == before.prefixy[t] {
            assert((before.prefixy[t]->0).0 < before.prec_table.len());
        }
    }
    assert forall|t: int|
        0 <= t < after.suffixy.len() && (#[trigger] after.suffixy[t]) is Some implies (after.suffixy[t]->0).0
        < after.prec_table.len() by {
        if after.suffixy[t] == before.suffixy[t] {
            assert((before.suffixy[t]->0).0 < before.prec_table.len());
        }
    }
}

/// Installing the invisible operator in a group leaves the tables well
/// formed.
pub proof fn lemma_juxtapose_keeps_wf(before: GrammarView, assoc: Assoc)
    requires
        before.wf(),
        before.current_prec >= 1,
    ensures
        before.with_juxtapose(assoc).wf(),
{
    let after = before.with_juxtapose(assoc);
    assert forall|k: int|
        0 <= k < after.ops.len() && (#[trigger] after.ops[k]) is Some implies op_fits(
        after.ops[k]->0,
        after.tokens.len(),
    ) by {
        if k != 2 {
            assert(after.ops[k] == before.ops[k]);
            assert(op_fits(before.ops[k]->0, before.tokens.len()));
        }
    }
    assert forall|t: int|
        0 <= t < after.prefixy.len() && (#[trigger] after.prefixy[t]) is Some implies (after.prefixy[t]->0).0
        < after.prec_table.len() by {
        assert((before.prefixy[t]->0).0 < before.prec_table.len());
    }
    assert forall|t: int|
        0 <= t < after.suffixy.len() && (#[trigger] after.suffixy[t]) is Some implies (after.suffixy[t]->0).0
        < after.prec_table.len() by {
        if t != 2 {
            assert((before.suffixy[t]->0).0 < before.prec_table.len());
        }
    }
}

/// A copy of a list of tokens.
fn copy_tokens(tokens: &Vec<usize>) -> (copy: Vec<usize>)
    ensures
        copy@ == tokens@,
{
    let mut copy: Vec<usize> = Vec::new();
    let mut i: usize = 0;
    while i < tokens.len()
        invariant
            i <= tokens.len(),
            copy@ == tokens@.subrange(0, i as int),
        decreases tokens.len() - i,
    {
        copy.push(tokens[i]);
        i = i + 1;
        assert(copy@ =~= tokens@.subrange(0, i as int));
    }
    assert(copy@ =~= tokens@);
    copy
}

impl View for Grammar {
    type V = GrammarView;

    closed spec fn view(&self) -> GrammarView {
        GrammarView {
            whitespace: self.whitespace@,
            tokens: Seq::new(self.tokens@.len(), |i: int| self.tokens@[i]@),
            prefixy: self.prefixy_tokens@,
            suffixy: self.suffixy_tokens@,
            prec_table: self.prec_table@,
            ops: Seq::new(self.ops@.len(), |k: int| op_view_of(self.ops@[k])),
            current_prec: self.current_prec,
            current_assoc: self.current_assoc,
        }
    }
}

impl Grammar {
    /// The regular expression of what Unicode calls pattern white space.
    pub fn unicode_whitespace_regex() -> (regex: &'static str)
        ensures
            regex@ == "[\\t-\\r \\u{85}\\u{200E}\\u{200F}\\u{2028}\\u{2029}]*"@,
    {
        "[\\t-\\r \\u{85}\\u{200E}\\u{200F}\\u{2028}\\u{2029}]*"
    }

    /// An empty grammar, whose lexer skips what Unicode calls pattern white
    /// space. `accepted` is the lexer's answer on `unicode_whitespace_regex`.
    /// Fails with `RegexError` where the lexer rejects it.
    pub fn new_with_unicode_whitespace(accepted: LexerAnswer) -> (result: Result<
        Grammar,
        GrammarError,
    >)
        ensures
            accepted is Err ==> result is Err && Some(result->Err_0@) == refusal(accepted),
            accepted is Ok ==> result is Ok && result->Ok_0@.wf() && result->Ok_0@
                == fresh_grammar(
                "[\\t-\\r \\u{85}\\u{200E}\\u{200F}\\u{2028}\\u{2029}]*"@,
            ),
    {
        Grammar::new(Grammar::unicode_whitespace_regex(), accepted)
    }

    /// An empty grammar. `whitespace_regex` is the regular expression of what
    /// the lexer skips between tokens, and `accepted` is the lexer's answer on
    /// it. Fails with `RegexError` where the lexer rejects the expression.
    pub fn new(whitespace_regex: &str, accepted: LexerAnswer) -> (result: Result<
        Grammar,
        GrammarError,
    >)
        ensures
            accepted is Err ==> result is Err && Some(result->Err_0@) == refusal(accepted),
            accepted is Ok ==> result is Ok && result->Ok_0@.wf() && result->Ok_0@
                == fresh_grammar(whitespace_regex@),
    {
        match accepted {
            Err(message) => {
                return Err(GrammarError::RegexError(message));
            },
            Ok(_) => {},
        }
        let mut tokens: Vec<TokenPattern> = Vec::new();
        tokens.push(
            TokenPattern {
                kind: PatternKind::Reserved,
                text: String::new(),
                name: String::from_str("$Error"),
            },
        );
        tokens.push(
            TokenPattern {
                kind: PatternKind::Reserved,
                text: String::new(),
                name: String::from_str("_"),
            },
        );
        tokens.push(
            TokenPattern {
                kind: PatternKind::Reserved,
                text: String::new(),
                name: String::from_str("_"),
            },
        );
        let mut prefixy_tokens: Vec<Binding> = Vec::new();
        prefixy_tokens.push(Some((crate::TOKEN_ERROR, false)));
        prefixy_tokens.push(Some((crate::TOKEN_BLANK, false)));
        prefixy_tokens.push(None);
        let mut suffixy_tokens: Vec<Binding> = Vec::new();
        suffixy_tokens.push(None);
        suffixy_tokens.push(None);
        suffixy_tokens.push(None);
        let mut prec_table: Vec<(Prec, Prec)> = Vec::new();
        prec_table.push((0, 0));
        prec_table.push((0, 0));
        prec_table.push((10, 10));
        let mut ops: Vec<Option<Op>> = Vec::new();
        ops.push(None);
        ops.push(Some(Op::new_blank(crate::TOKEN_BLANK)));
        ops.push(None);
        let grammar = Grammar {
            whitespace: whitespace_regex.to_owned(),
            tokens,
            prefixy_tokens,
            suffixy_tokens,
            prec_table,
            ops,
            current_prec: 0,
            current_assoc: Assoc::Left,
        };
        proof {
            let fresh = fresh_grammar(whitespace_regex@);
            assert(grammar@.tokens =~= fresh.tokens);
            assert(grammar@.prefixy =~= fresh.prefixy);
            assert(grammar@.suffixy =~= fresh.suffixy);
            assert(grammar@.prec_table =~= fresh.prec_table);
            assert(grammar@.ops =~= fresh.ops);
            assert(op_fits(fresh.ops[1]->0, 3));
        }
        Ok(grammar)
    }

    /// Begin a new group of operators. They bind looser than those of all the
    /// groups so far, and its infix operators are left associative.
    pub fn lgroup(&mut self)
        requires
            old(self)@.current_prec <= PREC_MAX - PREC_DELTA,
        ensures
            final(self)@ == (GrammarView {
                current_prec: (old(self)@.current_prec + PREC_DELTA) as Prec,
                current_assoc: Assoc::Left,
                ..old(self)@
            }),
            old(self)@.wf() ==> final(self)@.wf(),
    {
        self.current_prec = self.current_prec + PREC_DELTA;
        self.current_assoc = Assoc::Left;
    }

    /// Begin a new group of operators. They bind looser than those of all the
    /// groups so far, and its infix operators are right associative.
    pub fn rgroup(&mut self)
        requires
            old(self)@.current_prec <= PREC_MAX - PREC_DELTA,
        ensures
            final(self)@ == (GrammarView {
                current_prec: (old(self)@.current_prec + PREC_DELTA) as Prec,
                current_assoc: Assoc::Right,
                ..old(self)@
            }),
            old(self)@.wf() ==> final(self)@.wf(),
    {
        self.current_prec = self.current_prec + PREC_DELTA;
        self.current_assoc = Assoc::Right;
    }

    /// The precedence and associativity of the current group, or an error
    /// where no group was begun.
    pub fn get_prec_and_assoc(&self) -> (result: Result<(Prec, Assoc), GrammarError>)
        ensures
            self@.current_prec > 0 ==> result == Ok::<(Prec, Assoc), GrammarError>(
                (self@.current_prec, self@.current_assoc),
            ),
            self@.current_prec == 0 ==> result is Err && result->Err_0@
                == GrammarErrorView::PrecNotSet,
    {
        if self.current_prec > 0 {
            Ok((self.current_prec, self.current_assoc))
        } else {
            Err(GrammarError::PrecNotSet)
        }
    }

    /// The token of a literal. `accepted` is the lexer's answer on the
    /// literal: where it rejects it, that is the error and nothing changes.
    /// Otherwise a literal that was registered before keeps its token, and a
    /// new one gets the next number, which is none of the reserved ones.
    pub fn add_string_token(&mut self, string: &str, accepted: LexerAnswer) -> (result: Result<
        usize,
        GrammarError,
    >)
        requires
            old(self)@.wf(),
        ensures
            final(self)@.wf(),
            accepted is Err ==> {
                &&& result is Err
                &&& Some(result->Err_0@) == refusal(accepted)
                &&& final(self)@ == old(self)@
            },
            accepted is Ok ==> {
                &&& result is Ok
                &&& final(self)@ == old(self)@.with_constant(string@)
                &&& result->Ok_0 == constant_token(old(self)@.tokens, string@)
                &&& result->Ok_0 == constant_token(final(self)@.tokens, string@)
                &&& 3 <= result->Ok_0 < final(self)@.tokens.len()
            },
    {
        match accepted {
            Err(message) => Err(GrammarError::RegexError(message)),
            Ok(_) => Ok(self.intern_constant(string)),
        }
    }

    /// A new token for a regular expression, shown to the user as `name`.
    /// `accepted` is the lexer's answer on the expression: where it rejects
    /// it, that is the error and nothing changes.
    pub fn add_regex_token(
        &mut self,
        regex_pattern: &str,
        name: &str,
        accepted: LexerAnswer,
    ) -> (result: Result<usize, GrammarError>)
        requires
            old(self)@.wf(),
        ensures
            final(self)@.wf(),
            accepted is Err ==> {
                &&& result is Err
                &&& Some(result->Err_0@) == refusal(accepted)
                &&& final(self)@ == old(self)@
            },
            accepted is Ok ==> {
                &&& result is Ok
                &&& final(self)@ == old(self)@.with_regex(regex_pattern@, name@)
                &&& result->Ok_0 == old(self)@.tokens.len()
                &&& result->Ok_0 >= 3
            },
    {
        match accepted {
            Err(message) => Err(GrammarError::RegexError(message)),
            Ok(_) => Ok(self.intern_regex(regex_pattern, name)),
        }
    }

    /// The token of a literal. A literal that was registered before keeps its
    /// token; a new one gets the next number.
    fn intern_constant(&mut self, string: &str) -> (token: usize)
        requires
            old(self)@.wf(),
        ensures
            final(self)@.wf(),
            final(self)@ == old(self)@.with_constant(string@),
            token == constant_token(old(self)@.tokens, string@),
            token == constant_token(final(self)@.tokens, string@),
            3 <= token < final(self)@.tokens.len(),
    {
        let wanted = string.to_owned();
        let mut i: usize = 0;
        proof {
            lemma_with_constant_keeps(self@, string@, string@);
            lemma_constant_is_not_reserved(self@.tokens, string@);
        }
        while i < self.tokens.len()
            invariant
                i <= self.tokens.len(),
                *self == *old(self),
                old(self)@.wf(),
                wanted@ == string@,
                constant_token(self@.tokens, string@) == constant_from(
                    self@.tokens,
                    string@,
                    i as int,
                ),
            decreases self.tokens.len() - i,
        {
            let found = match self.tokens[i].kind {
                PatternKind::Constant => self.tokens[i].text == wanted,
                _ => false,
            };
            if found {
                return i;
            }
            i = i + 1;
        }
        self.tokens.push(
            TokenPattern { kind: PatternKind::Constant, text: wanted, name: string.to_owned() },
        );
        self.prefixy_tokens.push(None);
        self.suffixy_tokens.push(None);
        let count = self.tokens.len();
        proof {
            let after = old(self)@.with_constant(string@);
            assert(self@.tokens =~= after.tokens);
            assert(self@.prefixy =~= after.prefixy);
            assert(self@.suffixy =~= after.suffixy);
            assert(self@.ops =~= after.ops);
            lemma_new_token_keeps_wf(old(self)@, after.tokens.last());
        }
        i
    }

    /// A new token for a regular expression, shown to the user as `name`.
    fn intern_regex(&mut self, regex_pattern: &str, name: &str) -> (token: usize)
        requires
            old(self)@.wf(),
        ensures
            final(self)@.wf(),
            final(self)@ == old(self)@.with_regex(regex_pattern@, name@),
            token == old(self)@.tokens.len(),
    {
        let token = self.tokens.len();
        self.tokens.push(
            TokenPattern {
                kind: PatternKind::Regex,
                text: regex_pattern.to_owned(),
                name: name.to_owned(),
            },
        );
        self.prefixy_tokens.push(None);
        self.suffixy_tokens.push(None);
        let count = self.tokens.len();
        proof {
            let after = old(self)@.with_regex(regex_pattern@, name@);
            assert(self@.tokens =~= after.tokens);
            assert(self@.prefixy =~= after.prefixy);
            assert(self@.suffixy =~= after.suffixy);
            assert(self@.ops =~= after.ops);
            lemma_new_token_keeps_wf(old(self)@, after.tokens.last());
        }
        token
    }

    /// Bind a new operator token to `token`: without a left argument where
    /// `lprec` is absent, else with one. Fails, and changes nothing, where the
    /// token is bound in that role already.
    pub fn add_op_token(
        &mut self,
        op: Option<Op>,
        token: usize,
        lprec: Option<Prec>,
        rprec: Option<Prec>,
    ) -> (result: Result<usize, GrammarError>)
        requires
            old(self)@.wf(),
            token < old(self)@.tokens.len(),
            op is Some ==> op_fits(op->0@, old(self)@.tokens.len()),
        ensures
            final(self)@.wf(),
            match result {
                Ok(op_token) => {
                    &&& old(self)@.binding(token as int, lprec) is None
                    &&& op_token == old(self)@.prec_table.len()
                    &&& final(self)@ == old(self)@.bind(op_view_of(op), token as int, lprec, rprec)
                },
                Err(error) => {
                    &&& old(self)@.binding(token as int, lprec) is Some
                    &&& final(self)@ == old(self)@
                    &&& error@ == if lprec is None {
                        GrammarErrorView::PrefixyConflict {
                            token: old(self)@.tokens[token as int].name,
                        }
                    } else {
                        GrammarErrorView::SuffixyConflict {
                            token: old(self)@.tokens[token as int].name,
                        }
                    }
                },
            },
    {
        let op_token = self.prec_table.len();
        let has_right = rprec.is_some();
        let entry = (
            match lprec {
                Some(p) => p,
                None => 0,
            },
            match rprec {
                Some(p) => p,
                None => 0,
            },
        );
        if lprec.is_none() {
            if self.prefixy_tokens[token].is_some() {
                return Err(
                    GrammarError::PrefixyConflict { token: self.tokens[token].name.clone() },
                );
            }
            self.prefixy_tokens.set(token, Some((op_token, has_right)));
        } else {
            if self.suffixy_tokens[token].is_some() {
                return Err(
                    GrammarError::SuffixyConflict { token: self.tokens[token].name.clone() },
                );
            }
            self.suffixy_tokens.set(token, Some((op_token, has_right)));
        }
        self.ops.push(op);
        self.prec_table.push(entry);
        let count = self.prec_table.len();
        proof {
            let after = old(self)@.bind(op_view_of(op), token as int, lprec, rprec);
            assert(self@.tokens =~= after.tokens);
            assert(self@.prefixy =~= after.prefixy);
            assert(self@.suffixy =~= after.suffixy);
            assert(self@.prec_table =~= after.prec_table);
            assert(self@.ops =~= after.ops);
            lemma_bind_keeps_wf(old(self)@, op_view_of(op), token as int, lprec, rprec);
        }
        Ok(op_token)
    }

    /// Add an operator to the tables exactly as declared. Its literals are
    /// registered, then all its tokens are checked, and only where none is in
    /// the way are they bound.
    fn add_op(&mut self, name: &str, assoc: Assoc, prec: Prec, pattern: Pattern) -> (result: Result<
        (),
        GrammarError,
    >)
        requires
            old(self)@.wf(),
            prec_allowed(pattern.fixity, prec),
            pattern.followers@.len() + 2 <= usize::MAX,
        ensures
            final(self)@.wf(),
            op_added(old(self)@, name@, assoc, prec, pattern@, final(self)@, error_of(result)),
    {
        let head = self.intern_constant(pattern.first_token.as_str());
        let ghost headed = self@;
        let count = pattern.followers.len();
        let mut followers: Vec<usize> = Vec::new();
        let mut i: usize = 0;
        while i < count
            invariant
                i <= count,
                count == pattern.followers@.len(),
                self@.wf(),
                self@ == headed.with_constants(pattern@.followers, i as int),
                head == constant_token(self@.tokens, pattern@.first_token),
                head < self@.tokens.len(),
                followers@.len() == i,
                forall|j: int|
                    0 <= j < i ==> (#[trigger] followers@[j]) == constant_token(
                        self@.tokens,
                        pattern@.followers[j],
                    ) && followers@[j] < self@.tokens.len(),
            decreases count - i,
        {
            let ghost before = self@;
            let ghost registered = followers@;
            let token = self.intern_constant(pattern.followers[i].as_str());
            proof {
                lemma_with_constant_keeps(
                    before,
                    pattern@.followers[i as int],
                    pattern@.first_token,
                );
                assert forall|j: int| 0 <= j < i implies (#[trigger] registered[j])
                    == constant_token(self@.tokens, pattern@.followers[j]) && registered[j]
                    < self@.tokens.len() by {
                    lemma_with_constant_keeps(
                        before,
                        pattern@.followers[i as int],
                        pattern@.followers[j],
                    );
                }
            }
            followers.push(token);
            i = i + 1;
        }
        let ghost tables = self@;
        assert(followers@ =~= constant_tokens(tables.tokens, pattern@.followers));
        let follower_tokens = copy_tokens(&followers);
        let op = Op::new_unchecked(name, pattern.fixity, assoc, prec, head, followers);
        let ghost declared = op@;
        assert(declared == op_of_pattern(tables.tokens, name@, assoc, prec, pattern@));
        let lprec = op.left_prec;
        let rprec = op.right_prec;
        let held = if lprec.is_none() {
            self.prefixy_tokens[head]
        } else {
            self.suffixy_tokens[head]
        };
        match held {
            Some((op_token, _)) => {
                match &self.ops[op_token] {
                    Some(first) => {
                        return Err(
                            GrammarError::DuplicateOp {
                                op_1: first.name.clone(),
                                op_2: name.to_owned(),
                            },
                        );
                    },
                    None => {
                        let token = self.tokens[head].name.clone();
                        if lprec.is_none() {
                            return Err(GrammarError::PrefixyConflict { token });
                        } else {
                            return Err(GrammarError::SuffixyConflict { token });
                        }
                    },
                }
            },
            None => {},
        }
        let mut i: usize = 0;
        while i < count
            invariant
                i <= count,
                count == follower_tokens@.len(),
                follower_tokens@ == declared.followers,
                declared.first_token == head,
                declared.left_prec == lprec,
                self@ == tables,
                tables.wf(),
                tables == interned(old(self)@, pattern@),
                declared == op_of_pattern(tables.tokens, name@, assoc, prec, pattern@),
                tables.binding(head as int, lprec) is None,
                head < tables.tokens.len(),
                forall|j: int|
                    0 <= j < count ==> (#[trigger] follower_tokens@[j]) < tables.tokens.len(),
                tables.first_clash(declared, 0) == tables.first_clash(declared, i as int),
                forall|k: int| 0 <= k < i ==> !tables.follower_clash(declared, k),
            decreases count - i,
        {
            let token = follower_tokens[i];
            let mut clash = self.suffixy_tokens[token].is_some() || (lprec.is_some() && token
                == head);
            let mut j: usize = 0;
            while j < i
                invariant
                    j <= i,
                    i < count,
                    count == follower_tokens@.len(),
                    token == follower_tokens@[i as int],
                    token < tables.suffixy.len(),
                    clash == (tables.suffixy[token as int] is Some || (lprec is Some && token
                        == head) || exists|k: int|
                        0 <= k < j && follower_tokens@[k] == follower_tokens@[i as int]),
                decreases i - j,
            {
                if follower_tokens[j] == token {
                    clash = true;
                }
                j = j + 1;
            }
            assert(clash == tables.follower_clash(declared, i as int));
            if clash {
                assert(tables.first_clash(declared, i as int) == i);
                return Err(
                    GrammarError::SuffixyConflict { token: self.tokens[token].name.clone() },
                );
            }
            i = i + 1;
        }
        let second = if count == 0 {
            rprec
        } else {
            Some(PREC_MAX)
        };
        match self.add_op_token(Some(op), head, lprec, second) {
            Ok(_) => {},
            Err(error) => {
                return Err(error);
            },
        }
        let ghost bound = self@;
        let mut i: usize = 0;
        while i < count
            invariant
                i <= count,
                count == follower_tokens@.len(),
                follower_tokens@ == declared.followers,
                declared.first_token == head,
                declared.left_prec == lprec,
                declared.right_prec == rprec,
                tables.wf(),
                self@.wf(),
                self@.tokens == tables.tokens,
                head < tables.tokens.len(),
                forall|j: int|
                    0 <= j < count ==> (#[trigger] follower_tokens@[j]) < tables.tokens.len(),
                forall|k: int| 0 <= k < count ==> !tables.follower_clash(declared, k),
                self@ == bound.bind_followers(declared.followers, rprec, i as int),
                forall|t: int|
                    0 <= t < self@.suffixy.len() && (#[trigger] self@.suffixy[t]) is Some ==> {
                        ||| tables.suffixy[t] is Some
                        ||| (lprec is Some && t == head)
                        ||| exists|j: int| 0 <= j < i && follower_tokens@[j] == t
                    },
            decreases count - i,
        {
            let token = follower_tokens[i];
            let right = if i == count - 1 {
                rprec
            } else {
                Some(PREC_MAX)
            };
            assert(!tables.follower_clash(declared, i as int));
            let ghost before = self@;
            match self.add_op_token(None, token, Some(PREC_MAX), right) {
                Ok(_) => {},
                Err(error) => {
                    return Err(error);
                },
            }
            proof {
                assert forall|t: int|
                    0 <= t < self@.suffixy.len() && (#[trigger] self@.suffixy[t]) is Some implies {
                    ||| tables.suffixy[t] is Some
                    ||| (lprec is Some && t == head)
                    ||| exists|j: int| 0 <= j < i + 1 && follower_tokens@[j] == t
                } by {
                    if t == token {
                        assert(follower_tokens@[i as int] == t);
                    } else {
                        assert(self@.suffixy[t] == before.suffixy[t]);
                        if !(tables.suffixy[t] is Some) && !(lprec is Some && t == head) {
                            let j = choose|j: int| 0 <= j < i && follower_tokens@[j] == t;
                            assert(0 <= j < i + 1 && follower_tokens@[j] == t);
                        }
                    }
                }
            }
            i = i + 1;
        }
        Ok(())
    }

    /// Extend the grammar with an operator of the current group: where the
    /// pattern's first token is found, it is read as an operator with the
    /// pattern's fixity and followers. An atom needs no group. `accepted` is
    /// the lexer's answer on the literals of the pattern.
    ///
    /// Fails with `PrecNotSet` where an operator that takes arguments comes
    /// before the first group, else with `RegexError` where the lexer rejects
    /// a literal; either way nothing changes.
    pub fn op(&mut self, name: &str, pattern: Pattern, accepted: LexerAnswer) -> (result: Result<
        (),
        GrammarError,
    >)
        requires
            old(self)@.wf(),
            !reserved_name(name@),
            pattern.followers@.len() + 2 <= usize::MAX,
        ensures
            final(self)@.wf(),
            pattern.fixity == Fixity::Nilfix ==> op_registered(
                old(self)@,
                name@,
                Assoc::Left,
                0,
                pattern@,
                accepted,
                final(self)@,
                error_of(result),
            ),
            pattern.fixity != Fixity::Nilfix && old(self)@.current_prec == 0 ==> {
                &&& error_of(result) == Some(GrammarErrorView::PrecNotSet)
                &&& final(self)@ == old(self)@
            },
            pattern.fixity != Fixity::Nilfix && old(self)@.current_prec > 0 ==> op_registered(
                old(self)@,
                name@,
                old(self)@.current_assoc,
                old(self)@.current_prec,
                pattern@,
                accepted,
                final(self)@,
                error_of(result),
            ),
    {
        match pattern.fixity {
            Fixity::Nilfix => self.register_op(name, Assoc::Left, 0, pattern, accepted),
            _ => {
                match self.get_prec_and_assoc() {
                    Ok((prec, assoc)) => self.register_op(name, assoc, prec, pattern, accepted),
                    Err(error) => Err(error),
                }
            },
        }
    }

    /// Add an operator to the tables, unless the lexer rejects a literal of
    /// its pattern.
    fn register_op(
        &mut self,
        name: &str,
        assoc: Assoc,
        prec: Prec,
        pattern: Pattern,
        accepted: LexerAnswer,
    ) -> (result: Result<(), GrammarError>)
        requires
            old(self)@.wf(),
            prec_allowed(pattern.fixity, prec),
            pattern.followers@.len() + 2 <= usize::MAX,
        ensures
            final(self)@.wf(),
            op_registered(
                old(self)@,
                name@,
                assoc,
                prec,
                pattern@,
                accepted,
                final(self)@,
                error_of(result),
            ),
    {
        match accepted {
            Err(message) => Err(GrammarError::RegexError(message)),
            Ok(_) => self.add_op(name, assoc, prec, pattern),
        }
    }

    /// Add an operator to the tables exactly as specified, whatever the
    /// current group is. `accepted` is the lexer's answer on the literals of
    /// the pattern: where it rejects one, that is the error and nothing
    /// changes.
    pub fn add_raw_op(
        &mut self,
        name: &str,
        assoc: Assoc,
        prec: Prec,
        pattern: Pattern,
        accepted: LexerAnswer,
    ) -> (result: Result<(), GrammarError>)
        requires
            old(self)@.wf(),
            !reserved_name(name@),
            prec_allowed(pattern.fixity, prec),
            pattern.followers@.len() + 2 <= usize::MAX,
        ensures
            final(self)@.wf(),
            op_registered(
                old(self)@,
                name@,
                assoc,
                prec,
                pattern@,
                accepted,
                final(self)@,
                error_of(result),
            ),
    {
        self.register_op(name, assoc, prec, pattern, accepted)
    }

    /// Extend the grammar with an atom: where `string_pattern` is found
    /// exactly, it is read as an operator that takes no arguments. `accepted`
    /// is the lexer's answer on the literal: where it rejects it, that is the
    /// error and nothing changes.
    pub fn string(&mut self, name: &str, string_pattern: &str, accepted: LexerAnswer) -> (result:
        Result<(), GrammarError>)
        requires
            old(self)@.wf(),
        ensures
            final(self)@.wf(),
            op_registered(
                old(self)@,
                name@,
                Assoc::Left,
                0,
                (PatternView {
                    fixity: Fixity::Nilfix,
                    first_token: string_pattern@,
                    followers: Seq::empty(),
                }),
                accepted,
                final(self)@,
                error_of(result),
            ),
    {
        let pattern = Pattern {
            fixity: Fixity::Nilfix,
            first_token: string_pattern.to_owned(),
            followers: Vec::new(),
        };
        assert(pattern@.followers =~= Seq::empty());
        self.register_op(name, Assoc::Left, 0, pattern, accepted)
    }

    /// Extend the grammar with an atom: where `regex_pattern` matches, the
    /// match is read as an operator that takes no arguments. `accepted` is
    /// the lexer's answer on the expression: where it rejects it, that is the
    /// error and nothing changes. Otherwise the expression gets a token of
    /// its own, so that nothing stands in the way.
    pub fn regex(&mut self, name: &str, regex_pattern: &str, accepted: LexerAnswer) -> (result:
        Result<(), GrammarError>)
        requires
            old(self)@.wf(),
        ensures
            final(self)@.wf(),
            accepted is Err ==> error_of(result) == refusal(accepted) && final(self)@ == old(
                self,
            )@,
            accepted is Ok ==> result is Ok && final(self)@ == old(self)@.with_regex(
                regex_pattern@,
                name@,
            ).bind(
                Some(
                    op_of(
                        name@,
                        Fixity::Nilfix,
                        Assoc::Left,
                        0,
                        old(self)@.tokens.len() as usize,
                        Seq::empty(),
                    ),
                ),
                old(self)@.tokens.len() as int,
                None,
                None,
            ),
    {
        match accepted {
            Err(message) => {
                return Err(GrammarError::RegexError(message));
            },
            Ok(_) => {},
        }
        let token = self.intern_regex(regex_pattern, name);
        let op = Op::new_atom(name, token);
        match self.add_op_token(Some(op), token, None, None) {
            Ok(_) => Ok(()),
            Err(error) => Err(error),
        }
    }

    /// Install the invisible operator that is read between two arguments with
    /// no operator between them, with the given associativity and at the
    /// precedence of the current group.
    fn install_juxtapose(&mut self, assoc: Assoc) -> (result: Result<(), GrammarError>)
        requires
            old(self)@.wf(),
        ensures
            final(self)@.wf(),
            juxtapose_installed(old(self)@, assoc, final(self)@, error_of(result)),
    {
        let prec = match self.get_prec_and_assoc() {
            Ok((prec, _)) => prec,
            Err(error) => {
                return Err(error);
            },
        };
        if self.suffixy_tokens[crate::TOKEN_JUXTAPOSE].is_some() {
            return Err(
                GrammarError::SuffixyConflict {
                    token: self.tokens[crate::TOKEN_JUXTAPOSE].name.clone(),
                },
            );
        }
        let op = Op::new_juxtapose(assoc, prec, crate::TOKEN_JUXTAPOSE);
        let entry = (
            match op.left_prec {
                Some(p) => p,
                None => 0,
            },
            match op.right_prec {
                Some(p) => p,
                None => 0,
            },
        );
        let ghost installed = op@;
        self.prec_table.set(crate::TOKEN_JUXTAPOSE, entry);
        self.ops.set(crate::TOKEN_JUXTAPOSE, Some(op));
        self.suffixy_tokens.set(crate::TOKEN_JUXTAPOSE, Some((crate::TOKEN_JUXTAPOSE, true)));
        proof {
            let after = old(self)@.with_juxtapose(assoc);
            assert(self@.tokens =~= after.tokens);
            assert(self@.prefixy =~= after.prefixy);
            assert(self@.suffixy =~= after.suffixy);
            assert(self@.prec_table =~= after.prec_table);
            assert(self@.ops =~= after.ops);
            lemma_juxtapose_keeps_wf(old(self)@, assoc);
        }
        Ok(())
    }

    /// Install the invisible operator that is read between two arguments with
    /// no operator between them, in the current group. Without it, two
    /// arguments in a row are an error of the input.
    pub fn juxtapose(&mut self) -> (result: Result<(), GrammarError>)
        requires
            old(self)@.wf(),
        ensures
            final(self)@.wf(),
            juxtapose_installed(
                old(self)@,
                old(self)@.current_assoc,
                final(self)@,
                error_of(result),
            ),
    {
        let assoc = self.current_assoc;
        self.install_juxtapose(assoc)
    }

    /// As `juxtapose`, but right associative whatever the current group is.
    pub fn juxtapose_right_assoc(&mut self) -> (result: Result<(), GrammarError>)
        requires
            old(self)@.wf(),
        ensures
            final(self)@.wf(),
            juxtapose_installed(old(self)@, Assoc::Right, final(self)@, error_of(result)),
    {
        self.install_juxtapose(Assoc::Right)
    }

    /// Freeze the grammar into a parser.
    pub fn finish(self) -> (parser: Parser)
        requires
            self@.wf(),
        ensures
            parser@ == self@,
            parser@.wf(),
    {
        Parser { grammar: self }
    }
}

impl View for Parser {
    type V = GrammarView;

    closed spec fn view(&self) -> GrammarView {
        self.grammar@
    }
}

impl Parser {
    /// The tokens that a lexer for this grammar has to recognise, each at the
    /// index that is its number. The first three are reserved and match
    /// nothing.
    pub fn token_patterns(&self) -> (patterns: &Vec<TokenPattern>)
        ensures
            patterns@.len() == self@.tokens.len(),
            forall|i: int| 0 <= i < patterns@.len() ==> (#[trigger] patterns@[i])@ == self@.tokens[i],
    {
        &self.grammar.tokens
    }

    /// The regular expression of what a lexer for this grammar skips.
    pub fn whitespace(&self) -> (regex: &String)
        ensures
            regex@ == self@.whitespace,
    {
        &self.grammar.whitespace
    }

    /// The left and right precedence of each operator token.
    pub fn prec_table(&self) -> (table: &Vec<(Prec, Prec)>)
        ensures
            table@ == self@.prec_table,
    {
        &self.grammar.prec_table
    }

    /// What each token is bound to where no left argument precedes it.
    pub fn prefixy_tokens(&self) -> (bindings: &Vec<Binding>)
        ensures
            bindings@ == self@.prefixy,
    {
        &self.grammar.prefixy_tokens
    }

    /// What each token is bound to where a left argument precedes it.
    pub fn suffixy_tokens(&self) -> (bindings: &Vec<Binding>)
        ensures
            bindings@ == self@.suffixy,
    {
        &self.grammar.suffixy_tokens
    }

    /// The operator that begins with each operator token.
    pub fn ops(&self) -> (ops: &Vec<Option<Op>>)
        ensures
            ops@.len() == self@.ops.len(),
            forall|k: int| 0 <= k < ops@.len() ==> op_view_of(#[trigger] ops@[k]) == self@.ops[k],
    {
        &self.grammar.ops
    }
}

} // verus!
