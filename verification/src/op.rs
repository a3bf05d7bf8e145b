//! Operators and the derivation of their left and right precedences.
use vstd::prelude::*;

verus! {

/// Precedence level. Smaller binds tighter.
pub type Prec = u16;

/// The precedence of a wall: nothing can be pushed past it.
pub const PREC_MAX: Prec = 65535;

/// Whether an operator takes an argument on its left, on its right, on both
/// sides, or on neither.
#[derive(Debug, Clone, Copy, PartialEq, Eq, Structural, Hash)]
pub enum Fixity {
    Nilfix,
    Prefix,
    Suffix,
    Infix,
}

/// On which side an operator absorbs operators of its own precedence.
#[derive(Debug, Clone, Copy, PartialEq, Eq, Structural, Hash)]
pub enum Assoc {
    Left,
    Right,
}

/// The word for a fixity.
pub open spec fn fixity_name(fixity: Fixity) -> Seq<char> {
    match fixity {
        Fixity::Nilfix => "nilfix"@,
        Fixity::Prefix => "prefix"@,
        Fixity::Suffix => "suffix"@,
        Fixity::Infix => "infix"@,
    }
}

/// The word for an associativity.
pub open spec fn assoc_name(assoc: Assoc) -> Seq<char> {
    match assoc {
        Assoc::Left => "left"@,
        Assoc::Right => "right"@,
    }
}

impl Fixity {
    /// The word for this fixity.
    pub fn name(&self) -> (name: &'static str)
        ensures
            name@ == fixity_name(*self),
    {
        match self {
            Fixity::Nilfix => "nilfix",
            Fixity::Prefix => "prefix",
            Fixity::Suffix => "suffix",
            Fixity::Infix => "infix",
        }
    }
}

impl Assoc {
    /// The word for this associativity.
    pub fn name(&self) -> (name: &'static str)
        ensures
            name@ == assoc_name(*self),
    {
        match self {
            Assoc::Left => "left",
            Assoc::Right => "right",
        }
    }
}

/// Whether an operator of this fixity takes an argument on its left.
pub open spec fn has_left_arg(fixity: Fixity) -> bool {
    fixity == Fixity::Suffix || fixity == Fixity::Infix
}

/// Whether an operator of this fixity takes an argument on its right.
pub open spec fn has_right_arg(fixity: Fixity) -> bool {
    fixity == Fixity::Prefix || fixity == Fixity::Infix
}

/// The precedence with which an operator holds on to its left argument, if it
/// has one. A right-associative operator gives ground on its left.
pub open spec fn left_prec_of(fixity: Fixity, assoc: Assoc, prec: Prec) -> Option<Prec> {
    if !has_left_arg(fixity) {
        None
    } else if assoc == Assoc::Left {
        Some(prec)
    } else {
        Some((prec - 1) as Prec)
    }
}

/// The precedence with which an operator holds on to its right argument, if
/// it has one. A left-associative operator gives ground on its right.
pub open spec fn right_prec_of(fixity: Fixity, assoc: Assoc, prec: Prec) -> Option<Prec> {
    if !has_right_arg(fixity) {
        None
    } else if assoc == Assoc::Left {
        Some((prec - 1) as Prec)
    } else {
        Some(prec)
    }
}

/// The entry of the precedence table for an operator token with the given
/// sides: a side that is absent counts as the tightest precedence, zero.
pub open spec fn prec_entry(lprec: Option<Prec>, rprec: Option<Prec>) -> (Prec, Prec) {
    (
        match lprec {
            Some(p) => p,
            None => 0,
        },
        match rprec {
            Some(p) => p,
            None => 0,
        },
    )
}

/// The entry of the precedence table for an infix operator without followers.
pub open spec fn infix_entry(assoc: Assoc, prec: Prec) -> (Prec, Prec) {
    prec_entry(
        left_prec_of(Fixity::Infix, assoc, prec),
        right_prec_of(Fixity::Infix, assoc, prec),
    )
}

/// The number of arguments of an operator: one for each side that its fixity
/// opens, and one in front of each follower.
pub open spec fn arity_of(fixity: Fixity, followers: nat) -> nat {
    followers + (if has_left_arg(fixity) { 1nat } else { 0nat })
        + (if has_right_arg(fixity) { 1nat } else { 0nat })
}

/// Whether a name is set aside for the operators that the parser inserts by
/// itself: those that begin with a dollar sign.
pub open spec fn reserved_name(name: Seq<char>) -> bool {
    name.len() > 0 && name[0] == '$'
}

/// Whether a precedence can be declared for this fixity: only atoms sit at
/// precedence zero.
pub open spec fn prec_allowed(fixity: Fixity, prec: Prec) -> bool {
    fixity != Fixity::Nilfix ==> prec >= 1
}

/// What an operator is, as plain values.
pub struct OpView {
    pub name: Seq<char>,
    pub fixity: Fixity,
    pub assoc: Assoc,
    pub prec: Prec,
    pub first_token: usize,
    pub followers: Seq<usize>,
    pub left_prec: Option<Prec>,
    pub right_prec: Option<Prec>,
    pub arity: nat,
}

/// The operator that the given declaration describes.
pub open spec fn op_of(
    name: Seq<char>,
    fixity: Fixity,
    assoc: Assoc,
    prec: Prec,
    first_token: usize,
    followers: Seq<usize>,
) -> OpView {
    OpView {
        name,
        fixity,
        assoc,
        prec,
        first_token,
        followers,
        left_prec: left_prec_of(fixity, assoc, prec),
        right_prec: right_prec_of(fixity, assoc, prec),
        arity: arity_of(fixity, followers.len()),
    }
}

/// An operator of the grammar.
#[derive(Debug, Clone)]
pub struct Op {
    pub name: String,
    pub fixity: Fixity,
    pub assoc: Assoc,
    pub prec: Prec,
    pub first_token: usize,
    pub followers: Vec<usize>,
    pub left_prec: Option<Prec>,
    pub right_prec: Option<Prec>,
    pub arity: usize,
}

impl View for Op {
    type V = OpView;

    open spec fn view(&self) -> OpView {
        OpView {
            name: self.name@,
            fixity: self.fixity,
            assoc: self.assoc,
            prec: self.prec,
            first_token: self.first_token,
            followers: self.followers@,
            left_prec: self.left_prec,
            right_prec: self.right_prec,
            arity: self.arity as nat,
        }
    }
}

impl Op {
    /// An operator with a name of the user's choosing.
    pub fn new(
        name: &str,
        fixity: Fixity,
        assoc: Assoc,
        prec: Prec,
        first_token: usize,
        followers: Vec<usize>,
    ) -> (op: Op)
        requires
            !reserved_name(name@),
            prec_allowed(fixity, prec),
            followers@.len() + 2 <= usize::MAX,
        ensures
            op@ == op_of(name@, fixity, assoc, prec, first_token, followers@),
    {
        Op::new_unchecked(name, fixity, assoc, prec, first_token, followers)
    }

    /// An operator that takes no arguments.
    pub fn new_atom(name: &str, token: usize) -> (op: Op)
        ensures
            op@ == op_of(name@, Fixity::Nilfix, Assoc::Left, 0, token, Seq::empty()),
    {
        Op::new_unchecked(name, Fixity::Nilfix, Assoc::Left, 0, token, Vec::new())
    }

    /// The atom that fills in for an absent argument.
    pub fn new_blank(token: usize) -> (op: Op)
        ensures
            op@ == op_of("$Blank"@, Fixity::Nilfix, Assoc::Left, 0, token, Seq::empty()),
    {
        Op::new_unchecked("$Blank", Fixity::Nilfix, Assoc::Left, 0, token, Vec::new())
    }

    /// The invisible infix operator that fills in for an absent operator.
    pub fn new_juxtapose(assoc: Assoc, prec: Prec, token: usize) -> (op: Op)
        requires
            prec >= 1,
        ensures
            op@ == op_of("$Juxtapose"@, Fixity::Infix, assoc, prec, token, Seq::empty()),
    {
        Op::new_unchecked("$Juxtapose", Fixity::Infix, assoc, prec, token, Vec::new())
    }

    /// Derives both precedences and the arity from the declaration.
    pub fn new_unchecked(
        name: &str,
        fixity: Fixity,
        assoc: Assoc,
        prec: Prec,
        first_token: usize,
        followers: Vec<usize>,
    ) -> (op: Op)
        requires
            prec_allowed(fixity, prec),
            followers@.len() + 2 <= usize::MAX,
        ensures
            op@ == op_of(name@, fixity, assoc, prec, first_token, followers@),
    {
        let (left_prec, right_prec) = match (fixity, assoc) {
            (Fixity::Nilfix, _) => (None, None),
            (Fixity::Prefix, Assoc::Left) => (None, Some(prec - 1)),
            (Fixity::Prefix, Assoc::Right) => (None, Some(prec)),
            (Fixity::Suffix, Assoc::Left) => (Some(prec), None),
            (Fixity::Suffix, Assoc::Right) => (Some(prec - 1), None),
            (Fixity::Infix, Assoc::Left) => (Some(prec), Some(prec - 1)),
            (Fixity::Infix, Assoc::Right) => (Some(prec - 1), Some(prec)),
        };
        let arity: usize = match fixity {
            Fixity::Nilfix => followers.len(),
            Fixity::Prefix | Fixity::Suffix => followers.len() + 1,
            Fixity::Infix => followers.len() + 2,
        };
        Op {
            name: name.to_owned(),
            fixity,
            assoc,
            prec,
            first_token,
            followers,
            left_prec,
            right_prec,
            arity,
        }
    }
}

} // verus!
