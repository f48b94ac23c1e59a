use vstd::prelude::*;
use core::cmp::Ordering;
use crate::symbol::Symbol;

verus! {

/// An edge label: an ordinary symbol, or the reserved terminator, which sorts before
/// every symbol.
pub enum Character<T> {
    Char(T),
    Terminal,
}

impl<T> Character<T> {
    pub fn is_terminal(&self) -> (r: bool)
        ensures
            r == (*self is Terminal),
    {
        match self {
            Character::Terminal => true,
            Character::Char(_) => false,
        }
    }

    /// The wrapped symbol, if this is not the terminator.
    pub fn into_inner(&self) -> (r: Option<&T>)
        ensures
            match *self {
                Character::Char(x) => r == Some(&x),
                Character::Terminal => r.is_none(),
            },
    {
        match self {
            Character::Char(x) => Some(x),
            Character::Terminal => None,
        }
    }
}

impl<T: Symbol> Character<T> {
    /// The order of edge labels: the terminator first, then symbols in their own order.
    pub open spec fn spec_cmp(&self, other: &Self) -> Ordering {
        match (*self, *other) {
            (Character::Terminal, Character::Terminal) => Ordering::Equal,
            (Character::Terminal, Character::Char(_)) => Ordering::Less,
            (Character::Char(_), Character::Terminal) => Ordering::Greater,
            (Character::Char(a), Character::Char(b)) => if a.precedes(&b) {
                Ordering::Less
            } else if b.precedes(&a) {
                Ordering::Greater
            } else {
                Ordering::Equal
            },
        }
    }

    pub fn partial_cmp(&self, other: &Self) -> (r: Option<Ordering>)
        ensures
            r == Some(self.spec_cmp(other)),
    {
        match self {
            Character::Terminal => match other {
                Character::Terminal => Some(Ordering::Equal),
                Character::Char(_) => Some(Ordering::Less),
            },
            Character::Char(t) => match other {
                Character::Terminal => Some(Ordering::Greater),
                Character::Char(o) => if t.less(o) {
                    Some(Ordering::Less)
                } else if o.less(t) {
                    Some(Ordering::Greater)
                } else {
                    Some(Ordering::Equal)
                },
            },
        }
    }
}

} // verus!
