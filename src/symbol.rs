use vstd::prelude::*;

verus! {

/// A symbol of the indexed alphabet: a value whose equality test is plain equality,
/// with a strict order used to list edge labels deterministically.
pub trait Symbol: Copy + Sized {
    spec fn precedes(&self, other: &Self) -> bool;

    fn same(&self, other: &Self) -> (r: bool)
        ensures
            r == (*self == *other),
    ;

    fn less(&self, other: &Self) -> (r: bool)
        ensures
            r == self.precedes(other),
    ;

    /// `precedes` is a strict total order.
    proof fn lemma_strict_total(a: Self, b: Self, c: Self)
        ensures
            !a.precedes(&a),
            a.precedes(&b) && b.precedes(&c) ==> a.precedes(&c),
            a != b ==> a.precedes(&b) || b.precedes(&a),
    ;
}

/// Compares two symbols by `precedes`.
pub fn label_order<T: Symbol>(a: &T, b: &T) -> (r: core::cmp::Ordering)
    ensures
        (r == core::cmp::Ordering::Less) == a.precedes(b),
        (r == core::cmp::Ordering::Greater) == (b.precedes(a) && !a.precedes(b)),
{
    if a.less(b) {
        core::cmp::Ordering::Less
    } else if b.less(a) {
        core::cmp::Ordering::Greater
    } else {
        core::cmp::Ordering::Equal
    }
}

/// A caller label of an indexed sequence: compared and copied through its view.
pub trait Label: View + Sized {
    fn same_label(&self, other: &Self) -> (r: bool)
        ensures
            r == (self@ == other@),
    ;

    fn duplicate(&self) -> (r: Self)
        ensures
            r@ == self@,
    ;
}

impl Symbol for char {
    open spec fn precedes(&self, other: &Self) -> bool {
        *self < *other
    }

    proof fn lemma_strict_total(a: Self, b: Self, c: Self) {
    }

    fn same(&self, other: &Self) -> (r: bool) {
        *self == *other
    }

    fn less(&self, other: &Self) -> (r: bool) {
        *self < *other
    }
}

impl Symbol for u8 {
    open spec fn precedes(&self, other: &Self) -> bool {
        (*self) < (*other)
    }

    proof fn lemma_strict_total(a: Self, b: Self, c: Self) {
    }

    fn same(&self, other: &Self) -> (r: bool) {
        *self == *other
    }

    fn less(&self, other: &Self) -> (r: bool) {
        (*self) < (*other)
    }
}

impl Symbol for u16 {
    open spec fn precedes(&self, other: &Self) -> bool {
        (*self) < (*other)
    }

    proof fn lemma_strict_total(a: Self, b: Self, c: Self) {
    }

    fn same(&self, other: &Self) -> (r: bool) {
        *self == *other
    }

    fn less(&self, other: &Self) -> (r: bool) {
        (*self) < (*other)
    }
}

impl Symbol for u32 {
    open spec fn precedes(&self, other: &Self) -> bool {
        (*self) < (*other)
    }

    proof fn lemma_strict_total(a: Self, b: Self, c: Self) {
    }

    fn same(&self, other: &Self) -> (r: bool) {
        *self == *other
    }

    fn less(&self, other: &Self) -> (r: bool) {
        (*self) < (*other)
    }
}

impl Symbol for u64 {
    open spec fn precedes(&self, other: &Self) -> bool {
        (*self) < (*other)
    }

    proof fn lemma_strict_total(a: Self, b: Self, c: Self) {
    }

    fn same(&self, other: &Self) -> (r: bool) {
        *self == *other
    }

    fn less(&self, other: &Self) -> (r: bool) {
        (*self) < (*other)
    }
}

impl Symbol for usize {
    open spec fn precedes(&self, other: &Self) -> bool {
        (*self) < (*other)
    }

    proof fn lemma_strict_total(a: Self, b: Self, c: Self) {
    }

    fn same(&self, other: &Self) -> (r: bool) {
        *self == *other
    }

    fn less(&self, other: &Self) -> (r: bool) {
        (*self) < (*other)
    }
}

impl Symbol for i32 {
    open spec fn precedes(&self, other: &Self) -> bool {
        (*self) < (*other)
    }

    proof fn lemma_strict_total(a: Self, b: Self, c: Self) {
    }

    fn same(&self, other: &Self) -> (r: bool) {
        *self == *other
    }

    fn less(&self, other: &Self) -> (r: bool) {
        (*self) < (*other)
    }
}

impl Label for String {
    fn same_label(&self, other: &Self) -> (r: bool) {
        *self == *other
    }

    fn duplicate(&self) -> (r: Self) {
        self.clone()
    }
}

impl Label for usize {
    fn same_label(&self, other: &Self) -> (r: bool) {
        *self == *other
    }

    fn duplicate(&self) -> (r: Self) {
        *self
    }
}

impl Label for u64 {
    fn same_label(&self, other: &Self) -> (r: bool) {
        *self == *other
    }

    fn duplicate(&self) -> (r: Self) {
        *self
    }
}

} // verus!
