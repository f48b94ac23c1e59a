use vstd::prelude::*;

verus! {

/// The record of one indexed sequence: its caller label and the symbols that were
/// indexed (the terminator included).
pub struct TreeItem<T, U> {
    pub string: Vec<T>,
    pub id: U,
}

impl<T, U> TreeItem<T, U> {
    pub fn new(k: U, v: Vec<T>) -> (r: TreeItem<T, U>)
        ensures
            r.string@ == v@,
            r.id == k,
    {
        TreeItem { string: v, id: k }
    }

    pub fn get_string(&self) -> (r: &Vec<T>)
        ensures
            r@ == self.string@,
    {
        &self.string
    }

    pub fn get_id(&self) -> (r: &U)
        ensures
            *r == self.id,
    {
        &self.id
    }
}

} // verus!
