use vstd::prelude::*;

verus! {

/// A node as exported for other tools: its children by edge label, the data listed at
/// it, its id and its suffix link.
pub struct Enode<T, U> {
    pub children: Vec<(T, usize)>,
    pub data: Vec<U>,
    pub node_id: usize,
    pub slink: Option<usize>,
}

impl<T, U> Enode<T, U> {
    pub fn new(children: Vec<(T, usize)>, data: Vec<U>, slink: Option<usize>, node_id: usize) -> (r: Enode<T, U>)
        ensures
            r.children@ == children@,
            r.data@ == data@,
            r.slink == slink,
            r.node_id == node_id,
    {
        Enode { children, data, node_id, slink }
    }
}

} // verus!
