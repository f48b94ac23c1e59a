use vstd::prelude::*;
use crate::symbol::Label;

verus! {

/// The answer to a match query: for each caller label, the start offsets at which the
/// pattern was found in the sequences that carry that label.
pub struct Matches<U> {
    entries: Vec<(U, Vec<usize>)>,
}

impl<U: Label> Matches<U> {
    /// Offset `i` is listed under the label whose view is `lv`.
    pub closed spec fn has(&self, lv: U::V, i: int) -> bool {
        exists|k: int, j: int|
            0 <= k < self.entries@.len() && 0 <= j < self.entries@[k].1@.len()
                && self.entries@[k].0@ == lv && #[trigger] self.entries@[k].1@[j] as int == i
    }

    /// Labels are listed once each, and each with at least one offset.
    pub closed spec fn wf(&self) -> bool {
        &&& forall|k1: int, k2: int|
            0 <= k1 < self.entries@.len() && 0 <= k2 < self.entries@.len() && k1 != k2
                ==> #[trigger] self.entries@[k1].0@ != #[trigger] self.entries@[k2].0@
        &&& forall|k: int| 0 <= k < self.entries@.len() ==> (#[trigger] self.entries@[k]).1@.len() > 0
    }

    pub fn new() -> (r: Matches<U>)
        ensures
            r.wf(),
            forall|lv: U::V, i: int| !r.has(lv, i),
    {
        Matches { entries: Vec::new() }
    }

    /// Lists offset `i` under `label`.
    pub fn add(&mut self, label: &U, i: usize)
        requires
            old(self).wf(),
        ensures
            final(self).wf(),
            forall|lv: U::V, j: int|
                final(self).has(lv, j) <==> (old(self).has(lv, j) || (lv == label@ && j == i)),
    {
        let mut k: usize = 0;
        while k < self.entries.len()
            invariant
                k <= self.entries@.len(),
                self.entries@ == old(self).entries@,
                old(self).wf(),
                forall|k2: int| 0 <= k2 < k ==> (#[trigger] self.entries@[k2]).0@ != label@,
            decreases self.entries@.len() - k,
        {
            if self.entries[k].0.same_label(label) {
                let mut j: usize = 0;
                while j < self.entries[k].1.len()
                    invariant
                        k < self.entries@.len(),
                        self.entries@ == old(self).entries@,
                        old(self).wf(),
                        self.entries@[k as int].0@ == label@,
                        j <= self.entries@[k as int].1@.len(),
                        forall|j2: int| 0 <= j2 < j ==> #[trigger] self.entries@[k as int].1@[j2] != i,
                    decreases self.entries@[k as int].1@.len() - j,
                {
                    if self.entries[k].1[j] == i {
                        assert(self.has(label@, i as int)) by {
                            assert(self.entries@[k as int].1@[j as int] as int == i as int);
                        }
                        return;
                    }
                    j = j + 1;
                }
                let ghost before = self.entries@;
                self.entries[k].1.push(i);
                proof {
                    assert forall|lv: U::V, j2: int|
                        self.has(lv, j2) <==> (old(self).has(lv, j2) || (lv == label@ && j2 == i)) by {
                        if self.has(lv, j2) {
                            let (ka, ja) = choose|ka: int, ja: int|
                                0 <= ka < self.entries@.len() && 0 <= ja < self.entries@[ka].1@.len()
                                    && self.entries@[ka].0@ == lv && #[trigger] self.entries@[ka].1@[ja] as int == j2;
                            if ka != k || ja < before[ka].1@.len() {
                                assert(before[ka].1@[ja] as int == j2);
                            }
                        }
                        if old(self).has(lv, j2) {
                            let (ka, ja) = choose|ka: int, ja: int|
                                0 <= ka < before.len() && 0 <= ja < before[ka].1@.len()
                                    && before[ka].0@ == lv && #[trigger] before[ka].1@[ja] as int == j2;
                            assert(self.entries@[ka].1@[ja] as int == j2);
                        }
                        if lv == label@ && j2 == i {
                            let last = self.entries@[k as int].1@.len() - 1;
                            assert(self.entries@[k as int].1@[last] as int == j2);
                        }
                    }
                }
                return;
            }
            k = k + 1;
        }
        let ghost before = self.entries@;
        self.entries.push((label.duplicate(), vec![i]));
        proof {
            assert forall|lv: U::V, j2: int|
                self.has(lv, j2) <==> (old(self).has(lv, j2) || (lv == label@ && j2 == i)) by {
                if self.has(lv, j2) {
                    let (ka, ja) = choose|ka: int, ja: int|
                        0 <= ka < self.entries@.len() && 0 <= ja < self.entries@[ka].1@.len()
                            && self.entries@[ka].0@ == lv && #[trigger] self.entries@[ka].1@[ja] as int == j2;
                    if ka < before.len() {
                        assert(before[ka].1@[ja] as int == j2);
                    }
                }
                if old(self).has(lv, j2) {
                    let (ka, ja) = choose|ka: int, ja: int|
                        0 <= ka < before.len() && 0 <= ja < before[ka].1@.len()
                            && before[ka].0@ == lv && #[trigger] before[ka].1@[ja] as int == j2;
                    assert(self.entries@[ka].1@[ja] as int == j2);
                }
                if lv == label@ && j2 == i {
                    assert(self.entries@[before.len() as int].1@[0] as int == j2);
                }
            }
        }
    }

    /// The offsets listed under `label`, if any.
    pub fn get(&self, label: &U) -> (r: Option<&Vec<usize>>)
        requires
            self.wf(),
        ensures
            match r {
                None => forall|i: int| !self.has(label@, i),
                Some(v) => v@.len() > 0 && forall|i: usize| v@.contains(i) <==> self.has(label@, i as int),
            },
    {
        let mut k: usize = 0;
        while k < self.entries.len()
            invariant
                k <= self.entries@.len(),
                self.wf(),
                forall|k2: int| 0 <= k2 < k ==> (#[trigger] self.entries@[k2]).0@ != label@,
            decreases self.entries@.len() - k,
        {
            if self.entries[k].0.same_label(label) {
                let v = &self.entries[k].1;
                proof {
                    assert forall|i: usize| v@.contains(i) <==> self.has(label@, i as int) by {
                        if v@.contains(i) {
                            let j = choose|j: int| 0 <= j < v@.len() && v@[j] == i;
                            assert(self.entries@[k as int].1@[j] as int == i as int);
                        }
                        if self.has(label@, i as int) {
                            let (ka, ja) = choose|ka: int, ja: int|
                                0 <= ka < self.entries@.len() && 0 <= ja < self.entries@[ka].1@.len()
                                    && self.entries@[ka].0@ == label@ && #[trigger] self.entries@[ka].1@[ja] as int == i as int;
                            assert(ka == k);
                            assert(v@[ja] == i);
                        }
                    }
                }
                return Some(v);
            }
            k = k + 1;
        }
        None
    }

    /// Whether offset `i` is listed under `label`.
    pub fn contains(&self, label: &U, i: usize) -> (r: bool)
        requires
            self.wf(),
        ensures
            r == self.has(label@, i as int),
    {
        match self.get(label) {
            None => false,
            Some(v) => {
                let mut j: usize = 0;
                while j < v.len()
                    invariant
                        j <= v@.len(),
                        self.wf(),
                        v@.len() > 0,
                        forall|i2: usize| v@.contains(i2) <==> self.has(label@, i2 as int),
                        forall|j2: int| 0 <= j2 < j ==> v@[j2] != i,
                    decreases v@.len() - j,
                {
                    if v[j] == i {
                        assert(v@.contains(i));
                        return true;
                    }
                    j = j + 1;
                }
                assert(!v@.contains(i));
                false
            },
        }
    }

    /// The number of labels listed.
    pub closed spec fn label_count(&self) -> nat {
        self.entries@.len()
    }

    /// The number of labels listed, each once.
    pub fn len(&self) -> (r: usize)
        requires
            self.wf(),
        ensures
            r == self.label_count(),
            r == 0 <==> forall|lv: U::V, i: int| !self.has(lv, i),
    {
        if self.entries.len() > 0 {
            assert(self.has(self.entries@[0].0@, self.entries@[0].1@[0] as int));
        }
        self.entries.len()
    }

    /// Whether no label is listed.
    pub fn is_empty(&self) -> (r: bool)
        requires
            self.wf(),
        ensures
            r == (forall|lv: U::V, i: int| !self.has(lv, i)),
    {
        if self.entries.len() == 0 {
            true
        } else {
            assert(self.has(self.entries@[0].0@, self.entries@[0].1@[0] as int));
            false
        }
    }
}

} // verus!
