use vstd::prelude::*;

verus! {

/// A table from names to addresses, each name at most once.
pub struct LabelMap {
    entries: Vec<(Vec<char>, u32)>,
}

impl LabelMap {
    #[verifier::type_invariant]
    spec fn names_unique(self) -> bool {
        forall|i: int, j: int|
            0 <= i < self.entries@.len() && 0 <= j < self.entries@.len() && i != j
                ==> #[trigger] self.entries@[i].0@ != #[trigger] self.entries@[j].0@
    }

    spec fn has(self, name: Seq<char>) -> bool {
        exists|i: int| 0 <= i < self.entries@.len() && #[trigger] self.entries@[i].0@ == name
    }

    spec fn index_of(self, name: Seq<char>) -> int {
        choose|i: int| 0 <= i < self.entries@.len() && #[trigger] self.entries@[i].0@ == name
    }

    /// The names defined so far and the address of each.
    pub closed spec fn view(self) -> Map<Seq<char>, u32> {
        Map::new(|name: Seq<char>| self.has(name), |name: Seq<char>| self.entries@[self.index_of(name)].1)
    }

    /// An empty table.
    pub fn new() -> (t: Self)
        ensures
            t.view() == Map::<Seq<char>, u32>::empty(),
    {
        let t = LabelMap { entries: Vec::new() };
        assert(t.view() =~= Map::<Seq<char>, u32>::empty());
        t
    }

    /// Where `name` stands in the table, if it does.
    fn find(&self, name: &Vec<char>) -> (r: Option<usize>)
        ensures
            match r {
                Some(i) => i < self.entries@.len() && self.entries@[i as int].0@ == name@,
                None => !self.has(name@),
            },
    {
        let mut i: usize = 0;
        while i < self.entries.len()
            invariant
                i <= self.entries@.len(),
                forall|k: int| 0 <= k < i ==> #[trigger] self.entries@[k].0@ != name@,
            decreases self.entries@.len() - i,
        {
            if chars_equal(&self.entries[i].0, name) {
                return Some(i);
            }
            i += 1;
        }
        None
    }

    /// Gives `name` the address `address`, replacing an earlier one.
    pub fn define(&mut self, name: Vec<char>, address: u32)
        ensures
            final(self).view() == old(self).view().insert(name@, address),
    {
        proof {
            use_type_invariant(&*self);
        }
        let ghost old_map = self.view();
        match self.find(&name) {
            Some(i) => {
                let ghost n = name@;
                let mut entries: Vec<(Vec<char>, u32)> = Vec::new();
                std::mem::swap(&mut entries, &mut self.entries);
                entries.set(i, (name, address));
                self.entries = entries;
                assert forall|k: Seq<char>| #[trigger] self.has(k) == old(self).has(k) by {
                    if old(self).has(k) {
                        let j = old(self).index_of(k);
                        assert(self.entries@[j].0@ == k);
                    }
                    if self.has(k) {
                        let j = self.index_of(k);
                        assert(old(self).entries@[j].0@ == k || j == i);
                    }
                }
                assert forall|k: Seq<char>| #[trigger] self.has(k) && k != n implies self.entries@[self.index_of(k)].1 == old(self).entries@[old(self).index_of(k)].1 by {
                    let j1 = self.index_of(k);
                    let j2 = old(self).index_of(k);
                    assert(j1 != i);
                    assert(j2 != i);
                    assert(old(self).entries@[j1].0@ == k);
                }
                assert(self.has(n));
                assert(self.index_of(n) == i);
                assert(self.view() =~= old_map.insert(n, address));
            },
            None => {
                let ghost n = name@;
                let mut entries: Vec<(Vec<char>, u32)> = Vec::new();
                std::mem::swap(&mut entries, &mut self.entries);
                entries.push((name, address));
                self.entries = entries;
                assert(forall|j: int|
                    0 <= j < old(self).entries@.len() ==> self.entries@[j] == old(self).entries@[j]);
                assert forall|k: Seq<char>| #[trigger] self.has(k) == (old(self).has(k) || k == n) by {
                    if old(self).has(k) {
                        let j = old(self).index_of(k);
                        assert(self.entries@[j].0@ == k);
                    }
                    if k == n {
                        assert(self.entries@[self.entries@.len() - 1].0@ == k);
                    }
                }
                assert forall|k: Seq<char>| #[trigger] old(self).has(k) implies self.entries@[self.index_of(k)].1 == old(self).entries@[old(self).index_of(k)].1 by {
                    let j1 = self.index_of(k);
                    let j2 = old(self).index_of(k);
                    assert(self.has(k));
                    assert(self.entries@[j1].0@ == k);
                    assert(k != n);
                    assert(j1 != old(self).entries@.len());
                    assert(self.entries@.len() == old(self).entries@.len() + 1);
                    assert(0 <= j1 < old(self).entries@.len());
                    assert(self.entries@[j1] == old(self).entries@[j1]);
                    assert(old(self).entries@[j1].0@ == k);
                }
                assert(self.entries@[self.entries@.len() - 1].0@ == n);
                assert(self.has(n));
                proof {
                    let j = self.index_of(n);
                    if j < old(self).entries@.len() {
                        assert(self.entries@[j] == old(self).entries@[j]);
                        assert(old(self).has(n));
                    }
                    assert(j == self.entries@.len() - 1);
                }
                assert(self.view() =~= old_map.insert(n, address));
            },
        }
    }

    /// Whether `name` is defined.
    pub fn contains(&self, name: &Vec<char>) -> (b: bool)
        ensures
            b == self.view().dom().contains(name@),
    {
        self.find(name).is_some()
    }

    /// The address of `name`.
    pub fn get(&self, name: &Vec<char>) -> (address: u32)
        requires
            self.view().dom().contains(name@),
        ensures
            address == self.view()[name@],
    {
        proof {
            use_type_invariant(self);
        }
        match self.find(name) {
            Some(i) => {
                assert(self.index_of(name@) == i);
                self.entries[i].1
            },
            None => 0,
        }
    }
}

/// Whether `a` and `b` hold the same characters.
pub fn chars_equal(a: &Vec<char>, b: &Vec<char>) -> (r: bool)
    ensures
        r == (a@ == b@),
{
    if a.len() != b.len() {
        return false;
    }
    let mut i: usize = 0;
    while i < a.len()
        invariant
            a@.len() == b@.len(),
            i <= a@.len(),
            forall|k: int| 0 <= k < i ==> a@[k] == b@[k],
        decreases a@.len() - i,
    {
        if a[i] != b[i] {
            return false;
        }
        i += 1;
    }
    assert(a@ =~= b@);
    true
}

} // verus!
