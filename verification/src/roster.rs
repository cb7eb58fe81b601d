//! Sets of names.

use crate::names::same_name;
use vstd::prelude::*;

verus! {

/// A set of names.
pub struct NameSet {
    names: Vec<String>,
}

impl View for NameSet {
    type V = Set<Seq<char>>;

    closed spec fn view(&self) -> Set<Seq<char>> {
        Set::new(|name: Seq<char>| exists|i: int| self.named(name, i))
    }
}

impl NameSet {
    spec fn named(&self, name: Seq<char>, i: int) -> bool {
        0 <= i < self.names@.len() && #[trigger] self.names@[i]@ == name
    }

    /// No name is entered twice.
    pub closed spec fn wf(&self) -> bool {
        forall|i: int, j: int|
            0 <= i < self.names@.len() && 0 <= j < self.names@.len()
                && #[trigger] self.names@[i]@ == #[trigger] self.names@[j]@ ==> i == j
    }

    /// No names.
    pub fn new() -> (r: Self)
        ensures
            r.wf(),
            r@ == Set::<Seq<char>>::empty(),
    {
        let r: NameSet = NameSet { names: Vec::new() };
        proof {
            assert forall|name: Seq<char>| !r@.contains(name) by {
                assert(forall|i: int| !r.named(name, i));
            }
            assert(r@ =~= Set::<Seq<char>>::empty());
        }
        r
    }

    fn position(&self, name: &str) -> (r: Option<usize>)
        ensures
            match r {
                Some(i) => self.named(name@, i as int) && self@.contains(name@),
                None => !self@.contains(name@) && forall|i: int| !self.named(name@, i),
            },
    {
        let mut i: usize = 0;
        while i < self.names.len()
            invariant
                i <= self.names.len(),
                forall|j: int| 0 <= j < i ==> !#[trigger] self.named(name@, j),
            decreases self.names.len() - i,
        {
            if same_name(self.names[i].as_str(), name) {
                assert(self.named(name@, i as int));
                return Some(i);
            }
            i = i + 1;
        }
        assert(forall|j: int| !self.named(name@, j));
        None
    }

    /// Whether a name is among them.
    pub fn contains(&self, name: &str) -> (r: bool)
        ensures
            r == self@.contains(name@),
    {
        self.position(name).is_some()
    }

    /// Adds a name. Says whether it is new.
    pub fn insert(&mut self, name: &str) -> (r: bool)
        requires
            old(self).wf(),
        ensures
            final(self).wf(),
            final(self)@ == old(self)@.insert(name@),
            r == !old(self)@.contains(name@),
    {
        match self.position(name) {
            Some(_) => {
                assert(self@ =~= old(self)@.insert(name@));
                false
            },
            None => {
                self.names.push(name.to_owned());
                proof {
                    let n: int = old(self).names@.len() as int;
                    assert(self.names@[n]@ == name@);
                    assert forall|j: int| 0 <= j < n implies #[trigger] self.names@[j] == old(
                        self,
                    ).names@[j] by {}
                    assert forall|i: int, j: int|
                        0 <= i < self.names@.len() && 0 <= j < self.names@.len()
                            && #[trigger] self.names@[i]@ == #[trigger] self.names@[j]@ implies i
                        == j by {
                        if i < n && j == n {
                            assert(!old(self).named(name@, i));
                        }
                        if j < n && i == n {
                            assert(!old(self).named(name@, j));
                        }
                    }
                    assert forall|other: Seq<char>| #[trigger] self@.contains(other) == old(
                        self,
                    )@.insert(name@).contains(other) by {
                        if old(self)@.contains(other) {
                            let i: int = choose|i: int| old(self).named(other, i);
                            assert(self.named(other, i));
                        }
                        if other == name@ {
                            assert(self.named(other, n));
                        }
                        if self@.contains(other) {
                            let i: int = choose|i: int| self.named(other, i);
                            if i < n {
                                assert(old(self).named(other, i));
                            }
                        }
                    }
                    assert(self@ =~= old(self)@.insert(name@));
                }
                true
            },
        }
    }

    /// Takes a name out. Says whether it was among them.
    pub fn remove(&mut self, name: &str) -> (r: bool)
        requires
            old(self).wf(),
        ensures
            final(self).wf(),
            final(self)@ == old(self)@.remove(name@),
            r == old(self)@.contains(name@),
    {
        match self.position(name) {
            Some(i) => {
                let _ = self.names.remove(i);
                proof {
                    let up = |j: int|
                        if j < i {
                            j
                        } else {
                            j + 1
                        };
                    let down = |j: int|
                        if j < i {
                            j
                        } else {
                            j - 1
                        };
                    assert forall|j: int| 0 <= j < self.names@.len() implies
                        #[trigger] self.names@[j] == old(self).names@[up(j)] by {}
                    assert forall|other: Seq<char>| #[trigger] self@.contains(other) == old(
                        self,
                    )@.remove(name@).contains(other) by {
                        if self@.contains(other) {
                            let j: int = choose|j: int| self.named(other, j);
                            assert(old(self).named(other, up(j)));
                        }
                        if old(self)@.contains(other) && other != name@ {
                            let j: int = choose|j: int| old(self).named(other, j);
                            assert(self.named(other, down(j)));
                        }
                    }
                    assert(self@ =~= old(self)@.remove(name@));
                }
                true
            },
            None => {
                assert(self@ =~= old(self)@.remove(name@));
                false
            },
        }
    }
}

} // verus!
