//! The two books of the reservation service: which cells each session holds, and which session
//! each agent has.

use crate::names::same_name;
use crate::session::SessionUUID;
use vstd::prelude::*;

verus! {

/// The cells that one session holds.
pub struct LocationEntry {
    pub session: SessionUUID,
    pub cells: Vec<(u32, u32)>,
}

/// The cells that each session holds, in the order in which they were marked.
pub struct SessionLocations {
    entries: Vec<LocationEntry>,
}

impl View for SessionLocations {
    type V = Map<Seq<u8>, Seq<(u32, u32)>>;

    closed spec fn view(&self) -> Map<Seq<u8>, Seq<(u32, u32)>> {
        Map::new(
            |s: Seq<u8>| exists|i: int| self.entry_of(s, i),
            |s: Seq<u8>| self.entries@[choose|i: int| self.entry_of(s, i)].cells@,
        )
    }
}

impl SessionLocations {
    spec fn entry_of(&self, session: Seq<u8>, i: int) -> bool {
        0 <= i < self.entries@.len() && #[trigger] self.entries@[i].session@ == session
    }

    /// No session is entered twice.
    pub closed spec fn wf(&self) -> bool {
        forall|i: int, j: int|
            0 <= i < self.entries@.len() && 0 <= j < self.entries@.len()
                && #[trigger] self.entries@[i].session@ == #[trigger] self.entries@[j].session@
                ==> i == j
    }

    /// The cells of a session, none where it is not entered.
    pub open spec fn cells_of(&self, session: Seq<u8>) -> Seq<(u32, u32)> {
        if self@.contains_key(session) {
            self@[session]
        } else {
            Seq::empty()
        }
    }

    proof fn lemma_entry(&self, i: int)
        requires
            self.wf(),
            0 <= i < self.entries@.len(),
        ensures
            self@.contains_key(self.entries@[i].session@),
            self@[self.entries@[i].session@] == self.entries@[i].cells@,
    {
        let s: Seq<u8> = self.entries@[i].session@;
        assert(self.entry_of(s, i));
        let k: int = choose|k: int| self.entry_of(s, k);
        assert(self.entry_of(s, k));
    }

    /// An empty book.
    pub fn new() -> (r: Self)
        ensures
            r.wf(),
            r@ == Map::<Seq<u8>, Seq<(u32, u32)>>::empty(),
    {
        let r: SessionLocations = SessionLocations { entries: Vec::new() };
        proof {
            assert forall|s: Seq<u8>| !r@.contains_key(s) by {
                assert(forall|i: int| !r.entry_of(s, i));
            }
            assert(r@ =~= Map::<Seq<u8>, Seq<(u32, u32)>>::empty());
        }
        r
    }

    fn position(&self, session: &SessionUUID) -> (r: Option<usize>)
        requires
            self.wf(),
        ensures
            match r {
                Some(i) => i < self.entries@.len() && self.entries@[i as int].session@ == session@
                    && self@.contains_key(session@) && self@[session@]
                    == self.entries@[i as int].cells@,
                None => !self@.contains_key(session@) && forall|j: int|
                    0 <= j < self.entries@.len() ==> #[trigger] self.entries@[j].session@
                        != session@,
            },
    {
        let mut i: usize = 0;
        while i < self.entries.len()
            invariant
                self.wf(),
                i <= self.entries@.len(),
                forall|j: int| 0 <= j < i ==> #[trigger] self.entries@[j].session@ != session@,
            decreases self.entries@.len() - i,
        {
            if self.entries[i].session.same(session) {
                proof {
                    self.lemma_entry(i as int);
                }
                return Some(i);
            }
            i = i + 1;
        }
        proof {
            assert(forall|j: int| !self.entry_of(session@, j));
        }
        None
    }

    /// Whether a session is entered.
    pub fn contains_key(&self, session: &SessionUUID) -> (r: bool)
        requires
            self.wf(),
        ensures
            r == self@.contains_key(session@),
    {
        self.position(session).is_some()
    }

    /// The cells of a session.
    pub fn get(&self, session: &SessionUUID) -> (r: Option<&Vec<(u32, u32)>>)
        requires
            self.wf(),
        ensures
            match r {
                Some(cells) => self@.contains_key(session@) && self@[session@] == cells@,
                None => !self@.contains_key(session@),
            },
    {
        match self.position(session) {
            Some(i) => Some(&self.entries[i].cells),
            None => None,
        }
    }

    /// Enters one more cell for a session.
    pub fn enter(&mut self, session: &SessionUUID, cell: (u32, u32))
        requires
            old(self).wf(),
        ensures
            final(self).wf(),
            final(self)@ == old(self)@.insert(
                session@,
                old(self).cells_of(session@).push(cell),
            ),
            final(self)@[session@] == if old(self)@.contains_key(session@) {
                old(self)@[session@].push(cell)
            } else {
                seq![cell]
            },
    {
        match self.position(session) {
            Some(i) => {
                self.entries[i].cells.push(cell);
                proof {
                    assert(self.entries@[i as int].session@ == old(self).entries@[i as int].session@);
                    assert forall|j: int| 0 <= j < self.entries@.len() && j != i implies
                        #[trigger] self.entries@[j] == old(self).entries@[j] by {}
                    self.lemma_same_sessions(old(self));
                    self.lemma_lookup(old(self), session@, i as int);
                }
            },
            None => {
                let mut cells: Vec<(u32, u32)> = Vec::new();
                cells.push(cell);
                self.entries.push(LocationEntry { session: *session, cells });
                proof {
                    let n: int = old(self).entries@.len() as int;
                    assert forall|j: int| 0 <= j < n implies #[trigger] self.entries@[j]
                        == old(self).entries@[j] by {}
                    assert(self.wf());
                    self.lemma_entry(n);
                    assert(cells@ =~= Seq::<(u32, u32)>::empty().push(cell));
                    assert forall|s: Seq<u8>|
                        #![trigger self@.dom().contains(s)]
                        #![trigger old(self)@.dom().contains(s)]
                        s != session@ implies self@.contains_key(s)
                        == old(self)@.contains_key(s) && (self@.contains_key(s) ==> self@[s]
                        == old(self)@[s]) by {
                        self.lemma_agree(old(self), s, |j: int| j, |j: int| j);
                    }
                    assert(self@ =~= old(self)@.insert(
                        session@,
                        old(self).cells_of(session@).push(cell),
                    ));
                }
            },
        }
    }

    /// Strikes a session out.
    pub fn remove(&mut self, session: &SessionUUID)
        requires
            old(self).wf(),
        ensures
            final(self).wf(),
            final(self)@ == old(self)@.remove(session@),
    {
        match self.position(session) {
            Some(i) => {
                let _ = self.entries.remove(i);
                proof {
                    let up = |j: int|
                        if j < i {
                            j
                        } else {
                            j + 1
                        };
                    let down = |j: int|
                        if j < i {
                            j
                        } else {
                            j - 1
                        };
                    assert forall|j: int| 0 <= j < self.entries@.len() implies
                        #[trigger] self.entries@[j] == old(self).entries@[up(j)] by {}
                    assert(self.wf());
                    assert(!self@.contains_key(session@)) by {
                        assert forall|j: int| !self.entry_of(session@, j) by {
                            if self.entry_of(session@, j) {
                                assert(self.entries@[j] == old(self).entries@[up(j)]);
                            }
                        }
                    }
                    assert forall|s: Seq<u8>|
                        #![trigger self@.dom().contains(s)]
                        #![trigger old(self)@.dom().contains(s)]
                        s != session@ implies self@.contains_key(s)
                        == old(self)@.contains_key(s) && (self@.contains_key(s) ==> self@[s]
                        == old(self)@[s]) by {
                        self.lemma_agree(old(self), s, up, down);
                    }
                    assert(self@ =~= old(self)@.remove(session@));
                }
            },
            None => {
                proof {
                    assert(self@ =~= old(self)@.remove(session@));
                }
            },
        }
    }

    /// Two books that hold the same entry for a session, at whatever place, agree on it.
    proof fn lemma_agree(
        &self,
        other: &Self,
        s: Seq<u8>,
        up: spec_fn(int) -> int,
        down: spec_fn(int) -> int,
    )
        requires
            self.wf(),
            other.wf(),
            forall|j: int| #[trigger]
                self.entry_of(s, j) ==> other.entry_of(s, up(j)) && other.entries@[up(j)]
                    == self.entries@[j],
            forall|j: int| #[trigger] other.entry_of(s, j) ==> self.entry_of(s, down(j)),
        ensures
            self@.contains_key(s) == other@.contains_key(s),
            self@.contains_key(s) ==> self@[s] == other@[s],
    {
        if exists|j: int| self.entry_of(s, j) {
            let j: int = choose|j: int| self.entry_of(s, j);
            self.lemma_entry(j);
            other.lemma_entry(up(j));
        } else if exists|j: int| other.entry_of(s, j) {
            let j: int = choose|j: int| other.entry_of(s, j);
            assert(self.entry_of(s, down(j)));
        }
    }

    proof fn lemma_same_sessions(&self, other: &Self)
        requires
            other.wf(),
            self.entries@.len() == other.entries@.len(),
            forall|j: int|
                0 <= j < self.entries@.len() ==> #[trigger] self.entries@[j].session@
                    == other.entries@[j].session@,
        ensures
            self.wf(),
    {
        assert forall|i: int, j: int|
            0 <= i < self.entries@.len() && 0 <= j < self.entries@.len()
                && #[trigger] self.entries@[i].session@ == #[trigger] self.entries@[j].session@
            implies i == j by {
            assert(other.entries@[i].session@ == other.entries@[j].session@);
        }
    }

    /// A book in which one entry was changed in place.
    proof fn lemma_lookup(&self, other: &Self, session: Seq<u8>, i: int)
        requires
            self.wf(),
            other.wf(),
            self.entries@.len() == other.entries@.len(),
            0 <= i < self.entries@.len(),
            self.entries@[i].session@ == session,
            other.entries@[i].session@ == session,
            forall|j: int|
                0 <= j < self.entries@.len() && j != i ==> #[trigger] self.entries@[j]
                    == other.entries@[j],
        ensures
            self@ == other@.insert(session, self.entries@[i].cells@),
    {
        self.lemma_entry(i);
        assert forall|s: Seq<u8>|
            #![trigger self@.dom().contains(s)]
            #![trigger other@.dom().contains(s)]
            s != session implies self@.contains_key(s)
            == other@.contains_key(s) && (self@.contains_key(s) ==> self@[s] == other@[s]) by {
            assert forall|j: int| #[trigger] self.entry_of(s, j) implies other.entry_of(s, j)
                && other.entries@[j] == self.entries@[j] by {
                assert(j != i);
            }
            assert forall|j: int| #[trigger] other.entry_of(s, j) implies self.entry_of(s, j) by {
                assert(j != i);
                assert(self.entries@[j] == other.entries@[j]);
            }
            self.lemma_agree(other, s, |j: int| j, |j: int| j);
        }
        assert(self@ =~= other@.insert(session, self.entries@[i].cells@));
    }
}

/// The session of one agent.
pub struct AgentEntry {
    pub agent: String,
    pub session: SessionUUID,
}

/// The one session that each agent has.
pub struct AgentSessions {
    entries: Vec<AgentEntry>,
}

impl View for AgentSessions {
    type V = Map<Seq<char>, Seq<u8>>;

    closed spec fn view(&self) -> Map<Seq<char>, Seq<u8>> {
        Map::new(
            |a: Seq<char>| exists|i: int| self.entry_of(a, i),
            |a: Seq<char>| self.entries@[choose|i: int| self.entry_of(a, i)].session@,
        )
    }
}

impl AgentSessions {
    spec fn entry_of(&self, agent: Seq<char>, i: int) -> bool {
        0 <= i < self.entries@.len() && #[trigger] self.entries@[i].agent@ == agent
    }

    /// No agent is entered twice.
    pub closed spec fn wf(&self) -> bool {
        forall|i: int, j: int|
            0 <= i < self.entries@.len() && 0 <= j < self.entries@.len()
                && #[trigger] self.entries@[i].agent@ == #[trigger] self.entries@[j].agent@
                ==> i == j
    }

    proof fn lemma_entry(&self, i: int)
        requires
            self.wf(),
            0 <= i < self.entries@.len(),
        ensures
            self@.contains_key(self.entries@[i].agent@),
            self@[self.entries@[i].agent@] == self.entries@[i].session@,
    {
        let a: Seq<char> = self.entries@[i].agent@;
        assert(self.entry_of(a, i));
        let k: int = choose|k: int| self.entry_of(a, k);
        assert(self.entry_of(a, k));
    }

    /// An empty book.
    pub fn new() -> (r: Self)
        ensures
            r.wf(),
            r@ == Map::<Seq<char>, Seq<u8>>::empty(),
    {
        let r: AgentSessions = AgentSessions { entries: Vec::new() };
        proof {
            assert forall|a: Seq<char>| !r@.contains_key(a) by {
                assert(forall|i: int| !r.entry_of(a, i));
            }
            assert(r@ =~= Map::<Seq<char>, Seq<u8>>::empty());
        }
        r
    }

    fn position(&self, agent: &str) -> (r: Option<usize>)
        requires
            self.wf(),
        ensures
            match r {
                Some(i) => i < self.entries@.len() && self.entries@[i as int].agent@ == agent@
                    && self@.contains_key(agent@) && self@[agent@]
                    == self.entries@[i as int].session@,
                None => !self@.contains_key(agent@) && forall|j: int|
                    0 <= j < self.entries@.len() ==> #[trigger] self.entries@[j].agent@ != agent@,
            },
    {
        let mut i: usize = 0;
        while i < self.entries.len()
            invariant
                self.wf(),
                i <= self.entries@.len(),
                forall|j: int| 0 <= j < i ==> #[trigger] self.entries@[j].agent@ != agent@,
            decreases self.entries@.len() - i,
        {
            if same_name(self.entries[i].agent.as_str(), agent) {
                proof {
                    self.lemma_entry(i as int);
                }
                return Some(i);
            }
            i = i + 1;
        }
        proof {
            assert(forall|j: int| !self.entry_of(agent@, j));
        }
        None
    }

    /// The session of an agent.
    pub fn get(&self, agent: &str) -> (r: Option<&SessionUUID>)
        requires
            self.wf(),
        ensures
            match r {
                Some(session) => self@.contains_key(agent@) && self@[agent@] == session@,
                None => !self@.contains_key(agent@),
            },
    {
        match self.position(agent) {
            Some(i) => Some(&self.entries[i].session),
            None => None,
        }
    }

    /// Gives an agent a session, in place of the one it had.
    pub fn insert(&mut self, agent: &str, session: SessionUUID)
        requires
            old(self).wf(),
        ensures
            final(self).wf(),
            final(self)@ == old(self)@.insert(agent@, session@),
    {
        match self.position(agent) {
            Some(i) => {
                self.entries[i].session = session;
                proof {
                    assert(self.entries@[i as int].agent@ == old(self).entries@[i as int].agent@);
                    assert forall|j: int| 0 <= j < self.entries@.len() && j != i implies
                        #[trigger] self.entries@[j] == old(self).entries@[j] by {}
                    assert forall|k: int, j: int|
                        0 <= k < self.entries@.len() && 0 <= j < self.entries@.len()
                            && #[trigger] self.entries@[k].agent@
                            == #[trigger] self.entries@[j].agent@ implies k == j by {
                        assert(old(self).entries@[k].agent@ == old(self).entries@[j].agent@);
                    }
                    self.lemma_entry(i as int);
                }
            },
            None => {
                self.entries.push(AgentEntry { agent: agent.to_owned(), session });
                proof {
                    let n: int = old(self).entries@.len() as int;
                    assert forall|j: int| 0 <= j < n implies #[trigger] self.entries@[j]
                        == old(self).entries@[j] by {}
                    assert(self.wf());
                    self.lemma_entry(n);
                }
            },
        }
        proof {
            assert forall|a: Seq<char>|
                #![trigger self@.dom().contains(a)]
                #![trigger old(self)@.dom().contains(a)]
                a != agent@ implies self@.contains_key(a) == old(self)@.contains_key(a) && (
            self@.contains_key(a) ==> self@[a] == old(self)@[a]) by {
                assert forall|j: int| #[trigger] self.entry_of(a, j) implies old(self).entry_of(
                    a,
                    j,
                ) && old(self).entries@[j] == self.entries@[j] by {}
                assert forall|j: int| #[trigger] old(self).entry_of(a, j) implies self.entry_of(
                    a,
                    j,
                ) by {
                    assert(self.entries@[j] == old(self).entries@[j]);
                }
                if exists|j: int| self.entry_of(a, j) {
                    let j: int = choose|j: int| self.entry_of(a, j);
                    self.lemma_entry(j);
                    old(self).lemma_entry(j);
                } else if exists|j: int| old(self).entry_of(a, j) {
                    let j: int = choose|j: int| old(self).entry_of(a, j);
                    assert(self.entry_of(a, j));
                }
            }
            assert(self@ =~= old(self)@.insert(agent@, session@));
        }
    }
}

} // verus!
