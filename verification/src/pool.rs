use vstd::prelude::*;
use crate::text::str_eq;

verus! {

/// The addresses to which a client pool holds a connection, in the order in
/// which they were made; the connection to an address sits at its position.
pub struct PoolIndex {
    addrs: Vec<String>,
}

impl View for PoolIndex {
    type V = Seq<Seq<char>>;

    closed spec fn view(&self) -> Seq<Seq<char>> {
        self.addrs@.map_values(|a: String| a@)
    }
}

impl PoolIndex {
    /// At most one connection per address.
    pub open spec fn wf(&self) -> bool {
        self@.no_duplicates()
    }

    /// A pool without connections.
    pub fn new() -> (r: PoolIndex)
        ensures
            r@ == Seq::<Seq<char>>::empty(),
            r.wf(),
    {
        let r = PoolIndex { addrs: Vec::new() };
        assert(r@ =~= Seq::<Seq<char>>::empty());
        r
    }

    /// The position of the connection to `addr`, if the pool holds one: where
    /// it does, a message to `addr` reuses it, and otherwise one is dialled.
    pub fn position(&self, addr: &str) -> (r: Option<usize>)
        ensures
            match r {
                Some(i) => i < self@.len() && self@[i as int] == addr@,
                None => !self@.contains(addr@),
            },
    {
        let mut i: usize = 0;
        while i < self.addrs.len()
            invariant
                i <= self.addrs@.len(),
                forall|j: int| 0 <= j < i ==> self@[j] != addr@,
            decreases self.addrs@.len() - i,
        {
            if str_eq(self.addrs[i].as_str(), addr) {
                return Some(i);
            }
            i = i + 1;
        }
        None
    }

    /// Records a new connection to `addr`, which the pool does not hold yet;
    /// it takes the last position, which is returned.
    pub fn add(&mut self, addr: &str) -> (r: usize)
        requires
            old(self).wf(),
            !old(self)@.contains(addr@),
        ensures
            final(self)@ == old(self)@.push(addr@),
            r == old(self)@.len(),
            final(self).wf(),
    {
        let r = self.addrs.len();
        self.addrs.push(addr.to_string());
        assert(self@ =~= old(self)@.push(addr@));
        r
    }

    /// Forgets the connection to `addr`, returning the position that it held;
    /// the later connections move down by one.
    pub fn remove(&mut self, addr: &str) -> (r: Option<usize>)
        requires
            old(self).wf(),
        ensures
            match r {
                Some(i) => i < old(self)@.len() && old(self)@[i as int] == addr@ && final(self)@
                    == old(self)@.remove(i as int),
                None => !old(self)@.contains(addr@) && final(self)@ == old(self)@,
            },
            !final(self)@.contains(addr@),
            final(self).wf(),
    {
        match self.position(addr) {
            None => None,
            Some(i) => {
                self.addrs.remove(i);
                assert(self@ =~= old(self)@.remove(i as int));
                proof {
                    assert forall|j: int| 0 <= j < self@.len() implies self@[j] != addr@ by {
                        if j < i {
                            assert(self@[j] == old(self)@[j]);
                        } else {
                            assert(self@[j] == old(self)@[j + 1]);
                        }
                    }
                }
                Some(i)
            },
        }
    }
}

} // verus!
