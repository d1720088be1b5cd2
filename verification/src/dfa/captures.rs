//! The headers a parser captures.

use crate::text::same_bytes;
use crate::MatchId;
use vstd::prelude::*;

verus! {

/// The match id of every header captured so far, by the bytes of its name, so
/// that a header asked for twice is captured once.
pub struct Captures {
    names: Vec<(Vec<u8>, MatchId)>,
}

/// The match ids a list of names spells out.
pub open spec fn ids_of(names: Seq<(Vec<u8>, MatchId)>) -> Map<Seq<u8>, MatchId>
    decreases names.len(),
{
    if names.len() == 0 {
        Map::empty()
    } else {
        ids_of(names.drop_last()).insert(names.last().0@, names.last().1)
    }
}

/// The match id of a name is not among those of other names.
proof fn lemma_ids_of(names: Seq<(Vec<u8>, MatchId)>, n: int, name: Seq<u8>)
    requires
        0 <= n <= names.len(),
        forall|i: int| n <= i < names.len() ==> (#[trigger] names[i]).0@ != name,
    ensures
        ids_of(names).contains_key(name) == ids_of(names.take(n)).contains_key(name),
        ids_of(names).contains_key(name) ==> ids_of(names)[name] == ids_of(names.take(n))[name],
    decreases names.len(),
{
    if n < names.len() {
        let rest = names.drop_last();
        assert(names[names.len() - 1].0@ != name);
        assert forall|i: int| n <= i < rest.len() implies (#[trigger] rest[i]).0@ != name by {
            assert(names[i].0@ != name);
        }
        lemma_ids_of(rest, n, name);
        assert(rest.take(n) =~= names.take(n));
    } else {
        assert(names.take(n) =~= names);
    }
}

impl View for Captures {
    type V = Map<Seq<u8>, MatchId>;

    closed spec fn view(&self) -> Map<Seq<u8>, MatchId> {
        ids_of(self.names@)
    }
}

impl Captures {
    /// Returns no captures.
    pub fn new() -> (r: Captures)
        ensures
            r@ == Map::<Seq<u8>, MatchId>::empty(),
    {
        Captures { names: Vec::new() }
    }

    /// Returns the match id of the header, if it is captured.
    pub fn get(&self, name: &[u8]) -> (r: Option<MatchId>)
        ensures
            match r {
                Some(mid) => self@.contains_key(name@) && self@[name@] == mid,
                None => !self@.contains_key(name@),
            },
    {
        let mut n: usize = self.names.len();
        while n > 0
            invariant
                n <= self.names@.len(),
                forall|i: int| n <= i < self.names@.len() ==> (#[trigger] self.names@[i]).0@ != name@,
            decreases n,
        {
            n -= 1;
            if same_bytes(self.names[n].0.as_slice(), name) {
                proof {
                    lemma_ids_of(self.names@, n + 1, name@);
                    let upto = self.names@.take(n + 1);
                    assert(upto.last() == self.names@[n as int]);
                }
                return Some(self.names[n].1);
            }
        }
        proof {
            lemma_ids_of(self.names@, 0, name@);
            assert(self.names@.take(0) =~= Seq::empty());
        }
        None
    }

    /// Captures the header under `mid`.
    pub fn insert(&mut self, name: Vec<u8>, mid: MatchId)
        ensures
            final(self)@ == old(self)@.insert(name@, mid),
    {
        let ghost before = self.names@;
        self.names.push((name, mid));
        assert(self.names@.drop_last() =~= before);
    }
}

} // verus!
