//! Operations and the state that replaying them leaves behind.

use vstd::prelude::*;
use vstd::relations::injective_on;
use vstd::set_lib::{lemma_int_range, lemma_map_size, set_int_range};

verus! {

/// One mutation of the key-value store, as recorded in the log.
#[derive(Debug)]
pub enum Operation {
    /// Inserts `key`, or overwrites its value.
    Put { key: String, value: Vec<u8> },
    /// Removes `key` if present; does nothing otherwise.
    Delete { key: String },
}

/// The effect of one operation on a mapping.
pub open spec fn apply(m: Map<Seq<char>, Seq<u8>>, op: Operation) -> Map<Seq<char>, Seq<u8>> {
    match op {
        Operation::Put { key, value } => m.insert(key@, value@),
        Operation::Delete { key } => m.remove(key@),
    }
}

/// The mapping that a sequence of operations leaves behind, applied left to
/// right from the empty mapping.
pub open spec fn fold_ops(ops: Seq<Operation>) -> Map<Seq<char>, Seq<u8>>
    decreases ops.len(),
{
    if ops.len() == 0 {
        Map::empty()
    } else {
        apply(fold_ops(ops.drop_last()), ops.last())
    }
}

/// Recovered state: a mapping from keys to values, held as a vector of
/// entries with distinct keys.
pub struct State {
    entries: Vec<(String, Vec<u8>)>,
    contents: Ghost<Map<Seq<char>, Seq<u8>>>,
}

impl View for State {
    type V = Map<Seq<char>, Seq<u8>>;

    closed spec fn view(&self) -> Map<Seq<char>, Seq<u8>> {
        self.contents@
    }
}

fn copy_bytes(v: &Vec<u8>) -> (r: Vec<u8>)
    ensures
        r@ == v@,
{
    let mut r: Vec<u8> = Vec::new();
    r.extend_from_slice(v.as_slice());
    assert(r@ =~= v@);
    r
}

impl State {
    /// Entries have distinct keys, and they hold exactly the mapping.
    pub closed spec fn wf(&self) -> bool {
        let e = self.entries@;
        let m = self.contents@;
        &&& forall|i: int, j: int|
            0 <= i < e.len() && 0 <= j < e.len() && i != j ==> #[trigger] e[i].0@ != #[trigger] e[j].0@
        &&& forall|i: int|
            0 <= i < e.len() ==> m.contains_key(#[trigger] e[i].0@) && m[e[i].0@] == e[i].1@
        &&& forall|k: Seq<char>|
            #[trigger] m.contains_key(k) ==> exists|i: int| 0 <= i < e.len() && e[i].0@ == k
    }

    /// The empty state.
    pub fn new() -> (r: State)
        ensures
            r.wf(),
            r@ == Map::<Seq<char>, Seq<u8>>::empty(),
    {
        State { entries: Vec::new(), contents: Ghost(Map::empty()) }
    }

    fn find(&self, key: &String) -> (r: Option<usize>)
        requires
            self.wf(),
        ensures
            match r {
                Some(i) => i < self.entries@.len() && self.entries@[i as int].0@ == key@,
                None => !self@.contains_key(key@),
            },
    {
        let mut i: usize = 0;
        while i < self.entries.len()
            invariant
                self.wf(),
                i <= self.entries@.len(),
                forall|j: int| 0 <= j < i ==> (#[trigger] self.entries@[j]).0@ != key@,
            decreases self.entries@.len() - i,
        {
            if self.entries[i].0 == *key {
                return Some(i);
            }
            i += 1;
        }
        None
    }

    /// Number of keys present.
    pub fn len(&self) -> (r: usize)
        requires
            self.wf(),
        ensures
            r == self@.len(),
    {
        proof {
            self.lemma_len();
        }
        self.entries.len()
    }

    /// Inserts `key` with `value`, replacing any earlier value.
    pub fn put(&mut self, key: String, value: Vec<u8>)
        requires
            old(self).wf(),
        ensures
            final(self).wf(),
            final(self)@ == old(self)@.insert(key@, value@),
    {
        let ghost k = key@;
        let ghost v = value@;
        match self.find(&key) {
            Some(i) => {
                self.entries.set(i, (key, value));
                self.contents = Ghost(self.contents@.insert(k, v));
                assert forall|k2: Seq<char>| #[trigger] self.contents@.contains_key(k2) implies exists|
                    j: int,
                | 0 <= j < self.entries@.len() && self.entries@[j].0@ == k2 by {
                    if k2 != k {
                        let j = choose|j: int|
                            0 <= j < old(self).entries@.len() && old(self).entries@[j].0@ == k2;
                        assert(self.entries@[j].0@ == k2);
                    } else {
                        assert(self.entries@[i as int].0@ == k2);
                    }
                }
            },
            None => {
                self.entries.push((key, value));
                self.contents = Ghost(self.contents@.insert(k, v));
                let ghost last: int = self.entries@.len() - 1;
                assert forall|k2: Seq<char>| #[trigger] self.contents@.contains_key(k2) implies exists|
                    j: int,
                | 0 <= j < self.entries@.len() && self.entries@[j].0@ == k2 by {
                    if k2 != k {
                        let j = choose|j: int|
                            0 <= j < old(self).entries@.len() && old(self).entries@[j].0@ == k2;
                        assert(self.entries@[j].0@ == k2);
                    } else {
                        assert(self.entries@[last].0@ == k2);
                    }
                }
            },
        }
    }

    /// Removes `key` if present; otherwise leaves the state as it is.
    pub fn delete(&mut self, key: &String)
        requires
            old(self).wf(),
        ensures
            final(self).wf(),
            final(self)@ == old(self)@.remove(key@),
    {
        match self.find(key) {
            Some(i) => {
                let ghost e = self.entries@;
                self.entries.remove(i);
                self.contents = Ghost(self.contents@.remove(key@));
                assert forall|j: int| 0 <= j < self.entries@.len() implies #[trigger] self.entries@[j]
                    == e[if j < i { j } else { j + 1 }] by {}
                assert forall|k2: Seq<char>| #[trigger] self.contents@.contains_key(k2) implies exists|
                    j: int,
                | 0 <= j < self.entries@.len() && self.entries@[j].0@ == k2 by {
                    let j = choose|j: int| 0 <= j < e.len() && e[j].0@ == k2;
                    assert(j != i);
                    if j < i {
                        assert(self.entries@[j].0@ == k2);
                    } else {
                        assert(self.entries@[j - 1].0@ == k2);
                    }
                }
                assert(self.contents@ =~= old(self)@.remove(key@));
            },
            None => {
                assert(self.contents@ =~= old(self)@.remove(key@));
            },
        }
    }

    /// The value of `key`, if present.
    pub fn get(&self, key: &String) -> (r: Option<&Vec<u8>>)
        requires
            self.wf(),
        ensures
            match r {
                Some(v) => self@.contains_key(key@) && v@ == self@[key@],
                None => !self@.contains_key(key@),
            },
    {
        match self.find(key) {
            Some(i) => Some(&self.entries[i].1),
            None => None,
        }
    }

    /// Hands out the entries, one per key, in no particular order.
    pub fn into_entries(self) -> (r: Vec<(String, Vec<u8>)>)
        requires
            self.wf(),
        ensures
            r@.len() == self@.len(),
            forall|i: int|
                0 <= i < r@.len() ==> self@.contains_key((#[trigger] r@[i]).0@) && self@[r@[i].0@]
                    == r@[i].1@,
            forall|i: int, j: int|
                0 <= i < r@.len() && 0 <= j < r@.len() && i != j ==> #[trigger] r@[i].0@
                    != #[trigger] r@[j].0@,
    {
        proof {
            self.lemma_len();
        }
        self.entries
    }

    proof fn lemma_len(&self)
        requires
            self.wf(),
        ensures
            self@.dom().len() == self.entries@.len(),
            self@.dom().finite(),
    {
        let e = self.entries@;
        let range = set_int_range(0, e.len() as int);
        let key_at = |i: int| e[i].0@;
        assert(self@.dom() =~= range.map(key_at)) by {
            assert forall|k: Seq<char>| #[trigger] self@.dom().contains(k) implies range.map(
                key_at,
            ).contains(k) by {
                let i = choose|i: int| 0 <= i < e.len() && e[i].0@ == k;
                assert(range.contains(i) && key_at(i) == k);
            }
        }
        lemma_int_range(0, e.len() as int);
        assert(injective_on(key_at, range));
        lemma_map_size(range, self@.dom(), key_at);
    }
}

/// Replays recovered operations, in order, into the state they leave behind.
pub fn recover_state(ops: &Vec<Operation>) -> (r: State)
    ensures
        r.wf(),
        r@ == fold_ops(ops@),
{
    let mut state = State::new();
    let mut i: usize = 0;
    while i < ops.len()
        invariant
            i <= ops@.len(),
            state.wf(),
            state@ == fold_ops(ops@.take(i as int)),
        decreases ops@.len() - i,
    {
        proof {
            let next = ops@.take(i + 1);
            assert(next.drop_last() =~= ops@.take(i as int));
            assert(next.last() == ops@[i as int]);
        }
        match &ops[i] {
            Operation::Put { key, value } => {
                state.put(key.clone(), copy_bytes(value));
            },
            Operation::Delete { key } => {
                state.delete(key);
            },
        }
        i += 1;
    }
    assert(ops@.take(ops@.len() as int) =~= ops@);
    state
}

} // verus!
