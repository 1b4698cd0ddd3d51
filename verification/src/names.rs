//! A set of names (aliases, folder ids), kept as a list without repeats.

use vstd::prelude::*;
use crate::text::string_views;

verus! {

/// A finite set of strings, compared by their characters.
pub struct Names {
    items: Vec<String>,
}

impl View for Names {
    type V = Set<Seq<char>>;

    closed spec fn view(&self) -> Set<Seq<char>> {
        string_views(self.items@).to_set()
    }
}

impl Names {
    #[verifier::type_invariant]
    closed spec fn no_repeats(self) -> bool {
        string_views(self.items@).no_duplicates()
    }

    /// The set as a list: each member exactly once.
    pub closed spec fn members(self) -> Seq<Seq<char>> {
        string_views(self.items@)
    }

    pub fn new() -> (out: Names)
        ensures
            out@ == Set::<Seq<char>>::empty(),
    {
        let out = Names { items: Vec::new() };
        assert(string_views(out.items@).to_set() =~= Set::<Seq<char>>::empty());
        out
    }

    fn position(&self, s: &str) -> (out: Option<usize>)
        ensures
            match out {
                Some(i) => i < self.members().len() && self.members()[i as int] == s@,
                None => !self@.contains(s@),
            },
    {
        let target = String::from_str(s);
        let mut i: usize = 0;
        while i < self.items.len()
            invariant
                i <= self.items.len(),
                target@ == s@,
                forall|j: int| 0 <= j < i ==> (#[trigger] self.items@[j])@ != s@,
            decreases self.items.len() - i,
        {
            if self.items[i] == target {
                return Some(i);
            }
            i = i + 1;
        }
        proof {
            if string_views(self.items@).to_set().contains(s@) {
                let k = choose|k: int| 0 <= k < string_views(self.items@).len() && string_views(self.items@)[k] == s@;
                assert(self.items@[k]@ == s@);
            }
        }
        None
    }

    pub fn contains(&self, s: &str) -> (b: bool)
        ensures
            b == self@.contains(s@),
    {
        match self.position(s) {
            Some(i) => {
                assert(string_views(self.items@).to_set().contains(string_views(self.items@)[i as int]));
                true
            },
            None => false,
        }
    }

    /// Adds `s`; true when it was not there before.
    pub fn insert(&mut self, s: String) -> (added: bool)
        ensures
            final(self)@ == old(self)@.insert(s@),
            added == !old(self)@.contains(s@),
    {
        proof {
            use_type_invariant(&*self);
        }
        if self.contains(s.as_str()) {
            assert(self@.insert(s@) =~= self@);
            return false;
        }
        let ghost before = self.items@;
        let mut items: Vec<String> = Vec::new();
        std::mem::swap(&mut items, &mut self.items);
        items.push(s);
        assert(string_views(items@) =~= string_views(before).push(s@));
        proof {
            Seq::lemma_to_set_insert_commutes(string_views(before), s@);
            assert(string_views(before).push(s@) =~= string_views(before) + seq![s@]);
            assert forall|i: int, j: int| 0 <= i < j < string_views(items@).len() implies string_views(items@)[i]
                != string_views(items@)[j] by {
                if j == string_views(items@).len() - 1 {
                    assert(string_views(before).to_set().contains(string_views(before)[i]));
                }
            }
        }
        self.items = items;
        true
    }

    /// Removes `s`; true when it was there.
    pub fn remove(&mut self, s: &str) -> (removed: bool)
        ensures
            final(self)@ == old(self)@.remove(s@),
            removed == old(self)@.contains(s@),
    {
        proof {
            use_type_invariant(&*self);
        }
        match self.position(s) {
            None => {
                assert(self@.remove(s@) =~= self@);
                false
            },
            Some(i) => {
                let ghost before = string_views(self.items@);
                let mut items: Vec<String> = Vec::new();
                std::mem::swap(&mut items, &mut self.items);
                items.remove(i);
                assert(string_views(items@) =~= before.remove(i as int));
                proof {
                    assert(before.to_set().contains(before[i as int]));
                    assert forall|x: Seq<char>| #[trigger] string_views(items@).to_set().contains(x) <==> before.to_set().remove(s@).contains(x) by {
                        if string_views(items@).to_set().contains(x) {
                            let k = choose|k: int| 0 <= k < string_views(items@).len() && string_views(items@)[k] == x;
                            if k < i {
                                assert(before[k] == x);
                            } else {
                                assert(before[k + 1] == x);
                            }
                        }
                        if before.to_set().remove(s@).contains(x) {
                            let k = choose|k: int| 0 <= k < before.len() && before[k] == x;
                            assert(k != i);
                            if k < i {
                                assert(string_views(items@)[k] == x);
                            } else {
                                assert(string_views(items@)[k - 1] == x);
                            }
                        }
                    }
                    assert(string_views(items@).to_set() =~= before.to_set().remove(s@));
                }
                self.items = items;
                true
            },
        }
    }

    pub fn len(&self) -> (n: usize)
        ensures
            n == self@.len(),
    {
        proof {
            use_type_invariant(self);
            self.members().unique_seq_to_set();
        }
        self.items.len()
    }

    /// The members as a list, each once.
    pub fn to_vec(&self) -> (out: Vec<String>)
        ensures
            string_views(out@) == self.members(),
            self.members().no_duplicates(),
            self.members().to_set() == self@,
    {
        proof {
            use_type_invariant(self);
        }
        let mut out: Vec<String> = Vec::new();
        let mut i: usize = 0;
        while i < self.items.len()
            invariant
                i <= self.items.len(),
                string_views(out@) == string_views(self.items@).take(i as int),
            decreases self.items.len() - i,
        {
            let ghost before = out@;
            out.push(self.items[i].clone());
            assert(string_views(out@) =~= string_views(before).push(self.items@[i as int]@));
            assert(string_views(self.items@).take(i + 1) =~= string_views(self.items@).take(i as int).push(
                self.items@[i as int]@,
            ));
            i = i + 1;
        }
        assert(string_views(self.items@).take(self.items.len() as int) =~= string_views(self.items@));
        out
    }

    /// The set of the strings in `v`.
    pub fn from_vec(v: Vec<String>) -> (out: Names)
        ensures
            out@ == string_views(v@).to_set(),
    {
        let mut out = Names::new();
        let mut i: usize = 0;
        while i < v.len()
            invariant
                i <= v.len(),
                out@ == string_views(v@).take(i as int).to_set(),
            decreases v.len() - i,
        {
            out.insert(v[i].clone());
            proof {
                assert(string_views(v@).take(i + 1) =~= string_views(v@).take(i as int).push(v@[i as int]@));
                Seq::lemma_to_set_insert_commutes(string_views(v@).take(i as int), v@[i as int]@);
                assert(string_views(v@).take(i as int).push(v@[i as int]@) =~= string_views(v@).take(i as int)
                    + seq![v@[i as int]@]);
            }
            i = i + 1;
        }
        assert(string_views(v@).take(v.len() as int) =~= string_views(v@));
        out
    }
}

} // verus!
