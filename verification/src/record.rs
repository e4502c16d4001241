use crate::assoc::assoc_map;
use crate::assoc::distinct_keys;
use crate::assoc::lemma_assoc_at;
use crate::assoc::lemma_assoc_contains;
use crate::assoc::lemma_assoc_len;
use crate::assoc::lemma_assoc_push_fresh;
use crate::assoc::lemma_assoc_remove;
use crate::assoc::lemma_assoc_update;
use crate::text::str_eq;
use crate::value::clone_entries;
use crate::value::lemma_pairs_view;
use crate::value::pairs_view;
use crate::value::Value;
use crate::value::ValueView;
use vstd::prelude::*;

verus! {

/// A log entry on its way through the pipeline, and also the argument list a
/// module is built from: an ordered string-to-value mapping with one entry
/// per field name. Keys are case-sensitive.
#[derive(Debug)]
pub struct Record {
    entries: Vec<(String, Value)>,
}

/// The arguments a module receives from the configuration.
pub type ModuleArgs = Record;

impl Record {
    /// The fields in order, as model pairs.
    pub closed spec fn fields(self) -> Seq<(Seq<char>, ValueView)> {
        pairs_view(self.entries@)
    }

    /// Each field name occurs once.
    pub open spec fn wf(self) -> bool {
        distinct_keys(self.fields())
    }

    pub fn new() -> (r: Record)
        ensures
            r.wf(),
            r@ == Map::<Seq<char>, ValueView>::empty(),
            r.fields().len() == 0,
    {
        let r = Record { entries: Vec::new() };
        proof {
            lemma_pairs_view(r.entries@);
            assert(r.fields() =~= Seq::<(Seq<char>, ValueView)>::empty());
        }
        r
    }

    /// The index of the entry holding `key`, if any.
    fn find_idx(&self, key: &str) -> (r: Option<usize>)
        ensures
            match r {
                Some(i) => i < self.fields().len() && self.fields()[i as int].0 == key@,
                None => forall|j: int| 0 <= j < self.fields().len() ==> self.fields()[j].0 != key@,
            },
    {
        proof {
            lemma_pairs_view(self.entries@);
        }
        let mut i: usize = 0;
        while i < self.entries.len()
            invariant
                i <= self.entries@.len(),
                self.fields().len() == self.entries@.len(),
                forall|j: int|
                    0 <= j < self.entries@.len() ==> #[trigger] self.fields()[j] == (
                        self.entries@[j].0@,
                        crate::value::val_view(self.entries@[j].1),
                    ),
                forall|j: int| 0 <= j < i ==> self.fields()[j].0 != key@,
            decreases self.entries@.len() - i,
        {
            if str_eq(self.entries[i].0.as_str(), key) {
                return Some(i);
            }
            i = i + 1;
        }
        None
    }

    /// Looks a field up by name.
    pub fn get(&self, key: &str) -> (r: Option<&Value>)
        requires
            self.wf(),
        ensures
            match r {
                Some(v) => self@.contains_key(key@) && v@ == self@[key@],
                None => !self@.contains_key(key@),
            },
    {
        proof {
            lemma_pairs_view(self.entries@);
            lemma_assoc_contains(self.fields(), key@);
        }
        match self.find_idx(key) {
            Some(i) => {
                proof {
                    lemma_assoc_at(self.fields(), i as int);
                }
                Some(&self.entries[i].1)
            },
            None => None,
        }
    }

    /// Whether a field of that name exists.
    pub fn contains_key(&self, key: &str) -> (r: bool)
        requires
            self.wf(),
        ensures
            r == self@.contains_key(key@),
    {
        match self.get(key) {
            Some(_) => true,
            None => false,
        }
    }

    /// Sets a field, replacing an existing entry of the same name.
    pub fn insert(&mut self, key: String, value: Value)
        requires
            old(self).wf(),
        ensures
            final(self).wf(),
            final(self)@ == old(self)@.insert(key@, value@),
    {
        proof {
            lemma_pairs_view(self.entries@);
        }
        let idx = self.find_idx(key.as_str());
        match idx {
            Some(i) => {
                proof {
                    lemma_assoc_update(self.fields(), i as int, key@, value@);
                }
                self.entries.remove(i);
                self.entries.push((key, value));
                proof {
                    lemma_pairs_view(self.entries@);
                    lemma_pairs_view(old(self).entries@);
                    assert(self.fields() =~= old(self).fields().remove(i as int).push(
                        (key@, value@),
                    ));
                }
            },
            None => {
                proof {
                    lemma_assoc_push_fresh(self.fields(), key@, value@);
                }
                self.entries.push((key, value));
                proof {
                    lemma_pairs_view(self.entries@);
                    lemma_pairs_view(old(self).entries@);
                    assert(self.fields() =~= old(self).fields().push((key@, value@)));
                }
            },
        }
    }

    /// Takes a field out, returning its value.
    pub fn remove(&mut self, key: &str) -> (r: Option<Value>)
        requires
            old(self).wf(),
        ensures
            final(self).wf(),
            final(self)@ == old(self)@.remove(key@),
            match r {
                Some(v) => old(self)@.contains_key(key@) && v@ == old(self)@[key@],
                None => !old(self)@.contains_key(key@) && final(self)@ == old(self)@,
            },
    {
        proof {
            lemma_pairs_view(self.entries@);
            lemma_assoc_contains(self.fields(), key@);
        }
        match self.find_idx(key) {
            Some(i) => {
                proof {
                    lemma_assoc_at(self.fields(), i as int);
                    lemma_assoc_remove(self.fields(), i as int);
                }
                let (_k, v) = self.entries.remove(i);
                proof {
                    lemma_pairs_view(self.entries@);
                    lemma_pairs_view(old(self).entries@);
                    assert(self.fields() =~= old(self).fields().remove(i as int));
                }
                Some(v)
            },
            None => {
                proof {
                    assert(final(self)@ =~= old(self)@.remove(key@));
                }
                None
            },
        }
    }

    /// The number of fields.
    pub fn len(&self) -> (r: usize)
        requires
            self.wf(),
        ensures
            r == self@.dom().len(),
    {
        proof {
            lemma_pairs_view(self.entries@);
            lemma_assoc_len(self.fields());
        }
        self.entries.len()
    }

}

impl View for Record {
    type V = Map<Seq<char>, ValueView>;

    open spec fn view(&self) -> Map<Seq<char>, ValueView> {
        assoc_map(self.fields())
    }
}

impl Clone for Record {
    /// A deep copy with the same fields.
    fn clone(&self) -> (r: Record)
        ensures
            r.fields() == self.fields(),
            r@ == self@,
            r.wf() == self.wf(),
    {
        Record { entries: clone_entries(&self.entries) }
    }
}

} // verus!
