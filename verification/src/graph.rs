//! The dependency graph: which files each file includes directly.
//!
//! Entries are kept in the order in which they were added, and no file has
//! two entries. The first entry written for a file stays.
use vstd::prelude::*;
use crate::closure::{
    closure, lemma_closure_is_reachable_set, lemma_visit_shrinks, reaches, unvisited, walk,
    Includes, Name,
};
use crate::text::{contains_text, texts};

verus! {

struct Entry {
    file: String,
    includes: Vec<String>,
}

/// A mapping from a project-relative file to the files it includes directly.
pub struct DependencyMap {
    entries: Vec<Entry>,
}

impl View for DependencyMap {
    type V = Includes;

    /// The direct includes of each file that has an entry.
    open spec fn view(&self) -> Includes {
        Map::new(
            |file: Name| self.keys().contains(file),
            |file: Name| self.lists()[self.keys().index_of(file)],
        )
    }
}

impl DependencyMap {
    /// The files that have an entry, in the order in which they were added.
    pub closed spec fn keys(&self) -> Seq<Name> {
        Seq::new(self.entries@.len(), |i: int| self.entries@[i].file@)
    }

    /// The direct includes of each entry, in the order of `keys`.
    pub closed spec fn lists(&self) -> Seq<Seq<Name>> {
        Seq::new(self.entries@.len(), |i: int| texts(self.entries@[i].includes@))
    }

    /// No file has two entries.
    #[verifier::type_invariant]
    pub closed spec fn wf(&self) -> bool {
        self.keys().no_duplicates()
    }

    /// What being well formed means for the keys, the lists and the view.
    pub proof fn lemma_wf(&self)
        requires
            self.wf(),
        ensures
            self.keys().no_duplicates(),
            self.lists().len() == self.keys().len(),
            self@.dom().finite(),
            self@.dom() == self.keys().to_set(),
            forall|i: int|
                0 <= i < self.keys().len() ==> self@.dom().contains(#[trigger] self.keys()[i])
                    && self@[self.keys()[i]] == self.lists()[i],
    {
        assert(self@.dom() =~= self.keys().to_set());
        vstd::seq_lib::seq_to_set_is_finite(self.keys());
        assert forall|i: int| 0 <= i < self.keys().len() implies self@.dom().contains(
            #[trigger] self.keys()[i],
        ) && self@[self.keys()[i]] == self.lists()[i] by {
            let k = self.keys()[i];
            assert(self.keys().contains(k));
            let j = self.keys().index_of(k);
            assert(self.keys()[j] == k);
        }
    }

    /// A graph without entries.
    pub fn new() -> (out: Self)
        ensures
            out.keys() == Seq::<Name>::empty(),
            out.lists() == Seq::<Seq<Name>>::empty(),
    {
        let out = DependencyMap { entries: Vec::new() };
        assert(out.keys() =~= Seq::<Name>::empty());
        assert(out.lists() =~= Seq::<Seq<Name>>::empty());
        out
    }

    /// The number of entries.
    pub fn len(&self) -> (n: usize)
        ensures
            n == self.keys().len(),
    {
        self.entries.len()
    }

    /// The file of the entry at `index`.
    pub fn file(&self, index: usize) -> (out: &String)
        requires
            index < self.keys().len(),
        ensures
            out@ == self.keys()[index as int],
    {
        &self.entries[index].file
    }

    /// The direct includes of the entry at `index`.
    pub fn includes(&self, index: usize) -> (out: &Vec<String>)
        requires
            index < self.keys().len(),
        ensures
            texts(out@) == self.lists()[index as int],
    {
        &self.entries[index].includes
    }

    /// The position of the entry of `file`, if it has one.
    pub fn position(&self, file: &String) -> (out: Option<usize>)
        ensures
            match out {
                Some(index) => index < self.keys().len() && self.keys()[index as int] == file@,
                None => !self.keys().contains(file@),
            },
    {
        let mut i: usize = 0;
        while i < self.entries.len()
            invariant
                i <= self.entries.len(),
                forall|j: int| 0 <= j < i ==> self.keys()[j] != file@,
            decreases self.entries.len() - i,
        {
            if self.entries[i].file == *file {
                return Some(i);
            }
            i = i + 1;
        }
        None
    }

    /// Whether `file` has an entry.
    pub fn contains_key(&self, file: &String) -> (yes: bool)
        ensures
            yes == self@.dom().contains(file@),
    {
        self.position(file).is_some()
    }

    /// The direct includes of `file`, if it has an entry.
    pub fn get(&self, file: &String) -> (out: Option<&Vec<String>>)
        ensures
            match out {
                Some(list) => self@.dom().contains(file@) && texts(list@) == self@[file@],
                None => !self@.dom().contains(file@),
            },
    {
        proof {
            use_type_invariant(self);
            self.lemma_wf();
        }
        match self.position(file) {
            Some(index) => Some(&self.entries[index].includes),
            None => None,
        }
    }

    /// Adds an entry for `file` unless it has one, and says whether it did.
    pub fn insert(&mut self, file: String, includes: Vec<String>) -> (added: bool)
        ensures
            added == !old(self)@.dom().contains(file@),
            added ==> final(self).keys() == old(self).keys().push(file@) && final(self).lists()
                == old(self).lists().push(texts(includes@)) && final(self)@ == old(self)@.insert(
                file@,
                texts(includes@),
            ),
            !added ==> final(self).keys() == old(self).keys() && final(self).lists() == old(
                self,
            ).lists() && final(self)@ == old(self)@,
    {
        proof {
            use_type_invariant(&*self);
            self.lemma_wf();
        }
        if self.position(&file).is_some() {
            return false;
        }
        let ghost before = *self;
        let ghost added_file = file@;
        let ghost added_list = texts(includes@);
        let mut taken = DependencyMap { entries: Vec::new() };
        assert(taken.keys() =~= Seq::<Name>::empty());
        std::mem::swap(self, &mut taken);
        let mut entries = taken.entries;
        entries.push(Entry { file, includes });
        proof {
            let next = DependencyMap { entries };
            assert(next.keys() =~= before.keys().push(added_file));
        }
        *self = DependencyMap { entries };
        proof {
            assert(self.keys() =~= before.keys().push(added_file));
            assert(self.lists() =~= before.lists().push(added_list));
            assert(self.keys().no_duplicates());
            self.lemma_wf();
            assert forall|f: Name| self@.dom().contains(f) implies #[trigger] self@[f]
                == before@.insert(added_file, added_list)[f] by {
                let i = self.keys().index_of(f);
                assert(self.keys().contains(f));
                assert(self.keys()[i] == f);
                if i < before.keys().len() {
                    assert(before.keys()[i] == f);
                    assert(before@[before.keys()[i]] == before.lists()[i]);
                }
            }
            assert(self@.dom() =~= before@.insert(added_file, added_list).dom()) by {
                assert forall|f: Name| self@.dom().contains(f) <==> before@.insert(
                    added_file,
                    added_list,
                ).dom().contains(f) by {
                    if self.keys().contains(f) {
                        let i = self.keys().index_of(f);
                        assert(self.keys()[i] == f);
                        if i < before.keys().len() {
                            assert(before.keys()[i] == f);
                        }
                    }
                    if before.keys().contains(f) {
                        let i = before.keys().index_of(f);
                        assert(before.keys()[i] == f);
                        assert(self.keys()[i] == f);
                    }
                    if f == added_file {
                        assert(self.keys()[before.keys().len() as int] == f);
                    }
                }
            }
            assert(self@ =~= before@.insert(added_file, added_list));
        }
        true
    }

    /// The dependency closure of `file`: the file itself, then the files it
    /// includes directly or through other files, in depth-first order. It
    /// holds exactly the files that `file` reaches, each once, whatever
    /// cycles the includes form; it is empty where `file` has no entry.
    pub fn closure_of(&self, file: &String) -> (out: Vec<String>)
        ensures
            texts(out@) == closure(self@, file@),
            texts(out@).no_duplicates(),
            forall|x: Name| #[trigger] texts(out@).contains(x) <==> reaches(self@, file@, x),
    {
        proof {
            use_type_invariant(self);
            self.lemma_wf();
            lemma_closure_is_reachable_set(self@, file@);
        }
        let mut out: Vec<String> = Vec::new();
        let mut seen: Vec<String> = Vec::new();
        // The file to visit next is the last of `stack`.
        let mut stack: Vec<String> = Vec::new();
        stack.push(file.clone());
        let ghost mut pending: Seq<Name> = seq![file@];
        let ghost mut marked: Set<Name> = Set::empty();
        assert(texts(out@) + walk(self@, pending, marked) =~= closure(self@, file@));
        while stack.len() > 0
            invariant
                self.wf(),
                self@.dom().finite(),
                stack.len() == pending.len(),
                forall|k: int|
                    0 <= k < stack.len() ==> (#[trigger] stack@[k])@ == pending[pending.len() - 1
                        - k],
                forall|x: Name| marked.contains(x) <==> texts(seen@).contains(x),
                closure(self@, file@) == texts(out@) + walk(self@, pending, marked),
            decreases unvisited(self@, marked).len(), pending.len(),
        {
            let ghost before = pending;
            let ghost listed = texts(out@);
            let ghost full = stack@;
            let node = stack.pop().unwrap();
            proof {
                assert(full[full.len() - 1]@ == before[0]);
                pending = before.drop_first();
                assert forall|k: int| 0 <= k < stack.len() implies (#[trigger] stack@[k])@
                    == pending[pending.len() - 1 - k] by {
                    assert(stack@[k] == full[k]);
                    assert(pending[pending.len() - 1 - k] == before[before.len() - 1 - k]);
                }
            }
            if contains_text(&seen, &node) {
                assert(walk(self@, before, marked) == walk(self@, pending, marked));
            } else {
                match self.position(&node) {
                    None => {
                        proof {
                            self.lemma_wf();
                            assert(walk(self@, before, marked) == walk(self@, pending, marked));
                        }
                    },
                    Some(index) => {
                        proof {
                            self.lemma_wf();
                            assert(self@.dom().contains(self.keys()[index as int]));
                            lemma_visit_shrinks(self@, marked, node@);
                        }
                        let list = &self.entries[index].includes;
                        let ghost rest = pending;
                        let ghost direct = texts(list@);
                        assert(direct == self@[node@]);
                        let ghost base = stack@;
                        let mut j: usize = list.len();
                        while j > 0
                            invariant
                                j <= list.len(),
                                direct == texts(list@),
                                stack.len() == base.len() + (list.len() - j),
                                forall|i: int| 0 <= i < base.len() ==> stack@[i] == base[i],
                                forall|k: int|
                                    base.len() <= k < stack.len() ==> (#[trigger] stack@[k])@
                                        == direct[base.len() + list.len() - 1 - k],
                            decreases j,
                        {
                            j = j - 1;
                            stack.push(list[j].clone());
                        }
                        proof {
                            pending = direct + rest;
                            assert forall|k: int| 0 <= k < stack.len() implies (
                            #[trigger] stack@[k])@ == pending[pending.len() - 1 - k] by {
                                if k < base.len() {
                                    assert(stack@[k] == base[k]);
                                    assert(base[k]@ == rest[rest.len() - 1 - k]);
                                    assert(pending[pending.len() - 1 - k] == rest[rest.len() - 1
                                        - k]);
                                } else {
                                    assert(pending[pending.len() - 1 - k] == direct[base.len()
                                        + list.len() - 1 - k]);
                                }
                            }
                        }
                        let ghost seen_before = texts(seen@);
                        seen.push(node.clone());
                        out.push(node);
                        proof {
                            let name = self.keys()[index as int];
                            assert(texts(seen@) =~= seen_before.push(name));
                            assert(texts(out@) =~= listed.push(name));
                            let grown = marked.insert(name);
                            assert forall|x: Name| grown.contains(x) <==> texts(seen@).contains(
                                x,
                            ) by {
                                if seen_before.contains(x) {
                                    let k = choose|k: int|
                                        0 <= k < seen_before.len() && seen_before[k] == x;
                                    assert(texts(seen@)[k] == x);
                                }
                                if x == name {
                                    assert(texts(seen@)[seen_before.len() as int] == x);
                                }
                                if texts(seen@).contains(x) {
                                    let k = choose|k: int|
                                        0 <= k < texts(seen@).len() && texts(seen@)[k] == x;
                                    if k < seen_before.len() {
                                        assert(seen_before[k] == x);
                                    }
                                }
                            }
                            assert(walk(self@, before, marked) == seq![name] + walk(
                                self@,
                                pending,
                                grown,
                            ));
                            assert(listed + (seq![name] + walk(self@, pending, grown))
                                =~= listed.push(name) + walk(self@, pending, grown));
                            marked = grown;
                        }
                    },
                }
            }
        }
        assert(walk(self@, pending, marked) =~= Seq::<Name>::empty());
        assert(texts(out@) + Seq::<Name>::empty() =~= texts(out@));
        out
    }
}

} // verus!
