//! The dependency map: for each root file, the files that have to change with it.

use vstd::prelude::*;
use crate::document::{
    canonical, dependent_list, edges_of, has_root, lemma_canonical_edges, lemma_entry_dependents,
    lemma_no_root_no_dependents, lemma_register_edges, lemma_register_well_formed, register,
    root_index, well_formed,
};
use crate::paths::{append_new_paths, clone_paths};

verus! {

/// A dependency map. It keeps its roots in the order in which they were first
/// registered, and for each root its dependents in the order in which they were.
#[derive(Debug)]
pub struct Mapping {
    file_mapping: Vec<(String, Vec<String>)>,
}

impl View for Mapping {
    type V = Map<Seq<char>, Set<Seq<char>>>;

    /// The edges: each root with the set of its dependents.
    open spec fn view(&self) -> Map<Seq<char>, Set<Seq<char>>> {
        edges_of(self.entries())
    }
}

impl Mapping {
    /// The entries: each root with the list of its dependents.
    pub closed spec fn entries(&self) -> Seq<(Seq<char>, Seq<Seq<char>>)> {
        self.file_mapping.deep_view()
    }

    /// No root has two entries and no entry lists a dependent twice.
    #[verifier::type_invariant]
    pub open spec fn wf(&self) -> bool {
        well_formed(self.entries())
    }

    /// The dependents of `root`: none where it is no root of the map.
    pub open spec fn dependents_of(&self, root: Seq<char>) -> Set<Seq<char>> {
        if self@.contains_key(root) {
            self@[root]
        } else {
            Set::empty()
        }
    }

    /// The map that a store gives: an empty one where the store held no document
    /// yet, else what the document says, a root or a dependent that it names more
    /// than once taken once. The flag tells whether the map has to be written to
    /// the store at once, which is so where there was no document.
    pub fn new(stored: Option<Vec<(String, Vec<String>)>>) -> (loaded: (Mapping, bool))
        ensures
            stored matches Some(doc) ==> {
                &&& loaded.0.entries() == canonical(doc.deep_view())
                &&& loaded.0@ == edges_of(doc.deep_view())
                &&& !loaded.1
            },
            stored is None ==> {
                &&& loaded.0.entries() == Seq::<(Seq<char>, Seq<Seq<char>>)>::empty()
                &&& loaded.0@ == Map::<Seq<char>, Set<Seq<char>>>::empty()
                &&& loaded.1
            },
    {
        let mut edges: Vec<(String, Vec<String>)> = Vec::new();
        match stored {
            None => (Mapping { file_mapping: edges }, true),
            Some(doc) => {
                let mut k: usize = 0;
                while k < doc.len()
                    invariant
                        k <= doc.len(),
                        well_formed(edges.deep_view()),
                        edges.deep_view() == canonical(doc.deep_view().take(k as int)),
                    decreases doc.len() - k,
                {
                    proof {
                        let seen = doc.deep_view().take(k + 1);
                        assert(seen.drop_last() =~= doc.deep_view().take(k as int));
                        assert(seen.last().1.skip(0) =~= seen.last().1);
                    }
                    register_in(&mut edges, &doc[k].0, &doc[k].1, 0);
                    k += 1;
                }
                proof {
                    assert(doc.deep_view().take(k as int) =~= doc.deep_view());
                    lemma_canonical_edges(doc.deep_view());
                }
                (Mapping { file_mapping: edges }, false)
            },
        }
    }

    /// The document to write to the store: every entry of the map, in its order.
    pub fn save(&self) -> (doc: Vec<(String, Vec<String>)>)
        ensures
            doc.deep_view() == self.entries(),
            edges_of(doc.deep_view()) == self@,
    {
        let mut doc: Vec<(String, Vec<String>)> = Vec::new();
        let mut i: usize = 0;
        while i < self.file_mapping.len()
            invariant
                i <= self.file_mapping.len(),
                doc.deep_view() == self.file_mapping.deep_view().take(i as int),
            decreases self.file_mapping.len() - i,
        {
            let ghost before = doc.deep_view();
            let root = self.file_mapping[i].0.clone();
            let dependents = clone_paths(&self.file_mapping[i].1);
            doc.push((root, dependents));
            assert(doc.deep_view() =~= before.push(self.file_mapping.deep_view()[i as int]));
            i += 1;
        }
        assert(self.file_mapping.deep_view().take(i as int) =~= self.file_mapping.deep_view());
        doc
    }

    /// The dependents of `root` in the order in which they were registered, or
    /// `None` where `root` is not a root of the map.
    pub fn dependents(&self, root: &String) -> (list: Option<&Vec<String>>)
        ensures
            list is Some <==> self@.contains_key(root@),
            list matches Some(found) ==> {
                &&& found.deep_view() == dependent_list(self.entries(), root@)
                &&& found.deep_view().to_set() == self@[root@]
                &&& found.deep_view().no_duplicates()
            },
    {
        proof {
            use_type_invariant(self);
        }
        let i = find_root(&self.file_mapping, root);
        if i < self.file_mapping.len() {
            proof {
                lemma_entry_dependents(self.entries(), i as int);
            }
            Some(&self.file_mapping[i].1)
        } else {
            None
        }
    }

    /// Registers `files[1..]` as dependents of the root `files[0]`. Dependents
    /// that the root already has are left as they are.
    pub fn update(&mut self, files: Vec<String>)
        requires
            files.len() >= 2,
        ensures
            final(self).entries() == register(
                old(self).entries(),
                files[0]@,
                files.deep_view().skip(1),
            ),
            final(self)@ == old(self)@.insert(
                files[0]@,
                old(self).dependents_of(files[0]@).union(files.deep_view().skip(1).to_set()),
            ),
    {
        proof {
            use_type_invariant(&*self);
            lemma_register_edges(self.entries(), files[0]@, files.deep_view().skip(1));
            if !has_root(self.entries(), files[0]@) {
                lemma_no_root_no_dependents(self.entries(), files[0]@);
            }
        }
        let mut edges: Vec<(String, Vec<String>)> = Vec::new();
        std::mem::swap(&mut self.file_mapping, &mut edges);
        register_in(&mut edges, &files[0], &files, 1);
        self.file_mapping = edges;
    }
}

impl Default for Mapping {
    /// A map without edges.
    fn default() -> (empty: Mapping)
        ensures
            empty.entries() == Seq::<(Seq<char>, Seq<Seq<char>>)>::empty(),
            empty@ == Map::<Seq<char>, Set<Seq<char>>>::empty(),
    {
        let edges: Vec<(String, Vec<String>)> = Vec::new();
        Mapping { file_mapping: edges }
    }
}

/// The index of the entry of `edges` for `root`, or the length of `edges` if it
/// has none.
fn find_root(edges: &Vec<(String, Vec<String>)>, root: &String) -> (i: usize)
    requires
        well_formed(edges.deep_view()),
    ensures
        i <= edges.len(),
        i < edges.len() <==> has_root(edges.deep_view(), root@),
        i < edges.len() ==> i == root_index(edges.deep_view(), root@),
{
    let ghost doc = edges.deep_view();
    let mut i: usize = 0;
    while i < edges.len()
        invariant
            i <= edges.len(),
            doc == edges.deep_view(),
            well_formed(doc),
            forall|k: int| 0 <= k < i ==> (#[trigger] doc[k]).0 != root@,
        decreases edges.len() - i,
    {
        if edges[i].0 == *root {
            assert(doc[i as int].0 == root@);
            return i;
        }
        i += 1;
    }
    i
}

/// Registers `dependents[from..]` for `root` in `edges`.
fn register_in(
    edges: &mut Vec<(String, Vec<String>)>,
    root: &String,
    dependents: &Vec<String>,
    from: usize,
)
    requires
        well_formed(old(edges).deep_view()),
        from <= dependents.len(),
    ensures
        final(edges).deep_view() == register(
            old(edges).deep_view(),
            root@,
            dependents.deep_view().skip(from as int),
        ),
        well_formed(final(edges).deep_view()),
{
    let ghost doc = edges.deep_view();
    let ghost added = dependents.deep_view().skip(from as int);
    let i = find_root(edges, root);
    if i < edges.len() {
        append_new_paths(&mut edges[i].1, dependents, from);
    } else {
        let mut fresh: Vec<String> = Vec::new();
        assert(fresh.deep_view() =~= Seq::<Seq<char>>::empty());
        append_new_paths(&mut fresh, dependents, from);
        edges.push((root.clone(), fresh));
    }
    proof {
        lemma_register_well_formed(doc, root@, added);
    }
}

} // verus!
