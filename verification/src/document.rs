//! The model of a dependency map: a document, which is a list of entries, each a
//! root with the list of its dependents.

use vstd::prelude::*;
use crate::paths::{
    append_new, distinct, lemma_append_new_known, lemma_append_new_members,
    lemma_append_new_no_duplicates, lemma_distinct_fixed,
};

verus! {

/// Whether the document `doc` has an entry for `root`.
pub open spec fn has_root(doc: Seq<(Seq<char>, Seq<Seq<char>>)>, root: Seq<char>) -> bool {
    exists|i: int| 0 <= i < doc.len() && (#[trigger] doc[i]).0 == root
}

/// The index of an entry of `doc` for `root`.
pub open spec fn root_index(doc: Seq<(Seq<char>, Seq<Seq<char>>)>, root: Seq<char>) -> int {
    choose|i: int| 0 <= i < doc.len() && (#[trigger] doc[i]).0 == root
}

/// The dependents that an entry of `doc` for `root` lists, in its order.
pub open spec fn dependent_list(doc: Seq<(Seq<char>, Seq<Seq<char>>)>, root: Seq<char>) -> Seq<
    Seq<char>,
> {
    doc[root_index(doc, root)].1
}

/// Every path that some entry of `doc` for `root` lists.
pub open spec fn dependent_set(doc: Seq<(Seq<char>, Seq<Seq<char>>)>, root: Seq<char>) -> Set<
    Seq<char>,
> {
    Set::new(
        |d: Seq<char>|
            exists|i: int|
                0 <= i < doc.len() && (#[trigger] doc[i]).0 == root && doc[i].1.contains(d),
    )
}

/// What a document means: each root that it names, with the set of its dependents.
pub open spec fn edges_of(doc: Seq<(Seq<char>, Seq<Seq<char>>)>) -> Map<
    Seq<char>,
    Set<Seq<char>>,
> {
    Map::new(|root: Seq<char>| has_root(doc, root), |root: Seq<char>| dependent_set(doc, root))
}

/// A document in which no root has two entries and no entry lists a path twice.
pub open spec fn well_formed(doc: Seq<(Seq<char>, Seq<Seq<char>>)>) -> bool {
    &&& forall|i: int, j: int|
        0 <= i < doc.len() && 0 <= j < doc.len() && i != j ==> (#[trigger] doc[i]).0
            != (#[trigger] doc[j]).0
    &&& forall|i: int| 0 <= i < doc.len() ==> (#[trigger] doc[i]).1.no_duplicates()
}

/// A document in which no root and no dependent is the empty path.
pub open spec fn paths_nonempty(doc: Seq<(Seq<char>, Seq<Seq<char>>)>) -> bool {
    forall|i: int|
        0 <= i < doc.len() ==> (#[trigger] doc[i]).0.len() > 0 && forall|j: int|
            0 <= j < doc[i].1.len() ==> (#[trigger] doc[i].1[j]).len() > 0
}

/// `doc` after `dependents` have been registered for `root`: they join the entry
/// of `root`, which is added at the end if there was none.
pub open spec fn register(
    doc: Seq<(Seq<char>, Seq<Seq<char>>)>,
    root: Seq<char>,
    dependents: Seq<Seq<char>>,
) -> Seq<(Seq<char>, Seq<Seq<char>>)> {
    if has_root(doc, root) {
        let i = root_index(doc, root);
        doc.update(i, (root, append_new(doc[i].1, dependents)))
    } else {
        doc.push((root, distinct(dependents)))
    }
}

/// The document that comes of registering the entries of `doc` one after the
/// other, from an empty one: every root once, with all that `doc` lists for it.
pub open spec fn canonical(doc: Seq<(Seq<char>, Seq<Seq<char>>)>) -> Seq<
    (Seq<char>, Seq<Seq<char>>),
>
    decreases doc.len(),
{
    if doc.len() == 0 {
        Seq::empty()
    } else {
        register(canonical(doc.drop_last()), doc.last().0, doc.last().1)
    }
}

/// In a well-formed document the one entry of a root holds all its dependents.
pub proof fn lemma_entry_dependents(doc: Seq<(Seq<char>, Seq<Seq<char>>)>, i: int)
    requires
        well_formed(doc),
        0 <= i < doc.len(),
    ensures
        has_root(doc, doc[i].0),
        root_index(doc, doc[i].0) == i,
        dependent_list(doc, doc[i].0) == doc[i].1,
        dependent_set(doc, doc[i].0) == doc[i].1.to_set(),
        edges_of(doc)[doc[i].0] == doc[i].1.to_set(),
{
}

/// A root without an entry has no dependents.
pub proof fn lemma_no_root_no_dependents(doc: Seq<(Seq<char>, Seq<Seq<char>>)>, root: Seq<char>)
    requires
        !has_root(doc, root),
    ensures
        dependent_set(doc, root) == Set::<Seq<char>>::empty(),
{
}

/// Where `after` differs from `doc` only in entries for `root`, every other root
/// has in `after` what it has in `doc`.
proof fn lemma_other_roots(
    doc: Seq<(Seq<char>, Seq<Seq<char>>)>,
    after: Seq<(Seq<char>, Seq<Seq<char>>)>,
    root: Seq<char>,
)
    requires
        doc.len() <= after.len(),
        forall|k: int| 0 <= k < doc.len() ==> (#[trigger] after[k]).0 == doc[k].0,
        forall|k: int| 0 <= k < doc.len() && doc[k].0 != root ==> #[trigger] after[k] == doc[k],
        forall|k: int| doc.len() <= k < after.len() ==> (#[trigger] after[k]).0 == root,
    ensures
        forall|r: Seq<char>| r != root ==> (has_root(after, r) <==> has_root(doc, r)),
        forall|r: Seq<char>| r != root ==> dependent_set(after, r) == dependent_set(doc, r),
        has_root(doc, root) ==> has_root(after, root),
{
    assert forall|r: Seq<char>| r != root implies (has_root(after, r) <==> has_root(doc, r))
        && dependent_set(after, r) == dependent_set(doc, r) by {
        if has_root(after, r) {
            let k = root_index(after, r);
            assert(doc[k].0 == r);
        }
        if has_root(doc, r) {
            let k = root_index(doc, r);
            assert(after[k].0 == r);
        }
        assert forall|d: Seq<char>|
            dependent_set(after, r).contains(d) <==> dependent_set(doc, r).contains(d) by {
            if dependent_set(after, r).contains(d) {
                let k = choose|k: int|
                    0 <= k < after.len() && (#[trigger] after[k]).0 == r && after[k].1.contains(d);
                assert(doc[k].0 == r && doc[k].1.contains(d));
            }
            if dependent_set(doc, r).contains(d) {
                let k = choose|k: int|
                    0 <= k < doc.len() && (#[trigger] doc[k]).0 == r && doc[k].1.contains(d);
                assert(after[k].0 == r && after[k].1.contains(d));
            }
        }
        assert(dependent_set(after, r) =~= dependent_set(doc, r));
    }
    if has_root(doc, root) {
        let k = root_index(doc, root);
        assert(after[k].0 == root);
    }
}

/// What one more entry adds to the meaning of a document, well-formed or not.
pub proof fn lemma_push_edges(
    doc: Seq<(Seq<char>, Seq<Seq<char>>)>,
    root: Seq<char>,
    dependents: Seq<Seq<char>>,
)
    ensures
        edges_of(doc.push((root, dependents))) == edges_of(doc).insert(
            root,
            dependent_set(doc, root).union(dependents.to_set()),
        ),
{
    let after = doc.push((root, dependents));
    let grown = dependent_set(doc, root).union(dependents.to_set());
    let last = doc.len() as int;
    lemma_other_roots(doc, after, root);
    assert(after[last].0 == root);
    assert forall|d: Seq<char>| dependent_set(after, root).contains(d) <==> grown.contains(d) by {
        if dependent_set(after, root).contains(d) {
            let k = choose|k: int|
                0 <= k < after.len() && (#[trigger] after[k]).0 == root && after[k].1.contains(d);
            if k < last {
                assert(doc[k].0 == root && doc[k].1.contains(d));
            }
        }
        if dependent_set(doc, root).contains(d) {
            let k = choose|k: int|
                0 <= k < doc.len() && (#[trigger] doc[k]).0 == root && doc[k].1.contains(d);
            assert(after[k].0 == root && after[k].1.contains(d));
        }
        if dependents.contains(d) {
            assert(after[last].0 == root && after[last].1.contains(d));
        }
    }
    assert(dependent_set(after, root) =~= grown);
}

/// Registering keeps a document well-formed.
pub proof fn lemma_register_well_formed(
    doc: Seq<(Seq<char>, Seq<Seq<char>>)>,
    root: Seq<char>,
    dependents: Seq<Seq<char>>,
)
    requires
        well_formed(doc),
    ensures
        well_formed(register(doc, root, dependents)),
{
    let after = register(doc, root, dependents);
    if has_root(doc, root) {
        let i = root_index(doc, root);
        lemma_append_new_no_duplicates(doc[i].1, dependents);
        assert forall|k: int| 0 <= k < after.len() implies (#[trigger] after[k]).0 == doc[k].0 by {}
    } else {
        lemma_append_new_no_duplicates(Seq::empty(), dependents);
        assert forall|k: int, j: int|
            0 <= k < after.len() && 0 <= j < after.len() && k != j implies (#[trigger] after[k]).0
            != (#[trigger] after[j]).0 by {
            if k < doc.len() {
                assert(doc[k].0 != root);
            }
            if j < doc.len() {
                assert(doc[j].0 != root);
            }
        }
    }
}

/// What registering does to the edges: the root then has the dependents that it
/// had, and the registered ones; no other root is touched.
pub proof fn lemma_register_edges(
    doc: Seq<(Seq<char>, Seq<Seq<char>>)>,
    root: Seq<char>,
    dependents: Seq<Seq<char>>,
)
    requires
        well_formed(doc),
    ensures
        edges_of(register(doc, root, dependents)) == edges_of(doc).insert(
            root,
            dependent_set(doc, root).union(dependents.to_set()),
        ),
{
    let after = register(doc, root, dependents);
    if has_root(doc, root) {
        let i = root_index(doc, root);
        lemma_register_well_formed(doc, root, dependents);
        lemma_entry_dependents(doc, i);
        lemma_append_new_members(doc[i].1, dependents);
        lemma_entry_dependents(after, i);
        lemma_other_roots(doc, after, root);
    } else {
        lemma_append_new_members(Seq::empty(), dependents);
        assert(distinct(dependents).to_set() =~= dependents.to_set());
        lemma_push_edges(doc, root, distinct(dependents));
    }
}

/// Registering for a root what was registered for it before changes nothing:
/// twice is once.
pub proof fn lemma_register_idempotent(
    doc: Seq<(Seq<char>, Seq<Seq<char>>)>,
    root: Seq<char>,
    dependents: Seq<Seq<char>>,
)
    requires
        well_formed(doc),
    ensures
        register(register(doc, root, dependents), root, dependents) == register(
            doc,
            root,
            dependents,
        ),
{
    let once = register(doc, root, dependents);
    let i = if has_root(doc, root) {
        root_index(doc, root)
    } else {
        doc.len() as int
    };
    if has_root(doc, root) {
        lemma_append_new_members(doc[i].1, dependents);
    } else {
        lemma_append_new_members(Seq::empty(), dependents);
    }
    assert forall|k: int| 0 <= k < dependents.len() implies once[i].1.contains(
        #[trigger] dependents[k],
    ) by {
        assert(dependents.contains(dependents[k]));
    }
    lemma_append_new_known(once[i].1, dependents);
}

/// Registering non-empty paths in a document of non-empty paths leaves one.
pub proof fn lemma_register_nonempty(
    doc: Seq<(Seq<char>, Seq<Seq<char>>)>,
    root: Seq<char>,
    dependents: Seq<Seq<char>>,
)
    requires
        paths_nonempty(doc),
        root.len() > 0,
        forall|k: int| 0 <= k < dependents.len() ==> (#[trigger] dependents[k]).len() > 0,
    ensures
        paths_nonempty(register(doc, root, dependents)),
{
    let after = register(doc, root, dependents);
    let i = if has_root(doc, root) {
        root_index(doc, root)
    } else {
        doc.len() as int
    };
    let before = if has_root(doc, root) {
        doc[i].1
    } else {
        Seq::empty()
    };
    lemma_append_new_members(before, dependents);
    assert forall|k: int| 0 <= k < after.len() implies (#[trigger] after[k]).0.len() > 0
        && forall|j: int| 0 <= j < after[k].1.len() ==> (#[trigger] after[k].1[j]).len() > 0 by {
        if k == i {
            assert forall|j: int| 0 <= j < after[k].1.len() implies (#[trigger] after[k].1[j]).len()
                > 0 by {
                let p = after[k].1[j];
                assert(after[k].1.contains(p));
                if before.contains(p) {
                    assert(doc[i].1[before.index_of(p)].len() > 0);
                } else {
                    assert(dependents[dependents.index_of(p)].len() > 0);
                }
            }
        }
    }
}

/// The canonical form of any document is well-formed.
pub proof fn lemma_canonical_well_formed(doc: Seq<(Seq<char>, Seq<Seq<char>>)>)
    ensures
        well_formed(canonical(doc)),
    decreases doc.len(),
{
    if doc.len() > 0 {
        lemma_canonical_well_formed(doc.drop_last());
        lemma_register_well_formed(canonical(doc.drop_last()), doc.last().0, doc.last().1);
    }
}

/// The canonical form of a document of non-empty paths is one.
pub proof fn lemma_canonical_nonempty(doc: Seq<(Seq<char>, Seq<Seq<char>>)>)
    requires
        paths_nonempty(doc),
    ensures
        paths_nonempty(canonical(doc)),
    decreases doc.len(),
{
    if doc.len() > 0 {
        let last = doc[doc.len() - 1];
        lemma_canonical_nonempty(doc.drop_last());
        lemma_register_nonempty(canonical(doc.drop_last()), last.0, last.1);
    }
}

/// The canonical form of a document means what the document means, in whatever
/// order the document lists its entries and however often it repeats them.
pub proof fn lemma_canonical_edges(doc: Seq<(Seq<char>, Seq<Seq<char>>)>)
    ensures
        edges_of(canonical(doc)) == edges_of(doc),
    decreases doc.len(),
{
    if doc.len() > 0 {
        let front = doc.drop_last();
        let root = doc.last().0;
        let dependents = doc.last().1;
        lemma_canonical_edges(front);
        lemma_canonical_well_formed(front);
        lemma_register_edges(canonical(front), root, dependents);
        lemma_push_edges(front, root, dependents);
        assert(front.push((root, dependents)) =~= doc);
        // The two documents have the same edges, so the root has the same
        // dependents in both: those of its edge, or none.
        if edges_of(front).contains_key(root) {
            assert(edges_of(front)[root] == dependent_set(front, root));
        } else {
            lemma_no_root_no_dependents(front, root);
            lemma_no_root_no_dependents(canonical(front), root);
        }
    }
}

/// A well-formed document is its own canonical form: a map that is made of the
/// document of another map is that map, entry by entry.
pub proof fn lemma_canonical_fixed(doc: Seq<(Seq<char>, Seq<Seq<char>>)>)
    requires
        well_formed(doc),
    ensures
        canonical(doc) == doc,
    decreases doc.len(),
{
    if doc.len() > 0 {
        let front = doc.drop_last();
        let last = doc.len() - 1;
        lemma_canonical_fixed(front);
        if has_root(front, doc.last().0) {
            assert(doc[root_index(front, doc.last().0)].0 == doc[last].0);
        }
        lemma_distinct_fixed(doc.last().1);
        assert(front.push(doc.last()) =~= doc);
    }
}

} // verus!
