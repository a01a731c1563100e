//! Detection: which declared dependencies a set of changed files leaves unmet.

use vstd::prelude::*;
use crate::changes::ChangeSet;
use crate::document::{
    dependent_list, dependent_set, edges_of, has_root, lemma_entry_dependents, root_index,
    well_formed,
};
use crate::mapping::Mapping;
use crate::paths::{
    contains_path, distinct, lemma_distinct_members, lemma_filter_members,
    lemma_filter_no_duplicates,
};

verus! {

/// The test that a path is not among `changed`.
pub open spec fn unchanged(changed: Seq<Seq<char>>) -> spec_fn(Seq<char>) -> bool {
    |path: Seq<char>| !changed.contains(path)
}

/// The paths of `dependents` that are not among `changed`, in their order.
pub open spec fn missing_from(dependents: Seq<Seq<char>>, changed: Seq<Seq<char>>) -> Seq<
    Seq<char>,
> {
    dependents.filter(unchanged(changed))
}

/// Whether `root` has a dependent in `doc` that is not among `changed`.
pub open spec fn is_violated(
    doc: Seq<(Seq<char>, Seq<Seq<char>>)>,
    changed: Seq<Seq<char>>,
    root: Seq<char>,
) -> bool {
    has_root(doc, root) && !dependent_set(doc, root).subset_of(changed.to_set())
}

/// `is_violated` as a test on roots.
pub open spec fn violated(
    doc: Seq<(Seq<char>, Seq<Seq<char>>)>,
    changed: Seq<Seq<char>>,
) -> spec_fn(Seq<char>) -> bool {
    |root: Seq<char>| is_violated(doc, changed, root)
}

/// The record of a violated root: the root, and its dependents that are not
/// among `changed`.
pub open spec fn record(
    doc: Seq<(Seq<char>, Seq<Seq<char>>)>,
    changed: Seq<Seq<char>>,
) -> spec_fn(Seq<char>) -> (Seq<char>, Seq<Seq<char>>) {
    |root: Seq<char>| (root, missing_from(dependent_list(doc, root), changed))
}

/// The records of the violated roots among `roots`, one for each, in the order
/// in which `roots` first names them.
pub open spec fn violations_among(
    doc: Seq<(Seq<char>, Seq<Seq<char>>)>,
    roots: Seq<Seq<char>>,
    changed: Seq<Seq<char>>,
) -> Seq<(Seq<char>, Seq<Seq<char>>)> {
    distinct(roots).filter(violated(doc, changed)).map_values(record(doc, changed))
}

/// What detection reports for the map `doc` and the changed files `changed`: a
/// record for each changed file that is a root and has a dependent that did not
/// change.
pub open spec fn violations_of(
    doc: Seq<(Seq<char>, Seq<Seq<char>>)>,
    changed: Seq<Seq<char>>,
) -> Seq<(Seq<char>, Seq<Seq<char>>)> {
    violations_among(doc, changed, changed)
}

/// The number of missing dependents over all of `records`.
pub open spec fn total_missing(records: Seq<(Seq<char>, Seq<Seq<char>>)>) -> nat
    decreases records.len(),
{
    if records.len() == 0 {
        0
    } else {
        total_missing(records.drop_last()) + records.last().1.len()
    }
}

/// `n` as a count that stops at the largest `u32`.
pub open spec fn saturated(n: nat) -> u32 {
    if n > u32::MAX {
        u32::MAX
    } else {
        n as u32
    }
}

/// Whether `records` holds a record for `root`.
pub open spec fn reports(records: Seq<(Seq<char>, Seq<Seq<char>>)>, root: Seq<char>) -> bool {
    exists|i: int| 0 <= i < records.len() && (#[trigger] records[i]).0 == root
}

/// A root with the dependents that the changed files lack.
#[derive(Debug)]
pub struct Violation {
    pub root: String,
    pub missing: Vec<String>,
}

impl DeepView for Violation {
    type V = (Seq<char>, Seq<Seq<char>>);

    open spec fn deep_view(&self) -> (Seq<char>, Seq<Seq<char>>) {
        (self.root@, self.missing.deep_view())
    }
}

/// What a detection pass found.
#[derive(Debug)]
pub struct Report {
    violations: Vec<Violation>,
    missing_count: u32,
}

impl View for Report {
    type V = Seq<(Seq<char>, Seq<Seq<char>>)>;

    /// The records: each violated root with its missing dependents.
    closed spec fn view(&self) -> Seq<(Seq<char>, Seq<Seq<char>>)> {
        self.violations.deep_view()
    }
}

impl Report {
    /// Every record names a missing dependent, and the count is their number.
    #[verifier::type_invariant]
    closed spec fn wf(&self) -> bool {
        &&& forall|i: int| 0 <= i < self@.len() ==> (#[trigger] self@[i]).1.len() > 0
        &&& self.missing_count == saturated(total_missing(self@))
    }

    /// The violations, one for each violated root.
    pub fn violations(&self) -> (violations: &Vec<Violation>)
        ensures
            violations.deep_view() == self@,
    {
        &self.violations
    }

    /// The number of missing dependents over all violations; it stops at the
    /// largest `u32`.
    pub fn missing_count(&self) -> (count: u32)
        ensures
            count == saturated(total_missing(self@)),
            count == 0 <==> self@.len() == 0,
    {
        proof {
            use_type_invariant(self);
            if self@.len() > 0 {
                assert(self@.last().1.len() > 0);
            }
        }
        self.missing_count
    }

    /// How the pass ends: well where nothing is missing, else with the number of
    /// missing dependents as the error.
    pub fn outcome(&self) -> (outcome: Result<(), u32>)
        ensures
            outcome is Ok <==> self@.len() == 0,
            outcome matches Err(count) ==> count > 0 && count == saturated(total_missing(self@)),
    {
        let count = self.missing_count();
        if count == 0 {
            Ok(())
        } else {
            Err(count)
        }
    }
}

/// Holds the changed files against the map: every changed file that is a root
/// of `map` and has a dependent that did not change is reported, once, with
/// those dependents, in the order in which the changed files were named.
pub fn detect(map: &Mapping, changed: &ChangeSet) -> (report: Report)
    ensures
        report@ == violations_of(map.entries(), changed@),
{
    let files = changed.files();
    let ghost doc = map.entries();
    let ghost all = changed@;
    let mut violations: Vec<Violation> = Vec::new();
    let mut count: u32 = 0;
    let mut i: usize = 0;
    while i < files.len()
        invariant
            i <= files.len(),
            doc == map.entries(),
            all == files.deep_view(),
            violations.deep_view() == violations_among(doc, all.take(i as int), all),
            forall|k: int|
                0 <= k < violations.len() ==> (#[trigger] violations.deep_view()[k]).1.len() > 0,
            count == saturated(total_missing(violations.deep_view())),
        decreases files.len() - i,
    {
        let ghost before = violations.deep_view();
        let ghost next = all[i as int];
        proof {
            lemma_violations_step(doc, all.take(i as int), all, next);
            assert(all.take(i as int).push(next) =~= all.take(i + 1));
        }
        if !named_before(files, i) {
            match map.dependents(&files[i]) {
                Some(dependents) => {
                    let missing = missing_paths(dependents, files);
                    proof {
                        lemma_missing_from(dependents.deep_view(), all);
                    }
                    if missing.len() > 0 {
                        let found: u32 = if missing.len() > u32::MAX as usize {
                            u32::MAX
                        } else {
                            missing.len() as u32
                        };
                        proof {
                            lemma_total_push(before, (next, missing.deep_view()));
                        }
                        count = count.saturating_add(found);
                        violations.push(Violation { root: files[i].clone(), missing });
                        assert(violations.deep_view() =~= before.push(
                            (next, missing_from(dependent_list(doc, next), all)),
                        ));
                    }
                },
                None => {},
            }
        }
        i += 1;
    }
    assert(all.take(i as int) =~= all);
    Report { violations, missing_count: count }
}

/// The missing dependents of a list are those of its members that did not
/// change; there are some exactly if the list is no subset of the changed files.
pub proof fn lemma_missing_from(dependents: Seq<Seq<char>>, changed: Seq<Seq<char>>)
    ensures
        missing_from(dependents, changed).to_set() == dependents.to_set().difference(
            changed.to_set(),
        ),
        dependents.no_duplicates() ==> missing_from(dependents, changed).no_duplicates(),
        missing_from(dependents, changed).len() > 0 <==> !dependents.to_set().subset_of(
            changed.to_set(),
        ),
{
    let missing = missing_from(dependents, changed);
    lemma_filter_members(dependents, unchanged(changed));
    if dependents.no_duplicates() {
        lemma_filter_no_duplicates(dependents, unchanged(changed));
    }
    assert(missing.to_set() =~= dependents.to_set().difference(changed.to_set()));
    if missing.len() > 0 {
        assert(missing.contains(missing[0]));
        assert(dependents.to_set().contains(missing[0]));
    }
    if !dependents.to_set().subset_of(changed.to_set()) {
        let d = choose|d: Seq<char>|
            dependents.to_set().contains(d) && !changed.to_set().contains(d);
        assert(missing.contains(d));
    }
}

/// A root is reported exactly if it is among the changed files, is a root of the
/// map, and has a dependent that is not among the changed files.
pub proof fn lemma_reported_roots(
    doc: Seq<(Seq<char>, Seq<Seq<char>>)>,
    changed: Seq<Seq<char>>,
    root: Seq<char>,
)
    ensures
        reports(violations_of(doc, changed), root) <==> {
            &&& changed.contains(root)
            &&& edges_of(doc).contains_key(root)
            &&& !edges_of(doc)[root].subset_of(changed.to_set())
        },
{
    let violated_roots = distinct(changed).filter(violated(doc, changed));
    let records = violations_of(doc, changed);
    lemma_distinct_members(changed);
    lemma_filter_members(distinct(changed), violated(doc, changed));
    if reports(records, root) {
        let i = choose|i: int| 0 <= i < records.len() && (#[trigger] records[i]).0 == root;
        assert(violated_roots[i] == root);
        assert(violated_roots.contains(root));
    }
    if violated_roots.contains(root) {
        let i = choose|i: int| 0 <= i < violated_roots.len() && violated_roots[i] == root;
        assert(records[i].0 == root);
    }
}

/// No root is reported twice.
pub proof fn lemma_one_record_per_root(
    doc: Seq<(Seq<char>, Seq<Seq<char>>)>,
    changed: Seq<Seq<char>>,
    i: int,
    j: int,
)
    requires
        0 <= i < j < violations_of(doc, changed).len(),
    ensures
        violations_of(doc, changed)[i].0 != violations_of(doc, changed)[j].0,
{
    let violated_roots = distinct(changed).filter(violated(doc, changed));
    lemma_distinct_members(changed);
    lemma_filter_no_duplicates(distinct(changed), violated(doc, changed));
    assert(violated_roots[i] != violated_roots[j]);
}

/// The dependents that a record gives as missing are those of its root that are
/// not among the changed files: all of them, each once, and at least one.
pub proof fn lemma_reported_missing(
    doc: Seq<(Seq<char>, Seq<Seq<char>>)>,
    changed: Seq<Seq<char>>,
    i: int,
)
    requires
        well_formed(doc),
        0 <= i < violations_of(doc, changed).len(),
    ensures
        ({
            let found = violations_of(doc, changed)[i];
            &&& found.1.to_set() == edges_of(doc)[found.0].difference(changed.to_set())
            &&& found.1.no_duplicates()
            &&& found.1.len() > 0
        }),
{
    let violated_roots = distinct(changed).filter(violated(doc, changed));
    let root = violated_roots[i];
    lemma_filter_members(distinct(changed), violated(doc, changed));
    assert(violated_roots.contains(root));
    assert(is_violated(doc, changed, root));
    lemma_entry_dependents(doc, root_index(doc, root));
    lemma_missing_from(dependent_list(doc, root), changed);
}

/// Nothing is reported exactly if every changed file that is a root has all its
/// dependents among the changed files.
pub proof fn lemma_clean(doc: Seq<(Seq<char>, Seq<Seq<char>>)>, changed: Seq<Seq<char>>)
    ensures
        violations_of(doc, changed).len() == 0 <==> forall|root: Seq<char>|
            changed.contains(root) && #[trigger] edges_of(doc).contains_key(root) ==> edges_of(
                doc,
            )[root].subset_of(changed.to_set()),
{
    let records = violations_of(doc, changed);
    if records.len() == 0 {
        assert forall|root: Seq<char>|
            changed.contains(root) && #[trigger] edges_of(doc).contains_key(
                root,
            ) implies edges_of(doc)[root].subset_of(changed.to_set()) by {
            lemma_reported_roots(doc, changed, root);
        }
    } else {
        lemma_reported_roots(doc, changed, records[0].0);
    }
}

/// A map without edges is never violated.
pub proof fn lemma_nothing_declared(changed: Seq<Seq<char>>)
    ensures
        violations_of(Seq::empty(), changed) == Seq::<(Seq<char>, Seq<Seq<char>>)>::empty(),
{
    lemma_clean(Seq::empty(), changed);
}

/// With one more root to look at, the records grow by the record of that root
/// if it was not looked at before and is violated, and else stay.
proof fn lemma_violations_step(
    doc: Seq<(Seq<char>, Seq<Seq<char>>)>,
    roots: Seq<Seq<char>>,
    changed: Seq<Seq<char>>,
    next: Seq<char>,
)
    ensures
        violations_among(doc, roots.push(next), changed) == if !roots.contains(next)
            && is_violated(doc, changed, next) {
            violations_among(doc, roots, changed).push(
                (next, missing_from(dependent_list(doc, next), changed)),
            )
        } else {
            violations_among(doc, roots, changed)
        },
{
    let seen = distinct(roots);
    lemma_distinct_members(roots);
    assert(roots.push(next).drop_last() =~= roots);
    if !roots.contains(next) {
        seen.lemma_filter_push(next, violated(doc, changed));
        if is_violated(doc, changed, next) {
            seen.filter(violated(doc, changed)).lemma_push_map_commute(
                record(doc, changed),
                next,
            );
        }
    }
}

/// One more record adds its missing dependents to the total.
proof fn lemma_total_push(
    records: Seq<(Seq<char>, Seq<Seq<char>>)>,
    last: (Seq<char>, Seq<Seq<char>>),
)
    ensures
        total_missing(records.push(last)) == total_missing(records) + last.1.len(),
{
    assert(records.push(last).drop_last() =~= records);
}

/// The paths of `dependents` that are not among `changed`.
fn missing_paths(dependents: &Vec<String>, changed: &Vec<String>) -> (missing: Vec<String>)
    ensures
        missing.deep_view() == missing_from(dependents.deep_view(), changed.deep_view()),
{
    let ghost all = dependents.deep_view();
    let ghost test = unchanged(changed.deep_view());
    let mut missing: Vec<String> = Vec::new();
    let mut i: usize = 0;
    while i < dependents.len()
        invariant
            i <= dependents.len(),
            all == dependents.deep_view(),
            test == unchanged(changed.deep_view()),
            missing.deep_view() == all.take(i as int).filter(test),
        decreases dependents.len() - i,
    {
        proof {
            all.take(i as int).lemma_filter_push(all[i as int], test);
            assert(all.take(i as int).push(all[i as int]) =~= all.take(i + 1));
        }
        if !contains_path(changed, &dependents[i]) {
            missing.push(dependents[i].clone());
        }
        i += 1;
    }
    assert(all.take(i as int) =~= all);
    missing
}

/// Whether `files[i]` occurs among the files before it.
fn named_before(files: &Vec<String>, i: usize) -> (found: bool)
    requires
        i < files.len(),
    ensures
        found == files.deep_view().take(i as int).contains(files[i as int]@),
{
    let ghost front = files.deep_view().take(i as int);
    let mut k: usize = 0;
    while k < i
        invariant
            k <= i < files.len(),
            front == files.deep_view().take(i as int),
            forall|j: int| 0 <= j < k ==> front[j] != files[i as int]@,
        decreases i - k,
    {
        if files[k] == files[i] {
            assert(front[k as int] == files[i as int]@);
            return true;
        }
        k += 1;
    }
    false
}

} // verus!
