//! Lists of file paths that are read as sets: nothing is listed twice, and the
//! order in which paths were first named is kept.

use vstd::prelude::*;

verus! {

/// `list`, followed by the paths of `extra` that it lacks, each once and in the
/// order in which `extra` first names them.
pub open spec fn append_new(list: Seq<Seq<char>>, extra: Seq<Seq<char>>) -> Seq<Seq<char>>
    decreases extra.len(),
{
    if extra.len() == 0 {
        list
    } else {
        let sofar = append_new(list, extra.drop_last());
        if sofar.contains(extra.last()) {
            sofar
        } else {
            sofar.push(extra.last())
        }
    }
}

/// The paths of `list`, each once, in the order of their first occurrence.
pub open spec fn distinct(list: Seq<Seq<char>>) -> Seq<Seq<char>> {
    append_new(Seq::empty(), list)
}

/// A path is in `append_new(list, extra)` exactly if it is in `list` or in `extra`.
pub proof fn lemma_append_new_members(list: Seq<Seq<char>>, extra: Seq<Seq<char>>)
    ensures
        forall|p: Seq<char>|
            append_new(list, extra).contains(p) <==> list.contains(p) || extra.contains(p),
        append_new(list, extra).to_set() == list.to_set().union(extra.to_set()),
    decreases extra.len(),
{
    let all = append_new(list, extra);
    if extra.len() > 0 {
        let front = extra.drop_last();
        let sofar = append_new(list, front);
        lemma_append_new_members(list, front);
        assert forall|p: Seq<char>| all.contains(p) <==> list.contains(p) || extra.contains(p) by {
            if extra.contains(p) && p != extra.last() {
                assert(front[extra.index_of(p)] == p);
            }
            if front.contains(p) {
                assert(extra[front.index_of(p)] == p);
            }
            if sofar.contains(extra.last()) {
                assert(all == sofar);
            } else {
                assert(all[sofar.len() as int] == extra.last());
                if sofar.contains(p) {
                    assert(all[sofar.index_of(p)] == p);
                }
            }
        }
    }
    assert(all.to_set() =~= list.to_set().union(extra.to_set()));
}

/// Where `list` names nothing twice, neither does `append_new(list, extra)`.
pub proof fn lemma_append_new_no_duplicates(list: Seq<Seq<char>>, extra: Seq<Seq<char>>)
    requires
        list.no_duplicates(),
    ensures
        append_new(list, extra).no_duplicates(),
    decreases extra.len(),
{
    if extra.len() > 0 {
        lemma_append_new_no_duplicates(list, extra.drop_last());
    }
}

/// Paths that `list` already holds change nothing.
pub proof fn lemma_append_new_known(list: Seq<Seq<char>>, extra: Seq<Seq<char>>)
    requires
        forall|i: int| 0 <= i < extra.len() ==> list.contains(#[trigger] extra[i]),
    ensures
        append_new(list, extra) == list,
    decreases extra.len(),
{
    if extra.len() > 0 {
        lemma_append_new_known(list, extra.drop_last());
    }
}

/// What `distinct` keeps: the paths of `list`, none twice.
pub proof fn lemma_distinct_members(list: Seq<Seq<char>>)
    ensures
        forall|p: Seq<char>| distinct(list).contains(p) <==> list.contains(p),
        distinct(list).to_set() == list.to_set(),
        distinct(list).no_duplicates(),
{
    lemma_append_new_members(Seq::empty(), list);
    lemma_append_new_no_duplicates(Seq::empty(), list);
    assert(distinct(list).to_set() =~= list.to_set());
}

/// A list that names nothing twice is what `distinct` makes of it.
pub proof fn lemma_distinct_fixed(list: Seq<Seq<char>>)
    requires
        list.no_duplicates(),
    ensures
        distinct(list) == list,
    decreases list.len(),
{
    if list.len() > 0 {
        let front = list.drop_last();
        lemma_distinct_fixed(front);
        if front.contains(list.last()) {
            assert(list[front.index_of(list.last())] == list[list.len() - 1]);
        }
        assert(front.push(list.last()) =~= list);
    }
}

/// What a filter keeps: the items of `list` that meet `pred`.
pub proof fn lemma_filter_members<A>(list: Seq<A>, pred: spec_fn(A) -> bool)
    ensures
        forall|x: A| list.filter(pred).contains(x) <==> list.contains(x) && pred(x),
{
    assert forall|x: A| list.filter(pred).contains(x) implies list.contains(x) && pred(x) by {
        list.lemma_filter_contains_rev(pred, x);
    }
}

/// A filter keeps nothing more often than `list` has it.
pub proof fn lemma_filter_no_duplicates<A>(list: Seq<A>, pred: spec_fn(A) -> bool)
    requires
        list.no_duplicates(),
    ensures
        list.filter(pred).no_duplicates(),
    decreases list.len(),
{
    reveal(Seq::filter);
    if list.len() > 0 {
        let front = list.drop_last();
        lemma_filter_no_duplicates(front, pred);
        lemma_filter_members(front, pred);
        if front.contains(list.last()) {
            assert(list[front.index_of(list.last())] == list[list.len() - 1]);
        }
    }
}

/// Whether `path` occurs in `list`.
pub fn contains_path(list: &Vec<String>, path: &String) -> (found: bool)
    ensures
        found == list.deep_view().contains(path@),
{
    let mut i: usize = 0;
    while i < list.len()
        invariant
            i <= list.len(),
            forall|k: int| 0 <= k < i ==> list.deep_view()[k] != path@,
        decreases list.len() - i,
    {
        if list[i] == *path {
            assert(list.deep_view()[i as int] == path@);
            return true;
        }
        i += 1;
    }
    false
}

/// A copy of `list`.
pub fn clone_paths(list: &Vec<String>) -> (copy: Vec<String>)
    ensures
        copy.deep_view() == list.deep_view(),
{
    let mut copy: Vec<String> = Vec::new();
    let mut i: usize = 0;
    while i < list.len()
        invariant
            i <= list.len(),
            copy.deep_view() == list.deep_view().take(i as int),
        decreases list.len() - i,
    {
        let ghost before = copy.deep_view();
        copy.push(list[i].clone());
        assert(copy.deep_view() =~= before.push(list[i as int]@));
        i += 1;
    }
    copy
}

/// Appends to `list` the paths of `extra`, from index `from` on, that it lacks.
pub fn append_new_paths(list: &mut Vec<String>, extra: &Vec<String>, from: usize)
    requires
        from <= extra.len(),
    ensures
        final(list).deep_view() == append_new(
            old(list).deep_view(),
            extra.deep_view().skip(from as int),
        ),
{
    let ghost start = list.deep_view();
    let ghost rest = extra.deep_view().skip(from as int);
    let mut k: usize = from;
    while k < extra.len()
        invariant
            from <= k <= extra.len(),
            rest == extra.deep_view().skip(from as int),
            list.deep_view() == append_new(start, rest.take(k - from)),
        decreases extra.len() - k,
    {
        proof {
            let seen = rest.take(k - from + 1);
            assert(seen.drop_last() =~= rest.take(k - from));
        }
        if !contains_path(list, &extra[k]) {
            list.push(extra[k].clone());
        }
        k += 1;
    }
    assert(rest.take(k - from) =~= rest);
}

} // verus!
