//! From logical page numbers to the pages of a document.
//!
//! A document lists its pages under identifiers of its own, which need not
//! start at 1 nor be contiguous. A logical page number `p` stands for the
//! `p`-th identifier in ascending order. The pages that a sequence of
//! logical page numbers names are the selection; every other page of the
//! document is to be deleted.

use vstd::prelude::*;
use vstd::relations::{sorted_by, total_ordering};
use vstd::seq_lib::{lemma_multiset_commutative, lemma_sorted_unique};

verus! {

/// Why a sequence of logical page numbers could not be applied to a
/// document.
#[derive(Debug, Clone, PartialEq, Eq)]
pub enum ResolveError {
    /// The page number, given first, is not between 1 and the number of
    /// pages of the document, given second.
    OutOfRange(usize, usize),
    /// The document could not be loaded, for the given reason.
    LoadFailure(String),
    /// The document could not be saved, for the given reason.
    SaveFailure(String),
}

/// Whether `page` is a logical page number of a document of `total` pages.
pub open spec fn in_range(page: usize, total: nat) -> bool {
    1 <= page <= total
}

/// Whether every page number of `sequence` is one of a document of `total`
/// pages.
pub open spec fn all_in_range(sequence: Seq<usize>, total: nat) -> bool {
    forall|i: int| 0 <= i < sequence.len() ==> in_range(#[trigger] sequence[i], total)
}

/// Whether `page` is the first page number of `sequence` that is none of a
/// document of `total` pages.
pub open spec fn is_first_out_of_range(sequence: Seq<usize>, total: nat, page: usize) -> bool {
    exists|i: int|
        0 <= i < sequence.len() && #[trigger] sequence[i] == page && !in_range(page, total)
            && all_in_range(sequence.take(i), total)
}

/// The order of page identifiers.
pub open spec fn id_leq() -> spec_fn(u32, u32) -> bool {
    |a: u32, b: u32| a <= b
}

/// Whether `ids` is in ascending order.
pub open spec fn is_ascending(ids: Seq<u32>) -> bool {
    forall|i: int, j: int| 0 <= i < j < ids.len() ==> ids[i] <= ids[j]
}

/// The identifiers `ids` in ascending order.
pub open spec fn ascending(ids: Seq<u32>) -> Seq<u32> {
    ids.sort_by(id_leq())
}

/// The identifiers that `sequence` names among `ids`, in the order of
/// `sequence`: the logical page number `p` names the `p`-th of `ids` in
/// ascending order.
pub open spec fn selection(ids: Seq<u32>, sequence: Seq<usize>) -> Seq<u32>
    recommends
        all_in_range(sequence, ids.len()),
{
    Seq::new(sequence.len(), |i: int| ascending(ids)[sequence[i] - 1])
}

/// Holds of an identifier that is none of `keep`.
pub open spec fn not_among(keep: Seq<u32>) -> spec_fn(u32) -> bool {
    |id: u32| !keep.contains(id)
}

/// The identifiers among `ids` that `sequence` does not name, in the order
/// of `ids`.
pub open spec fn deletion(ids: Seq<u32>, sequence: Seq<usize>) -> Seq<u32>
    recommends
        all_in_range(sequence, ids.len()),
{
    ids.filter(not_among(selection(ids, sequence)))
}

/// The set of identifiers that `sequence` names among `ids`.
pub open spec fn selection_set(ids: Seq<u32>, sequence: Seq<usize>) -> Set<u32>
    recommends
        all_in_range(sequence, ids.len()),
{
    selection(ids, sequence).to_set()
}

/// The set of identifiers among `ids` that `sequence` does not name.
pub open spec fn deletion_set(ids: Seq<u32>, sequence: Seq<usize>) -> Set<u32>
    recommends
        all_in_range(sequence, ids.len()),
{
    ids.to_set().difference(selection_set(ids, sequence))
}

/// The order of identifiers is a total order.
proof fn lemma_id_leq_total()
    ensures
        total_ordering(id_leq()),
{
}

/// `ascending(ids)` is in ascending order and holds the identifiers of `ids`,
/// each as often as `ids` does.
pub proof fn lemma_ascending(ids: Seq<u32>)
    ensures
        is_ascending(ascending(ids)),
        ascending(ids).to_multiset() == ids.to_multiset(),
        ascending(ids).len() == ids.len(),
        forall|id: u32| ascending(ids).contains(id) <==> ids.contains(id),
{
    lemma_id_leq_total();
    ids.lemma_sort_by_ensures(id_leq());
    let sorted = ascending(ids);
    ids.to_multiset_ensures();
    sorted.to_multiset_ensures();
    assert forall|i: int, j: int| 0 <= i < j < sorted.len() implies sorted[i] <= sorted[j] by {
        assert(id_leq()(sorted[i], sorted[j]));
    }
    assert forall|id: u32| sorted.contains(id) <==> ids.contains(id) by {
        assert(sorted.contains(id) <==> sorted.to_multiset().count(id) > 0);
        assert(ids.contains(id) <==> ids.to_multiset().count(id) > 0);
    }
}

/// A sequence in ascending order that holds the identifiers of `ids`, each
/// as often as `ids` does, is `ascending(ids)`.
pub proof fn lemma_ascending_unique(ids: Seq<u32>, sorted: Seq<u32>)
    requires
        is_ascending(sorted),
        sorted.to_multiset() == ids.to_multiset(),
    ensures
        sorted == ascending(ids),
{
    lemma_id_leq_total();
    ids.lemma_sort_by_ensures(id_leq());
    assert(sorted_by(sorted, id_leq()));
    lemma_sorted_unique(sorted, ascending(ids), id_leq());
}

/// Identifiers that are in ascending order already stay as they are.
pub proof fn lemma_ascending_of_ascending(ids: Seq<u32>)
    requires
        is_ascending(ids),
    ensures
        ascending(ids) == ids,
{
    lemma_ascending_unique(ids, ids);
}

/// Checks that every page number of `sequence` is one of a document of
/// `total` pages, and reports the first that is not.
pub fn check_bounds(sequence: &Vec<usize>, total: usize) -> (result: Result<(), ResolveError>)
    ensures
        result is Ok <==> all_in_range(sequence@, total as nat),
        match result {
            Ok(()) => true,
            Err(ResolveError::OutOfRange(page, of)) => of == total && is_first_out_of_range(
                sequence@,
                total as nat,
                page,
            ),
            Err(_) => false,
        },
{
    let mut i: usize = 0;
    while i < sequence.len()
        invariant
            0 <= i <= sequence@.len(),
            all_in_range(sequence@.take(i as int), total as nat),
        decreases sequence@.len() - i,
    {
        let page = sequence[i];
        if page < 1 || page > total {
            return Err(ResolveError::OutOfRange(page, total));
        }
        assert forall|k: int| 0 <= k < i + 1 implies in_range(
            #[trigger] sequence@.take(i + 1)[k],
            total as nat,
        ) by {
            if k < i {
                assert(sequence@.take(i as int)[k] == sequence@[k]);
            }
        }
        i = i + 1;
    }
    assert(sequence@.take(i as int) =~= sequence@);
    Ok(())
}

/// Inserting into a sequence adds one occurrence of the new item.
proof fn lemma_insert_multiset(s: Seq<u32>, pos: int, id: u32)
    requires
        0 <= pos <= s.len(),
    ensures
        s.insert(pos, id).to_multiset() == s.to_multiset().insert(id),
{
    broadcast use vstd::seq_lib::group_to_multiset_ensures;

    let left = s.subrange(0, pos);
    let right = s.subrange(pos, s.len() as int);
    assert(s =~= left + right);
    lemma_multiset_commutative(left, right);
    lemma_multiset_commutative(left.push(id), right);
    assert(s.insert(pos, id).to_multiset() =~= s.to_multiset().insert(id));
}

/// The identifiers `ids` in ascending order.
pub fn sort_ids(ids: &Vec<u32>) -> (sorted: Vec<u32>)
    ensures
        sorted@ == ascending(ids@),
{
    let mut sorted: Vec<u32> = Vec::new();
    let mut i: usize = 0;
    assert(ids@.take(0) =~= sorted@);
    while i < ids.len()
        invariant
            0 <= i <= ids@.len(),
            is_ascending(sorted@),
            sorted@.to_multiset() == ids@.take(i as int).to_multiset(),
        decreases ids@.len() - i,
    {
        let id = ids[i];
        let mut pos: usize = sorted.len();
        while pos > 0 && sorted[pos - 1] > id
            invariant
                0 <= pos <= sorted@.len(),
                forall|k: int| pos <= k < sorted@.len() ==> sorted@[k] > id,
            decreases pos,
        {
            pos = pos - 1;
        }
        proof {
            broadcast use vstd::seq_lib::group_to_multiset_ensures;

            lemma_insert_multiset(sorted@, pos as int, id);
            assert(ids@.take(i + 1) =~= ids@.take(i as int).push(id));
            sorted@.insert_ensures(pos as int, id);
            let next = sorted@.insert(pos as int, id);
            assert forall|a: int, b: int| 0 <= a < b < next.len() implies next[a] <= next[b] by {
                if a < pos && b > pos {
                    assert(next[b] == sorted@[b - 1]);
                } else if a > pos {
                    assert(next[a] == sorted@[a - 1]);
                    assert(next[b] == sorted@[b - 1]);
                } else if b > pos {
                    assert(next[b] == sorted@[b - 1]);
                }
            }
        }
        sorted.insert(pos, id);
        i = i + 1;
    }
    proof {
        assert(ids@.take(i as int) =~= ids@);
        lemma_ascending_unique(ids@, sorted@);
    }
    sorted
}

/// The identifiers that `sequence` names among `sorted_ids`, which are in
/// ascending order: for the logical page number `p` the `p`-th of them.
pub fn select_ids(sorted_ids: &Vec<u32>, sequence: &Vec<usize>) -> (selected: Vec<u32>)
    requires
        all_in_range(sequence@, sorted_ids@.len()),
    ensures
        selected@ == Seq::new(sequence@.len(), |i: int| sorted_ids@[sequence@[i] - 1]),
{
    let mut selected: Vec<u32> = Vec::new();
    let mut i: usize = 0;
    while i < sequence.len()
        invariant
            0 <= i <= sequence@.len(),
            all_in_range(sequence@, sorted_ids@.len()),
            selected@ == Seq::new(i as nat, |k: int| sorted_ids@[sequence@[k] - 1]),
        decreases sequence@.len() - i,
    {
        let page = sequence[i];
        assert(in_range(sequence@[i as int], sorted_ids@.len()));
        selected.push(sorted_ids[page - 1]);
        i = i + 1;
        assert(selected@ =~= Seq::new(i as nat, |k: int| sorted_ids@[sequence@[k] - 1]));
    }
    selected
}

/// Tells whether `id` is one of `ids`.
pub fn contains_id(ids: &Vec<u32>, id: u32) -> (found: bool)
    ensures
        found == ids@.contains(id),
{
    let mut i: usize = 0;
    while i < ids.len()
        invariant
            0 <= i <= ids@.len(),
            forall|k: int| 0 <= k < i ==> ids@[k] != id,
        decreases ids@.len() - i,
    {
        if ids[i] == id {
            return true;
        }
        i = i + 1;
    }
    false
}

/// The identifiers of `ids` that are none of `keep`, in the order of `ids`.
pub fn remaining_ids(ids: &Vec<u32>, keep: &Vec<u32>) -> (remaining: Vec<u32>)
    ensures
        remaining@ == ids@.filter(not_among(keep@)),
{
    let mut remaining: Vec<u32> = Vec::new();
    let mut i: usize = 0;
    proof {
        reveal(Seq::filter);
        assert(ids@.take(0).filter(not_among(keep@)) =~= remaining@);
    }
    while i < ids.len()
        invariant
            0 <= i <= ids@.len(),
            remaining@ == ids@.take(i as int).filter(not_among(keep@)),
        decreases ids@.len() - i,
    {
        let id = ids[i];
        proof {
            reveal(Seq::filter);
            assert(ids@.take(i + 1).drop_last() =~= ids@.take(i as int));
            assert(ids@.take(i + 1).last() == id);
        }
        if !contains_id(keep, id) {
            remaining.push(id);
        }
        i = i + 1;
    }
    assert(ids@.take(i as int) =~= ids@);
    remaining
}

/// Works out which pages of a document to delete so that the pages named by
/// `sequence` are the ones that stay. `ids` holds the identifiers of the
/// document's pages.
///
/// Fails, before anything else is done, if a page number of `sequence` is
/// not between 1 and the number of pages; the error names the first such
/// page number.
pub fn resolve(ids: &Vec<u32>, sequence: &Vec<usize>) -> (result: Result<Vec<u32>, ResolveError>)
    ensures
        result is Ok <==> all_in_range(sequence@, ids@.len()),
        match result {
            Ok(to_delete) => to_delete@ == deletion(ids@, sequence@),
            Err(ResolveError::OutOfRange(page, total)) => total == ids@.len()
                && is_first_out_of_range(sequence@, ids@.len(), page),
            Err(_) => false,
        },
{
    match check_bounds(sequence, ids.len()) {
        Ok(()) => {},
        Err(error) => {
            return Err(error);
        },
    }
    let sorted_ids = sort_ids(ids);
    proof {
        lemma_ascending(ids@);
    }
    let selected = select_ids(&sorted_ids, sequence);
    assert(selected@ =~= selection(ids@, sequence@));
    Ok(remaining_ids(ids, &selected))
}

/// What a filter keeps: the items that were there and meet the condition.
pub proof fn lemma_filter_contains(ids: Seq<u32>, pred: spec_fn(u32) -> bool, id: u32)
    ensures
        ids.filter(pred).contains(id) <==> ids.contains(id) && pred(id),
    decreases ids.len(),
{
    reveal(Seq::filter);
    if ids.len() > 0 {
        let front = ids.drop_last();
        lemma_filter_contains(front, pred, id);
        let kept = front.filter(pred);
        if ids.contains(id) {
            let i = choose|i: int| 0 <= i < ids.len() && ids[i] == id;
            if i < front.len() {
                assert(front[i] == id);
            }
        }
        if front.contains(id) {
            let i = choose|i: int| 0 <= i < front.len() && front[i] == id;
            assert(ids[i] == id);
        }
        assert(ids[ids.len() - 1] == ids.last());
        if pred(ids.last()) {
            let all = kept.push(ids.last());
            if kept.contains(id) {
                let i = choose|i: int| 0 <= i < kept.len() && kept[i] == id;
                assert(all[i] == id);
            }
            if all.contains(id) {
                let i = choose|i: int| 0 <= i < all.len() && all[i] == id;
                if i < kept.len() {
                    assert(kept[i] == id);
                }
            }
            assert(all[all.len() - 1] == ids.last());
        }
    }
}

/// The identifiers to delete are, as a set, the identifiers of the document
/// that are not selected.
pub proof fn lemma_deletion_set(ids: Seq<u32>, sequence: Seq<usize>)
    ensures
        deletion(ids, sequence).to_set() == deletion_set(ids, sequence),
{
    let keep = selection(ids, sequence);
    assert forall|id: u32|
        deletion(ids, sequence).to_set().contains(id) <==> deletion_set(ids, sequence).contains(
            id,
        ) by {
        lemma_filter_contains(ids, not_among(keep), id);
    }
    assert(deletion(ids, sequence).to_set() =~= deletion_set(ids, sequence));
}

/// Selection and deletion split the identifiers of the document in two:
/// every selected identifier is one of the document, no identifier is both
/// selected and deleted, and each identifier of the document is one or the
/// other.
pub proof fn lemma_selection_and_deletion_partition(ids: Seq<u32>, sequence: Seq<usize>)
    requires
        all_in_range(sequence, ids.len()),
    ensures
        selection_set(ids, sequence).subset_of(ids.to_set()),
        selection_set(ids, sequence).disjoint(deletion_set(ids, sequence)),
        selection_set(ids, sequence).union(deletion_set(ids, sequence)) == ids.to_set(),
{
    lemma_ascending(ids);
    let keep = selection(ids, sequence);
    assert forall|id: u32| selection_set(ids, sequence).contains(id) implies ids.to_set().contains(
        id,
    ) by {
        let i = choose|i: int| 0 <= i < keep.len() && keep[i] == id;
        assert(in_range(sequence[i], ids.len()));
        assert(ascending(ids).contains(ascending(ids)[sequence[i] - 1]));
    }
    assert(selection_set(ids, sequence).union(deletion_set(ids, sequence)) =~= ids.to_set());
}

/// A page number between 1 and the number of pages resolves; 0 and the
/// number of pages plus one do not, and are reported as out of range.
pub proof fn lemma_single_page_in_range(ids: Seq<u32>, page: usize)
    ensures
        1 <= page <= ids.len() ==> all_in_range(seq![page], ids.len()),
        page == 0 || page == ids.len() + 1 ==> !all_in_range(seq![page], ids.len())
            && is_first_out_of_range(seq![page], ids.len(), page),
{
    let sequence = seq![page];
    assert(sequence[0] == page);
    if !(1 <= page <= ids.len()) {
        assert(sequence.take(0) =~= Seq::<usize>::empty());
        assert(all_in_range(sequence.take(0), ids.len()));
    }
}

/// A sequence with a page number that is 0 or the number of pages plus one,
/// or any other that is not between 1 and the number of pages, does not
/// resolve, and one of its page numbers is the first that is out of range.
pub proof fn lemma_page_out_of_range(sequence: Seq<usize>, total: nat, i: int)
    requires
        0 <= i < sequence.len(),
        !in_range(sequence[i], total),
    ensures
        !all_in_range(sequence, total),
        exists|page: usize| is_first_out_of_range(sequence, total, page),
    decreases i,
{
    if all_in_range(sequence.take(i), total) {
        assert(is_first_out_of_range(sequence, total, sequence[i]));
    } else {
        let j = choose|j: int|
            0 <= j < sequence.take(i).len() && !in_range(#[trigger] sequence.take(i)[j], total);
        lemma_page_out_of_range(sequence, total, j);
    }
}

/// The sequence of all logical page numbers of a document of `total` pages,
/// from 1 to `total`.
pub open spec fn full_sequence(total: nat) -> Seq<usize> {
    Seq::new(total, |i: int| (i + 1) as usize)
}

/// Selecting every page of a document deletes none.
pub proof fn lemma_full_sequence_deletes_nothing(ids: Seq<u32>)
    requires
        ids.len() <= usize::MAX,
    ensures
        all_in_range(full_sequence(ids.len()), ids.len()),
        selection(ids, full_sequence(ids.len())) == ascending(ids),
        deletion(ids, full_sequence(ids.len())) == Seq::<u32>::empty(),
        deletion_set(ids, full_sequence(ids.len())) == Set::<u32>::empty(),
{
    let sequence = full_sequence(ids.len());
    lemma_ascending(ids);
    assert(selection(ids, sequence) =~= ascending(ids));
    let gone = deletion(ids, sequence);
    if gone.len() > 0 {
        lemma_filter_contains(ids, not_among(selection(ids, sequence)), gone[0]);
        assert(gone.contains(gone[0]));
    }
    assert(gone =~= Seq::<u32>::empty());
    lemma_deletion_set(ids, sequence);
    assert(gone.to_set() =~= Set::<u32>::empty());
}

/// Of identifiers that are all different, the ones in ascending order are
/// all different too.
pub proof fn lemma_ascending_no_duplicates(ids: Seq<u32>)
    requires
        ids.no_duplicates(),
    ensures
        ascending(ids).no_duplicates(),
{
    lemma_ascending(ids);
    ids.lemma_multiset_has_no_duplicates();
    ascending(ids).lemma_multiset_has_no_duplicates_conv();
}

/// In a document whose page identifiers are all different, as many
/// identifiers are selected as the sequence holds different page numbers,
/// and all the others are deleted.
pub proof fn lemma_deletion_count(ids: Seq<u32>, sequence: Seq<usize>)
    requires
        ids.no_duplicates(),
        all_in_range(sequence, ids.len()),
    ensures
        selection_set(ids, sequence).len() == sequence.to_set().len(),
        deletion_set(ids, sequence).len() == ids.len() - sequence.to_set().len(),
        deletion(ids, sequence).len() == ids.len() - sequence.to_set().len(),
{
    broadcast use vstd::seq_lib::seq_to_set_is_finite;

    let sorted = ascending(ids);
    lemma_ascending(ids);
    lemma_ascending_no_duplicates(ids);
    let pages = sequence.to_set();
    let chosen = selection_set(ids, sequence);
    let f = |page: usize| sorted[page - 1];
    assert forall|p: usize, q: usize|
        pages.contains(p) && pages.contains(q) && #[trigger] f(p) == #[trigger] f(q) implies p
        == q by {
        let i = choose|i: int| 0 <= i < sequence.len() && sequence[i] == p;
        let j = choose|j: int| 0 <= j < sequence.len() && sequence[j] == q;
        assert(in_range(sequence[i], ids.len()));
        assert(in_range(sequence[j], ids.len()));
    }
    assert forall|id: u32| pages.map(f).contains(id) <==> chosen.contains(id) by {
        if pages.map(f).contains(id) {
            let p = choose|p: usize| pages.contains(p) && id == f(p);
            let i = choose|i: int| 0 <= i < sequence.len() && sequence[i] == p;
            assert(selection(ids, sequence)[i] == id);
        }
        if chosen.contains(id) {
            let i = choose|i: int|
                0 <= i < selection(ids, sequence).len() && selection(ids, sequence)[i] == id;
            assert(pages.contains(sequence[i]));
            assert(id == f(sequence[i]));
        }
    }
    assert(pages.map(f) =~= chosen);
    vstd::set_lib::lemma_map_size(pages, chosen, f);
    lemma_selection_and_deletion_partition(ids, sequence);
    ids.unique_seq_to_set();
    vstd::set_lib::lemma_set_difference_len(ids.to_set(), chosen);
    assert(ids.to_set().intersect(chosen) =~= chosen);
    lemma_deletion_set(ids, sequence);
    lemma_filter_no_duplicates(ids, not_among(selection(ids, sequence)));
    deletion(ids, sequence).unique_seq_to_set();
}

/// A filter keeps different items different.
pub proof fn lemma_filter_no_duplicates(ids: Seq<u32>, pred: spec_fn(u32) -> bool)
    requires
        ids.no_duplicates(),
    ensures
        ids.filter(pred).no_duplicates(),
    decreases ids.len(),
{
    reveal(Seq::filter);
    if ids.len() > 0 {
        let front = ids.drop_last();
        lemma_filter_no_duplicates(front, pred);
        if pred(ids.last()) {
            let kept = front.filter(pred);
            lemma_filter_contains(front, pred, ids.last());
            if front.contains(ids.last()) {
                let i = choose|i: int| 0 <= i < front.len() && front[i] == ids.last();
                assert(ids[i] == ids[ids.len() - 1]);
            }
            assert forall|i: int, j: int|
                0 <= i < kept.len() + 1 && 0 <= j < kept.len() + 1 && i != j implies kept.push(
                ids.last(),
            )[i] != kept.push(ids.last())[j] by {
                if i < kept.len() {
                    assert(kept.contains(kept[i]));
                }
                if j < kept.len() {
                    assert(kept.contains(kept[j]));
                }
            }
        }
    }
}

} // verus!
