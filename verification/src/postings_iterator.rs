use vstd::prelude::*;
use crate::posting_list::{
    strictly_increasing,
    CompressedPostingList,
    CompressedPostingVisitor,
    PostingList,
};
use crate::types::PointOffsetType;

verus! {

/// The lists as sequences.
pub open spec fn lists_view(postings: Seq<&PostingList>) -> Seq<Seq<u32>> {
    postings.map_values(|p: &PostingList| p@)
}

/// The compressed lists as sequences.
pub open spec fn compressed_view(postings: Seq<&CompressedPostingList>) -> Seq<Seq<u32>> {
    postings.map_values(|p: &CompressedPostingList| p@)
}

/// True when every list holds the point.
pub open spec fn in_all(lists: Seq<Seq<u32>>, idx: PointOffsetType) -> bool {
    forall|i: int| 0 <= i < lists.len() ==> (#[trigger] lists[i]).contains(idx)
}

/// Position of the shortest list, the first of them where several are as
/// short.
fn shortest(postings: &Vec<&PostingList>) -> (r: usize)
    requires
        postings.len() > 0,
    ensures
        r < postings.len(),
        forall|i: int| 0 <= i < postings.len() ==> postings@[r as int]@.len() <= postings@[i]@.len(),
{
    let mut best: usize = 0;
    let mut i: usize = 1;
    while i < postings.len()
        invariant
            1 <= i <= postings.len(),
            best < i,
            forall|k: int| 0 <= k < i ==> postings@[best as int]@.len() <= postings@[k]@.len(),
        decreases postings.len() - i,
    {
        if postings[i].len() < postings[best].len() {
            best = i;
        }
        i = i + 1;
    }
    best
}

fn all_contain(postings: &Vec<&PostingList>, idx: PointOffsetType) -> (r: bool)
    requires
        forall|i: int| 0 <= i < postings.len() ==> (#[trigger] postings@[i]).wf(),
    ensures
        r == in_all(lists_view(postings@), idx),
{
    let mut i: usize = 0;
    while i < postings.len()
        invariant
            i <= postings.len(),
            forall|k: int| 0 <= k < postings.len() ==> (#[trigger] postings@[k]).wf(),
            forall|k: int| 0 <= k < i ==> postings@[k]@.contains(idx),
        decreases postings.len() - i,
    {
        if !postings[i].contains(&idx) {
            assert(!lists_view(postings@)[i as int].contains(idx));
            return false;
        }
        i = i + 1;
    }
    assert forall|k: int| 0 <= k < lists_view(postings@).len() implies (#[trigger] lists_view(
        postings@,
    )[k]).contains(idx) by {
        assert(postings@[k]@.contains(idx));
    }
    true
}

/// The points that every one of the lists holds, in ascending order. The
/// shortest list is walked and the others are probed.
pub fn intersect_postings_iterator(postings: Vec<&PostingList>) -> (r: Vec<PointOffsetType>)
    requires
        postings.len() > 0,
        forall|i: int| 0 <= i < postings.len() ==> (#[trigger] postings@[i]).wf(),
    ensures
        strictly_increasing(r@),
        forall|idx: PointOffsetType| r@.contains(idx) <==> in_all(lists_view(postings@), idx),
{
    let smallest_posting_idx: usize = shortest(&postings);
    let smallest: &Vec<u32> = postings[smallest_posting_idx].iter();
    let ghost lists = lists_view(postings@);
    assert(lists[smallest_posting_idx as int] == smallest@);
    let mut out: Vec<u32> = Vec::new();
    let mut i: usize = 0;
    while i < smallest.len()
        invariant
            i <= smallest.len(),
            lists == lists_view(postings@),
            strictly_increasing(smallest@),
            forall|k: int| 0 <= k < postings.len() ==> (#[trigger] postings@[k]).wf(),
            strictly_increasing(out@),
            forall|k: int| 0 <= k < out@.len() && i < smallest.len() ==> out@[k] < smallest@[i as int],
            forall|idx: PointOffsetType|
                #![trigger out@.contains(idx)]
                #![trigger in_all(lists, idx)]
                out@.contains(idx) <==> (smallest@.take(i as int).contains(idx) && in_all(
                    lists,
                    idx,
                )),
        decreases smallest.len() - i,
    {
        let doc_id: u32 = smallest[i];
        let keep: bool = all_contain(&postings, doc_id);
        let ghost before = out@;
        let ghost head = smallest@.take(i as int);
        let ghost head_next = smallest@.take(i as int + 1);
        proof {
            assert(head_next =~= head.push(doc_id));
        }
        if keep {
            out.push(doc_id);
            proof {
                let after = out@;
                assert forall|a: int, b: int| 0 <= a < b < after.len() implies after[a]
                    < after[b] by {
                    if b == after.len() - 1 {
                        assert(after[a] == before[a]);
                    } else {
                        assert(after[a] == before[a] && after[b] == before[b]);
                    }
                }
                assert forall|idx: PointOffsetType|
                    #![trigger after.contains(idx)]
                    #![trigger in_all(lists, idx)]
                    after.contains(idx) <==> (head_next.contains(idx) && in_all(lists, idx)) by {
                    if after.contains(idx) {
                        let k = choose|k: int| 0 <= k < after.len() && after[k] == idx;
                        if k < before.len() {
                            assert(before[k] == idx);
                            assert(before.contains(idx));
                            let j = choose|j: int| 0 <= j < head.len() && head[j] == idx;
                            assert(head_next[j] == idx);
                        } else {
                            assert(head_next[i as int] == idx);
                        }
                    }
                    if head_next.contains(idx) && in_all(lists, idx) {
                        let j = choose|j: int| 0 <= j < head_next.len() && head_next[j] == idx;
                        if j < i {
                            assert(head[j] == idx);
                            assert(before.contains(idx));
                            let k = choose|k: int| 0 <= k < before.len() && before[k] == idx;
                            assert(after[k] == idx);
                        } else {
                            assert(after[after.len() - 1] == idx);
                        }
                    }
                }
            }
        } else {
            proof {
                assert forall|idx: PointOffsetType|
                    #![trigger before.contains(idx)]
                    #![trigger in_all(lists, idx)]
                    before.contains(idx) <==> (head_next.contains(idx) && in_all(lists, idx)) by {
                    if before.contains(idx) {
                        let j = choose|j: int| 0 <= j < head.len() && head[j] == idx;
                        assert(head_next[j] == idx);
                    }
                    if head_next.contains(idx) && in_all(lists, idx) {
                        let j = choose|j: int| 0 <= j < head_next.len() && head_next[j] == idx;
                        assert(j < i);
                        assert(head[j] == idx);
                    }
                }
            }
        }
        i = i + 1;
    }
    proof {
        assert(smallest@.take(smallest@.len() as int) =~= smallest@);
        assert forall|idx: PointOffsetType| in_all(lists, idx) implies smallest@.contains(idx) by {
            assert(lists[smallest_posting_idx as int].contains(idx));
        }
    }
    out
}

/// Position of the shortest list, the first of them where several are as
/// short.
fn shortest_compressed(postings: &Vec<&CompressedPostingList>) -> (r: usize)
    requires
        postings.len() > 0,
        forall|i: int| 0 <= i < postings.len() ==> (#[trigger] postings@[i]).wf(),
    ensures
        r < postings.len(),
        forall|i: int| 0 <= i < postings.len() ==> postings@[r as int]@.len() <= postings@[i]@.len(),
{
    let mut best: usize = 0;
    let mut i: usize = 1;
    while i < postings.len()
        invariant
            1 <= i <= postings.len(),
            best < i,
            forall|k: int| 0 <= k < postings.len() ==> (#[trigger] postings@[k]).wf(),
            forall|k: int| 0 <= k < i ==> postings@[best as int]@.len() <= postings@[k]@.len(),
        decreases postings.len() - i,
    {
        if postings[i].len() < postings[best].len() {
            best = i;
        }
        i = i + 1;
    }
    best
}

/// The points that every one of the lists holds and that `filter` lets
/// through, in ascending order. The shortest list is walked; through each
/// of the others runs one visitor that never turns back.
pub fn intersect_compressed_postings_iterator<F: Fn(PointOffsetType) -> bool>(
    postings: Vec<&CompressedPostingList>,
    filter: F,
) -> (r: Vec<PointOffsetType>)
    requires
        postings.len() > 0,
        forall|i: int| 0 <= i < postings.len() ==> (#[trigger] postings@[i]).wf(),
        forall|idx: PointOffsetType| call_requires(filter, (idx,)),
    ensures
        strictly_increasing(r@),
        forall|idx: PointOffsetType|
            r@.contains(idx) ==> in_all(compressed_view(postings@), idx) && call_ensures(
                filter,
                (idx,),
                true,
            ),
        forall|idx: PointOffsetType|
            in_all(compressed_view(postings@), idx) && !r@.contains(idx) ==> call_ensures(
                filter,
                (idx,),
                false,
            ),
{
    let smallest_posting_idx: usize = shortest_compressed(&postings);
    let smallest: Vec<u32> = postings[smallest_posting_idx].iter();
    let ghost lists = compressed_view(postings@);
    proof {
        postings@[smallest_posting_idx as int].lemma_sorted();
        assert(lists[smallest_posting_idx as int] == smallest@);
    }
    let mut posting_visitors: Vec<CompressedPostingVisitor<'_>> = Vec::new();
    let mut v: usize = 0;
    while v < postings.len()
        invariant
            v <= postings.len(),
            posting_visitors@.len() == v,
            forall|k: int| 0 <= k < postings.len() ==> (#[trigger] postings@[k]).wf(),
            forall|k: int|
                0 <= k < v ==> (#[trigger] posting_visitors@[k]).wf() && posting_visitors@[k].list()
                    == postings@[k]@ && forall|val: u32| posting_visitors@[k].can_answer(val),
        decreases postings.len() - v,
    {
        posting_visitors.push(CompressedPostingVisitor::new(postings[v]));
        v = v + 1;
    }
    let mut out: Vec<u32> = Vec::new();
    let mut i: usize = 0;
    while i < smallest.len()
        invariant
            i <= smallest.len(),
            lists == compressed_view(postings@),
            strictly_increasing(smallest@),
            posting_visitors@.len() == postings.len(),
            forall|idx: PointOffsetType| call_requires(filter, (idx,)),
            forall|k: int|
                0 <= k < postings.len() ==> (#[trigger] posting_visitors@[k]).wf()
                    && posting_visitors@[k].list() == postings@[k]@,
            forall|k: int, val: u32|
                0 <= k < postings.len() && (i < smallest.len() && val >= smallest@[i as int])
                    ==> (#[trigger] posting_visitors@[k].can_answer(val)),
            strictly_increasing(out@),
            forall|k: int| 0 <= k < out@.len() && i < smallest.len() ==> out@[k] < smallest@[i as int],
            forall|idx: PointOffsetType|
                #![trigger out@.contains(idx)]
                out@.contains(idx) ==> in_all(lists, idx) && call_ensures(filter, (idx,), true),
            forall|idx: PointOffsetType|
                #![trigger in_all(lists, idx)]
                smallest@.take(i as int).contains(idx) && in_all(lists, idx) && !out@.contains(idx)
                    ==> call_ensures(filter, (idx,), false),
        decreases smallest.len() - i,
    {
        let doc_id: u32 = smallest[i];
        let ghost before = out@;
        let ghost head = smallest@.take(i as int);
        let ghost head_next = smallest@.take(i as int + 1);
        proof {
            assert(head_next =~= head.push(doc_id));
        }
        let passes: bool = filter(doc_id);
        let mut keep: bool = passes;
        if passes {
            let mut k: usize = 0;
            while k < posting_visitors.len() && keep
                invariant
                    k <= posting_visitors@.len(),
                    posting_visitors@.len() == postings.len(),
                    i < smallest.len(),
                    doc_id == smallest@[i as int],
                    lists == compressed_view(postings@),
                    forall|n: int|
                        0 <= n < postings.len() ==> (#[trigger] posting_visitors@[n]).wf()
                            && posting_visitors@[n].list() == postings@[n]@,
                    forall|n: int, val: u32|
                        0 <= n < postings.len() && val > doc_id ==> (
                        #[trigger] posting_visitors@[n].can_answer(val)),
                    forall|n: int|
                        k <= n < postings.len() ==> (#[trigger] posting_visitors@[n]).can_answer(
                            doc_id,
                        ),
                    keep ==> forall|n: int| 0 <= n < k ==> (#[trigger] lists[n]).contains(doc_id),
                    !keep ==> !in_all(lists, doc_id),
                decreases posting_visitors@.len() - k + if keep { 1int } else { 0int },
            {
                let found: bool = posting_visitors[k].contains_next_and_advance(&doc_id);
                proof {
                    assert(lists[k as int] == postings@[k as int]@);
                }
                if found {
                    k = k + 1;
                } else {
                    keep = false;
                }
            }
        }
        proof {
            if i + 1 < smallest.len() {
                assert(smallest@[i as int] < smallest@[i as int + 1]);
            }
        }
        if keep {
            out.push(doc_id);
            proof {
                let after = out@;
                assert(in_all(lists, doc_id));
                assert forall|a: int, b: int| 0 <= a < b < after.len() implies after[a]
                    < after[b] by {
                    if b == after.len() - 1 {
                        assert(after[a] == before[a]);
                    } else {
                        assert(after[a] == before[a] && after[b] == before[b]);
                    }
                }
                assert forall|idx: PointOffsetType| after.contains(idx) implies in_all(lists, idx)
                    && call_ensures(filter, (idx,), true) by {
                    let n = choose|n: int| 0 <= n < after.len() && after[n] == idx;
                    if n < before.len() {
                        assert(before[n] == idx);
                        assert(before.contains(idx));
                    }
                }
                assert forall|idx: PointOffsetType|
                    head_next.contains(idx) && in_all(lists, idx) && !after.contains(
                        idx,
                    ) implies call_ensures(filter, (idx,), false) by {
                    let j = choose|j: int| 0 <= j < head_next.len() && head_next[j] == idx;
                    if j < i {
                        assert(head[j] == idx);
                        assert(head.contains(idx));
                        if before.contains(idx) {
                            let n = choose|n: int| 0 <= n < before.len() && before[n] == idx;
                            assert(after[n] == idx);
                        }
                    } else {
                        assert(after[after.len() - 1] == idx);
                    }
                }
            }
        } else {
            proof {
                assert forall|idx: PointOffsetType|
                    head_next.contains(idx) && in_all(lists, idx) && !before.contains(
                        idx,
                    ) implies call_ensures(filter, (idx,), false) by {
                    let j = choose|j: int| 0 <= j < head_next.len() && head_next[j] == idx;
                    if j < i {
                        assert(head[j] == idx);
                        assert(head.contains(idx));
                    }
                }
            }
        }
        i = i + 1;
    }
    proof {
        assert(smallest@.take(smallest@.len() as int) =~= smallest@);
        assert forall|idx: PointOffsetType| in_all(lists, idx) implies smallest@.contains(idx) by {
            assert(lists[smallest_posting_idx as int].contains(idx));
        }
    }
    out
}

} // verus!
