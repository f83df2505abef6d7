use vstd::prelude::*;

use crate::placement::BaseClue;

verus! {

/// Of two clues of one list, the one at index `i` belongs before the one at
/// index `j`: its answer is longer, or as long and it came first.
pub open spec fn goes_first(clues: Seq<BaseClue>, i: int, j: int) -> bool {
    ||| clues[i].answer@.len() > clues[j].answer@.len()
    ||| (clues[i].answer@.len() == clues[j].answer@.len() && i < j)
}

/// `sorted` holds the clues of `clues`, each once, with the longer answer
/// first and clues of equal length in the order they had; `origin[q]` is the
/// index in `clues` of the clue at `sorted[q]`.
pub open spec fn is_stable_order(
    clues: Seq<BaseClue>,
    sorted: Seq<BaseClue>,
    origin: Seq<int>,
) -> bool {
    &&& sorted.len() == clues.len()
    &&& origin.len() == clues.len()
    &&& forall|q: int|
        0 <= q < sorted.len() ==> 0 <= #[trigger] origin[q] < clues.len() && sorted[q]
            == clues[origin[q]]
    &&& forall|p: int, q: int|
        0 <= p < q < sorted.len() ==> goes_first(clues, #[trigger] origin[p], #[trigger] origin[q])
}

/// No answer in the list is longer than one before it.
pub open spec fn is_longest_first(sorted: Seq<BaseClue>) -> bool {
    forall|p: int, q: int|
        0 <= p < q < sorted.len() ==> (#[trigger] sorted[p]).answer@.len() >= (
        #[trigger] sorted[q]).answer@.len()
}

/// Where a clue with an answer of `len` letters goes in a list that has the
/// longest first: behind every clue whose answer is at least as long.
pub open spec fn slot(sorted: Seq<BaseClue>, len: nat) -> int
    decreases sorted.len(),
{
    if sorted.len() == 0 || sorted[0].answer@.len() < len {
        0
    } else {
        1 + slot(sorted.drop_first(), len)
    }
}

/// The clues with the longest answer first; clues with answers of one length
/// keep the order they came in.
pub open spec fn ordered(clues: Seq<BaseClue>) -> Seq<BaseClue>
    decreases clues.len(),
{
    if clues.len() == 0 {
        clues
    } else {
        let head = ordered(clues.drop_last());
        head.insert(slot(head, clues.last().answer@.len()), clues.last())
    }
}

/// In a list that has the longest first, the slot for a length parts the
/// clues at least as long from the shorter ones.
pub proof fn lemma_slot_parts(sorted: Seq<BaseClue>, len: nat)
    requires
        is_longest_first(sorted),
    ensures
        0 <= slot(sorted, len) <= sorted.len(),
        forall|q: int| 0 <= q < slot(sorted, len) ==> (#[trigger] sorted[q]).answer@.len() >= len,
        forall|q: int|
            slot(sorted, len) <= q < sorted.len() ==> (#[trigger] sorted[q]).answer@.len() < len,
    decreases sorted.len(),
{
    if sorted.len() == 0 || sorted[0].answer@.len() < len {
        assert forall|q: int| 0 <= q < sorted.len() implies (#[trigger] sorted[q]).answer@.len()
            < len by {
            if q > 0 {
                assert(sorted[0].answer@.len() >= sorted[q].answer@.len());
            }
        }
    } else {
        let tail = sorted.drop_first();
        assert forall|p: int, q: int| 0 <= p < q < tail.len() implies (#[trigger] tail[p]).answer@.len()
            >= (#[trigger] tail[q]).answer@.len() by {
            assert(tail[p] == sorted[p + 1] && tail[q] == sorted[q + 1]);
        }
        lemma_slot_parts(tail, len);
        assert forall|q: int| 0 <= q < slot(sorted, len) implies (#[trigger] sorted[q]).answer@.len()
            >= len by {
            if q > 0 {
                assert(sorted[q] == tail[q - 1]);
            }
        }
        assert forall|q: int| slot(sorted, len) <= q < sorted.len() implies (
        #[trigger] sorted[q]).answer@.len() < len by {
            assert(sorted[q] == tail[q - 1]);
        }
    }
}

/// The ordered list is a stable rearrangement of the clues, longest answer
/// first. The result tells, for each place of the ordered list, which clue
/// stands there.
pub proof fn law_ordered_is_stable(clues: Seq<BaseClue>) -> (origin: Seq<int>)
    ensures
        is_stable_order(clues, ordered(clues), origin),
        is_longest_first(ordered(clues)),
    decreases clues.len(),
{
    if clues.len() == 0 {
        Seq::<int>::empty()
    } else {
        let n = clues.len() as int;
        let front = clues.drop_last();
        let head = ordered(front);
        let head_origin = law_ordered_is_stable(front);
        let len = clues.last().answer@.len();
        let p = slot(head, len);
        lemma_slot_parts(head, len);
        let sorted = head.insert(p, clues.last());
        let origin = head_origin.insert(p, n - 1);
        assert forall|q: int| 0 <= q < sorted.len() implies 0 <= #[trigger] origin[q] < clues.len()
            && sorted[q] == clues[origin[q]] by {
            if q < p {
                assert(origin[q] == head_origin[q]);
                assert(sorted[q] == head[q]);
                assert(front[head_origin[q]] == clues[head_origin[q]]);
            } else if q > p {
                assert(origin[q] == head_origin[q - 1]);
                assert(sorted[q] == head[q - 1]);
                assert(front[head_origin[q - 1]] == clues[head_origin[q - 1]]);
            }
        }
        assert forall|a: int, c: int| 0 <= a < c < sorted.len() implies goes_first(
            clues,
            #[trigger] origin[a],
            #[trigger] origin[c],
        ) by {
            let oa = if a < p { a } else { a - 1 };
            let oc = if c < p { c } else { c - 1 };
            if a != p {
                assert(origin[a] == head_origin[oa]);
                assert(head[oa] == front[head_origin[oa]]);
                assert(front[head_origin[oa]] == clues[head_origin[oa]]);
            }
            if c != p {
                assert(origin[c] == head_origin[oc]);
                assert(head[oc] == front[head_origin[oc]]);
                assert(front[head_origin[oc]] == clues[head_origin[oc]]);
            }
            if a != p && c != p {
                assert(goes_first(front, head_origin[oa], head_origin[oc]));
            }
        }
        assert forall|a: int, c: int| 0 <= a < c < sorted.len() implies (
        #[trigger] sorted[a]).answer@.len() >= (#[trigger] sorted[c]).answer@.len() by {
            assert(goes_first(clues, origin[a], origin[c]));
        }
        origin
    }
}

/// The ordered list holds the same clues as the list given, each as often.
pub proof fn law_ordered_is_permutation(clues: Seq<BaseClue>)
    ensures
        ordered(clues).len() == clues.len(),
        ordered(clues).to_multiset() == clues.to_multiset(),
    decreases clues.len(),
{
    if clues.len() > 0 {
        let front = clues.drop_last();
        let head = ordered(front);
        let origin = law_ordered_is_stable(front);
        law_ordered_is_permutation(front);
        lemma_slot_parts(head, clues.last().answer@.len());
        vstd::seq_lib::to_multiset_insert(head, slot(head, clues.last().answer@.len()), clues.last());
        vstd::seq_lib::to_multiset_build(front, clues.last());
        assert(clues =~= front.push(clues.last()));
    }
}

/// The first clue of the ordered list has the longest answer of all.
pub proof fn law_first_is_longest(clues: Seq<BaseClue>, i: int)
    requires
        0 <= i < clues.len(),
    ensures
        clues[i].answer@.len() <= ordered(clues)[0].answer@.len(),
{
    let sorted = ordered(clues);
    let origin = law_ordered_is_stable(clues);
    law_ordered_is_permutation(clues);
    vstd::seq_lib::to_multiset_contains(clues, clues[i]);
    vstd::seq_lib::to_multiset_contains(sorted, clues[i]);
    assert(clues.contains(clues[i]));
    let q = choose|q: int| 0 <= q < sorted.len() && sorted[q] == clues[i];
    if q > 0 {
        assert(sorted[0].answer@.len() >= sorted[q].answer@.len());
    }
}

/// `one` and `other` hold clues with the same answers, place by place.
pub open spec fn same_answers(one: Seq<BaseClue>, other: Seq<BaseClue>) -> bool {
    &&& one.len() == other.len()
    &&& forall|i: int| 0 <= i < one.len() ==> (#[trigger] one[i]).answer@ == other[i].answer@
}

/// The slot for a length depends on the answers of the list alone.
pub proof fn lemma_slot_by_answers(one: Seq<BaseClue>, other: Seq<BaseClue>, len: nat)
    requires
        same_answers(one, other),
    ensures
        slot(one, len) == slot(other, len),
    decreases one.len(),
{
    if one.len() > 0 {
        assert(one[0].answer@ == other[0].answer@);
        if one[0].answer@.len() >= len {
            assert forall|i: int| 0 <= i < one.drop_first().len() implies (
            #[trigger] one.drop_first()[i]).answer@ == other.drop_first()[i].answer@ by {
                assert(one[i + 1].answer@ == other[i + 1].answer@);
            }
            lemma_slot_by_answers(one.drop_first(), other.drop_first(), len);
        }
    }
}

/// The order depends on the answers alone: lists with the same answers,
/// place by place, are ordered alike.
pub proof fn law_ordered_by_answers(one: Seq<BaseClue>, other: Seq<BaseClue>)
    requires
        same_answers(one, other),
    ensures
        same_answers(ordered(one), ordered(other)),
    decreases one.len(),
{
    if one.len() > 0 {
        let front_one = one.drop_last();
        let front_other = other.drop_last();
        assert forall|i: int| 0 <= i < front_one.len() implies (#[trigger] front_one[i]).answer@
            == front_other[i].answer@ by {
            assert(one[i].answer@ == other[i].answer@);
        }
        law_ordered_by_answers(front_one, front_other);
        let head_one = ordered(front_one);
        let head_other = ordered(front_other);
        let len = one.last().answer@.len();
        assert(one[one.len() - 1].answer@ == other[one.len() - 1].answer@);
        lemma_slot_by_answers(head_one, head_other, len);
        let origin = law_ordered_is_stable(front_one);
        lemma_slot_parts(head_one, len);
        let p = slot(head_one, len);
        let sorted_one = head_one.insert(p, one.last());
        let sorted_other = head_other.insert(p, other.last());
        assert forall|i: int| 0 <= i < sorted_one.len() implies (#[trigger] sorted_one[i]).answer@
            == sorted_other[i].answer@ by {
            if i < p {
                assert(head_one[i].answer@ == head_other[i].answer@);
            } else if i > p {
                assert(head_one[i - 1].answer@ == head_other[i - 1].answer@);
            }
        }
    }
}

/// Orders the clues for the search: longest answer first, clues with
/// answers of one length in the order they came in.
pub fn sort(strings: Vec<BaseClue>) -> (sorted: Vec<BaseClue>)
    ensures
        sorted@ == ordered(strings@),
        is_longest_first(sorted@),
        sorted@.to_multiset() == strings@.to_multiset(),
        exists|origin: Seq<int>| is_stable_order(strings@, sorted@, origin),
{
    let mut sorted: Vec<BaseClue> = Vec::new();
    let mut i: usize = 0;
    assert(strings@.take(0) =~= Seq::<BaseClue>::empty());
    while i < strings.len()
        invariant
            i <= strings.len(),
            sorted@ == ordered(strings@.take(i as int)),
        decreases strings.len() - i,
    {
        let len = strings[i].answer.as_str().unicode_len();
        let mut p: usize = 0;
        assert(sorted@.skip(0) =~= sorted@);
        loop
            invariant
                p <= sorted.len(),
                slot(sorted@, len as nat) == p + slot(sorted@.skip(p as int), len as nat),
            ensures
                p <= sorted.len(),
                slot(sorted@, len as nat) == p,
            decreases sorted.len() - p,
        {
            if p >= sorted.len() {
                break;
            }
            if sorted[p].answer.as_str().unicode_len() < len {
                break;
            }
            assert(sorted@.skip(p as int).drop_first() =~= sorted@.skip(p as int + 1));
            p += 1;
        }
        let item = BaseClue { clue: strings[i].clue.clone(), answer: strings[i].answer.clone() };
        assert(item == strings@[i as int]);
        proof {
            let upto = strings@.take(i as int + 1);
            assert(upto.drop_last() =~= strings@.take(i as int));
            assert(upto.last() == strings@[i as int]);
        }
        sorted.insert(p, item);
        i += 1;
    }
    proof {
        assert(strings@.take(strings@.len() as int) =~= strings@);
        let origin = law_ordered_is_stable(strings@);
        law_ordered_is_permutation(strings@);
    }
    sorted
}

} // verus!
