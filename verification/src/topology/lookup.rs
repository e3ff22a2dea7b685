//! Finding several nodes at once, each in the place in which it was asked
//! for: the ids are split by kind, sorted, merged against the nodes in id
//! order, and what was found is put back in the order of the request.

use vstd::prelude::*;
use std::cmp::Ordering;
use itertools::EitherOrBoth;
use itertools::Itertools;

verus! {

/// A position and an id: a node in its slot, or an id in its place in a
/// request.
pub type Tagged = (usize, u32);

/// What a merge yields for each step: a node that nobody asked for, a
/// request that no node answers, or a node with the request that it answers.
#[derive(Clone, Copy, Debug)]
pub enum Joined {
    Left(Tagged),
    Right(Tagged),
    Both(Tagged, Tagged),
}

/// The ids of a request, each with its place.
pub open spec fn indexed(ids: Seq<u32>) -> Seq<Tagged> {
    Seq::new(ids.len(), |i: int| (i as usize, ids[i]))
}

/// Every entry is an id of the request with its place.
pub open spec fn faithful(v: Seq<Tagged>, ids: Seq<u32>) -> bool {
    forall|k: int| 0 <= k < v.len() ==> (#[trigger] v[k]).0 < ids.len() && v[k].1 == ids[v[k].0 as int]
}

pub open spec fn ordered_by_id(v: Seq<Tagged>) -> bool {
    forall|i: int, j: int| 0 <= i < j < v.len() ==> (#[trigger] v[i]).1 <= (#[trigger] v[j]).1
}

pub open spec fn strictly_by_id(v: Seq<Tagged>) -> bool {
    forall|i: int, j: int| 0 <= i < j < v.len() ==> (#[trigger] v[i]).1 < (#[trigger] v[j]).1
}

pub open spec fn ordered_by_position(v: Seq<Tagged>) -> bool {
    forall|i: int, j: int| 0 <= i < j < v.len() ==> (#[trigger] v[i]).0 <= (#[trigger] v[j]).0
}

/// Whether one of `nodes` carries `id`.
pub open spec fn knows(nodes: Seq<Tagged>, id: u32) -> bool {
    exists|i: int| 0 <= i < nodes.len() && (#[trigger] nodes[i]).1 == id
}

/// The merge of two sequences that are in ascending order of id. At each
/// step the heads are compared: the smaller goes out alone, `Left` or
/// `Right` by the side it comes from, and equal heads go out together; when
/// one side is used up the rest of the other goes out alone.
pub open spec fn merge_joined(left: Seq<Tagged>, right: Seq<Tagged>) -> Seq<Joined>
    decreases left.len() + right.len(),
{
    if left.len() == 0 && right.len() == 0 {
        Seq::empty()
    } else if right.len() == 0 {
        seq![Joined::Left(left[0])] + merge_joined(left.skip(1), right)
    } else if left.len() == 0 {
        seq![Joined::Right(right[0])] + merge_joined(left, right.skip(1))
    } else if left[0].1 < right[0].1 {
        seq![Joined::Left(left[0])] + merge_joined(left.skip(1), right)
    } else if left[0].1 > right[0].1 {
        seq![Joined::Right(right[0])] + merge_joined(left, right.skip(1))
    } else {
        seq![Joined::Both(left[0], right[0])] + merge_joined(left.skip(1), right.skip(1))
    }
}

/// The first request that no node answers.
pub open spec fn first_right(joined: Seq<Joined>) -> Option<Tagged>
    decreases joined.len(),
{
    if joined.len() == 0 {
        None
    } else {
        match first_right(joined.drop_last()) {
            Some(x) => Some(x),
            None => match joined.last() {
                Joined::Right(x) => Some(x),
                _ => None,
            },
        }
    }
}

/// The requests that were answered, each with its place in the request and
/// the id of the node that answers it.
pub open spec fn matched(joined: Seq<Joined>) -> Seq<Tagged>
    decreases joined.len(),
{
    if joined.len() == 0 {
        Seq::empty()
    } else {
        match joined.last() {
            Joined::Both(n, w) => matched(joined.drop_last()).push((w.0, n.1)),
            _ => matched(joined.drop_last()),
        }
    }
}

/// Three-way comparison of two ids.
pub fn compare_ids(a: u32, b: u32) -> (o: Ordering)
    ensures
        match o {
            Ordering::Less => a < b,
            Ordering::Equal => a == b,
            Ordering::Greater => a > b,
        },
{
    if a < b {
        Ordering::Less
    } else if a > b {
        Ordering::Greater
    } else {
        Ordering::Equal
    }
}

/// Calls `slice::sort_by_key` with the id as the key: afterwards the entries
/// are the same as before, in ascending order of id.
#[verifier::external_body]
pub(crate) fn sort_by_id(v: &mut Vec<Tagged>)
    ensures
        ordered_by_id(final(v)@),
        final(v)@.to_multiset() == old(v)@.to_multiset(),
{
    v.sort_by_key(|x| x.1)
}

/// Calls `Itertools::merge_join_by`, comparing a node and a request by id
/// with `compare_ids`: the steps of the merge, in order.
#[verifier::external_body]
fn join_sorted(nodes: &Vec<Tagged>, wanted: &Vec<Tagged>) -> (out: Vec<Joined>)
    ensures
        out@ == merge_joined(nodes@, wanted@),
{
    nodes
        .iter()
        .merge_join_by(wanted.iter(), |n, w| compare_ids(n.1, w.1))
        .map(|e| match e {
            EitherOrBoth::Left(n) => Joined::Left(*n),
            EitherOrBoth::Right(w) => Joined::Right(*w),
            EitherOrBoth::Both(n, w) => Joined::Both(*n, *w),
        })
        .collect()
}

/// Calls `Itertools::sorted_by_key` with the position as the key: the same
/// entries, in ascending order of position.
#[verifier::external_body]
pub(crate) fn sort_by_position(v: Vec<Tagged>) -> (out: Vec<Tagged>)
    ensures
        ordered_by_position(out@),
        out@.to_multiset() == v@.to_multiset(),
{
    v.into_iter().sorted_by_key(|x| x.0).collect()
}

/// What comes first in a merge comes first in what is read off it.
pub proof fn lemma_joined_front(head: Joined, rest: Seq<Joined>)
    ensures
        first_right(seq![head] + rest) == match head {
            Joined::Right(x) => Some(x),
            _ => first_right(rest),
        },
        matched(seq![head] + rest) == match head {
            Joined::Both(n, w) => seq![(w.0, n.1)] + matched(rest),
            _ => matched(rest),
        },
    decreases rest.len(),
{
    let all = seq![head] + rest;
    if rest.len() == 0 {
        assert(all.drop_last() =~= Seq::<Joined>::empty());
        assert(all.last() == head);
        assert(first_right(all.drop_last()) is None);
        assert(first_right(rest) is None);
        assert(matched(all.drop_last()) =~= Seq::<Tagged>::empty());
        assert(matched(rest) =~= Seq::<Tagged>::empty());
        match head {
            Joined::Both(n, w) => {
                assert(matched(all) =~= seq![(w.0, n.1)] + matched(rest));
            },
            _ => {},
        }
    } else {
        lemma_joined_front(head, rest.drop_last());
        assert(all.drop_last() =~= seq![head] + rest.drop_last());
        assert(all.last() == rest.last());
        match (head, rest.last()) {
            (Joined::Both(n, w), Joined::Both(m, v)) => {
                assert(matched(all) =~= seq![(w.0, n.1)] + matched(rest));
            },
            _ => {},
        }
    }
}

/// A merge of nodes, each with an id of its own, against requests in
/// ascending order answers every request exactly when no two requests name
/// the same node and each names a node that is there; and then the answers
/// are the requests, in order.
pub proof fn lemma_merge_answers(nodes: Seq<Tagged>, wanted: Seq<Tagged>)
    requires
        strictly_by_id(nodes),
        ordered_by_id(wanted),
    ensures
        first_right(merge_joined(nodes, wanted)) is None <==> strictly_by_id(wanted) && forall|
            k: int,
        |
            0 <= k < wanted.len() ==> knows(nodes, (#[trigger] wanted[k]).1),
        first_right(merge_joined(nodes, wanted)) is None ==> matched(merge_joined(nodes, wanted))
            == wanted,
    decreases nodes.len() + wanted.len(),
{
    let joined = merge_joined(nodes, wanted);
    let all_known = forall|k: int| 0 <= k < wanted.len() ==> knows(nodes, (#[trigger] wanted[k]).1);
    if nodes.len() == 0 && wanted.len() == 0 {
        assert(matched(joined) =~= wanted);
    } else if wanted.len() == 0 {
        let rest = merge_joined(nodes.skip(1), wanted);
        lemma_merge_answers(nodes.skip(1), wanted);
        lemma_joined_front(Joined::Left(nodes[0]), rest);
    } else if nodes.len() == 0 {
        let rest = merge_joined(nodes, wanted.skip(1));
        lemma_joined_front(Joined::Right(wanted[0]), rest);
        assert(!knows(nodes, wanted[0].1));
    } else if nodes[0].1 < wanted[0].1 {
        let later = nodes.skip(1);
        let rest = merge_joined(later, wanted);
        assert(strictly_by_id(later)) by {
            assert forall|i: int, j: int| 0 <= i < j < later.len() implies (#[trigger] later[i]).1
                < (#[trigger] later[j]).1 by {
                assert(nodes[i + 1].1 < nodes[j + 1].1);
            }
        }
        lemma_merge_answers(later, wanted);
        lemma_joined_front(Joined::Left(nodes[0]), rest);
        assert forall|k: int| 0 <= k < wanted.len() implies (knows(nodes, (#[trigger] wanted[k]).1)
            <==> knows(later, wanted[k].1)) by {
            if k > 0 {
                assert(wanted[0].1 <= wanted[k].1);
            }
            if knows(nodes, wanted[k].1) {
                let i = choose|i: int| 0 <= i < nodes.len() && (#[trigger] nodes[i]).1 == wanted[k].1;
                assert(i > 0);
                assert(later[i - 1] == nodes[i]);
            }
            if knows(later, wanted[k].1) {
                let i = choose|i: int| 0 <= i < later.len() && (#[trigger] later[i]).1 == wanted[k].1;
                assert(nodes[i + 1] == later[i]);
            }
        }
    } else if nodes[0].1 > wanted[0].1 {
        let rest = merge_joined(nodes, wanted.skip(1));
        lemma_joined_front(Joined::Right(wanted[0]), rest);
        assert(!knows(nodes, wanted[0].1)) by {
            if knows(nodes, wanted[0].1) {
                let i = choose|i: int| 0 <= i < nodes.len() && (#[trigger] nodes[i]).1 == wanted[0].1;
                if i > 0 {
                    assert(nodes[0].1 < nodes[i].1);
                }
            }
        }
    } else {
        let later = nodes.skip(1);
        let others = wanted.skip(1);
        let rest = merge_joined(later, others);
        assert(strictly_by_id(later)) by {
            assert forall|i: int, j: int| 0 <= i < j < later.len() implies (#[trigger] later[i]).1
                < (#[trigger] later[j]).1 by {
                assert(nodes[i + 1].1 < nodes[j + 1].1);
            }
        }
        assert(ordered_by_id(others)) by {
            assert forall|i: int, j: int| 0 <= i < j < others.len() implies (
            #[trigger] others[i]).1 <= (#[trigger] others[j]).1 by {
                assert(wanted[i + 1].1 <= wanted[j + 1].1);
            }
        }
        lemma_merge_answers(later, others);
        lemma_joined_front(Joined::Both(nodes[0], wanted[0]), rest);
        let others_known = forall|k: int|
            0 <= k < others.len() ==> knows(later, (#[trigger] others[k]).1);
        assert(knows(nodes, wanted[0].1));
        if strictly_by_id(wanted) && all_known {
            assert(strictly_by_id(others)) by {
                assert forall|i: int, j: int| 0 <= i < j < others.len() implies (
                #[trigger] others[i]).1 < (#[trigger] others[j]).1 by {
                    assert(wanted[i + 1].1 < wanted[j + 1].1);
                }
            }
            assert forall|k: int| 0 <= k < others.len() implies knows(
                later,
                (#[trigger] others[k]).1,
            ) by {
                assert(wanted[0].1 < wanted[k + 1].1);
                assert(knows(nodes, wanted[k + 1].1));
                let i = choose|i: int|
                    0 <= i < nodes.len() && (#[trigger] nodes[i]).1 == wanted[k + 1].1;
                assert(i > 0);
                assert(later[i - 1] == nodes[i]);
            }
        }
        if strictly_by_id(others) && others_known {
            assert forall|k: int| 0 <= k < wanted.len() implies knows(
                nodes,
                (#[trigger] wanted[k]).1,
            ) by {
                if k > 0 {
                    assert(knows(later, others[k - 1].1));
                    let i = choose|i: int|
                        0 <= i < later.len() && (#[trigger] later[i]).1 == others[k - 1].1;
                    assert(nodes[i + 1] == later[i]);
                }
            }
            assert(strictly_by_id(wanted)) by {
                assert forall|i: int, j: int| 0 <= i < j < wanted.len() implies (
                #[trigger] wanted[i]).1 < (#[trigger] wanted[j]).1 by {
                    if i == 0 {
                        assert(knows(later, others[j - 1].1));
                        let m = choose|m: int|
                            0 <= m < later.len() && (#[trigger] later[m]).1 == others[j - 1].1;
                        assert(nodes[0].1 < nodes[m + 1].1);
                    } else {
                        assert(others[i - 1].1 < others[j - 1].1);
                    }
                }
            }
        }
        if first_right(joined) is None {
            assert(matched(joined) =~= wanted) by {
                assert(seq![(wanted[0].0, nodes[0].1)] + others =~= wanted);
            }
        }
    }
}

/// Reads the answers off a merge of `nodes` against `indices`; none if some
/// request went unanswered.
pub fn merge_by_indices(nodes: &Vec<Tagged>, indices: &Vec<Tagged>) -> (found: Option<Vec<Tagged>>)
    ensures
        match found {
            Some(pairs) => first_right(merge_joined(nodes@, indices@)) is None && pairs@ == matched(
                merge_joined(nodes@, indices@),
            ),
            None => first_right(merge_joined(nodes@, indices@)) is Some,
        },
{
    let joined: Vec<Joined> = join_sorted(nodes, indices);
    let mut pairs: Vec<Tagged> = Vec::new();
    let mut i: usize = 0;
    proof {
        assert(joined@.take(0) =~= Seq::<Joined>::empty());
    }
    while i < joined.len()
        invariant
            i <= joined@.len(),
            joined@ == merge_joined(nodes@, indices@),
            first_right(joined@.take(i as int)) is None,
            pairs@ == matched(joined@.take(i as int)),
        decreases joined@.len() - i,
    {
        proof {
            assert(joined@.take(i + 1).drop_last() =~= joined@.take(i as int));
            assert(joined@.take(i + 1).last() == joined@[i as int]);
        }
        match joined[i] {
            Joined::Left(_) => {},
            Joined::Right(_) => {
                proof {
                    lemma_first_right_stays(joined@, i + 1);
                }
                return None;
            },
            Joined::Both(n, w) => {
                pairs.push((w.0, n.1));
            },
        }
        i = i + 1;
    }
    proof {
        assert(joined@.take(i as int) =~= joined@);
    }
    Some(pairs)
}

/// A request found unanswered stays the first.
pub proof fn lemma_first_right_stays(joined: Seq<Joined>, n: int)
    requires
        0 <= n <= joined.len(),
        first_right(joined.take(n)) is Some,
    ensures
        first_right(joined) is Some,
    decreases joined.len() - n,
{
    if n < joined.len() {
        assert(joined.take(n + 1).drop_last() =~= joined.take(n));
        lemma_first_right_stays(joined, n + 1);
    } else {
        assert(joined.take(n) =~= joined);
    }
}

/// Splits a request in two: the ids below `hosts`, and the others, each with
/// its place in the request.
pub fn partition_ids(ids: &[u32], hosts: usize) -> (parts: (Vec<Tagged>, Vec<Tagged>))
    ensures
        faithful(parts.0@, ids@),
        faithful(parts.1@, ids@),
        forall|k: int| 0 <= k < parts.0@.len() ==> (#[trigger] parts.0@[k]).1 < hosts,
        forall|k: int| 0 <= k < parts.1@.len() ==> (#[trigger] parts.1@[k]).1 >= hosts,
        parts.0@.no_duplicates(),
        parts.1@.no_duplicates(),
        parts.0@.to_multiset().add(parts.1@.to_multiset()) == indexed(ids@).to_multiset(),
{
    let mut host_ids: Vec<Tagged> = Vec::new();
    let mut sw_ids: Vec<Tagged> = Vec::new();
    let ghost all = indexed(ids@);
    let mut i: usize = 0;
    proof {
        assert(all.take(0) =~= Seq::<Tagged>::empty());
        assert(host_ids@ =~= Seq::<Tagged>::empty());
        assert(sw_ids@ =~= Seq::<Tagged>::empty());
        assert forall|x: Tagged| Seq::<Tagged>::empty().to_multiset().count(x) == 0 by {
            vstd::seq_lib::to_multiset_contains(Seq::<Tagged>::empty(), x);
        }
        assert(host_ids@.to_multiset().add(sw_ids@.to_multiset()) =~= all.take(0).to_multiset());
    }
    while i < ids.len()
        invariant
            i <= ids@.len(),
            all == indexed(ids@),
            faithful(host_ids@, ids@),
            faithful(sw_ids@, ids@),
            forall|k: int| 0 <= k < host_ids@.len() ==> (#[trigger] host_ids@[k]).1 < hosts,
            forall|k: int| 0 <= k < sw_ids@.len() ==> (#[trigger] sw_ids@[k]).1 >= hosts,
            forall|k: int| 0 <= k < host_ids@.len() ==> (#[trigger] host_ids@[k]).0 < i,
            forall|k: int| 0 <= k < sw_ids@.len() ==> (#[trigger] sw_ids@[k]).0 < i,
            host_ids@.no_duplicates(),
            sw_ids@.no_duplicates(),
            host_ids@.to_multiset().add(sw_ids@.to_multiset()) == all.take(i as int).to_multiset(),
        decreases ids@.len() - i,
    {
        let id: u32 = ids[i];
        let ghost h0 = host_ids@;
        let ghost s0 = sw_ids@;
        proof {
            assert(all.take(i + 1) =~= all.take(i as int).push((i, id)));
            vstd::seq_lib::to_multiset_build(all.take(i as int), (i, id));
            vstd::seq_lib::to_multiset_build(h0, (i, id));
            vstd::seq_lib::to_multiset_build(s0, (i, id));
        }
        if (id as u64) < (hosts as u64) {
            host_ids.push((i, id));
            proof {
                assert(host_ids@.to_multiset().add(sw_ids@.to_multiset()) =~= all.take(
                    i + 1,
                ).to_multiset());
            }
        } else {
            sw_ids.push((i, id));
            proof {
                assert(host_ids@.to_multiset().add(sw_ids@.to_multiset()) =~= all.take(
                    i + 1,
                ).to_multiset());
            }
        }
        i = i + 1;
    }
    proof {
        assert(all.take(i as int) =~= all);
    }
    (host_ids, sw_ids)
}

/// What is true of every entry stays true of every entry when the entries
/// are put in another order.
pub proof fn lemma_same_entries(before: Seq<Tagged>, after: Seq<Tagged>, x: Tagged)
    requires
        before.to_multiset() == after.to_multiset(),
    ensures
        before.contains(x) <==> after.contains(x),
{
    vstd::seq_lib::to_multiset_contains(before, x);
    vstd::seq_lib::to_multiset_contains(after, x);
}

/// Entries without a repeat have none in another order either.
pub proof fn lemma_same_entries_no_repeat(before: Seq<Tagged>, after: Seq<Tagged>)
    requires
        before.to_multiset() == after.to_multiset(),
        before.no_duplicates(),
    ensures
        after.no_duplicates(),
{
    before.lemma_multiset_has_no_duplicates();
    after.lemma_multiset_has_no_duplicates_conv();
}

/// The order of pairs by position first and id second.
pub open spec fn by_position_then_id() -> spec_fn(Tagged, Tagged) -> bool {
    |a: Tagged, b: Tagged| a.0 < b.0 || (a.0 == b.0 && a.1 <= b.1)
}

/// A request put back in order of position is the request as it was asked:
/// entry `i` is the id asked for in place `i`.
pub proof fn lemma_back_in_order(out: Seq<Tagged>, ids: Seq<u32>)
    requires
        ids.len() <= usize::MAX,
        ordered_by_position(out),
        out.to_multiset() == indexed(ids).to_multiset(),
    ensures
        out == indexed(ids),
{
    let all = indexed(ids);
    let leq = by_position_then_id();
    assert forall|k: int| 0 <= k < out.len() implies (#[trigger] out[k]).0 < ids.len() && out[k].1
        == ids[out[k].0 as int] by {
        assert(out.contains(out[k]));
        lemma_same_entries(out, all, out[k]);
        let m = choose|m: int| 0 <= m < all.len() && all[m] == out[k];
        assert(all[m] == (m as usize, ids[m]));
    }
    assert(vstd::relations::sorted_by(out, leq)) by {
        assert forall|i: int, j: int| 0 <= i < j < out.len() implies #[trigger] leq(
            out[i],
            out[j],
        ) by {
            assert(out[i].0 <= out[j].0);
        }
    }
    assert(vstd::relations::sorted_by(all, leq)) by {
        assert forall|i: int, j: int| 0 <= i < j < all.len() implies #[trigger] leq(
            all[i],
            all[j],
        ) by {
            assert(all[i].0 == i && all[j].0 == j);
        }
    }
    assert(vstd::relations::total_ordering(leq)) by {
        assert(vstd::relations::reflexive(leq));
        assert(vstd::relations::antisymmetric(leq)) by {
            assert forall|x: Tagged, y: Tagged| #[trigger] leq(x, y) && #[trigger] leq(
                y,
                x,
            ) implies x == y by {
                assert(x.0 == y.0 && x.1 == y.1);
            }
        }
        assert(vstd::relations::transitive(leq));
        assert(vstd::relations::strongly_connected(leq));
    }
    vstd::seq_lib::lemma_sorted_unique(out, all, leq);
}

/// No id is asked for twice.
pub open spec fn distinct_ids(ids: Seq<u32>) -> bool {
    forall|p: int, q: int| 0 <= p < q < ids.len() ==> ids[p] != ids[q]
}

/// Sorted entries of a request without repeated ids are in strictly
/// ascending order, and the other way round.
pub proof fn lemma_strict_iff_distinct(part: Seq<Tagged>, sorted: Seq<Tagged>, ids: Seq<u32>)
    requires
        faithful(part, ids),
        part.no_duplicates(),
        part.to_multiset() == sorted.to_multiset(),
        ordered_by_id(sorted),
    ensures
        faithful(sorted, ids),
        sorted.no_duplicates(),
        distinct_ids(ids) ==> strictly_by_id(sorted),
        strictly_by_id(sorted) ==> forall|a: int, b: int|
            0 <= a < part.len() && 0 <= b < part.len() && a != b ==> (#[trigger] part[a]).1 != (
            #[trigger] part[b]).1,
{
    lemma_same_entries_no_repeat(part, sorted);
    assert forall|k: int| 0 <= k < sorted.len() implies (#[trigger] sorted[k]).0 < ids.len()
        && sorted[k].1 == ids[sorted[k].0 as int] by {
        assert(sorted.contains(sorted[k]));
        lemma_same_entries(part, sorted, sorted[k]);
        let m = choose|m: int| 0 <= m < part.len() && part[m] == sorted[k];
        assert(part[m].0 < ids.len());
    }
    if distinct_ids(ids) {
        assert forall|i: int, j: int| 0 <= i < j < sorted.len() implies (#[trigger] sorted[i]).1 < (
        #[trigger] sorted[j]).1 by {
            assert(sorted[i].1 <= sorted[j].1);
            if sorted[i].1 == sorted[j].1 {
                let p = sorted[i].0 as int;
                let q = sorted[j].0 as int;
                assert(ids[p] == ids[q]);
                if p < q {
                    assert(ids[p] != ids[q]);
                } else if q < p {
                    assert(ids[q] != ids[p]);
                }
                assert(sorted[i] == sorted[j]);
            }
        }
    }
    if strictly_by_id(sorted) {
        assert forall|a: int, b: int|
            0 <= a < part.len() && 0 <= b < part.len() && a != b implies (#[trigger] part[a]).1 != (
        #[trigger] part[b]).1 by {
            assert(part.contains(part[a]));
            assert(part.contains(part[b]));
            lemma_same_entries(part, sorted, part[a]);
            lemma_same_entries(part, sorted, part[b]);
            let i = choose|i: int| 0 <= i < sorted.len() && sorted[i] == part[a];
            let j = choose|j: int| 0 <= j < sorted.len() && sorted[j] == part[b];
            assert(part[a] != part[b]);
            if i < j {
                assert(sorted[i].1 < sorted[j].1);
            } else if j < i {
                assert(sorted[j].1 < sorted[i].1);
            }
        }
    }
}

} // verus!
