//! Facts about listings of memberships: how the number of admins and the
//! distinctness of keys fare when a listing is extended, cut or filtered.

use vstd::prelude::*;
use crate::guard::{
    admin_count,
    admin_in,
    distinct_keys,
    holds_at,
    in_group,
    is_member,
    members_of,
    user_ids,
};
use crate::model::{Id, Membership};

verus! {

/// One for an admin membership of `group_id`, zero for any other.
pub open spec fn admin_weight(m: Membership, group_id: Id) -> nat {
    if admin_in(group_id)(m) {
        1
    } else {
        0
    }
}

/// Filtering a listing of one element keeps it or leaves nothing.
pub proof fn lemma_filter_single<A>(x: A, p: spec_fn(A) -> bool)
    ensures
        seq![x].filter(p) =~= if p(x) {
            seq![x]
        } else {
            Seq::empty()
        },
{
    reveal_with_fuel(Seq::filter, 2);
    assert(seq![x].drop_last() =~= Seq::empty());
}

/// A listing is what stands before a position, the element there, and what
/// stands behind it, and a filter goes through the three parts.
pub proof fn lemma_filter_split<A>(s: Seq<A>, i: int, p: spec_fn(A) -> bool)
    requires
        0 <= i < s.len(),
    ensures
        s.filter(p) =~= s.take(i).filter(p) + seq![s[i]].filter(p) + s.skip(i + 1).filter(p),
        s.remove(i).filter(p) =~= s.take(i).filter(p) + s.skip(i + 1).filter(p),
{
    assert(s =~= s.take(i) + seq![s[i]] + s.skip(i + 1));
    assert(s.remove(i) =~= s.take(i) + s.skip(i + 1));
    Seq::filter_distributes_over_add(s.take(i) + seq![s[i]], s.skip(i + 1), p);
    Seq::filter_distributes_over_add(s.take(i), seq![s[i]], p);
    Seq::filter_distributes_over_add(s.take(i), s.skip(i + 1), p);
}

/// A new membership at the end adds its weight to the number of admins.
pub proof fn lemma_count_push(ms: Seq<Membership>, m: Membership, group_id: Id)
    ensures
        admin_count(ms.push(m), group_id) == admin_count(ms, group_id) + admin_weight(m, group_id),
{
    ms.lemma_filter_len_push(admin_in(group_id), m);
}

/// Taking a membership out takes its weight from the number of admins.
pub proof fn lemma_count_remove(ms: Seq<Membership>, i: int, group_id: Id)
    requires
        0 <= i < ms.len(),
    ensures
        admin_count(ms.remove(i), group_id) + admin_weight(ms[i], group_id) == admin_count(
            ms,
            group_id,
        ),
{
    lemma_filter_split(ms, i, admin_in(group_id));
    lemma_filter_single(ms[i], admin_in(group_id));
}

/// Replacing a membership exchanges its weight for that of the new one.
pub proof fn lemma_count_update(ms: Seq<Membership>, i: int, m: Membership, group_id: Id)
    requires
        0 <= i < ms.len(),
    ensures
        admin_count(ms.update(i, m), group_id) + admin_weight(ms[i], group_id) == admin_count(
            ms,
            group_id,
        ) + admin_weight(m, group_id),
{
    let after = ms.update(i, m);
    lemma_filter_split(ms, i, admin_in(group_id));
    lemma_filter_split(after, i, admin_in(group_id));
    lemma_filter_single(ms[i], admin_in(group_id));
    lemma_filter_single(m, admin_in(group_id));
    assert(after.take(i) =~= ms.take(i));
    assert(after.skip(i + 1) =~= ms.skip(i + 1));
}

/// Where a filter keeps everything that a second filter selects, the second
/// filter finds the same with or without the first.
pub proof fn lemma_filter_keeps_selected<A>(s: Seq<A>, keep: spec_fn(A) -> bool, p: spec_fn(A) -> bool)
    requires
        forall|i: int| 0 <= i < s.len() && p(#[trigger] s[i]) ==> keep(s[i]),
    ensures
        s.filter(keep).filter(p) =~= s.filter(p),
    decreases s.len(),
{
    reveal(Seq::filter);
    if s.len() > 0 {
        let front = s.drop_last();
        assert forall|i: int| 0 <= i < front.len() && p(#[trigger] front[i]) implies keep(
            front[i],
        ) by {
            assert(front[i] == s[i]);
        }
        lemma_filter_keeps_selected(front, keep, p);
        if keep(s.last()) {
            assert(s.filter(keep) =~= front.filter(keep).push(s.last()));
            assert(s.filter(keep).drop_last() =~= front.filter(keep));
        } else {
            assert(!p(s[s.len() - 1]));
        }
    }
}

/// Every element of a filtered listing stands in the listing, and two of them
/// stand there in the same order.
pub proof fn lemma_filter_embeds<A>(s: Seq<A>, keep: spec_fn(A) -> bool, a: int, b: int) -> (r: (
    int,
    int,
))
    requires
        0 <= a < b < s.filter(keep).len(),
    ensures
        0 <= r.0 < r.1 < s.len(),
        s[r.0] == s.filter(keep)[a],
        s[r.1] == s.filter(keep)[b],
    decreases s.len(),
{
    reveal(Seq::filter);
    let front = s.drop_last();
    if keep(s.last()) && b == s.filter(keep).len() - 1 {
        front.lemma_filter_contains_rev(keep, front.filter(keep)[a]);
        let i = choose|i: int| 0 <= i < front.len() && front[i] == front.filter(keep)[a];
        (i, s.len() - 1)
    } else {
        lemma_filter_embeds(front, keep, a, b)
    }
}

/// Filtering keeps keys distinct.
pub proof fn lemma_filter_distinct(ms: Seq<Membership>, keep: spec_fn(Membership) -> bool)
    requires
        distinct_keys(ms),
    ensures
        distinct_keys(ms.filter(keep)),
{
    let kept = ms.filter(keep);
    assert forall|a: int, b: int| 0 <= a < b < kept.len() implies kept[a].id != kept[b].id by {
        let r = lemma_filter_embeds(ms, keep, a, b);
    }
}

/// A function that leaves alone what a filter looks at can be applied before
/// or after the filter.
pub proof fn lemma_map_values_filter<A>(s: Seq<A>, f: spec_fn(A) -> A, p: spec_fn(A) -> bool)
    requires
        forall|x: A| p(#[trigger] f(x)) == p(x),
    ensures
        s.map_values(f).filter(p) =~= s.filter(p).map_values(f),
    decreases s.len(),
{
    reveal(Seq::filter);
    if s.len() > 0 {
        let front = s.drop_last();
        lemma_map_values_filter(front, f, p);
        assert(s.map_values(f).drop_last() =~= front.map_values(f));
        assert(s.map_values(f).last() == f(s.last()));
    }
}

/// The users listed for a group are the users that have a membership in it.
pub proof fn lemma_members_are_listed(ms: Seq<Membership>, user_id: Id, group_id: Id)
    ensures
        members_of(ms, group_id).contains(user_id) <==> is_member(ms, user_id, group_id),
{
    let selected = ms.filter(in_group(group_id));
    let members = members_of(ms, group_id);
    if members.contains(user_id) {
        let j = choose|j: int| 0 <= j < members.len() && members[j] == user_id;
        ms.lemma_filter_pred(in_group(group_id), j);
        ms.lemma_filter_contains_rev(in_group(group_id), selected[j]);
        let i = choose|i: int| 0 <= i < ms.len() && ms[i] == selected[j];
        assert(holds_at(ms, user_id, group_id, i));
    }
    if is_member(ms, user_id, group_id) {
        let i = choose|i: int| holds_at(ms, user_id, group_id, i);
        ms.lemma_filter_contains(in_group(group_id), i);
        let j = choose|j: int| 0 <= j < selected.len() && selected[j] == ms[i];
        assert(members[j] == user_id);
    }
}

/// With distinct keys no user is listed twice for a group.
pub proof fn lemma_members_distinct(ms: Seq<Membership>, group_id: Id)
    requires
        distinct_keys(ms),
    ensures
        members_of(ms, group_id).no_duplicates(),
{
    let selected = ms.filter(in_group(group_id));
    let members = members_of(ms, group_id);
    lemma_filter_distinct(ms, in_group(group_id));
    assert forall|a: int, b: int| 0 <= a < members.len() && 0 <= b < members.len() && a
        != b implies members[a] != members[b] by {
        ms.lemma_filter_pred(in_group(group_id), a);
        ms.lemma_filter_pred(in_group(group_id), b);
        if a < b {
            assert(selected[a].id != selected[b].id);
        } else {
            assert(selected[b].id != selected[a].id);
        }
    }
}


/// Where a filter drops one membership and keeps every other admin membership
/// of a group, the group has as many admins as after taking that one out.
pub proof fn lemma_count_filter_one_out(
    ms: Seq<Membership>,
    keep: spec_fn(Membership) -> bool,
    i: int,
    group_id: Id,
)
    requires
        0 <= i < ms.len(),
        !keep(ms[i]),
        forall|j: int|
            0 <= j < ms.len() && j != i && admin_in(group_id)(#[trigger] ms[j]) ==> keep(ms[j]),
    ensures
        admin_count(ms.filter(keep), group_id) == admin_count(ms.remove(i), group_id),
{
    let p = admin_in(group_id);
    let front = ms.take(i);
    let back = ms.skip(i + 1);
    lemma_filter_split(ms, i, keep);
    lemma_filter_single(ms[i], keep);
    lemma_filter_split(ms, i, p);
    assert(ms.filter(keep) =~= front.filter(keep) + back.filter(keep));
    Seq::filter_distributes_over_add(front.filter(keep), back.filter(keep), p);
    assert forall|j: int| 0 <= j < front.len() && p(#[trigger] front[j]) implies keep(front[j]) by {
        assert(front[j] == ms[j]);
    }
    assert forall|j: int| 0 <= j < back.len() && p(#[trigger] back[j]) implies keep(back[j]) by {
        assert(back[j] == ms[j + i + 1]);
    }
    lemma_filter_keeps_selected(front, keep, p);
    lemma_filter_keeps_selected(back, keep, p);
}

/// A filter that everything passes changes nothing.
pub proof fn lemma_filter_all<A>(s: Seq<A>, p: spec_fn(A) -> bool)
    requires
        forall|i: int| 0 <= i < s.len() ==> p(#[trigger] s[i]),
    ensures
        s.filter(p) =~= s,
    decreases s.len(),
{
    reveal(Seq::filter);
    if s.len() > 0 {
        let front = s.drop_last();
        assert forall|i: int| 0 <= i < front.len() implies p(#[trigger] front[i]) by {
            assert(front[i] == s[i]);
        }
        lemma_filter_all(front, p);
        assert(p(s[s.len() - 1]));
    }
}

/// Replacing a membership by one of the same key leaves the members of every
/// group as they were, and the listing of every other group untouched.
pub proof fn lemma_update_keeps_members(ms: Seq<Membership>, i: int, m: Membership, group_id: Id)
    requires
        0 <= i < ms.len(),
        m.id == ms[i].id,
    ensures
        members_of(ms.update(i, m), group_id) == members_of(ms, group_id),
        m.id.group_id != group_id ==> ms.update(i, m).filter(in_group(group_id)) == ms.filter(
            in_group(group_id),
        ),
{
    let p = in_group(group_id);
    let after = ms.update(i, m);
    lemma_filter_split(ms, i, p);
    lemma_filter_split(after, i, p);
    lemma_filter_single(ms[i], p);
    lemma_filter_single(m, p);
    assert(after.take(i) =~= ms.take(i));
    assert(after.skip(i + 1) =~= ms.skip(i + 1));
    let front = ms.take(i).filter(p);
    let back = ms.skip(i + 1).filter(p);
    if p(m) {
        assert(ms.filter(p) =~= front + seq![ms[i]] + back);
        assert(after.filter(p) =~= front + seq![m] + back);
        assert(user_ids(front + seq![m] + back) =~= user_ids(front + seq![ms[i]] + back));
    } else {
        assert(after.filter(p) =~= ms.filter(p));
    }
}

} // verus!
