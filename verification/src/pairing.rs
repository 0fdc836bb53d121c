//! The pairing: who gives to whom, as a rotation of the listed members.

use std::collections::HashMap;
use vstd::prelude::*;
use crate::model::Id;

verus! {

broadcast use vstd::std_specs::hash::group_hash_axioms;

/// `j` is the last position at which `u` stands in `group`.
pub open spec fn is_last_at(group: Seq<Id>, u: Id, j: int) -> bool {
    &&& 0 <= j < group.len()
    &&& group[j] == u
    &&& forall|k: int| j < k < group.len() ==> group[k] != u
}

/// The last position at which `u` stands in `group`.
pub open spec fn last_position(group: Seq<Id>, u: Id) -> int
    recommends
        group.contains(u),
{
    choose|j: int| is_last_at(group, u, j)
}

/// The member that `u` gives to: the one listed just before `u`, and for the
/// member listed first, the one listed last.
pub open spec fn recipient_of(group: Seq<Id>, u: Id) -> Id
    recommends
        group.contains(u),
{
    if u == group[0] {
        group.last()
    } else {
        group[last_position(group, u) - 1]
    }
}

/// The whole assignment for a listing of members.
pub open spec fn pairing(group: Seq<Id>) -> Map<Id, Id> {
    Map::new(|u: Id| group.contains(u), |u: Id| recipient_of(group, u))
}

/// Two last positions of one value are the same position.
pub proof fn lemma_last_position_unique(group: Seq<Id>, u: Id, i: int, j: int)
    requires
        is_last_at(group, u, i),
        is_last_at(group, u, j),
    ensures
        i == j,
{
    if i < j {
        assert(group[j] != u);
    } else if j < i {
        assert(group[i] != u);
    }
}

/// Computes the assignment for the members in the order listed.
pub fn get_secret_santas(group: &Vec<Id>) -> (santas: HashMap<Id, Id>)
    ensures
        santas@ == pairing(group@),
{
    let mut secret_santas: HashMap<Id, Id> = HashMap::new();
    let n: usize = group.len();
    if n == 0 {
        assert(secret_santas@ =~= pairing(group@));
        return secret_santas;
    }
    let ghost mut last: Map<Id, int> = Map::empty();
    let mut k: usize = 1;
    while k < n
        invariant
            n == group.len(),
            1 <= k <= n,
            forall|j: int| 1 <= j < k ==> secret_santas@.contains_key(#[trigger] group@[j]),
            forall|u: Id| #[trigger]
                secret_santas@.contains_key(u) ==> {
                    &&& 1 <= last[u] < k
                    &&& group@[last[u]] == u
                    &&& forall|j: int| last[u] < j < k ==> group@[j] != u
                    &&& secret_santas@[u] == group@[last[u] - 1]
                },
        decreases n - k,
    {
        let user_id: Id = group[k];
        let prev: Id = group[k - 1];
        secret_santas.insert(user_id, prev);
        proof {
            last = last.insert(user_id, k as int);
        }
        k += 1;
    }
    let first: Id = group[0];
    let last_id: Id = group[n - 1];
    let ghost chain = secret_santas@;
    secret_santas.insert(first, last_id);
    proof {
        assert forall|u: Id| #[trigger] group@.contains(u) implies secret_santas@.contains_key(u) by {
            let i = choose|i: int| 0 <= i < group@.len() && group@[i] == u;
            if i >= 1 {
                assert(chain.contains_key(group@[i]));
            }
        }
        assert forall|u: Id| #[trigger]
            secret_santas@.contains_key(u) implies group@.contains(u) && secret_santas@[u]
            == recipient_of(group@, u) by {
            if u != first {
                assert(chain.contains_key(u));
                assert(is_last_at(group@, u, last[u]));
                lemma_last_position_unique(group@, u, last[u], last_position(group@, u));
            }
        }
        assert(secret_santas@ =~= pairing(group@));
    }
    secret_santas
}

/// Where no member is listed twice, each member gives to the one listed just
/// before, and the first to the last: the pairing is a rotation of the listing.
pub proof fn lemma_pairing_rotates(group: Seq<Id>, i: int)
    requires
        group.no_duplicates(),
        0 <= i < group.len(),
    ensures
        pairing(group).contains_key(group[i]),
        pairing(group)[group[i]] == if i == 0 {
            group.last()
        } else {
            group[i - 1]
        },
{
    if i > 0 {
        assert(is_last_at(group, group[i], i));
        lemma_last_position_unique(group, group[i], i, last_position(group, group[i]));
    }
}

/// Where no member is listed twice, the recipient of a member is a member,
/// and another one where at least two are listed.
pub proof fn lemma_recipient_is_another_member(group: Seq<Id>, u: Id)
    requires
        group.no_duplicates(),
        group.contains(u),
    ensures
        group.contains(pairing(group)[u]),
        group.len() >= 2 ==> pairing(group)[u] != u,
{
    let i = choose|i: int| 0 <= i < group.len() && group[i] == u;
    lemma_pairing_rotates(group, i);
    let j = if i == 0 {
        group.len() - 1
    } else {
        i - 1
    };
    assert(group[j] == pairing(group)[u]);
}

/// Where no member is listed twice, every member is the recipient of a member.
pub proof fn lemma_member_is_recipient(group: Seq<Id>, v: Id) -> (giver: Id)
    requires
        group.no_duplicates(),
        group.contains(v),
    ensures
        group.contains(giver),
        pairing(group)[giver] == v,
{
    let i = choose|i: int| 0 <= i < group.len() && group[i] == v;
    let j = if i == group.len() - 1 {
        0
    } else {
        i + 1
    };
    lemma_pairing_rotates(group, j);
    assert(group.contains(group[j]));
    group[j]
}

/// Where no member is listed twice, two members give to different members.
pub proof fn lemma_recipients_differ(group: Seq<Id>, u: Id, w: Id)
    requires
        group.no_duplicates(),
        group.contains(u),
        group.contains(w),
        u != w,
    ensures
        pairing(group)[u] != pairing(group)[w],
{
    let i = choose|i: int| 0 <= i < group.len() && group[i] == u;
    let j = choose|j: int| 0 <= j < group.len() && group[j] == w;
    lemma_pairing_rotates(group, i);
    lemma_pairing_rotates(group, j);
}

/// Where at least two members are listed and none twice, the recipients are
/// exactly the members, no two members give to the same one, and nobody gives
/// to themselves.
pub proof fn lemma_pairing_is_derangement(group: Seq<Id>)
    requires
        group.no_duplicates(),
        group.len() >= 2,
    ensures
        pairing(group).dom() == group.to_set(),
        pairing(group).values() == group.to_set(),
        pairing(group).is_injective(),
        forall|u: Id| group.contains(u) ==> #[trigger] pairing(group)[u] != u,
{
    let p = pairing(group);
    assert(p.dom() =~= group.to_set());
    assert forall|u: Id| group.contains(u) implies #[trigger] p[u] != u by {
        lemma_recipient_is_another_member(group, u);
    }
    assert forall|v: Id| p.values().contains(v) <==> group.to_set().contains(v) by {
        if p.values().contains(v) {
            let u = choose|u: Id| p.contains_key(u) && p[u] == v;
            lemma_recipient_is_another_member(group, u);
        }
        if group.contains(v) {
            let giver = lemma_member_is_recipient(group, v);
            assert(p.contains_key(giver) && p[giver] == v);
        }
    }
    assert(p.values() =~= group.to_set());
    assert forall|u: Id, w: Id| u != w && p.dom().contains(u) && p.dom().contains(w) implies #[trigger] p[u]
        != #[trigger] p[w] by {
        lemma_recipients_differ(group, u, w);
    }
}

} // verus!
