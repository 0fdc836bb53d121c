//! Predicates over a listing of memberships, consulted before every change.

use vstd::prelude::*;
use crate::model::{Access, Error, Id, Membership, UserGroupId};

verus! {

/// The key of the membership of `user_id` in `group_id`.
pub open spec fn key(user_id: Id, group_id: Id) -> UserGroupId {
    UserGroupId { user_id, group_id }
}

/// The membership at position `i` is that of `user_id` in `group_id`.
pub open spec fn holds_at(ms: Seq<Membership>, user_id: Id, group_id: Id, i: int) -> bool {
    0 <= i < ms.len() && ms[i].id == key(user_id, group_id)
}

/// `user_id` has a membership in `group_id`.
pub open spec fn is_member(ms: Seq<Membership>, user_id: Id, group_id: Id) -> bool {
    exists|i: int| holds_at(ms, user_id, group_id, i)
}

/// Position `i` is the first that holds the membership of `user_id` in
/// `group_id`.
pub open spec fn is_first_at(ms: Seq<Membership>, user_id: Id, group_id: Id, i: int) -> bool {
    &&& holds_at(ms, user_id, group_id, i)
    &&& forall|j: int| 0 <= j < i ==> ms[j].id != key(user_id, group_id)
}

/// The first position that holds the membership of `user_id` in `group_id`.
pub open spec fn position(ms: Seq<Membership>, user_id: Id, group_id: Id) -> int
    recommends
        is_member(ms, user_id, group_id),
{
    choose|i: int| is_first_at(ms, user_id, group_id, i)
}

/// The role that `user_id` has in `group_id`.
pub open spec fn role_of(ms: Seq<Membership>, user_id: Id, group_id: Id) -> Access
    recommends
        is_member(ms, user_id, group_id),
{
    ms[position(ms, user_id, group_id)].props.access_level
}

/// `user_id` is a member of `group_id` with the admin role.
pub open spec fn is_admin_member(ms: Seq<Membership>, user_id: Id, group_id: Id) -> bool {
    is_member(ms, user_id, group_id) && role_of(ms, user_id, group_id) == Access::Admin
}

/// No two memberships share a key.
pub open spec fn distinct_keys(ms: Seq<Membership>) -> bool {
    forall|i: int, j: int| 0 <= i < j < ms.len() ==> ms[i].id != ms[j].id
}

/// Selects the memberships of one group.
pub open spec fn in_group(group_id: Id) -> spec_fn(Membership) -> bool {
    |m: Membership| m.id.group_id == group_id
}

/// Selects the admin memberships of one group.
pub open spec fn admin_in(group_id: Id) -> spec_fn(Membership) -> bool {
    |m: Membership| m.id.group_id == group_id && m.props.access_level == Access::Admin
}

/// The number of admin memberships of `group_id`.
pub open spec fn admin_count(ms: Seq<Membership>, group_id: Id) -> nat {
    ms.filter(admin_in(group_id)).len()
}

/// The users that a listing of memberships names, in its order.
pub open spec fn user_ids(ms: Seq<Membership>) -> Seq<Id> {
    ms.map_values(|m: Membership| m.id.user_id)
}

/// The groups that a listing of memberships names, in its order.
pub open spec fn group_ids(ms: Seq<Membership>) -> Seq<Id> {
    ms.map_values(|m: Membership| m.id.group_id)
}

/// The users that a listing of memberships names, each with their role.
pub open spec fn roles(ms: Seq<Membership>) -> Seq<(Id, Access)> {
    ms.map_values(|m: Membership| (m.id.user_id, m.props.access_level))
}

/// The members of `group_id` with their roles, in the order in which their
/// memberships are listed.
pub open spec fn roles_in(ms: Seq<Membership>, group_id: Id) -> Seq<(Id, Access)> {
    roles(ms.filter(in_group(group_id)))
}

/// The users of `group_id`, in the order in which their memberships are listed.
pub open spec fn members_of(ms: Seq<Membership>, group_id: Id) -> Seq<Id> {
    user_ids(ms.filter(in_group(group_id)))
}

/// Two first positions of one key are the same position.
pub proof fn lemma_first_position_unique(
    ms: Seq<Membership>,
    user_id: Id,
    group_id: Id,
    i: int,
    j: int,
)
    requires
        is_first_at(ms, user_id, group_id, i),
        is_first_at(ms, user_id, group_id, j),
    ensures
        i == j,
{
}

/// A position that holds a key is `position` of it when it is the first; with
/// distinct keys every holding position is.
pub proof fn lemma_position(ms: Seq<Membership>, user_id: Id, group_id: Id, i: int)
    requires
        holds_at(ms, user_id, group_id, i),
        distinct_keys(ms) || is_first_at(ms, user_id, group_id, i),
    ensures
        is_member(ms, user_id, group_id),
        position(ms, user_id, group_id) == i,
{
    assert(is_first_at(ms, user_id, group_id, i));
    lemma_first_position_unique(ms, user_id, group_id, i, position(ms, user_id, group_id));
}

/// The position of the membership of `user_id` in `group_id`, if there is one.
pub fn find_membership(user_id: Id, group_id: Id, user_groups: &Vec<Membership>) -> (found: Option<
    usize,
>)
    ensures
        match found {
            Some(i) => is_member(user_groups@, user_id, group_id) && i == position(
                user_groups@,
                user_id,
                group_id,
            ) && i < user_groups@.len(),
            None => !is_member(user_groups@, user_id, group_id),
        },
{
    let mut i: usize = 0;
    while i < user_groups.len()
        invariant
            i <= user_groups.len(),
            forall|j: int| 0 <= j < i ==> user_groups@[j].id != key(user_id, group_id),
        decreases user_groups.len() - i,
    {
        if user_groups[i].id.user_id == user_id && user_groups[i].id.group_id == group_id {
            proof {
                lemma_position(user_groups@, user_id, group_id, i as int);
            }
            return Some(i);
        }
        i += 1;
    }
    None
}

/// Whether `user_id` has a membership in `group_id`.
pub fn does_user_belong_to_group(user_id: Id, group_id: Id, user_groups: &Vec<Membership>) -> (b:
    bool)
    ensures
        b == is_member(user_groups@, user_id, group_id),
{
    find_membership(user_id, group_id, user_groups).is_some()
}

/// The number of admin memberships of `group_id`.
pub fn count_admins(group_id: Id, user_groups: &Vec<Membership>) -> (n: usize)
    ensures
        n == admin_count(user_groups@, group_id),
{
    let mut n: usize = 0;
    let mut i: usize = 0;
    while i < user_groups.len()
        invariant
            i <= user_groups.len(),
            n == admin_count(user_groups@.take(i as int), group_id),
            n <= i,
        decreases user_groups.len() - i,
    {
        proof {
            let prefix = user_groups@.take(i as int);
            assert(user_groups@.take(i + 1) =~= prefix.push(user_groups@[i as int]));
            prefix.lemma_filter_len_push(admin_in(group_id), user_groups@[i as int]);
        }
        if user_groups[i].id.group_id == group_id && is_admin_role(user_groups[i].props.access_level) {
            n += 1;
        }
        i += 1;
    }
    proof {
        assert(user_groups@.take(i as int) =~= user_groups@);
    }
    n
}

/// Whether a role is the admin role.
pub fn is_admin_role(access_level: Access) -> (b: bool)
    ensures
        b == (access_level == Access::Admin),
{
    match access_level {
        Access::Admin => true,
        Access::User => false,
    }
}

/// The users of `group_id`, in the order in which their memberships are listed.
pub fn group_members(group_id: Id, user_groups: &Vec<Membership>) -> (members: Vec<Id>)
    ensures
        members@ == members_of(user_groups@, group_id),
{
    let mut members: Vec<Id> = Vec::new();
    let mut i: usize = 0;
    while i < user_groups.len()
        invariant
            i <= user_groups.len(),
            members@ == members_of(user_groups@.take(i as int), group_id),
        decreases user_groups.len() - i,
    {
        proof {
            let prefix = user_groups@.take(i as int);
            let m = user_groups@[i as int];
            assert(user_groups@.take(i + 1) =~= prefix.push(m));
            prefix.lemma_filter_push(m, in_group(group_id));
            assert(user_ids(prefix.filter(in_group(group_id)).push(m)) =~= user_ids(
                prefix.filter(in_group(group_id)),
            ).push(m.id.user_id));
        }
        if user_groups[i].id.group_id == group_id {
            members.push(user_groups[i].id.user_id);
        }
        i += 1;
    }
    proof {
        assert(user_groups@.take(i as int) =~= user_groups@);
    }
    members
}

/// Whether `user_id` is an admin of `group_id`; `NotMember` where the user has
/// no membership in the group.
pub fn is_admin(user_id: Id, group_id: Id, map: &Vec<Membership>) -> (r: Result<bool, Error>)
    ensures
        match r {
            Ok(b) => is_member(map@, user_id, group_id) && b == is_admin_member(
                map@,
                user_id,
                group_id,
            ),
            Err(e) => e == Error::NotMember && !is_member(map@, user_id, group_id),
        },
{
    match find_membership(user_id, group_id, map) {
        Some(i) => Ok(is_admin_role(map[i].props.access_level)),
        None => Err(Error::NotMember),
    }
}

} // verus!
