//! What holds of the store whatever is asked of it, stated over the
//! mathematical store and proved.

use vstd::prelude::*;
use crate::guard::{
    admin_count,
    admin_in,
    holds_at,
    in_group,
    is_admin_member,
    is_member,
    lemma_position,
    members_of,
    position,
    roles,
    roles_in,
    user_ids,
};
use crate::listing::{
    lemma_count_remove,
    lemma_count_update,
    lemma_filter_all,
    lemma_filter_keeps_selected,
    lemma_filter_single,
    lemma_filter_split,
    lemma_map_values_filter,
    lemma_members_are_listed,
    lemma_members_distinct,
    lemma_update_keeps_members,
};
use crate::model::{Access, Error, Id};
use crate::pairing::{
    lemma_member_is_recipient,
    lemma_recipient_is_another_member,
    pairing,
    recipient_of,
};
use crate::preservation::{
    lemma_group_create_keeps_inv,
    lemma_group_delete_keeps_inv,
    lemma_group_join_keeps_inv,
    lemma_group_make_admin_keeps_inv,
    lemma_group_quit_keeps_inv,
    lemma_group_secret_santa_keeps_inv,
    lemma_group_unadmin_keeps_inv,
    lemma_position_holds,
    lemma_user_create_keeps_inv,
    lemma_user_delete_keeps_inv,
    lemma_user_update_keeps_inv,
};
use crate::state::{with_role, Store};

verus! {

/// A request to the store, with its arguments.
pub enum Operation {
    UserCreate { name: Seq<char> },
    UserUpdate { user_id: Id, name: Seq<char> },
    UserDelete { user_id: Id },
    GroupCreate { creator_id: Id },
    GroupJoin { user_id: Id, group_id: Id },
    GroupQuit { user_id: Id, group_id: Id },
    GroupMakeAdmin { admin_id: Id, member_id: Id, group_id: Id },
    GroupUnadmin { admin_id: Id, group_id: Id },
    GroupDelete { admin_id: Id, group_id: Id },
    GroupSecretSanta { admin_id: Id, group_id: Id },
}

impl Operation {
    /// The request asks to join or quit `group_id`, or to change a role in it.
    pub open spec fn changes_members_of(self, group_id: Id) -> bool {
        match self {
            Operation::GroupJoin { user_id, group_id: g } => g == group_id,
            Operation::GroupQuit { user_id, group_id: g } => g == group_id,
            Operation::GroupMakeAdmin { admin_id, member_id, group_id: g } => g == group_id,
            Operation::GroupUnadmin { admin_id, group_id: g } => g == group_id,
            _ => false,
        }
    }
}

impl Store {
    /// The error with which the store refuses a request, if it does.
    pub open spec fn error_of(self, op: Operation) -> Option<Error> {
        match op {
            Operation::UserCreate { name } => self.user_create_error(name),
            Operation::UserUpdate { user_id, name } => self.user_update_error(user_id),
            Operation::UserDelete { user_id } => self.user_delete_error(user_id),
            Operation::GroupCreate { creator_id } => self.group_create_error(creator_id),
            Operation::GroupJoin { user_id, group_id } => self.group_join_error(user_id, group_id),
            Operation::GroupQuit { user_id, group_id } => self.group_quit_error(user_id, group_id),
            Operation::GroupMakeAdmin { admin_id, member_id, group_id } => {
                self.group_make_admin_error(admin_id, member_id, group_id)
            },
            Operation::GroupUnadmin { admin_id, group_id } => self.group_unadmin_error(
                admin_id,
                group_id,
            ),
            Operation::GroupDelete { admin_id, group_id } => self.admin_error(admin_id, group_id),
            Operation::GroupSecretSanta { admin_id, group_id } => self.admin_error(
                admin_id,
                group_id,
            ),
        }
    }

    /// The store after a request: as it was where the request is refused.
    pub open spec fn apply(self, op: Operation) -> Store {
        if self.error_of(op) is Some {
            self
        } else {
            match op {
                Operation::UserCreate { name } => self.after_user_create(name),
                Operation::UserUpdate { user_id, name } => self.after_user_update(user_id, name),
                Operation::UserDelete { user_id } => self.after_user_delete(user_id),
                Operation::GroupCreate { creator_id } => self.after_group_create(creator_id),
                Operation::GroupJoin { user_id, group_id } => self.after_group_join(
                    user_id,
                    group_id,
                ),
                Operation::GroupQuit { user_id, group_id } => self.after_group_quit(
                    user_id,
                    group_id,
                ),
                Operation::GroupMakeAdmin { admin_id, member_id, group_id } => {
                    self.after_group_make_admin(member_id, group_id)
                },
                Operation::GroupUnadmin { admin_id, group_id } => self.after_group_unadmin(
                    admin_id,
                    group_id,
                ),
                Operation::GroupDelete { admin_id, group_id } => self.after_group_delete(group_id),
                Operation::GroupSecretSanta { admin_id, group_id } => {
                    self.after_group_secret_santa(group_id)
                },
            }
        }
    }

    /// The request does not ask for an identifier beyond the last that the
    /// identifier type can hold.
    pub open spec fn can_serve(self, op: Operation) -> bool {
        match op {
            Operation::UserCreate { name } => self.error_of(op) is None ==> self.users_issued
                < u32::MAX,
            Operation::GroupCreate { creator_id } => self.error_of(op) is None
                ==> self.groups_issued < u32::MAX,
            _ => true,
        }
    }

    /// The store after a sequence of requests, served one after another.
    pub open spec fn run(self, ops: Seq<Operation>) -> Store
        decreases ops.len(),
    {
        if ops.len() == 0 {
            self
        } else {
            self.run(ops.drop_last()).apply(ops.last())
        }
    }

    /// Every request of the sequence can be served when its turn comes.
    pub open spec fn can_serve_all(self, ops: Seq<Operation>) -> bool
        decreases ops.len(),
    {
        ops.len() > 0 ==> self.can_serve_all(ops.drop_last()) && self.run(ops.drop_last()).can_serve(
            ops.last(),
        )
    }

    /// An open group that has a member has an admin.
    pub open spec fn open_groups_with_members_administered(self) -> bool {
        forall|g: Id, i: int|
            self.groups.contains_key(g) && !self.groups[g] && 0 <= i < self.memberships.len()
                && #[trigger] in_group(g)(self.memberships[i]) ==> admin_count(self.memberships, g)
                >= 1
    }
}

/// The empty store meets the invariant.
pub proof fn lemma_empty_store_inv()
    ensures
        Store::empty().inv(),
{
    let s = Store::empty();
    assert forall|g: Id| #[trigger] s.groups.contains_key(g) && !s.groups[g] implies admin_count(
        s.memberships,
        g,
    ) >= 1 by {}
}

/// After any one request, served or refused, the memberships fit the users
/// and the groups: no key occurs twice, every membership names an existing
/// user and an existing group, and every open group has an admin. Where the
/// request can be served, the whole invariant holds again.
pub proof fn lemma_apply_keeps_inv(s: Store, op: Operation)
    requires
        s.inv(),
    ensures
        s.apply(op).consistent(),
        s.apply(op).open_groups_with_members_administered(),
        s.can_serve(op) ==> s.apply(op).inv(),
{
    if s.error_of(op) is None {
        match op {
            Operation::UserCreate { name } => lemma_user_create_keeps_inv(s, name),
            Operation::UserUpdate { user_id, name } => lemma_user_update_keeps_inv(s, user_id, name),
            Operation::UserDelete { user_id } => lemma_user_delete_keeps_inv(s, user_id),
            Operation::GroupCreate { creator_id } => lemma_group_create_keeps_inv(s, creator_id),
            Operation::GroupJoin { user_id, group_id } => lemma_group_join_keeps_inv(
                s,
                user_id,
                group_id,
            ),
            Operation::GroupQuit { user_id, group_id } => lemma_group_quit_keeps_inv(
                s,
                user_id,
                group_id,
            ),
            Operation::GroupMakeAdmin { admin_id, member_id, group_id } => {
                lemma_group_make_admin_keeps_inv(s, admin_id, member_id, group_id)
            },
            Operation::GroupUnadmin { admin_id, group_id } => lemma_group_unadmin_keeps_inv(
                s,
                admin_id,
                group_id,
            ),
            Operation::GroupDelete { admin_id, group_id } => lemma_group_delete_keeps_inv(
                s,
                group_id,
            ),
            Operation::GroupSecretSanta { admin_id, group_id } => {
                lemma_group_secret_santa_keeps_inv(s, admin_id, group_id)
            },
        }
    }
}

/// After every request of every sequence of requests, started on a store that
/// meets the invariant, the store meets it again: memberships name existing
/// users and groups, no key occurs twice, every open group has an admin, and
/// every identifier in use was issued.
pub proof fn lemma_run_keeps_inv(s: Store, ops: Seq<Operation>, served: int)
    requires
        s.inv(),
        s.can_serve_all(ops),
        0 <= served <= ops.len(),
    ensures
        s.run(ops.take(served)).inv(),
        s.run(ops.take(served)).open_groups_with_members_administered(),
    decreases ops.len(),
{
    if served < ops.len() {
        assert(ops.drop_last().take(served) =~= ops.take(served));
        lemma_run_keeps_inv(s, ops.drop_last(), served);
    } else {
        assert(ops.take(served) =~= ops);
        if ops.len() > 0 {
            lemma_run_keeps_inv(s, ops.drop_last(), served - 1);
            assert(ops.drop_last().take(served - 1) =~= ops.drop_last());
            lemma_apply_keeps_inv(s.run(ops.drop_last()), ops.last());
        }
    }
}

/// Identifiers are never used again: the counts of identifiers issued never
/// fall, and a user or group that a request brings in has an identifier that
/// no earlier user or group of the store can have had.
pub proof fn lemma_identifiers_never_reused(s: Store, op: Operation)
    requires
        s.inv(),
    ensures
        s.users_issued <= s.apply(op).users_issued,
        s.groups_issued <= s.apply(op).groups_issued,
        forall|u: Id|
            #[trigger] s.apply(op).users.contains_key(u) && !s.users.contains_key(u)
                ==> s.users_issued <= u < s.apply(op).users_issued,
        forall|g: Id|
            #[trigger] s.apply(op).groups.contains_key(g) && !s.groups.contains_key(g)
                ==> s.groups_issued <= g < s.apply(op).groups_issued,
{
    lemma_apply_keeps_inv(s, op);
    if s.error_of(op) is None {
        if let Operation::GroupSecretSanta { admin_id, group_id } = op {
            lemma_group_secret_santa_keeps_inv(s, admin_id, group_id);
        }
    }
}

/// Over a whole sequence of requests the counts of identifiers issued never
/// fall.
pub proof fn lemma_run_issues_upwards(s: Store, ops: Seq<Operation>)
    requires
        s.inv(),
        s.can_serve_all(ops),
    ensures
        s.users_issued <= s.run(ops).users_issued,
        s.groups_issued <= s.run(ops).groups_issued,
    decreases ops.len(),
{
    if ops.len() > 0 {
        lemma_run_issues_upwards(s, ops.drop_last());
        lemma_run_keeps_inv(s, ops.drop_last(), ops.len() - 1);
        assert(ops.drop_last().take(ops.len() - 1) =~= ops.drop_last());
        lemma_identifiers_never_reused(s.run(ops.drop_last()), ops.last());
    }
}

/// No request but the deletion of the group itself takes the last admin from
/// an open group: a group that is open before the request has an admin after
/// it.
pub proof fn lemma_open_group_keeps_an_admin(s: Store, op: Operation, group_id: Id)
    requires
        s.inv(),
        s.groups.contains_key(group_id),
        !s.groups[group_id],
        !(op matches Operation::GroupDelete { group_id: g, .. } && g == group_id),
    ensures
        admin_count(s.apply(op).memberships, group_id) >= 1,
{
    lemma_apply_keeps_inv(s, op);
    if s.error_of(op) is None {
        if let Operation::GroupSecretSanta { admin_id, group_id: g } = op {
            lemma_map_values_filter(s.memberships, s.paired(g), admin_in(group_id));
        } else {
            assert(s.apply(op).groups.contains_key(group_id));
        }
    }
}

/// A closed group refuses whoever wants to join, whatever else holds.
pub proof fn lemma_closed_group_refuses_join(s: Store, user_id: Id, group_id: Id)
    requires
        s.is_closed(group_id),
    ensures
        s.group_join_error(user_id, group_id) == Some(Error::GroupClosed),
        s.apply(Operation::GroupJoin { user_id, group_id }) == s,
{
}

/// A closed group refuses a member who wants to quit.
pub proof fn lemma_closed_group_refuses_quit(s: Store, user_id: Id, group_id: Id)
    requires
        s.is_closed(group_id),
        is_member(s.memberships, user_id, group_id),
    ensures
        s.group_quit_error(user_id, group_id) == Some(Error::GroupClosed),
        s.apply(Operation::GroupQuit { user_id, group_id }) == s,
{
}

/// A closed group makes nobody an admin: the request is refused for the
/// reason for which an open group would refuse it, and because the group is
/// closed where an open group would serve it.
pub proof fn lemma_closed_group_refuses_make_admin(
    s: Store,
    admin_id: Id,
    member_id: Id,
    group_id: Id,
)
    requires
        s.is_closed(group_id),
    ensures
        s.group_make_admin_error(admin_id, member_id, group_id) is Some,
        s.group_make_admin_error(admin_id, member_id, group_id) == Some(Error::GroupClosed) <==> {
            &&& is_member(s.memberships, member_id, group_id)
            &&& !is_admin_member(s.memberships, member_id, group_id)
            &&& is_admin_member(s.memberships, admin_id, group_id)
        },
        s.apply(Operation::GroupMakeAdmin { admin_id, member_id, group_id }) == s,
{
}

/// A closed group lets nobody step down: the request is refused for the reason
/// for which an open group would refuse it, and because the group is closed
/// where an open group would serve it.
pub proof fn lemma_closed_group_refuses_unadmin(s: Store, admin_id: Id, group_id: Id)
    requires
        s.is_closed(group_id),
    ensures
        s.group_unadmin_error(admin_id, group_id) is Some,
        s.group_unadmin_error(admin_id, group_id) == Some(Error::GroupClosed) <==> {
            &&& is_admin_member(s.memberships, admin_id, group_id)
            &&& admin_count(s.memberships, group_id) >= 2
        },
        s.apply(Operation::GroupUnadmin { admin_id, group_id }) == s,
{
}

/// A closed group lets nobody join, quit, become admin or step down, whoever
/// asks: the request is refused and the store stays as it is.
pub proof fn lemma_closed_group_refuses_changes(s: Store, op: Operation, group_id: Id)
    requires
        s.is_closed(group_id),
        op.changes_members_of(group_id),
    ensures
        s.error_of(op) is Some,
        s.apply(op) == s,
{
}

/// The sole admin of an open group can neither step down nor quit.
pub proof fn lemma_sole_admin_stays(s: Store, user_id: Id, group_id: Id)
    requires
        s.inv(),
        s.groups.contains_key(group_id),
        !s.groups[group_id],
        is_admin_member(s.memberships, user_id, group_id),
        admin_count(s.memberships, group_id) < 2,
    ensures
        s.group_unadmin_error(user_id, group_id) == Some(Error::LastAdmin),
        s.group_quit_error(user_id, group_id) == Some(Error::LastAdmin),
        s.apply(Operation::GroupUnadmin { admin_id: user_id, group_id }) == s,
        s.apply(Operation::GroupQuit { user_id, group_id }) == s,
{
}

/// Where an open group has two admins or more, an admin may step down and any
/// member may quit; the group has an admin afterwards.
pub proof fn lemma_one_of_several_admins_may_go(s: Store, user_id: Id, group_id: Id)
    requires
        s.inv(),
        is_member(s.memberships, user_id, group_id),
        !s.is_closed(group_id),
        admin_count(s.memberships, group_id) >= 2,
    ensures
        is_admin_member(s.memberships, user_id, group_id) ==> {
            &&& s.group_unadmin_error(user_id, group_id) is None
            &&& s.after_group_unadmin(user_id, group_id).inv()
            &&& admin_count(s.after_group_unadmin(user_id, group_id).memberships, group_id) >= 1
        },
        s.group_quit_error(user_id, group_id) is None,
        s.after_group_quit(user_id, group_id).inv(),
        admin_count(s.after_group_quit(user_id, group_id).memberships, group_id) >= 1,
{
    let i = position(s.memberships, user_id, group_id);
    lemma_position_holds(s.memberships, user_id, group_id);
    if is_admin_member(s.memberships, user_id, group_id) {
        lemma_group_unadmin_keeps_inv(s, user_id, group_id);
        lemma_count_update(
            s.memberships,
            i,
            with_role(s.memberships[i], Access::User),
            group_id,
        );
    }
    lemma_group_quit_keeps_inv(s, user_id, group_id);
    lemma_count_remove(s.memberships, i, group_id);
}

/// A group that its creator deletes right after creating it leaves nothing
/// behind but its identifier, which counts as issued.
pub proof fn lemma_create_then_delete(s: Store, creator_id: Id)
    requires
        s.inv(),
        s.users.contains_key(creator_id),
        s.groups_issued < u32::MAX,
    ensures
        s.group_create_error(creator_id) is None,
        s.after_group_create(creator_id).admin_error(creator_id, s.groups_issued as Id) is None,
        s.after_group_create(creator_id).after_group_delete(s.groups_issued as Id) == (Store {
            groups_issued: s.groups_issued + 1,
            ..s
        }),
        forall|i: int|
            0 <= i < s.memberships.len() ==> (#[trigger] s.memberships[i]).id.group_id
                != s.groups_issued as Id,
{
    let group_id = s.groups_issued as Id;
    let t = s.after_group_create(creator_id);
    let last = t.memberships.len() - 1;
    lemma_group_create_keeps_inv(s, creator_id);
    assert(holds_at(t.memberships, creator_id, group_id, last));
    lemma_position(t.memberships, creator_id, group_id, last);
    let keep = Store::outside_group(group_id);
    assert forall|i: int| 0 <= i < s.memberships.len() implies keep(#[trigger] s.memberships[i]) by {
        assert(s.users.contains_key(s.memberships[i].id.user_id));
        assert(s.groups.contains_key(s.memberships[i].id.group_id));
    }
    s.memberships.lemma_filter_push(t.memberships[last], keep);
    lemma_filter_all(s.memberships, keep);
    let d = t.after_group_delete(group_id);
    assert(d.memberships =~= s.memberships);
    assert(d.groups =~= s.groups);
}

/// A closed group stays closed for as long as it exists.
pub proof fn lemma_closed_is_final(s: Store, op: Operation, group_id: Id)
    requires
        s.inv(),
        s.is_closed(group_id),
        s.apply(op).groups.contains_key(group_id),
    ensures
        s.apply(op).is_closed(group_id),
{
}

/// No request but the pairing and the deletion of a closed group touches a
/// membership of it.
proof fn lemma_closed_group_untouched(s: Store, op: Operation, group_id: Id)
    requires
        s.inv(),
        s.is_closed(group_id),
        !(op matches Operation::GroupDelete { group_id: g, .. } && g == group_id),
        !(op matches Operation::GroupSecretSanta { group_id: g, .. } && g == group_id),
    ensures
        s.apply(op).is_closed(group_id),
        s.apply(op).memberships.filter(in_group(group_id)) == s.memberships.filter(
            in_group(group_id),
        ),
{
    let ms = s.memberships;
    let p = in_group(group_id);
    if s.error_of(op) is None {
        match op {
            Operation::UserCreate { name } => {},
            Operation::UserUpdate { user_id, name } => {},
            Operation::UserDelete { user_id } => {
                lemma_filter_keeps_selected(ms, s.staying(user_id), p);
            },
            Operation::GroupCreate { creator_id } => {
                ms.lemma_filter_push(s.after_group_create(creator_id).memberships.last(), p);
            },
            Operation::GroupJoin { user_id, group_id: g } => {
                ms.lemma_filter_push(s.after_group_join(user_id, g).memberships.last(), p);
            },
            Operation::GroupQuit { user_id, group_id: g } => {
                let i = position(ms, user_id, g);
                lemma_position_holds(ms, user_id, g);
                lemma_filter_split(ms, i, p);
                lemma_filter_single(ms[i], p);
            },
            Operation::GroupMakeAdmin { admin_id, member_id, group_id: g } => {
                let i = position(ms, member_id, g);
                lemma_position_holds(ms, member_id, g);
                lemma_update_keeps_members(ms, i, with_role(ms[i], Access::Admin), group_id);
            },
            Operation::GroupUnadmin { admin_id, group_id: g } => {
                let i = position(ms, admin_id, g);
                lemma_position_holds(ms, admin_id, g);
                lemma_update_keeps_members(ms, i, with_role(ms[i], Access::User), group_id);
            },
            Operation::GroupDelete { admin_id, group_id: g } => {
                lemma_filter_keeps_selected(ms, Store::outside_group(g), p);
            },
            Operation::GroupSecretSanta { admin_id, group_id: g } => {
                let f = s.paired(g);
                lemma_map_values_filter(ms, f, p);
                assert forall|k: int| 0 <= k < ms.filter(p).len() implies f(
                    #[trigger] ms.filter(p)[k],
                ) == ms.filter(p)[k] by {
                    ms.lemma_filter_pred(p, k);
                }
                assert(ms.filter(p).map_values(f) =~= ms.filter(p));
            },
        }
    }
}

/// A closed group is frozen: no request but the deletion of the group changes
/// who its members are, in which order they stand, or which roles they have,
/// and the group stays closed.
pub proof fn lemma_closed_group_is_frozen(s: Store, op: Operation, group_id: Id)
    requires
        s.inv(),
        s.is_closed(group_id),
        !(op matches Operation::GroupDelete { group_id: g, .. } && g == group_id),
    ensures
        s.apply(op).is_closed(group_id),
        roles_in(s.apply(op).memberships, group_id) == roles_in(s.memberships, group_id),
        members_of(s.apply(op).memberships, group_id) == members_of(s.memberships, group_id),
{
    let ms = s.memberships;
    let p = in_group(group_id);
    if op matches Operation::GroupSecretSanta { group_id: g, .. } && g == group_id {
        if s.error_of(op) is None {
            let f = s.paired(group_id);
            lemma_map_values_filter(ms, f, p);
            assert(roles(ms.filter(p).map_values(f)) =~= roles(ms.filter(p)));
            assert(user_ids(ms.filter(p).map_values(f)) =~= user_ids(ms.filter(p)));
        }
    } else {
        lemma_closed_group_untouched(s, op, group_id);
    }
}

/// In a store whose closed groups are paired, no request but the deletion of
/// a closed group changes a membership of it: members, order, roles and
/// recipients are after the request what they were before it.
pub proof fn lemma_closed_group_keeps_memberships(s: Store, op: Operation, group_id: Id)
    requires
        s.inv(),
        s.closed_groups_paired(),
        s.is_closed(group_id),
        !(op matches Operation::GroupDelete { group_id: g, .. } && g == group_id),
    ensures
        s.apply(op).is_closed(group_id),
        s.apply(op).memberships.filter(in_group(group_id)) == s.memberships.filter(
            in_group(group_id),
        ),
{
    if op matches Operation::GroupSecretSanta { group_id: g, .. } && g == group_id {
        if s.error_of(op) is None {
            lemma_pairing_again_changes_nothing(s, op->GroupSecretSanta_admin_id, group_id);
        }
    } else {
        lemma_closed_group_untouched(s, op, group_id);
    }
}

/// What the pairing of a group leaves behind: the group is closed, its members
/// and their roles are as before, and each member has the recipient that the
/// pairing of the members gives. Where the group has two members or more, the
/// recipients are exactly the members and nobody is their own recipient.
pub proof fn lemma_secret_santa_pairs(s: Store, admin_id: Id, group_id: Id)
    requires
        s.inv(),
        s.admin_error(admin_id, group_id) is None,
    ensures
        ({
            let t = s.after_group_secret_santa(group_id);
            let members = members_of(s.memberships, group_id);
            &&& t.is_closed(group_id)
            &&& members.no_duplicates()
            &&& members_of(t.memberships, group_id) == members
            &&& roles_in(t.memberships, group_id) == roles_in(s.memberships, group_id)
            &&& forall|u: Id| #[trigger]
                members.contains(u) ==> is_member(t.memberships, u, group_id) && t.recipient(
                    u,
                    group_id,
                ) == Some(pairing(members)[u])
            &&& members.len() >= 2 ==> forall|u: Id| #[trigger]
                members.contains(u) ==> t.recipient(u, group_id) != Some(u)
            &&& forall|v: Id| #[trigger]
                members.contains(v) <==> exists|u: Id| #[trigger]
                    members.contains(u) && t.recipient(u, group_id) == Some(v)
        }),
{
    let t = s.after_group_secret_santa(group_id);
    let ms = s.memberships;
    let members = members_of(ms, group_id);
    let p = in_group(group_id);
    let f = s.paired(group_id);
    lemma_group_secret_santa_keeps_inv(s, admin_id, group_id);
    lemma_members_distinct(ms, group_id);
    lemma_map_values_filter(ms, f, p);
    assert(user_ids(ms.filter(p).map_values(f)) =~= user_ids(ms.filter(p)));
    assert(roles(ms.filter(p).map_values(f)) =~= roles(ms.filter(p)));
    assert forall|u: Id| #[trigger] members.contains(u) implies is_member(
        t.memberships,
        u,
        group_id,
    ) && t.recipient(u, group_id) == Some(pairing(members)[u]) by {
        lemma_members_are_listed(ms, u, group_id);
        let i = position(ms, u, group_id);
        lemma_position_holds(ms, u, group_id);
        assert(holds_at(t.memberships, u, group_id, i));
        lemma_position(t.memberships, u, group_id, i);
    }
    assert forall|u: Id| #[trigger] members.contains(u) && members.len() >= 2 implies t.recipient(
        u,
        group_id,
    ) != Some(u) by {
        lemma_recipient_is_another_member(members, u);
    }
    assert forall|v: Id| #[trigger]
        members.contains(v) <==> exists|u: Id| #[trigger]
            members.contains(u) && t.recipient(u, group_id) == Some(v) by {
        if members.contains(v) {
            let giver = lemma_member_is_recipient(members, v);
            assert(members.contains(giver) && t.recipient(giver, group_id) == Some(v));
        }
        if exists|u: Id| #[trigger] members.contains(u) && t.recipient(u, group_id) == Some(v) {
            let u = choose|u: Id| #[trigger]
                members.contains(u) && t.recipient(u, group_id) == Some(v);
            lemma_recipient_is_another_member(members, u);
        }
    }
}

/// A pairing lasts: where every closed group is paired before a request, every
/// closed group is paired after it. A group that the request closes is paired
/// by it, and a group that was closed keeps its recipients.
pub proof fn lemma_apply_keeps_pairing(s: Store, op: Operation)
    requires
        s.inv(),
        s.closed_groups_paired(),
    ensures
        s.apply(op).closed_groups_paired(),
{
    let t = s.apply(op);
    let ms = s.memberships;
    assert forall|k: int|
        0 <= k < t.memberships.len() && t.is_closed(
            (#[trigger] t.memberships[k]).id.group_id,
        ) implies t.memberships[k].props.recipient == Some(
        recipient_of(
            members_of(t.memberships, t.memberships[k].id.group_id),
            t.memberships[k].id.user_id,
        ),
    ) by {
        let m = t.memberships[k];
        let g = m.id.group_id;
        if s.error_of(op) is None {
            if op matches Operation::GroupSecretSanta { group_id: closing, .. } && closing == g {
                let admin_id = op->GroupSecretSanta_admin_id;
                lemma_secret_santa_pairs(s, admin_id, g);
            } else {
                assert(s.is_closed(g));
                lemma_closed_group_is_frozen(s, op, g);
                let k0 = lemma_membership_comes_from(s, op, k);
                assert(ms[k0].id == m.id && ms[k0].props.recipient == m.props.recipient);
            }
        }
    }
}

/// A membership of a closed group that stands in the store after a request
/// other than the pairing of that group stood there before it, with the same
/// recipient.
proof fn lemma_membership_comes_from(s: Store, op: Operation, k: int) -> (k0: int)
    requires
        s.inv(),
        s.error_of(op) is None,
        0 <= k < s.apply(op).memberships.len(),
        s.is_closed(s.apply(op).memberships[k].id.group_id),
        !(op matches Operation::GroupSecretSanta { group_id: g, .. } && g == s.apply(
            op,
        ).memberships[k].id.group_id),
    ensures
        0 <= k0 < s.memberships.len(),
        s.memberships[k0].id == s.apply(op).memberships[k].id,
        s.memberships[k0].props.recipient == s.apply(op).memberships[k].props.recipient,
{
    let t = s.apply(op);
    let ms = s.memberships;
    let m = t.memberships[k];
    match op {
        Operation::UserCreate { name } => k,
        Operation::UserUpdate { user_id, name } => k,
        Operation::UserDelete { user_id } => {
            ms.lemma_filter_contains_rev(s.staying(user_id), m);
            choose|k0: int| 0 <= k0 < ms.len() && ms[k0] == m
        },
        Operation::GroupCreate { creator_id } => k,
        Operation::GroupJoin { user_id, group_id } => k,
        Operation::GroupQuit { user_id, group_id } => {
            let i = position(ms, user_id, group_id);
            lemma_position_holds(ms, user_id, group_id);
            if k < i {
                k
            } else {
                k + 1
            }
        },
        Operation::GroupMakeAdmin { admin_id, member_id, group_id } => {
            lemma_position_holds(ms, member_id, group_id);
            k
        },
        Operation::GroupUnadmin { admin_id, group_id } => {
            lemma_position_holds(ms, admin_id, group_id);
            k
        },
        Operation::GroupDelete { admin_id, group_id } => {
            ms.lemma_filter_contains_rev(Store::outside_group(group_id), m);
            choose|k0: int| 0 <= k0 < ms.len() && ms[k0] == m
        },
        Operation::GroupSecretSanta { admin_id, group_id } => k,
    }
}

/// After every request of every sequence of requests, started on a store in
/// which every closed group is paired, every closed group is paired.
pub proof fn lemma_run_keeps_pairing(s: Store, ops: Seq<Operation>, served: int)
    requires
        s.inv(),
        s.closed_groups_paired(),
        s.can_serve_all(ops),
        0 <= served <= ops.len(),
    ensures
        s.run(ops.take(served)).closed_groups_paired(),
    decreases ops.len(),
{
    if served < ops.len() {
        assert(ops.drop_last().take(served) =~= ops.take(served));
        lemma_run_keeps_pairing(s, ops.drop_last(), served);
    } else {
        assert(ops.take(served) =~= ops);
        if ops.len() > 0 {
            lemma_run_keeps_pairing(s, ops.drop_last(), served - 1);
            lemma_run_keeps_inv(s, ops.drop_last(), served - 1);
            assert(ops.drop_last().take(served - 1) =~= ops.drop_last());
            lemma_apply_keeps_pairing(s.run(ops.drop_last()), ops.last());
        }
    }
}

/// Pairing a group that is closed and paired once more changes nothing: it
/// gives every member the recipient that they have.
pub proof fn lemma_pairing_again_changes_nothing(s: Store, admin_id: Id, group_id: Id)
    requires
        s.inv(),
        s.closed_groups_paired(),
        s.is_closed(group_id),
        s.admin_error(admin_id, group_id) is None,
    ensures
        s.after_group_secret_santa(group_id) == s,
{
    let t = s.after_group_secret_santa(group_id);
    assert(t.groups =~= s.groups);
    assert forall|i: int| 0 <= i < s.memberships.len() implies s.paired(group_id)(
        #[trigger] s.memberships[i],
    ) == s.memberships[i] by {}
    assert(t.memberships =~= s.memberships);
}

} // verus!
