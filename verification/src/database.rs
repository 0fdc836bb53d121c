//! The store itself: the operations on users, groups and memberships.

use std::collections::HashMap;
use vstd::prelude::*;
use crate::guard::{
    count_admins,
    find_membership,
    group_ids,
    group_members,
    holds_at,
    is_admin,
    is_admin_role,
    is_member,
    members_of,
    position,
};
use crate::laws::{lemma_apply_keeps_pairing, Operation};
use crate::listing::lemma_members_are_listed;
use crate::pairing::{get_secret_santas, pairing};
use crate::model::{Access, Error, Id, Membership, UserGroupId, UserGroupProps};
use crate::preservation::{
    lemma_group_create_keeps_inv,
    lemma_group_delete_keeps_inv,
    lemma_group_secret_santa_keeps_inv,
    lemma_group_join_keeps_inv,
    lemma_group_make_admin_keeps_inv,
    lemma_group_quit_keeps_inv,
    lemma_group_unadmin_keeps_inv,
    lemma_position_holds,
    lemma_user_delete_keeps_inv,
    lemma_user_create_keeps_inv,
    lemma_user_update_keeps_inv,
};
use crate::state::{Deletion, Store};

verus! {

broadcast use vstd::std_specs::hash::group_hash_axioms;

/// The users, the groups and the memberships, with the counters from which
/// identifiers are issued.
pub struct DataBase {
    users: HashMap<Id, String>,
    users_max_id: Id,
    groups: HashMap<Id, bool>,
    groups_max_id: Id,
    user_groups: Vec<Membership>,
}

/// The names of a table of users as sequences of characters.
pub open spec fn names(users: Map<Id, String>) -> Map<Id, Seq<char>> {
    Map::new(|id: Id| users.contains_key(id), |id: Id| users[id]@)
}

impl View for DataBase {
    type V = Store;

    closed spec fn view(&self) -> Store {
        Store {
            users: names(self.users@),
            users_issued: self.users_max_id as nat,
            groups: self.groups@,
            groups_issued: self.groups_max_id as nat,
            memberships: self.user_groups@,
        }
    }
}

impl DataBase {
    /// The store's invariant holds, and every closed group is paired.
    pub open spec fn wf(&self) -> bool {
        self@.inv() && self@.closed_groups_paired()
    }

    /// A store that holds nothing and has issued no identifier.
    pub fn new() -> (db: DataBase)
        ensures
            db@ == Store::empty(),
            db.wf(),
    {
        let db = DataBase {
            users: HashMap::new(),
            users_max_id: 0,
            groups: HashMap::new(),
            groups_max_id: 0,
            user_groups: Vec::new(),
        };
        proof {
            assert(db@.users =~= Map::empty());
            assert(db@.groups =~= Map::empty());
            assert(db@.memberships =~= Seq::empty());
        }
        db
    }

    /// The number of user identifiers issued so far, which is the identifier
    /// that the next user gets.
    pub fn users_max_id(&self) -> (n: Id)
        ensures
            n == self@.users_issued,
    {
        self.users_max_id
    }

    /// The number of group identifiers issued so far, which is the identifier
    /// that the next group gets.
    pub fn groups_max_id(&self) -> (n: Id)
        ensures
            n == self@.groups_issued,
    {
        self.groups_max_id
    }

    /// Issues the next user identifier: the count of those issued before, so
    /// that it is greater than every one of them.
    fn allocate_user_id(&mut self) -> (id: Id)
        requires
            old(self).users_max_id < u32::MAX,
        ensures
            id == old(self).users_max_id,
            final(self).users_max_id == id + 1,
            final(self).users == old(self).users,
            final(self).groups == old(self).groups,
            final(self).groups_max_id == old(self).groups_max_id,
            final(self).user_groups == old(self).user_groups,
    {
        let id: Id = self.users_max_id;
        self.users_max_id = id + 1;
        id
    }

    /// Issues the next group identifier: the count of those issued before, so
    /// that it is greater than every one of them.
    fn allocate_group_id(&mut self) -> (id: Id)
        requires
            old(self).groups_max_id < u32::MAX,
        ensures
            id == old(self).groups_max_id,
            final(self).groups_max_id == id + 1,
            final(self).users == old(self).users,
            final(self).users_max_id == old(self).users_max_id,
            final(self).groups == old(self).groups,
            final(self).user_groups == old(self).user_groups,
    {
        let id: Id = self.groups_max_id;
        self.groups_max_id = id + 1;
        id
    }

    /// Registers a user under a name that is not empty, and returns the new
    /// user's identifier.
    pub fn user_create(&mut self, name: String) -> (r: Result<Id, Error>)
        requires
            old(self).wf(),
            name@.len() > 0 ==> old(self)@.users_issued < u32::MAX,
        ensures
            final(self).wf(),
            match r {
                Ok(id) => {
                    &&& old(self)@.user_create_error(name@) is None
                    &&& id == old(self)@.users_issued
                    &&& final(self)@ == old(self)@.after_user_create(name@)
                },
                Err(e) => {
                    &&& old(self)@.user_create_error(name@) == Some(e)
                    &&& final(self)@ == old(self)@
                },
            },
    {
        if name.as_str().is_empty() {
            return Err(Error::InvalidInput);
        }
        let ghost chars = name@;
        let id: Id = self.allocate_user_id();
        self.users.insert(id, name);
        proof {
            assert(final(self)@.users =~= old(self)@.after_user_create(chars).users);
            lemma_user_create_keeps_inv(old(self)@, chars);
            lemma_apply_keeps_pairing(old(self)@, Operation::UserCreate { name: chars });
        }
        Ok(id)
    }

    /// Gives an existing user another name.
    pub fn user_update(&mut self, id: Id, name: String) -> (r: Result<(), Error>)
        requires
            old(self).wf(),
        ensures
            final(self).wf(),
            match r {
                Ok(()) => {
                    &&& old(self)@.user_update_error(id) is None
                    &&& final(self)@ == old(self)@.after_user_update(id, name@)
                },
                Err(e) => {
                    &&& old(self)@.user_update_error(id) == Some(e)
                    &&& final(self)@ == old(self)@
                },
            },
    {
        if !self.users.contains_key(&id) {
            return Err(Error::NotFound);
        }
        let ghost chars = name@;
        self.users.insert(id, name);
        proof {
            assert(final(self)@.users =~= old(self)@.after_user_update(id, chars).users);
            lemma_user_update_keeps_inv(old(self)@, id, chars);
            lemma_apply_keeps_pairing(
                old(self)@,
                Operation::UserUpdate { user_id: id, name: chars },
            );
        }
        Ok(())
    }

    /// Opens a new group with its creator as the first admin, and returns the
    /// new group's identifier.
    pub fn group_create(&mut self, creator_id: Id) -> (r: Result<Id, Error>)
        requires
            old(self).wf(),
            old(self)@.users.contains_key(creator_id) ==> old(self)@.groups_issued < u32::MAX,
        ensures
            final(self).wf(),
            match r {
                Ok(id) => {
                    &&& old(self)@.group_create_error(creator_id) is None
                    &&& id == old(self)@.groups_issued
                    &&& final(self)@ == old(self)@.after_group_create(creator_id)
                },
                Err(e) => {
                    &&& old(self)@.group_create_error(creator_id) == Some(e)
                    &&& final(self)@ == old(self)@
                },
            },
    {
        if !self.users.contains_key(&creator_id) {
            return Err(Error::NotFound);
        }
        let id: Id = self.allocate_group_id();
        self.groups.insert(id, false);
        self.user_groups.push(
            Membership {
                id: UserGroupId { user_id: creator_id, group_id: id },
                props: UserGroupProps::new(Access::Admin),
            },
        );
        proof {
            lemma_group_create_keeps_inv(old(self)@, creator_id);
            lemma_apply_keeps_pairing(old(self)@, Operation::GroupCreate { creator_id });
        }
        Ok(id)
    }

    /// Makes a user a plain member of an open group.
    pub fn group_join(&mut self, user_id: Id, group_id: Id) -> (r: Result<(), Error>)
        requires
            old(self).wf(),
        ensures
            final(self).wf(),
            match r {
                Ok(()) => {
                    &&& old(self)@.group_join_error(user_id, group_id) is None
                    &&& final(self)@ == old(self)@.after_group_join(user_id, group_id)
                },
                Err(e) => {
                    &&& old(self)@.group_join_error(user_id, group_id) == Some(e)
                    &&& final(self)@ == old(self)@
                },
            },
    {
        match self.groups.get(&group_id) {
            None => {
                return Err(Error::NotFound);
            },
            Some(is_closed) => {
                if *is_closed {
                    return Err(Error::GroupClosed);
                }
            },
        }
        if !self.users.contains_key(&user_id) {
            return Err(Error::NotFound);
        }
        if find_membership(user_id, group_id, &self.user_groups).is_some() {
            return Err(Error::AlreadyMember);
        }
        self.user_groups.push(
            Membership {
                id: UserGroupId { user_id, group_id },
                props: UserGroupProps::new(Access::User),
            },
        );
        proof {
            lemma_group_join_keeps_inv(old(self)@, user_id, group_id);
            lemma_apply_keeps_pairing(old(self)@, Operation::GroupJoin { user_id, group_id });
        }
        Ok(())
    }

    /// Takes a user out of an open group; the last admin cannot leave.
    pub fn group_quit(&mut self, user_id: Id, group_id: Id) -> (r: Result<(), Error>)
        requires
            old(self).wf(),
        ensures
            final(self).wf(),
            match r {
                Ok(()) => {
                    &&& old(self)@.group_quit_error(user_id, group_id) is None
                    &&& final(self)@ == old(self)@.after_group_quit(user_id, group_id)
                },
                Err(e) => {
                    &&& old(self)@.group_quit_error(user_id, group_id) == Some(e)
                    &&& final(self)@ == old(self)@
                },
            },
    {
        let i: usize = match find_membership(user_id, group_id, &self.user_groups) {
            None => {
                return Err(Error::NotMember);
            },
            Some(i) => i,
        };
        if self.group_is_closed(group_id) {
            return Err(Error::GroupClosed);
        }
        if is_admin_role(self.user_groups[i].props.access_level) && count_admins(
            group_id,
            &self.user_groups,
        ) < 2 {
            return Err(Error::LastAdmin);
        }
        self.user_groups.remove(i);
        proof {
            lemma_group_quit_keeps_inv(old(self)@, user_id, group_id);
            lemma_apply_keeps_pairing(old(self)@, Operation::GroupQuit { user_id, group_id });
        }
        Ok(())
    }

    /// Whether the group exists and is closed.
    pub fn group_is_closed(&self, group_id: Id) -> (closed: bool)
        ensures
            closed == self@.is_closed(group_id),
    {
        match self.groups.get(&group_id) {
            Some(is_closed) => *is_closed,
            None => false,
        }
    }

    /// Makes a member of an open group an admin, at the request of an admin.
    /// A closed group refuses what would be in order in an open one.
    pub fn group_make_admin(&mut self, admin_id: Id, member_id: Id, group_id: Id) -> (r: Result<
        (),
        Error,
    >)
        requires
            old(self).wf(),
        ensures
            final(self).wf(),
            match r {
                Ok(()) => {
                    &&& old(self)@.group_make_admin_error(admin_id, member_id, group_id) is None
                    &&& final(self)@ == old(self)@.after_group_make_admin(member_id, group_id)
                },
                Err(e) => {
                    &&& old(self)@.group_make_admin_error(admin_id, member_id, group_id) == Some(e)
                    &&& final(self)@ == old(self)@
                },
            },
    {
        if !self.groups.contains_key(&group_id) {
            return Err(Error::NotFound);
        }
        let i: usize = match find_membership(member_id, group_id, &self.user_groups) {
            None => {
                return Err(Error::NotMember);
            },
            Some(i) => i,
        };
        if is_admin_role(self.user_groups[i].props.access_level) {
            return Err(Error::AlreadyAdmin);
        }
        match is_admin(admin_id, group_id, &self.user_groups) {
            Ok(true) => {},
            _ => {
                return Err(Error::Forbidden);
            },
        }
        if self.group_is_closed(group_id) {
            return Err(Error::GroupClosed);
        }
        let recipient: Option<Id> = self.user_groups[i].props.recipient;
        self.user_groups[i] = Membership {
            id: UserGroupId { user_id: member_id, group_id },
            props: UserGroupProps { access_level: Access::Admin, recipient },
        };
        proof {
            lemma_position_holds(old(self).user_groups@, member_id, group_id);
            lemma_group_make_admin_keeps_inv(old(self)@, admin_id, member_id, group_id);
            lemma_apply_keeps_pairing(
                old(self)@,
                Operation::GroupMakeAdmin { admin_id, member_id, group_id },
            );
        }
        Ok(())
    }

    /// Makes an admin of an open group a plain member; the last admin cannot
    /// step down. A closed group refuses what would be in order in an open
    /// one.
    pub fn group_unadmin(&mut self, admin_id: Id, group_id: Id) -> (r: Result<(), Error>)
        requires
            old(self).wf(),
        ensures
            final(self).wf(),
            match r {
                Ok(()) => {
                    &&& old(self)@.group_unadmin_error(admin_id, group_id) is None
                    &&& final(self)@ == old(self)@.after_group_unadmin(admin_id, group_id)
                },
                Err(e) => {
                    &&& old(self)@.group_unadmin_error(admin_id, group_id) == Some(e)
                    &&& final(self)@ == old(self)@
                },
            },
    {
        let i: usize = match find_membership(admin_id, group_id, &self.user_groups) {
            None => {
                return Err(Error::NotMember);
            },
            Some(i) => i,
        };
        if !is_admin_role(self.user_groups[i].props.access_level) {
            return Err(Error::NotAdmin);
        }
        if count_admins(group_id, &self.user_groups) < 2 {
            return Err(Error::LastAdmin);
        }
        if self.group_is_closed(group_id) {
            return Err(Error::GroupClosed);
        }
        let recipient: Option<Id> = self.user_groups[i].props.recipient;
        self.user_groups[i] = Membership {
            id: UserGroupId { user_id: admin_id, group_id },
            props: UserGroupProps { access_level: Access::User, recipient },
        };
        proof {
            lemma_position_holds(old(self).user_groups@, admin_id, group_id);
            lemma_group_unadmin_keeps_inv(old(self)@, admin_id, group_id);
            lemma_apply_keeps_pairing(old(self)@, Operation::GroupUnadmin { admin_id, group_id });
        }
        Ok(())
    }

    /// Deletes a group with all its memberships, at the request of an admin.
    pub fn group_delete(&mut self, admin_id: Id, group_id: Id) -> (r: Result<(), Error>)
        requires
            old(self).wf(),
        ensures
            final(self).wf(),
            match r {
                Ok(()) => {
                    &&& old(self)@.admin_error(admin_id, group_id) is None
                    &&& final(self)@ == old(self)@.after_group_delete(group_id)
                },
                Err(e) => {
                    &&& old(self)@.admin_error(admin_id, group_id) == Some(e)
                    &&& final(self)@ == old(self)@
                },
            },
    {
        match is_admin(admin_id, group_id, &self.user_groups) {
            Err(e) => {
                return Err(e);
            },
            Ok(false) => {
                return Err(Error::NotAdmin);
            },
            Ok(true) => {},
        }
        let kept: Vec<Membership> = memberships_outside_group(group_id, &self.user_groups);
        self.user_groups = kept;
        self.groups.remove(&group_id);
        proof {
            assert(final(self)@.groups =~= old(self)@.groups.remove(group_id));
            lemma_group_delete_keeps_inv(old(self)@, group_id);
            lemma_apply_keeps_pairing(old(self)@, Operation::GroupDelete { admin_id, group_id });
        }
        Ok(())
    }

    /// Closes a group and pairs its members, at the request of an admin: each
    /// member gives to the member who joined just before, the first to the
    /// last.
    pub fn group_secret_santa(&mut self, admin_id: Id, group_id: Id) -> (r: Result<(), Error>)
        requires
            old(self).wf(),
        ensures
            final(self).wf(),
            match r {
                Ok(()) => {
                    &&& old(self)@.admin_error(admin_id, group_id) is None
                    &&& final(self)@ == old(self)@.after_group_secret_santa(group_id)
                },
                Err(e) => {
                    &&& old(self)@.admin_error(admin_id, group_id) == Some(e)
                    &&& final(self)@ == old(self)@
                },
            },
    {
        match is_admin(admin_id, group_id, &self.user_groups) {
            Err(e) => {
                return Err(e);
            },
            Ok(false) => {
                return Err(Error::NotAdmin);
            },
            Ok(true) => {},
        }
        self.groups.insert(group_id, true);
        let group: Vec<Id> = group_members(group_id, &self.user_groups);
        let santas: HashMap<Id, Id> = get_secret_santas(&group);
        let ghost before = old(self)@;
        let n: usize = self.user_groups.len();
        let mut i: usize = 0;
        while i < n
            invariant
                i <= n,
                n == before.memberships.len(),
                self.user_groups@.len() == n,
                self@.users == before.users,
                self@.users_issued == before.users_issued,
                self@.groups == before.groups.insert(group_id, true),
                self@.groups_issued == before.groups_issued,
                group@ == members_of(before.memberships, group_id),
                santas@ == pairing(group@),
                forall|j: int|
                    0 <= j < i ==> #[trigger] self.user_groups@[j] == before.paired(group_id)(
                        before.memberships[j],
                    ),
                forall|j: int| i <= j < n ==> #[trigger] self.user_groups@[j] == before.memberships[j],
            decreases n - i,
        {
            let m: Membership = self.user_groups[i];
            if m.id.group_id == group_id {
                proof {
                    assert(holds_at(before.memberships, m.id.user_id, group_id, i as int));
                    lemma_members_are_listed(before.memberships, m.id.user_id, group_id);
                }
                let recipient: Option<Id> = match santas.get(&m.id.user_id) {
                    Some(recipient) => Some(*recipient),
                    None => None,
                };
                self.user_groups[i] = Membership {
                    id: m.id,
                    props: UserGroupProps { access_level: m.props.access_level, recipient },
                };
            }
            i += 1;
        }
        proof {
            assert(self.user_groups@ =~= before.memberships.map_values(before.paired(group_id)));
            lemma_group_secret_santa_keeps_inv(before, admin_id, group_id);
            lemma_apply_keeps_pairing(before, Operation::GroupSecretSanta { admin_id, group_id });
        }
        Ok(())
    }

    /// The recipient stored for a member of a group: none while the group has
    /// not been paired.
    pub fn group_target_by_id(&self, user_id: Id, group_id: Id) -> (r: Result<Option<Id>, Error>)
        ensures
            match r {
                Ok(recipient) => is_member(self@.memberships, user_id, group_id) && recipient
                    == self@.recipient(user_id, group_id),
                Err(e) => e == Error::NotMember && !is_member(self@.memberships, user_id, group_id),
            },
    {
        match find_membership(user_id, group_id, &self.user_groups) {
            Some(i) => Ok(self.user_groups[i].props.recipient),
            None => Err(Error::NotMember),
        }
    }
}

/// What a user's deletion came to.
#[derive(Debug, PartialEq, Eq)]
pub struct UserDeletion {
    /// The user record is gone.
    pub deleted: bool,
    /// The user has a membership in a closed group, which keeps the record.
    pub in_closed_group: bool,
    /// The open groups that the user stays in as their last admin, in the
    /// order in which the user entered them.
    pub last_admin_of: Vec<Id>,
}

impl View for UserDeletion {
    type V = Deletion;

    open spec fn view(&self) -> Deletion {
        Deletion {
            deleted: self.deleted,
            in_closed_group: self.in_closed_group,
            last_admin_of: self.last_admin_of@,
        }
    }
}

impl DataBase {
    /// Deletes a user as far as the rules allow. The user leaves every open
    /// group of which they are not the last admin, whatever comes of the rest.
    /// The record itself goes only if the user is in no closed group and was
    /// nowhere the last admin; the result says which of these kept it.
    pub fn user_delete(&mut self, user_id: Id) -> (r: Result<UserDeletion, Error>)
        requires
            old(self).wf(),
        ensures
            final(self).wf(),
            match r {
                Ok(deletion) => {
                    &&& old(self)@.user_delete_error(user_id) is None
                    &&& deletion@ == old(self)@.user_deletion(user_id)
                    &&& final(self)@ == old(self)@.after_user_delete(user_id)
                },
                Err(e) => {
                    &&& old(self)@.user_delete_error(user_id) == Some(e)
                    &&& final(self)@ == old(self)@
                },
            },
    {
        if !self.users.contains_key(&user_id) {
            return Err(Error::NotFound);
        }
        let ghost before = old(self)@;
        let ghost ms = before.memberships;
        let mut kept: Vec<Membership> = Vec::new();
        let mut last_admin_of: Vec<Id> = Vec::new();
        let mut in_closed_group: bool = false;
        let n: usize = self.user_groups.len();
        let mut i: usize = 0;
        while i < n
            invariant
                i <= n,
                n == ms.len(),
                self@ == before,
                ms == before.memberships,
                kept@ == ms.take(i as int).filter(before.staying(user_id)),
                last_admin_of@ == group_ids(ms.take(i as int).filter(before.blocking(user_id))),
                in_closed_group <==> exists|j: int|
                    0 <= j < i && #[trigger] ms[j].id.user_id == user_id && before.is_closed(
                        ms[j].id.group_id,
                    ),
            decreases n - i,
        {
            let m: Membership = self.user_groups[i];
            proof {
                let prefix = ms.take(i as int);
                assert(ms.take(i + 1) =~= prefix.push(m));
                prefix.lemma_filter_push(m, before.staying(user_id));
                prefix.lemma_filter_push(m, before.blocking(user_id));
                assert(group_ids(prefix.filter(before.blocking(user_id)).push(m)) =~= group_ids(
                    prefix.filter(before.blocking(user_id)),
                ).push(m.id.group_id));
            }
            if m.id.user_id != user_id {
                kept.push(m);
            } else if self.group_is_closed(m.id.group_id) {
                in_closed_group = true;
                kept.push(m);
            } else if is_admin_role(m.props.access_level) && count_admins(
                m.id.group_id,
                &self.user_groups,
            ) < 2 {
                last_admin_of.push(m.id.group_id);
                kept.push(m);
            }
            i += 1;
        }
        proof {
            assert(ms.take(i as int) =~= ms);
        }
        self.user_groups = kept;
        let deleted: bool = !in_closed_group && last_admin_of.len() == 0;
        if deleted {
            self.users.remove(&user_id);
        }
        proof {
            assert(final(self)@.users =~= before.after_user_delete(user_id).users);
            lemma_user_delete_keeps_inv(before, user_id);
            lemma_apply_keeps_pairing(before, Operation::UserDelete { user_id });
        }
        Ok(UserDeletion { deleted, in_closed_group, last_admin_of })
    }
}

/// `list` names every user of `users` once, with their name, by ascending
/// identifier.
pub open spec fn lists_users(list: Seq<(Id, String)>, users: Map<Id, Seq<char>>) -> bool {
    &&& forall|i: int, j: int| 0 <= i < j < list.len() ==> list[i].0 < list[j].0
    &&& forall|i: int|
        0 <= i < list.len() ==> users.contains_key(#[trigger] list[i].0) && users[list[i].0]
            == list[i].1@
    &&& forall|id: Id| #[trigger]
        users.contains_key(id) ==> exists|i: int| 0 <= i < list.len() && list[i].0 == id
}

/// `list` names every group of `groups` once, with its closed flag, by
/// ascending identifier.
pub open spec fn lists_groups(list: Seq<(Id, bool)>, groups: Map<Id, bool>) -> bool {
    &&& forall|i: int, j: int| 0 <= i < j < list.len() ==> list[i].0 < list[j].0
    &&& forall|i: int|
        0 <= i < list.len() ==> groups.contains_key(#[trigger] list[i].0) && groups[list[i].0]
            == list[i].1
    &&& forall|id: Id| #[trigger]
        groups.contains_key(id) ==> exists|i: int| 0 <= i < list.len() && list[i].0 == id
}

impl DataBase {
    /// The name of a user, if the user exists.
    pub fn user_name(&self, id: Id) -> (name: Option<String>)
        ensures
            match name {
                Some(name) => self@.users.contains_key(id) && name@ == self@.users[id],
                None => !self@.users.contains_key(id),
            },
    {
        match self.users.get(&id) {
            Some(name) => Some(name.clone()),
            None => None,
        }
    }

    /// All users with their names, by ascending identifier.
    pub fn users(&self) -> (list: Vec<(Id, String)>)
        requires
            self.wf(),
        ensures
            lists_users(list@, self@.users),
    {
        let mut list: Vec<(Id, String)> = Vec::new();
        let mut id: Id = 0;
        while id < self.users_max_id
            invariant
                id <= self.users_max_id,
                forall|i: int, j: int| 0 <= i < j < list@.len() ==> list@[i].0 < list@[j].0,
                forall|i: int|
                    0 <= i < list@.len() ==> (#[trigger] list@[i].0) < id && self@.users.contains_key(
                        list@[i].0,
                    ) && self@.users[list@[i].0] == list@[i].1@,
                forall|k: Id| #[trigger]
                    self@.users.contains_key(k) && k < id ==> exists|i: int|
                        0 <= i < list@.len() && list@[i].0 == k,
            decreases self.users_max_id - id,
        {
            let ghost before = list@;
            match self.users.get(&id) {
                Some(name) => {
                    list.push((id, name.clone()));
                    proof {
                        assert(list@[before.len() as int].0 == id);
                        assert forall|k: Id| #[trigger]
                            self@.users.contains_key(k) && k < id + 1 implies exists|i: int|
                            0 <= i < list@.len() && list@[i].0 == k by {
                            if k < id {
                                let i = choose|i: int| 0 <= i < before.len() && before[i].0 == k;
                                assert(list@[i].0 == k);
                            }
                        }
                    }
                },
                None => {},
            }
            id += 1;
        }
        list
    }

    /// Whether a group is closed, if the group exists.
    pub fn group_closed(&self, id: Id) -> (closed: Option<bool>)
        ensures
            match closed {
                Some(closed) => self@.groups.contains_key(id) && closed == self@.groups[id],
                None => !self@.groups.contains_key(id),
            },
    {
        match self.groups.get(&id) {
            Some(closed) => Some(*closed),
            None => None,
        }
    }

    /// All groups with their closed flag, by ascending identifier.
    pub fn groups(&self) -> (list: Vec<(Id, bool)>)
        requires
            self.wf(),
        ensures
            lists_groups(list@, self@.groups),
    {
        let mut list: Vec<(Id, bool)> = Vec::new();
        let mut id: Id = 0;
        while id < self.groups_max_id
            invariant
                id <= self.groups_max_id,
                forall|i: int, j: int| 0 <= i < j < list@.len() ==> list@[i].0 < list@[j].0,
                forall|i: int|
                    0 <= i < list@.len() ==> (#[trigger] list@[i].0) < id
                        && self@.groups.contains_key(list@[i].0) && self@.groups[list@[i].0]
                        == list@[i].1,
                forall|k: Id| #[trigger]
                    self@.groups.contains_key(k) && k < id ==> exists|i: int|
                        0 <= i < list@.len() && list@[i].0 == k,
            decreases self.groups_max_id - id,
        {
            let ghost before = list@;
            match self.groups.get(&id) {
                Some(closed) => {
                    list.push((id, *closed));
                    proof {
                        assert(list@[before.len() as int].0 == id);
                        assert forall|k: Id| #[trigger]
                            self@.groups.contains_key(k) && k < id + 1 implies exists|i: int|
                            0 <= i < list@.len() && list@[i].0 == k by {
                            if k < id {
                                let i = choose|i: int| 0 <= i < before.len() && before[i].0 == k;
                                assert(list@[i].0 == k);
                            }
                        }
                    }
                },
                None => {},
            }
            id += 1;
        }
        list
    }

    /// What the membership of a user in a group holds, if there is one.
    pub fn membership(&self, user_id: Id, group_id: Id) -> (props: Option<UserGroupProps>)
        ensures
            match props {
                Some(props) => is_member(self@.memberships, user_id, group_id) && props
                    == self@.memberships[position(self@.memberships, user_id, group_id)].props,
                None => !is_member(self@.memberships, user_id, group_id),
            },
    {
        match find_membership(user_id, group_id, &self.user_groups) {
            Some(i) => Some(self.user_groups[i].props),
            None => None,
        }
    }

    /// All memberships, in the order in which they were made.
    pub fn memberships(&self) -> (list: &Vec<Membership>)
        ensures
            list@ == self@.memberships,
    {
        &self.user_groups
    }
}

/// The memberships of all groups but `group_id`, in their order.
pub fn memberships_outside_group(group_id: Id, user_groups: &Vec<Membership>) -> (kept: Vec<
    Membership,
>)
    ensures
        kept@ == user_groups@.filter(Store::outside_group(group_id)),
{
    let mut kept: Vec<Membership> = Vec::new();
    let mut i: usize = 0;
    while i < user_groups.len()
        invariant
            i <= user_groups.len(),
            kept@ == user_groups@.take(i as int).filter(Store::outside_group(group_id)),
        decreases user_groups.len() - i,
    {
        proof {
            let prefix = user_groups@.take(i as int);
            assert(user_groups@.take(i + 1) =~= prefix.push(user_groups@[i as int]));
            prefix.lemma_filter_push(user_groups@[i as int], Store::outside_group(group_id));
        }
        if user_groups[i].id.group_id != group_id {
            kept.push(user_groups[i]);
        }
        i += 1;
    }
    proof {
        assert(user_groups@.take(i as int) =~= user_groups@);
    }
    kept
}

} // verus!
