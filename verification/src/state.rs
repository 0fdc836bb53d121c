//! The store as a mathematical value, and what every operation makes of it.
//!
//! Each operation has two spec functions here: one that gives the error with
//! which it is refused, if it is, and one that gives the store after it where
//! it is not. A refused operation leaves the store as it was.

use vstd::prelude::*;
use crate::guard::{
    admin_count,
    distinct_keys,
    group_ids,
    is_admin_member,
    is_member,
    key,
    members_of,
    position,
    role_of,
};
use crate::model::{Access, Error, Id, Membership, UserGroupProps};
use crate::pairing::recipient_of;

verus! {

/// The store: users with their names, groups with their closed flag, the
/// memberships in the order in which they were made, and how many identifiers
/// of each class were issued so far.
pub struct Store {
    pub users: Map<Id, Seq<char>>,
    pub users_issued: nat,
    pub groups: Map<Id, bool>,
    pub groups_issued: nat,
    pub memberships: Seq<Membership>,
}

/// The membership `m` with another role and the same recipient.
pub open spec fn with_role(m: Membership, access_level: Access) -> Membership {
    Membership { id: m.id, props: UserGroupProps { access_level, recipient: m.props.recipient } }
}

/// The membership `m` with another recipient and the same role.
pub open spec fn with_recipient(m: Membership, recipient: Id) -> Membership {
    Membership {
        id: m.id,
        props: UserGroupProps { access_level: m.props.access_level, recipient: Some(recipient) },
    }
}

/// What a user's deletion came to.
pub struct Deletion {
    /// The user record is gone.
    pub deleted: bool,
    /// The user has a membership in a closed group, which keeps the record.
    pub in_closed_group: bool,
    /// The open groups that the user stays in as their last admin.
    pub last_admin_of: Seq<Id>,
}

impl Store {
    /// The store that holds nothing and has issued no identifier.
    pub open spec fn empty() -> Store {
        Store {
            users: Map::empty(),
            users_issued: 0,
            groups: Map::empty(),
            groups_issued: 0,
            memberships: Seq::empty(),
        }
    }

    /// Every membership names an existing user and an existing group.
    pub open spec fn references_exist(self) -> bool {
        forall|i: int|
            0 <= i < self.memberships.len() ==> self.users.contains_key(
                (#[trigger] self.memberships[i]).id.user_id,
            ) && self.groups.contains_key(self.memberships[i].id.group_id)
    }

    /// Every open group has an admin.
    pub open spec fn open_groups_administered(self) -> bool {
        forall|g: Id| #[trigger]
            self.groups.contains_key(g) && !self.groups[g] ==> admin_count(self.memberships, g)
                >= 1
    }

    /// Every identifier in use was issued: it lies below the count of those
    /// issued, so the next one issued is new.
    pub open spec fn identifiers_issued(self) -> bool {
        &&& forall|u: Id| #[trigger] self.users.contains_key(u) ==> u < self.users_issued
        &&& forall|g: Id| #[trigger] self.groups.contains_key(g) ==> g < self.groups_issued
        &&& self.users_issued <= u32::MAX
        &&& self.groups_issued <= u32::MAX
    }

    /// The memberships fit the users and the groups: no key occurs twice, every
    /// membership names an existing user and an existing group, and every open
    /// group has an admin.
    pub open spec fn consistent(self) -> bool {
        &&& distinct_keys(self.memberships)
        &&& self.references_exist()
        &&& self.open_groups_administered()
    }

    /// What holds of the store after every operation.
    pub open spec fn inv(self) -> bool {
        &&& self.identifiers_issued()
        &&& self.consistent()
    }

    /// Every member of a closed group has as recipient the member that the
    /// pairing of the group's members gives.
    pub open spec fn closed_groups_paired(self) -> bool {
        forall|i: int|
            0 <= i < self.memberships.len() && self.is_closed(
                (#[trigger] self.memberships[i]).id.group_id,
            ) ==> self.memberships[i].props.recipient == Some(
                recipient_of(
                    members_of(self.memberships, self.memberships[i].id.group_id),
                    self.memberships[i].id.user_id,
                ),
            )
    }

    /// The group exists and is closed.
    pub open spec fn is_closed(self, group_id: Id) -> bool {
        self.groups.contains_key(group_id) && self.groups[group_id]
    }

    // ----- users -----

    /// A user cannot be created under an empty name.
    pub open spec fn user_create_error(self, name: Seq<char>) -> Option<Error> {
        if name.len() == 0 {
            Some(Error::InvalidInput)
        } else {
            None
        }
    }

    /// The new user gets the next identifier, which then counts as issued.
    pub open spec fn after_user_create(self, name: Seq<char>) -> Store {
        Store {
            users: self.users.insert(self.users_issued as Id, name),
            users_issued: self.users_issued + 1,
            ..self
        }
    }

    /// Only an existing user can be renamed.
    pub open spec fn user_update_error(self, user_id: Id) -> Option<Error> {
        if !self.users.contains_key(user_id) {
            Some(Error::NotFound)
        } else {
            None
        }
    }

    /// The user has the new name; nothing else changes.
    pub open spec fn after_user_update(self, user_id: Id, name: Seq<char>) -> Store {
        Store { users: self.users.insert(user_id, name), ..self }
    }

    // ----- groups -----

    /// Only an existing user can create a group.
    pub open spec fn group_create_error(self, creator_id: Id) -> Option<Error> {
        if !self.users.contains_key(creator_id) {
            Some(Error::NotFound)
        } else {
            None
        }
    }

    /// The new group gets the next identifier, is open, and has its creator as
    /// admin, listed behind all earlier memberships.
    pub open spec fn after_group_create(self, creator_id: Id) -> Store {
        let group_id = self.groups_issued as Id;
        Store {
            groups: self.groups.insert(group_id, false),
            groups_issued: self.groups_issued + 1,
            memberships: self.memberships.push(
                Membership {
                    id: key(creator_id, group_id),
                    props: UserGroupProps::fresh(Access::Admin),
                },
            ),
            ..self
        }
    }

    /// Joining needs an existing open group and an existing user who is not
    /// yet a member, asked in that order.
    pub open spec fn group_join_error(self, user_id: Id, group_id: Id) -> Option<Error> {
        if !self.groups.contains_key(group_id) {
            Some(Error::NotFound)
        } else if self.groups[group_id] {
            Some(Error::GroupClosed)
        } else if !self.users.contains_key(user_id) {
            Some(Error::NotFound)
        } else if is_member(self.memberships, user_id, group_id) {
            Some(Error::AlreadyMember)
        } else {
            None
        }
    }

    /// The user is a plain member, listed behind all earlier memberships.
    pub open spec fn after_group_join(self, user_id: Id, group_id: Id) -> Store {
        Store {
            memberships: self.memberships.push(
                Membership {
                    id: key(user_id, group_id),
                    props: UserGroupProps::fresh(Access::User),
                },
            ),
            ..self
        }
    }

    /// Quitting needs a membership in an open group, and for an admin a
    /// second admin in the group, asked in that order.
    pub open spec fn group_quit_error(self, user_id: Id, group_id: Id) -> Option<Error> {
        if !is_member(self.memberships, user_id, group_id) {
            Some(Error::NotMember)
        } else if self.is_closed(group_id) {
            Some(Error::GroupClosed)
        } else if role_of(self.memberships, user_id, group_id) == Access::Admin && admin_count(
            self.memberships,
            group_id,
        ) < 2 {
            Some(Error::LastAdmin)
        } else {
            None
        }
    }

    /// The membership is gone; the others keep their order.
    pub open spec fn after_group_quit(self, user_id: Id, group_id: Id) -> Store {
        Store {
            memberships: self.memberships.remove(position(self.memberships, user_id, group_id)),
            ..self
        }
    }

    /// Making an admin needs an existing group, a member who is not an admin
    /// yet, and an acting user who is an admin of the group, asked in that
    /// order. Where all of that is in order and the group is closed, the
    /// request is refused because the group is closed.
    pub open spec fn group_make_admin_error(self, admin_id: Id, member_id: Id, group_id: Id) -> Option<
        Error,
    > {
        if !self.groups.contains_key(group_id) {
            Some(Error::NotFound)
        } else if !is_member(self.memberships, member_id, group_id) {
            Some(Error::NotMember)
        } else if role_of(self.memberships, member_id, group_id) == Access::Admin {
            Some(Error::AlreadyAdmin)
        } else if !is_admin_member(self.memberships, admin_id, group_id) {
            Some(Error::Forbidden)
        } else if self.groups[group_id] {
            Some(Error::GroupClosed)
        } else {
            None
        }
    }

    /// The member is an admin and keeps place and recipient.
    pub open spec fn after_group_make_admin(self, member_id: Id, group_id: Id) -> Store {
        let i = position(self.memberships, member_id, group_id);
        Store {
            memberships: self.memberships.update(i, with_role(self.memberships[i], Access::Admin)),
            ..self
        }
    }

    /// Stepping down needs a membership with the admin role and a second admin
    /// in the group, asked in that order. Where all of that is in order and
    /// the group is closed, the request is refused because the group is
    /// closed.
    pub open spec fn group_unadmin_error(self, admin_id: Id, group_id: Id) -> Option<Error> {
        if !is_member(self.memberships, admin_id, group_id) {
            Some(Error::NotMember)
        } else if role_of(self.memberships, admin_id, group_id) != Access::Admin {
            Some(Error::NotAdmin)
        } else if admin_count(self.memberships, group_id) < 2 {
            Some(Error::LastAdmin)
        } else if self.is_closed(group_id) {
            Some(Error::GroupClosed)
        } else {
            None
        }
    }

    /// The admin is a plain member and keeps place and recipient.
    pub open spec fn after_group_unadmin(self, admin_id: Id, group_id: Id) -> Store {
        let i = position(self.memberships, admin_id, group_id);
        Store {
            memberships: self.memberships.update(i, with_role(self.memberships[i], Access::User)),
            ..self
        }
    }

    /// The error of the operations that only an admin of the group may ask for.
    pub open spec fn admin_error(self, admin_id: Id, group_id: Id) -> Option<Error> {
        if !is_member(self.memberships, admin_id, group_id) {
            Some(Error::NotMember)
        } else if role_of(self.memberships, admin_id, group_id) != Access::Admin {
            Some(Error::NotAdmin)
        } else {
            None
        }
    }

    /// Selects the memberships of all groups but one.
    pub open spec fn outside_group(group_id: Id) -> spec_fn(Membership) -> bool {
        |m: Membership| m.id.group_id != group_id
    }

    /// The group and all its memberships are gone.
    pub open spec fn after_group_delete(self, group_id: Id) -> Store {
        Store {
            groups: self.groups.remove(group_id),
            memberships: self.memberships.filter(Self::outside_group(group_id)),
            ..self
        }
    }

    // ----- pairing -----

    /// The membership `m` after the group `group_id` was paired: a member of
    /// the group gets the recipient that the pairing of the group's members
    /// gives; every other membership stays as it is.
    pub open spec fn paired(self, group_id: Id) -> spec_fn(Membership) -> Membership {
        |m: Membership|
            if m.id.group_id == group_id {
                with_recipient(
                    m,
                    recipient_of(members_of(self.memberships, group_id), m.id.user_id),
                )
            } else {
                m
            }
    }

    /// The group is closed and each of its members has a recipient.
    pub open spec fn after_group_secret_santa(self, group_id: Id) -> Store {
        Store {
            groups: self.groups.insert(group_id, true),
            memberships: self.memberships.map_values(self.paired(group_id)),
            ..self
        }
    }

    /// The recipient stored for a member, if one was assigned.
    pub open spec fn recipient(self, user_id: Id, group_id: Id) -> Option<Id>
        recommends
            is_member(self.memberships, user_id, group_id),
    {
        self.memberships[position(self.memberships, user_id, group_id)].props.recipient
    }

    // ----- deleting a user -----

    /// The membership `m` is that of the last admin of an open group.
    pub open spec fn is_last_admin(self, m: Membership) -> bool {
        &&& !self.is_closed(m.id.group_id)
        &&& m.props.access_level == Access::Admin
        &&& admin_count(self.memberships, m.id.group_id) < 2
    }

    /// Selects the memberships of `user_id` that keep the user in an open group
    /// as its last admin.
    pub open spec fn blocking(self, user_id: Id) -> spec_fn(Membership) -> bool {
        |m: Membership| m.id.user_id == user_id && self.is_last_admin(m)
    }

    /// Selects the memberships that stay when `user_id` is deleted: those of
    /// other users, those in closed groups, and those that are blocking.
    pub open spec fn staying(self, user_id: Id) -> spec_fn(Membership) -> bool {
        |m: Membership|
            m.id.user_id != user_id || self.is_closed(m.id.group_id) || self.is_last_admin(m)
    }

    /// `user_id` has a membership in a closed group.
    pub open spec fn in_closed_group(self, user_id: Id) -> bool {
        exists|i: int|
            0 <= i < self.memberships.len() && #[trigger] self.memberships[i].id.user_id
                == user_id && self.is_closed(self.memberships[i].id.group_id)
    }

    /// The groups that `user_id` cannot leave, in the order of the memberships.
    pub open spec fn last_admin_of(self, user_id: Id) -> Seq<Id> {
        group_ids(self.memberships.filter(self.blocking(user_id)))
    }

    /// Only an existing user can be deleted.
    pub open spec fn user_delete_error(self, user_id: Id) -> Option<Error> {
        if !self.users.contains_key(user_id) {
            Some(Error::NotFound)
        } else {
            None
        }
    }

    /// What the deletion of `user_id` comes to: the record goes only if the
    /// user is in no closed group and is nowhere the last admin.
    pub open spec fn user_deletion(self, user_id: Id) -> Deletion {
        let in_closed_group = self.in_closed_group(user_id);
        let last_admin_of = self.last_admin_of(user_id);
        Deletion {
            deleted: !in_closed_group && last_admin_of.len() == 0,
            in_closed_group,
            last_admin_of,
        }
    }

    /// The store after the deletion of `user_id` was asked for: the memberships
    /// that can go are gone whether or not the record goes with them.
    pub open spec fn after_user_delete(self, user_id: Id) -> Store {
        Store {
            users: if self.user_deletion(user_id).deleted {
                self.users.remove(user_id)
            } else {
                self.users
            },
            memberships: self.memberships.filter(self.staying(user_id)),
            ..self
        }
    }
}

} // verus!
