//! The plain data of the store: identifiers, roles, memberships and errors.

use vstd::prelude::*;

verus! {

/// Identifier of a user or of a group. The two classes are numbered apart.
pub type Id = u32;

/// The role that a membership carries.
#[derive(Clone, Copy, Debug, PartialEq, Eq, Structural)]
pub enum Access {
    User,
    Admin,
}

/// The key of a membership: one user in one group.
#[derive(Clone, Copy, Debug, PartialEq, Eq, Structural)]
pub struct UserGroupId {
    pub user_id: Id,
    pub group_id: Id,
}

/// What a membership holds: the role, and the user to give a present to once
/// the group has been paired.
#[derive(Clone, Copy, Debug, PartialEq, Eq)]
pub struct UserGroupProps {
    pub access_level: Access,
    pub recipient: Option<Id>,
}

impl UserGroupProps {
    /// A fresh membership value with the given role and no recipient yet.
    pub fn new(access_level: Access) -> (props: UserGroupProps)
        ensures
            props == Self::fresh(access_level),
    {
        UserGroupProps { access_level, recipient: None }
    }

    /// The value that `new` builds.
    pub open spec fn fresh(access_level: Access) -> UserGroupProps {
        UserGroupProps { access_level, recipient: None }
    }
}

/// One membership: its key and what it holds.
#[derive(Clone, Copy, Debug, PartialEq, Eq)]
pub struct Membership {
    pub id: UserGroupId,
    pub props: UserGroupProps,
}

/// Why an operation was refused.
#[derive(Clone, Copy, Debug, PartialEq, Eq, Structural)]
pub enum Error {
    /// A user or group that the request names does not exist.
    NotFound,
    /// The user has no membership in the group.
    NotMember,
    /// The user already has a membership in the group.
    AlreadyMember,
    /// The membership does not carry the admin role.
    NotAdmin,
    /// The membership already carries the admin role.
    AlreadyAdmin,
    /// The operation would leave an open group without any admin.
    LastAdmin,
    /// The group is closed and its memberships are frozen.
    GroupClosed,
    /// The acting user is not an admin of the group.
    Forbidden,
    /// An argument is not acceptable, such as an empty name.
    InvalidInput,
}

} // verus!
