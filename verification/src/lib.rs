//! An in-memory store of users, groups and group memberships for a secret-santa
//! service, with the rules that keep it consistent and the pairing that hands
//! every member of a closed group the member it gives a present to.

pub mod database;
pub mod guard;
pub mod laws;
pub mod listing;
pub mod model;
pub mod pairing;
pub mod preservation;
pub mod state;

pub use crate::database::{DataBase, UserDeletion};
pub use crate::guard::{count_admins, does_user_belong_to_group, is_admin};
pub use crate::model::{Access, Error, Id, Membership, UserGroupId, UserGroupProps};
pub use crate::pairing::get_secret_santas;
