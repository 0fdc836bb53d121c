use secret_santa::{Access, DataBase, Error, Membership, UserDeletion, UserGroupId, UserGroupProps};

fn with_users(names: &[&str]) -> DataBase {
    let mut db = DataBase::new();
    for name in names {
        db.user_create(name.to_string()).unwrap();
    }
    db
}

fn member(user_id: u32, group_id: u32, access_level: Access, recipient: Option<u32>) -> Membership {
    Membership { id: UserGroupId { user_id, group_id }, props: UserGroupProps { access_level, recipient } }
}

#[test]
fn a_new_store_is_empty() {
    let db = DataBase::new();
    assert!(db.users().is_empty());
    assert!(db.groups().is_empty());
    assert!(db.memberships().is_empty());
    assert_eq!(db.users_max_id(), 0);
    assert_eq!(db.groups_max_id(), 0);
}

#[test]
fn users_are_numbered_from_zero() {
    let mut db = DataBase::new();
    assert_eq!(db.user_create("Ann".to_string()), Ok(0));
    assert_eq!(db.user_create("Bob".to_string()), Ok(1));
    assert_eq!(db.user_create("Cid".to_string()), Ok(2));
    assert_eq!(db.users_max_id(), 3);
    assert_eq!(
        db.users(),
        vec![(0, "Ann".to_string()), (1, "Bob".to_string()), (2, "Cid".to_string())]
    );
    assert_eq!(db.user_name(1), Some("Bob".to_string()));
    assert_eq!(db.user_name(3), None);
}

#[test]
fn an_empty_name_is_invalid_input() {
    let mut db = DataBase::new();
    assert_eq!(db.user_create(String::new()), Err(Error::InvalidInput));
    assert!(db.users().is_empty());
    assert_eq!(db.users_max_id(), 0);
    assert_eq!(db.user_create("Ann".to_string()), Ok(0));
}

#[test]
fn a_user_can_be_renamed() {
    let mut db = with_users(&["Ann", "Bob"]);
    assert_eq!(db.user_update(1, "Robert".to_string()), Ok(()));
    assert_eq!(db.users(), vec![(0, "Ann".to_string()), (1, "Robert".to_string())]);
    assert_eq!(db.users_max_id(), 2);
}

#[test]
fn renaming_an_unknown_user_is_not_found() {
    let mut db = with_users(&["Ann"]);
    assert_eq!(db.user_update(5, "Eve".to_string()), Err(Error::NotFound));
    assert_eq!(db.users(), vec![(0, "Ann".to_string())]);
}

#[test]
fn a_group_starts_open_with_its_creator_as_admin() {
    let mut db = with_users(&["Ann", "Bob"]);
    assert_eq!(db.group_create(1), Ok(0));
    assert_eq!(db.group_create(0), Ok(1));
    assert_eq!(db.groups(), vec![(0, false), (1, false)]);
    assert_eq!(db.groups_max_id(), 2);
    assert_eq!(
        db.memberships(),
        &vec![member(1, 0, Access::Admin, None), member(0, 1, Access::Admin, None)]
    );
    assert_eq!(db.group_closed(0), Some(false));
    assert_eq!(db.group_closed(2), None);
    assert!(!db.group_is_closed(0));
    assert!(!db.group_is_closed(2));
}

#[test]
fn a_group_of_an_unknown_creator_is_not_found() {
    let mut db = with_users(&["Ann"]);
    assert_eq!(db.group_create(3), Err(Error::NotFound));
    assert!(db.groups().is_empty());
    assert!(db.memberships().is_empty());
    assert_eq!(db.groups_max_id(), 0);
}

#[test]
fn joining_makes_a_plain_member() {
    let mut db = with_users(&["Ann", "Bob"]);
    db.group_create(0).unwrap();
    assert_eq!(db.group_join(1, 0), Ok(()));
    assert_eq!(db.membership(1, 0), Some(UserGroupProps { access_level: Access::User, recipient: None }));
    assert_eq!(
        db.memberships(),
        &vec![member(0, 0, Access::Admin, None), member(1, 0, Access::User, None)]
    );
}

#[test]
fn joining_is_refused_in_the_order_of_the_rules() {
    let mut db = with_users(&["Ann", "Bob"]);
    db.group_create(0).unwrap();
    assert_eq!(db.group_join(1, 9), Err(Error::NotFound));
    assert_eq!(db.group_join(9, 0), Err(Error::NotFound));
    assert_eq!(db.group_join(0, 0), Err(Error::AlreadyMember));
    assert_eq!(db.group_join(1, 0), Ok(()));
    assert_eq!(db.group_join(1, 0), Err(Error::AlreadyMember));
    assert_eq!(db.memberships().len(), 2);
}

#[test]
fn joining_a_closed_group_is_refused_whoever_asks() {
    let mut db = with_users(&["Ann", "Bob"]);
    db.group_create(0).unwrap();
    db.group_secret_santa(0, 0).unwrap();
    let before = db.memberships().clone();
    assert_eq!(db.group_join(1, 0), Err(Error::GroupClosed));
    assert_eq!(db.group_join(0, 0), Err(Error::GroupClosed));
    assert_eq!(db.group_join(9, 0), Err(Error::GroupClosed));
    assert_eq!(db.memberships(), &before);
}

#[test]
fn quitting_removes_the_membership() {
    let mut db = with_users(&["Ann", "Bob", "Cid"]);
    db.group_create(0).unwrap();
    db.group_join(1, 0).unwrap();
    db.group_join(2, 0).unwrap();
    assert_eq!(db.group_quit(1, 0), Ok(()));
    assert_eq!(
        db.memberships(),
        &vec![member(0, 0, Access::Admin, None), member(2, 0, Access::User, None)]
    );
    assert_eq!(db.membership(1, 0), None);
}

#[test]
fn quitting_without_membership_is_not_member() {
    let mut db = with_users(&["Ann", "Bob"]);
    db.group_create(0).unwrap();
    assert_eq!(db.group_quit(1, 0), Err(Error::NotMember));
    assert_eq!(db.group_quit(0, 7), Err(Error::NotMember));
    assert_eq!(db.memberships().len(), 1);
}

#[test]
fn the_sole_admin_cannot_quit() {
    let mut db = with_users(&["Ann", "Bob"]);
    db.group_create(0).unwrap();
    db.group_join(1, 0).unwrap();
    assert_eq!(db.group_quit(0, 0), Err(Error::LastAdmin));
    assert_eq!(db.memberships().len(), 2);
    assert_eq!(db.membership(0, 0).unwrap().access_level, Access::Admin);
}

#[test]
fn the_sole_admin_cannot_quit_even_alone_in_the_group() {
    let mut db = with_users(&["Ann"]);
    db.group_create(0).unwrap();
    assert_eq!(db.group_quit(0, 0), Err(Error::LastAdmin));
    assert_eq!(db.memberships().len(), 1);
}

#[test]
fn one_of_two_admins_may_quit() {
    let mut db = with_users(&["Ann", "Bob"]);
    db.group_create(0).unwrap();
    db.group_join(1, 0).unwrap();
    db.group_make_admin(0, 1, 0).unwrap();
    assert_eq!(db.group_quit(0, 0), Ok(()));
    assert_eq!(db.memberships(), &vec![member(1, 0, Access::Admin, None)]);
    assert_eq!(db.group_quit(1, 0), Err(Error::LastAdmin));
}

#[test]
fn quitting_a_closed_group_is_refused_before_the_admin_rule() {
    let mut db = with_users(&["Ann", "Bob"]);
    db.group_create(0).unwrap();
    db.group_join(1, 0).unwrap();
    db.group_secret_santa(0, 0).unwrap();
    assert_eq!(db.group_quit(1, 0), Err(Error::GroupClosed));
    assert_eq!(db.group_quit(0, 0), Err(Error::GroupClosed));
    assert_eq!(db.memberships().len(), 2);
}

#[test]
fn an_admin_makes_a_member_admin() {
    let mut db = with_users(&["Ann", "Bob"]);
    db.group_create(0).unwrap();
    db.group_join(1, 0).unwrap();
    assert_eq!(db.group_make_admin(0, 1, 0), Ok(()));
    assert_eq!(
        db.memberships(),
        &vec![member(0, 0, Access::Admin, None), member(1, 0, Access::Admin, None)]
    );
}

#[test]
fn making_admin_is_refused_in_the_order_of_the_rules() {
    let mut db = with_users(&["Ann", "Bob", "Cid", "Dee"]);
    db.group_create(0).unwrap();
    db.group_join(1, 0).unwrap();
    db.group_join(2, 0).unwrap();
    assert_eq!(db.group_make_admin(0, 1, 5), Err(Error::NotFound));
    assert_eq!(db.group_make_admin(0, 3, 0), Err(Error::NotMember));
    assert_eq!(db.group_make_admin(0, 0, 0), Err(Error::AlreadyAdmin));
    assert_eq!(db.group_make_admin(1, 0, 0), Err(Error::AlreadyAdmin));
    assert_eq!(db.group_make_admin(1, 2, 0), Err(Error::Forbidden));
    assert_eq!(db.group_make_admin(3, 2, 0), Err(Error::Forbidden));
    assert_eq!(db.group_make_admin(2, 2, 0), Err(Error::Forbidden));
    assert_eq!(db.membership(2, 0).unwrap().access_level, Access::User);
    assert_eq!(db.membership(1, 0).unwrap().access_level, Access::User);
    db.group_secret_santa(0, 0).unwrap();
    assert_eq!(db.group_make_admin(0, 1, 5), Err(Error::NotFound));
    assert_eq!(db.group_make_admin(0, 3, 0), Err(Error::NotMember));
    assert_eq!(db.group_make_admin(0, 0, 0), Err(Error::AlreadyAdmin));
    assert_eq!(db.group_make_admin(1, 0, 0), Err(Error::AlreadyAdmin));
    assert_eq!(db.group_make_admin(1, 2, 0), Err(Error::Forbidden));
    assert_eq!(db.group_make_admin(3, 2, 0), Err(Error::Forbidden));
    assert_eq!(db.group_make_admin(0, 2, 0), Err(Error::GroupClosed));
    assert_eq!(db.membership(2, 0).unwrap().access_level, Access::User);
}

#[test]
fn making_admin_in_a_closed_group_is_refused() {
    let mut db = with_users(&["Ann", "Bob"]);
    db.group_create(0).unwrap();
    db.group_join(1, 0).unwrap();
    db.group_secret_santa(0, 0).unwrap();
    let before = db.memberships().clone();
    assert_eq!(db.group_make_admin(0, 1, 0), Err(Error::GroupClosed));
    assert_eq!(db.group_make_admin(1, 0, 0), Err(Error::AlreadyAdmin));
    assert_eq!(db.group_make_admin(0, 9, 0), Err(Error::NotMember));
    assert_eq!(db.group_make_admin(9, 9, 0), Err(Error::NotMember));
    assert_eq!(db.group_make_admin(9, 1, 0), Err(Error::Forbidden));
    assert_eq!(db.group_make_admin(1, 1, 0), Err(Error::Forbidden));
    assert_eq!(db.memberships(), &before);
    assert_eq!(db.membership(1, 0), Some(UserGroupProps { access_level: Access::User, recipient: Some(0) }));
    assert_eq!(db.group_closed(0), Some(true));
}

#[test]
fn stepping_down_in_a_closed_group_is_refused() {
    let mut db = with_users(&["Ann", "Bob", "Cid"]);
    db.group_create(0).unwrap();
    db.group_join(1, 0).unwrap();
    db.group_make_admin(0, 1, 0).unwrap();
    db.group_secret_santa(1, 0).unwrap();
    let before = db.memberships().clone();
    assert_eq!(db.group_unadmin(0, 0), Err(Error::GroupClosed));
    assert_eq!(db.group_unadmin(1, 0), Err(Error::GroupClosed));
    assert_eq!(db.group_unadmin(2, 0), Err(Error::NotMember));
    assert_eq!(db.memberships(), &before);
    assert_eq!(
        db.memberships(),
        &vec![member(0, 0, Access::Admin, Some(1)), member(1, 0, Access::Admin, Some(0))]
    );
    assert_eq!(db.group_closed(0), Some(true));
}

#[test]
fn a_closed_group_refuses_for_the_reason_an_open_group_would() {
    let mut db = with_users(&["Ann", "Bob"]);
    db.group_create(0).unwrap();
    db.group_join(1, 0).unwrap();
    db.group_secret_santa(0, 0).unwrap();
    let before = db.memberships().clone();
    assert_eq!(db.group_unadmin(1, 0), Err(Error::NotAdmin));
    assert_eq!(db.group_unadmin(0, 0), Err(Error::LastAdmin));
    assert_eq!(db.memberships(), &before);
    assert_eq!(db.membership(0, 0).unwrap().access_level, Access::Admin);
    assert_eq!(db.membership(1, 0).unwrap().access_level, Access::User);
}

#[test]
fn a_closed_group_keeps_members_roles_and_recipients() {
    let mut db = with_users(&["Ann", "Bob", "Cid", "Dee"]);
    db.group_create(0).unwrap();
    db.group_join(1, 0).unwrap();
    db.group_join(2, 0).unwrap();
    db.group_make_admin(0, 2, 0).unwrap();
    db.group_create(3).unwrap();
    db.group_join(1, 1).unwrap();
    db.group_secret_santa(2, 0).unwrap();
    let frozen: Vec<Membership> =
        db.memberships().iter().filter(|m| m.id.group_id == 0).cloned().collect();
    assert_eq!(
        frozen,
        vec![
            member(0, 0, Access::Admin, Some(2)),
            member(1, 0, Access::User, Some(0)),
            member(2, 0, Access::Admin, Some(1)),
        ]
    );
    assert_eq!(db.group_join(3, 0), Err(Error::GroupClosed));
    assert_eq!(db.group_quit(1, 0), Err(Error::GroupClosed));
    assert_eq!(db.group_make_admin(0, 1, 0), Err(Error::GroupClosed));
    assert_eq!(db.group_unadmin(2, 0), Err(Error::GroupClosed));
    assert_eq!(db.user_delete(1).unwrap().deleted, false);
    assert_eq!(db.group_quit(3, 1), Err(Error::LastAdmin));
    assert_eq!(db.user_update(0, "Anna".to_string()), Ok(()));
    assert_eq!(db.group_secret_santa(0, 0), Ok(()));
    assert_eq!(db.group_delete(3, 1), Ok(()));
    let after: Vec<Membership> =
        db.memberships().iter().filter(|m| m.id.group_id == 0).cloned().collect();
    assert_eq!(after, frozen);
    assert_eq!(db.group_closed(0), Some(true));
}

#[test]
fn one_of_two_admins_may_step_down() {
    let mut db = with_users(&["Ann", "Bob"]);
    db.group_create(0).unwrap();
    db.group_join(1, 0).unwrap();
    db.group_make_admin(0, 1, 0).unwrap();
    assert_eq!(db.group_unadmin(0, 0), Ok(()));
    assert_eq!(
        db.memberships(),
        &vec![member(0, 0, Access::User, None), member(1, 0, Access::Admin, None)]
    );
}

#[test]
fn stepping_down_is_refused_in_the_order_of_the_rules() {
    let mut db = with_users(&["Ann", "Bob", "Cid"]);
    db.group_create(0).unwrap();
    db.group_join(1, 0).unwrap();
    assert_eq!(db.group_unadmin(2, 0), Err(Error::NotMember));
    assert_eq!(db.group_unadmin(0, 4), Err(Error::NotMember));
    assert_eq!(db.group_unadmin(1, 0), Err(Error::NotAdmin));
    assert_eq!(db.group_unadmin(0, 0), Err(Error::LastAdmin));
    db.group_secret_santa(0, 0).unwrap();
    assert_eq!(db.group_unadmin(2, 0), Err(Error::NotMember));
    assert_eq!(db.group_unadmin(1, 0), Err(Error::NotAdmin));
    assert_eq!(db.group_unadmin(0, 0), Err(Error::LastAdmin));
}

#[test]
fn the_sole_admin_beside_one_user_cannot_step_down() {
    let mut db = with_users(&["Ann", "Bob"]);
    let g = db.group_create(0).unwrap();
    db.group_join(1, g).unwrap();
    let before = db.memberships().clone();
    assert_eq!(db.group_unadmin(0, g), Err(Error::LastAdmin));
    assert_eq!(db.memberships(), &before);
    assert_eq!(db.membership(0, g).unwrap().access_level, Access::Admin);
    assert_eq!(db.membership(1, g).unwrap().access_level, Access::User);
    assert_eq!(db.groups(), vec![(0, false)]);
}

#[test]
fn a_created_group_can_be_deleted_at_once() {
    let mut db = with_users(&["Ann", "Bob"]);
    let other = db.group_create(1).unwrap();
    let before = db.memberships().clone();
    let g = db.group_create(0).unwrap();
    assert_eq!(db.group_delete(0, g), Ok(()));
    assert!(db.memberships().iter().all(|m| m.id.group_id != g));
    assert_eq!(db.memberships(), &before);
    assert_eq!(db.groups(), vec![(other, false)]);
    assert_eq!(db.group_closed(g), None);
}

#[test]
fn deleting_a_group_takes_all_its_memberships_and_no_others() {
    let mut db = with_users(&["Ann", "Bob", "Cid"]);
    db.group_create(0).unwrap();
    db.group_create(1).unwrap();
    db.group_join(1, 0).unwrap();
    db.group_join(2, 1).unwrap();
    db.group_join(2, 0).unwrap();
    assert_eq!(db.group_delete(0, 0), Ok(()));
    assert_eq!(
        db.memberships(),
        &vec![member(1, 1, Access::Admin, None), member(2, 1, Access::User, None)]
    );
    assert_eq!(db.groups(), vec![(1, false)]);
}

#[test]
fn deleting_a_group_is_for_its_admins() {
    let mut db = with_users(&["Ann", "Bob", "Cid"]);
    db.group_create(0).unwrap();
    db.group_join(1, 0).unwrap();
    assert_eq!(db.group_delete(2, 0), Err(Error::NotMember));
    assert_eq!(db.group_delete(0, 3), Err(Error::NotMember));
    assert_eq!(db.group_delete(1, 0), Err(Error::NotAdmin));
    assert_eq!(db.groups(), vec![(0, false)]);
    assert_eq!(db.memberships().len(), 2);
}

#[test]
fn a_closed_group_can_be_deleted() {
    let mut db = with_users(&["Ann", "Bob"]);
    db.group_create(0).unwrap();
    db.group_join(1, 0).unwrap();
    db.group_secret_santa(0, 0).unwrap();
    assert_eq!(db.group_delete(0, 0), Ok(()));
    assert!(db.memberships().is_empty());
    assert!(db.groups().is_empty());
}

#[test]
fn identifiers_are_not_issued_twice() {
    let mut db = with_users(&["Ann", "Bob"]);
    assert_eq!(db.user_delete(1).unwrap().deleted, true);
    assert_eq!(db.user_create("Cid".to_string()), Ok(2));
    assert_eq!(db.users(), vec![(0, "Ann".to_string()), (2, "Cid".to_string())]);
    assert_eq!(db.group_create(0), Ok(0));
    assert_eq!(db.group_delete(0, 0), Ok(()));
    assert_eq!(db.group_create(0), Ok(1));
    assert_eq!(db.groups(), vec![(1, false)]);
    assert_eq!(db.users_max_id(), 3);
    assert_eq!(db.groups_max_id(), 2);
}

#[test]
fn three_members_are_paired_in_one_cycle() {
    let mut db = DataBase::new();
    let a = db.user_create("A".to_string()).unwrap();
    let b = db.user_create("B".to_string()).unwrap();
    let c = db.user_create("C".to_string()).unwrap();
    assert_eq!((a, b, c), (0, 1, 2));
    let g = db.group_create(a).unwrap();
    assert_eq!(g, 0);
    assert_eq!(db.membership(a, g).unwrap().access_level, Access::Admin);
    db.group_join(b, g).unwrap();
    db.group_join(c, g).unwrap();
    assert_eq!(db.group_target_by_id(a, g), Ok(None));
    assert_eq!(db.group_secret_santa(a, g), Ok(()));
    assert_eq!(db.group_closed(g), Some(true));
    assert!(db.group_is_closed(g));
    assert_eq!(db.group_target_by_id(a, g), Ok(Some(c)));
    assert_eq!(db.group_target_by_id(b, g), Ok(Some(a)));
    assert_eq!(db.group_target_by_id(c, g), Ok(Some(b)));
    let mut at = a;
    let mut seen: Vec<u32> = Vec::new();
    for _ in 0..3 {
        let next = db.group_target_by_id(at, g).unwrap().unwrap();
        assert_ne!(next, at);
        seen.push(next);
        at = next;
    }
    assert_eq!(at, a);
    seen.sort();
    assert_eq!(seen, vec![a, b, c]);
}

#[test]
fn pairing_touches_only_its_group() {
    let mut db = with_users(&["Ann", "Bob", "Cid"]);
    db.group_create(0).unwrap();
    db.group_create(1).unwrap();
    db.group_join(1, 0).unwrap();
    db.group_join(0, 1).unwrap();
    db.group_join(2, 1).unwrap();
    assert_eq!(db.group_secret_santa(1, 1), Ok(()));
    assert_eq!(
        db.memberships(),
        &vec![
            member(0, 0, Access::Admin, None),
            member(1, 1, Access::Admin, Some(2)),
            member(1, 0, Access::User, None),
            member(0, 1, Access::User, Some(1)),
            member(2, 1, Access::User, Some(0)),
        ]
    );
    assert_eq!(db.groups(), vec![(0, false), (1, true)]);
}

#[test]
fn a_group_of_one_pairs_the_member_with_themselves() {
    let mut db = with_users(&["Ann"]);
    db.group_create(0).unwrap();
    assert_eq!(db.group_secret_santa(0, 0), Ok(()));
    assert_eq!(db.group_target_by_id(0, 0), Ok(Some(0)));
    assert_eq!(db.group_closed(0), Some(true));
}

#[test]
fn pairing_is_for_admins_of_the_group() {
    let mut db = with_users(&["Ann", "Bob", "Cid"]);
    db.group_create(0).unwrap();
    db.group_join(1, 0).unwrap();
    assert_eq!(db.group_secret_santa(2, 0), Err(Error::NotMember));
    assert_eq!(db.group_secret_santa(0, 8), Err(Error::NotMember));
    assert_eq!(db.group_secret_santa(1, 0), Err(Error::NotAdmin));
    assert_eq!(db.group_closed(0), Some(false));
    assert_eq!(db.group_target_by_id(0, 0), Ok(None));
    assert_eq!(db.group_target_by_id(1, 0), Ok(None));
}

#[test]
fn pairing_again_gives_the_same_recipients() {
    let mut db = with_users(&["Ann", "Bob", "Cid"]);
    db.group_create(0).unwrap();
    db.group_join(1, 0).unwrap();
    db.group_join(2, 0).unwrap();
    db.group_secret_santa(0, 0).unwrap();
    let before = db.memberships().clone();
    assert_eq!(db.group_secret_santa(0, 0), Ok(()));
    assert_eq!(db.memberships(), &before);
    assert_eq!(db.group_closed(0), Some(true));
}

#[test]
fn the_recipient_of_a_stranger_is_not_member() {
    let mut db = with_users(&["Ann", "Bob"]);
    db.group_create(0).unwrap();
    assert_eq!(db.group_target_by_id(1, 0), Err(Error::NotMember));
    assert_eq!(db.group_target_by_id(0, 1), Err(Error::NotMember));
}

#[test]
fn a_user_without_memberships_is_deleted() {
    let mut db = with_users(&["Ann", "Bob"]);
    assert_eq!(
        db.user_delete(0),
        Ok(UserDeletion { deleted: true, in_closed_group: false, last_admin_of: vec![] })
    );
    assert_eq!(db.users(), vec![(1, "Bob".to_string())]);
}

#[test]
fn deleting_an_unknown_user_is_not_found() {
    let mut db = with_users(&["Ann"]);
    assert_eq!(db.user_delete(4), Err(Error::NotFound));
    assert_eq!(db.users(), vec![(0, "Ann".to_string())]);
}

#[test]
fn a_deleted_user_leaves_all_open_groups() {
    let mut db = with_users(&["Ann", "Bob"]);
    db.group_create(0).unwrap();
    db.group_create(0).unwrap();
    db.group_join(1, 0).unwrap();
    db.group_join(1, 1).unwrap();
    db.group_make_admin(0, 1, 1).unwrap();
    assert_eq!(
        db.user_delete(1),
        Ok(UserDeletion { deleted: true, in_closed_group: false, last_admin_of: vec![] })
    );
    assert_eq!(
        db.memberships(),
        &vec![member(0, 0, Access::Admin, None), member(0, 1, Access::Admin, None)]
    );
    assert_eq!(db.users(), vec![(0, "Ann".to_string())]);
}

#[test]
fn the_sole_admin_stays_but_leaves_the_other_group() {
    let mut db = with_users(&["Ann", "Bob"]);
    let first = db.group_create(0).unwrap();
    db.group_join(1, first).unwrap();
    let second = db.group_create(1).unwrap();
    db.group_join(0, second).unwrap();
    assert_eq!(
        db.user_delete(0),
        Ok(UserDeletion { deleted: false, in_closed_group: false, last_admin_of: vec![first] })
    );
    assert_eq!(db.membership(0, first).unwrap().access_level, Access::Admin);
    assert_eq!(db.membership(0, second), None);
    assert_eq!(
        db.memberships(),
        &vec![
            member(0, first, Access::Admin, None),
            member(1, first, Access::User, None),
            member(1, second, Access::Admin, None),
        ]
    );
    assert_eq!(db.user_name(0), Some("Ann".to_string()));
}

#[test]
fn every_blocking_group_is_reported_in_order() {
    let mut db = with_users(&["Ann", "Bob"]);
    db.group_create(0).unwrap();
    db.group_create(1).unwrap();
    db.group_create(0).unwrap();
    db.group_join(0, 1).unwrap();
    assert_eq!(
        db.user_delete(0),
        Ok(UserDeletion { deleted: false, in_closed_group: false, last_admin_of: vec![0, 2] })
    );
    assert_eq!(
        db.memberships(),
        &vec![
            member(0, 0, Access::Admin, None),
            member(1, 1, Access::Admin, None),
            member(0, 2, Access::Admin, None),
        ]
    );
}

#[test]
fn a_member_of_a_closed_group_is_kept_but_leaves_open_groups() {
    let mut db = with_users(&["Ann", "Bob"]);
    db.group_create(0).unwrap();
    db.group_join(1, 0).unwrap();
    db.group_secret_santa(0, 0).unwrap();
    db.group_create(0).unwrap();
    db.group_join(1, 1).unwrap();
    assert_eq!(
        db.user_delete(1),
        Ok(UserDeletion { deleted: false, in_closed_group: true, last_admin_of: vec![] })
    );
    assert_eq!(
        db.memberships(),
        &vec![
            member(0, 0, Access::Admin, Some(1)),
            member(1, 0, Access::User, Some(0)),
            member(0, 1, Access::Admin, None),
        ]
    );
    assert_eq!(db.user_name(1), Some("Bob".to_string()));
}

#[test]
fn a_closed_group_and_a_blocking_group_are_both_reported() {
    let mut db = with_users(&["Ann", "Bob"]);
    db.group_create(0).unwrap();
    db.group_secret_santa(0, 0).unwrap();
    db.group_create(0).unwrap();
    db.group_create(1).unwrap();
    db.group_join(0, 2).unwrap();
    assert_eq!(
        db.user_delete(0),
        Ok(UserDeletion { deleted: false, in_closed_group: true, last_admin_of: vec![1] })
    );
    assert_eq!(
        db.memberships(),
        &vec![
            member(0, 0, Access::Admin, Some(0)),
            member(0, 1, Access::Admin, None),
            member(1, 2, Access::Admin, None),
        ]
    );
}

#[test]
fn every_open_group_keeps_an_admin_through_a_run_of_requests() {
    let mut db = with_users(&["Ann", "Bob", "Cid", "Dee"]);
    db.group_create(0).unwrap();
    db.group_create(1).unwrap();
    db.group_join(1, 0).unwrap();
    db.group_join(2, 0).unwrap();
    db.group_join(3, 1).unwrap();
    db.group_make_admin(0, 2, 0).unwrap();
    let _ = db.group_unadmin(0, 0);
    let _ = db.group_unadmin(2, 0);
    let _ = db.group_quit(2, 0);
    let _ = db.group_quit(1, 1);
    let _ = db.user_delete(1);
    let _ = db.user_delete(2);
    let _ = db.user_delete(0);
    for (group_id, closed) in db.groups() {
        assert!(!closed);
        assert!(secret_santa::count_admins(group_id, db.memberships()) >= 1);
    }
    for m in db.memberships() {
        assert!(db.user_name(m.id.user_id).is_some());
        assert!(db.group_closed(m.id.group_id).is_some());
    }
}
