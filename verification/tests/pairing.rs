use secret_santa::get_secret_santas;
use std::collections::HashMap;

#[test]
fn pairing_of_nobody_is_empty() {
    let santas = get_secret_santas(&vec![]);
    assert!(santas.is_empty());
}

#[test]
fn a_single_member_gives_to_themselves() {
    let santas = get_secret_santas(&vec![7]);
    let mut expected = HashMap::new();
    expected.insert(7, 7);
    assert_eq!(santas, expected);
}

#[test]
fn two_members_give_to_each_other() {
    let santas = get_secret_santas(&vec![4, 9]);
    let mut expected = HashMap::new();
    expected.insert(4, 9);
    expected.insert(9, 4);
    assert_eq!(santas, expected);
}

#[test]
fn each_member_gives_to_the_one_listed_before() {
    let santas = get_secret_santas(&vec![10, 20, 30, 40]);
    let mut expected = HashMap::new();
    expected.insert(10, 40);
    expected.insert(20, 10);
    expected.insert(30, 20);
    expected.insert(40, 30);
    assert_eq!(santas, expected);
}

#[test]
fn pairing_follows_the_listing_not_the_numbers() {
    let santas = get_secret_santas(&vec![3, 1, 2]);
    assert_eq!(santas.get(&3), Some(&2));
    assert_eq!(santas.get(&1), Some(&3));
    assert_eq!(santas.get(&2), Some(&1));
    assert_eq!(santas.len(), 3);
}

#[test]
fn pairing_is_a_permutation_without_fixed_points() {
    let group: Vec<u32> = vec![5, 0, 8, 2, 11, 6];
    let santas = get_secret_santas(&group);
    assert_eq!(santas.len(), group.len());
    let mut recipients: Vec<u32> = Vec::new();
    for member in &group {
        let recipient = santas[member];
        assert_ne!(recipient, *member);
        assert!(group.contains(&recipient));
        recipients.push(recipient);
    }
    recipients.sort();
    let mut members = group.clone();
    members.sort();
    assert_eq!(recipients, members);
}

#[test]
fn a_member_listed_twice_gives_to_the_one_before_the_last_listing() {
    let santas = get_secret_santas(&vec![1, 2, 3, 2]);
    assert_eq!(santas.len(), 3);
    assert_eq!(santas.get(&1), Some(&2));
    assert_eq!(santas.get(&2), Some(&3));
    assert_eq!(santas.get(&3), Some(&2));
}

#[test]
fn the_first_member_gives_to_the_last_even_when_listed_again() {
    let santas = get_secret_santas(&vec![1, 2, 1, 3]);
    assert_eq!(santas.len(), 3);
    assert_eq!(santas.get(&1), Some(&3));
    assert_eq!(santas.get(&2), Some(&1));
    assert_eq!(santas.get(&3), Some(&1));
}
