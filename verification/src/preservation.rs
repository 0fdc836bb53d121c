//! Every operation keeps the store's invariant.

use vstd::prelude::*;
use crate::guard::{
    admin_count,
    admin_in,
    holds_at,
    is_first_at,
    is_member,
    key,
    position,
};
use crate::listing::{
    lemma_count_filter_one_out,
    lemma_count_push,
    lemma_count_remove,
    lemma_count_update,
    lemma_filter_distinct,
    lemma_filter_keeps_selected,
    lemma_map_values_filter,
};
use crate::model::{Access, Id, Membership};
use crate::state::Store;

verus! {

/// The position of a member is a position of the listing and holds the
/// member's key.
pub proof fn lemma_position_holds(ms: Seq<Membership>, user_id: Id, group_id: Id)
    requires
        is_member(ms, user_id, group_id),
    ensures
        is_first_at(ms, user_id, group_id, position(ms, user_id, group_id)),
{
    let i = choose|i: int| holds_at(ms, user_id, group_id, i);
    lemma_first_exists(ms, user_id, group_id, i);
}

/// Below a position that holds a key stands a first position that holds it.
proof fn lemma_first_exists(ms: Seq<Membership>, user_id: Id, group_id: Id, i: int)
    requires
        holds_at(ms, user_id, group_id, i),
    ensures
        exists|k: int| is_first_at(ms, user_id, group_id, k),
    decreases i,
{
    if exists|j: int| 0 <= j < i && holds_at(ms, user_id, group_id, j) {
        let j = choose|j: int| 0 <= j < i && holds_at(ms, user_id, group_id, j);
        lemma_first_exists(ms, user_id, group_id, j);
    } else {
        assert forall|j: int| 0 <= j < i implies ms[j].id != key(user_id, group_id) by {
            if ms[j].id == key(user_id, group_id) {
                assert(holds_at(ms, user_id, group_id, j));
            }
        }
        assert(is_first_at(ms, user_id, group_id, i));
    }
}

/// Creating a user keeps the memberships fitting, and keeps the whole
/// invariant where an identifier was left to issue.
pub proof fn lemma_user_create_keeps_inv(s: Store, name: Seq<char>)
    requires
        s.inv(),
    ensures
        s.after_user_create(name).consistent(),
        s.users_issued < u32::MAX ==> s.after_user_create(name).inv(),
{
    let t = s.after_user_create(name);
    assert forall|i: int| 0 <= i < t.memberships.len() implies t.users.contains_key(
        #[trigger] t.memberships[i].id.user_id,
    ) && t.groups.contains_key(t.memberships[i].id.group_id) by {
        assert(s.users.contains_key(s.memberships[i].id.user_id));
    }
}

/// Renaming a user keeps the invariant.
pub proof fn lemma_user_update_keeps_inv(s: Store, user_id: Id, name: Seq<char>)
    requires
        s.inv(),
        s.users.contains_key(user_id),
    ensures
        s.after_user_update(user_id, name).inv(),
{
    let t = s.after_user_update(user_id, name);
    assert(t.users.dom() =~= s.users.dom());
    assert forall|i: int| 0 <= i < t.memberships.len() implies t.users.contains_key(
        #[trigger] t.memberships[i].id.user_id,
    ) && t.groups.contains_key(t.memberships[i].id.group_id) by {
        assert(s.users.contains_key(s.memberships[i].id.user_id));
    }
}

/// Creating a group keeps the memberships fitting, and keeps the whole
/// invariant where an identifier was left to issue.
pub proof fn lemma_group_create_keeps_inv(s: Store, creator_id: Id)
    requires
        s.inv(),
        s.users.contains_key(creator_id),
    ensures
        s.after_group_create(creator_id).consistent(),
        s.groups_issued < u32::MAX ==> s.after_group_create(creator_id).inv(),
{
    let t = s.after_group_create(creator_id);
    let group_id = s.groups_issued as Id;
    let m = t.memberships.last();
    assert forall|i: int| 0 <= i < s.memberships.len() implies #[trigger] s.memberships[i].id
        != m.id by {
        assert(s.users.contains_key(s.memberships[i].id.user_id));
        assert(s.groups.contains_key(s.memberships[i].id.group_id));
    }
    assert forall|i: int| 0 <= i < t.memberships.len() implies t.users.contains_key(
        #[trigger] t.memberships[i].id.user_id,
    ) && t.groups.contains_key(t.memberships[i].id.group_id) by {
        if i < s.memberships.len() {
            assert(s.users.contains_key(s.memberships[i].id.user_id));
        }
    }
    assert forall|g: Id| #[trigger] t.groups.contains_key(g) && !t.groups[g] implies admin_count(
        t.memberships,
        g,
    ) >= 1 by {
        lemma_count_push(s.memberships, m, g);
        if g != group_id {
            assert(s.groups.contains_key(g));
        }
    }
}

/// Joining a group keeps the invariant.
pub proof fn lemma_group_join_keeps_inv(s: Store, user_id: Id, group_id: Id)
    requires
        s.inv(),
        s.group_join_error(user_id, group_id) is None,
    ensures
        s.after_group_join(user_id, group_id).inv(),
{
    let t = s.after_group_join(user_id, group_id);
    let m = t.memberships.last();
    assert forall|i: int| 0 <= i < s.memberships.len() implies #[trigger] s.memberships[i].id
        != m.id by {
        if s.memberships[i].id == m.id {
            assert(holds_at(s.memberships, user_id, group_id, i));
        }
    }
    assert forall|i: int| 0 <= i < t.memberships.len() implies t.users.contains_key(
        #[trigger] t.memberships[i].id.user_id,
    ) && t.groups.contains_key(t.memberships[i].id.group_id) by {
        if i < s.memberships.len() {
            assert(s.users.contains_key(s.memberships[i].id.user_id));
        }
    }
    assert forall|g: Id| #[trigger] t.groups.contains_key(g) && !t.groups[g] implies admin_count(
        t.memberships,
        g,
    ) >= 1 by {
        lemma_count_push(s.memberships, m, g);
        assert(s.groups.contains_key(g));
    }
}

/// Quitting a group keeps the invariant: an admin who may quit leaves another
/// admin behind.
pub proof fn lemma_group_quit_keeps_inv(s: Store, user_id: Id, group_id: Id)
    requires
        s.inv(),
        s.group_quit_error(user_id, group_id) is None,
    ensures
        s.after_group_quit(user_id, group_id).inv(),
{
    let t = s.after_group_quit(user_id, group_id);
    let ms = s.memberships;
    let i = position(ms, user_id, group_id);
    lemma_position_holds(ms, user_id, group_id);
    assert forall|a: int, b: int| 0 <= a < b < t.memberships.len() implies t.memberships[a].id
        != t.memberships[b].id by {
        let a0 = if a < i { a } else { a + 1 };
        let b0 = if b < i { b } else { b + 1 };
        assert(ms[a0].id != ms[b0].id);
    }
    assert forall|k: int| 0 <= k < t.memberships.len() implies t.users.contains_key(
        #[trigger] t.memberships[k].id.user_id,
    ) && t.groups.contains_key(t.memberships[k].id.group_id) by {
        let k0 = if k < i { k } else { k + 1 };
        assert(s.users.contains_key(ms[k0].id.user_id));
    }
    assert forall|g: Id| #[trigger] t.groups.contains_key(g) && !t.groups[g] implies admin_count(
        t.memberships,
        g,
    ) >= 1 by {
        lemma_count_remove(ms, i, g);
        assert(s.groups.contains_key(g));
    }
}

/// Replacing the props of one membership keeps the invariant where every open
/// group keeps an admin.
proof fn lemma_update_keeps_inv(s: Store, t: Store, i: int, m: Membership)
    requires
        s.inv(),
        0 <= i < s.memberships.len(),
        m.id == s.memberships[i].id,
        t == (Store { memberships: s.memberships.update(i, m), ..s }),
        m.props.access_level == Access::User && s.memberships[i].props.access_level
            == Access::Admin ==> admin_count(s.memberships, m.id.group_id) >= 2,
    ensures
        t.inv(),
{
    let ms = s.memberships;
    assert forall|a: int, b: int| 0 <= a < b < t.memberships.len() implies t.memberships[a].id
        != t.memberships[b].id by {
        assert(ms[a].id != ms[b].id);
    }
    assert forall|k: int| 0 <= k < t.memberships.len() implies t.users.contains_key(
        #[trigger] t.memberships[k].id.user_id,
    ) && t.groups.contains_key(t.memberships[k].id.group_id) by {
        assert(s.users.contains_key(ms[k].id.user_id));
    }
    assert forall|g: Id| #[trigger] t.groups.contains_key(g) && !t.groups[g] implies admin_count(
        t.memberships,
        g,
    ) >= 1 by {
        lemma_count_update(ms, i, m, g);
        assert(s.groups.contains_key(g));
    }
}

/// Making a member an admin keeps the invariant.
pub proof fn lemma_group_make_admin_keeps_inv(s: Store, admin_id: Id, member_id: Id, group_id: Id)
    requires
        s.inv(),
        s.group_make_admin_error(admin_id, member_id, group_id) is None,
    ensures
        s.after_group_make_admin(member_id, group_id).inv(),
{
    let i = position(s.memberships, member_id, group_id);
    lemma_position_holds(s.memberships, member_id, group_id);
    lemma_update_keeps_inv(
        s,
        s.after_group_make_admin(member_id, group_id),
        i,
        crate::state::with_role(s.memberships[i], Access::Admin),
    );
}

/// Stepping down keeps the invariant: an admin who may step down leaves
/// another admin behind.
pub proof fn lemma_group_unadmin_keeps_inv(s: Store, admin_id: Id, group_id: Id)
    requires
        s.inv(),
        s.group_unadmin_error(admin_id, group_id) is None,
    ensures
        s.after_group_unadmin(admin_id, group_id).inv(),
{
    let i = position(s.memberships, admin_id, group_id);
    lemma_position_holds(s.memberships, admin_id, group_id);
    lemma_update_keeps_inv(
        s,
        s.after_group_unadmin(admin_id, group_id),
        i,
        crate::state::with_role(s.memberships[i], Access::User),
    );
}

/// Deleting a group keeps the invariant: its memberships go with it, and no
/// other group loses one.
pub proof fn lemma_group_delete_keeps_inv(s: Store, group_id: Id)
    requires
        s.inv(),
    ensures
        s.after_group_delete(group_id).inv(),
{
    let t = s.after_group_delete(group_id);
    let ms = s.memberships;
    let keep = Store::outside_group(group_id);
    lemma_filter_distinct(ms, keep);
    assert forall|k: int| 0 <= k < t.memberships.len() implies t.users.contains_key(
        #[trigger] t.memberships[k].id.user_id,
    ) && t.groups.contains_key(t.memberships[k].id.group_id) by {
        ms.lemma_filter_pred(keep, k);
        ms.lemma_filter_contains_rev(keep, t.memberships[k]);
        let k0 = choose|k0: int| 0 <= k0 < ms.len() && ms[k0] == t.memberships[k];
        assert(s.users.contains_key(ms[k0].id.user_id));
    }
    assert forall|g: Id| #[trigger] t.groups.contains_key(g) && !t.groups[g] implies admin_count(
        t.memberships,
        g,
    ) >= 1 by {
        lemma_filter_keeps_selected(ms, keep, admin_in(g));
        assert(s.groups.contains_key(g));
    }
}

/// Pairing a group keeps the invariant: it changes recipients only, and the
/// group that it closes exists.
pub proof fn lemma_group_secret_santa_keeps_inv(s: Store, admin_id: Id, group_id: Id)
    requires
        s.inv(),
        s.admin_error(admin_id, group_id) is None,
    ensures
        s.after_group_secret_santa(group_id).inv(),
        s.groups.contains_key(group_id),
{
    let t = s.after_group_secret_santa(group_id);
    let ms = s.memberships;
    let f = s.paired(group_id);
    let i = position(ms, admin_id, group_id);
    lemma_position_holds(ms, admin_id, group_id);
    assert(s.users.contains_key(ms[i].id.user_id));
    assert(t.groups.dom() =~= s.groups.dom());
    assert forall|a: int, b: int| 0 <= a < b < t.memberships.len() implies t.memberships[a].id
        != t.memberships[b].id by {
        assert(ms[a].id != ms[b].id);
    }
    assert forall|k: int| 0 <= k < t.memberships.len() implies t.users.contains_key(
        #[trigger] t.memberships[k].id.user_id,
    ) && t.groups.contains_key(t.memberships[k].id.group_id) by {
        assert(s.users.contains_key(ms[k].id.user_id));
    }
    assert forall|g: Id| #[trigger] t.groups.contains_key(g) && !t.groups[g] implies admin_count(
        t.memberships,
        g,
    ) >= 1 by {
        lemma_map_values_filter(ms, f, admin_in(g));
        assert(s.groups.contains_key(g));
    }
}

/// Deleting a user keeps the invariant: the record goes only when no
/// membership of the user stays, and no open group loses its last admin.
pub proof fn lemma_user_delete_keeps_inv(s: Store, user_id: Id)
    requires
        s.inv(),
    ensures
        s.after_user_delete(user_id).inv(),
{
    let t = s.after_user_delete(user_id);
    let ms = s.memberships;
    let keep = s.staying(user_id);
    lemma_filter_distinct(ms, keep);
    assert forall|k: int| 0 <= k < t.memberships.len() implies t.users.contains_key(
        #[trigger] t.memberships[k].id.user_id,
    ) && t.groups.contains_key(t.memberships[k].id.group_id) by {
        let m = t.memberships[k];
        ms.lemma_filter_pred(keep, k);
        ms.lemma_filter_contains_rev(keep, m);
        let k0 = choose|k0: int| 0 <= k0 < ms.len() && ms[k0] == m;
        assert(s.users.contains_key(ms[k0].id.user_id));
        if m.id.user_id == user_id && s.is_last_admin(m) {
            ms.lemma_filter_contains(s.blocking(user_id), k0);
        }
    }
    assert forall|g: Id| #[trigger] t.groups.contains_key(g) && !t.groups[g] implies admin_count(
        t.memberships,
        g,
    ) >= 1 by {
        assert(s.groups.contains_key(g));
        if exists|i: int| 0 <= i < ms.len() && admin_in(g)(#[trigger] ms[i]) && !keep(ms[i]) {
            let i = choose|i: int| 0 <= i < ms.len() && admin_in(g)(#[trigger] ms[i]) && !keep(ms[i]);
            assert forall|j: int|
                0 <= j < ms.len() && j != i && admin_in(g)(#[trigger] ms[j]) implies keep(
                ms[j],
            ) by {
                if !keep(ms[j]) {
                    if i < j {
                        assert(ms[i].id != ms[j].id);
                    } else {
                        assert(ms[j].id != ms[i].id);
                    }
                }
            }
            lemma_count_filter_one_out(ms, keep, i, g);
            lemma_count_remove(ms, i, g);
        } else {
            lemma_filter_keeps_selected(ms, keep, admin_in(g));
        }
    }
}

} // verus!
