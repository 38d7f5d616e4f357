//! The rules of the group fund on concrete values, called on the library directly.

use stellar_split::{
    GroupInfo, Member, PermEntry, SplitError, StateParts, StellarSplitContract, WithdrawPermission, WithdrawRole,
    MAX_MEMBERS, STROOPS_PER_USDC,
};

fn s(x: &str) -> String {
    x.to_string()
}

fn group_with(members: &[&str]) -> StellarSplitContract {
    let mut g = StellarSplitContract::new();
    g.init(s("LEAD"), s("Group"), s("USDC"), 42).unwrap();
    for m in members {
        g.join(&s("LEAD"), s(m), format!("nick {}", m)).unwrap();
    }
    g
}

fn addrs(g: &StellarSplitContract) -> Vec<String> {
    g.get_members().unwrap().into_iter().map(|m| m.addr).collect()
}

#[test]
fn error_codes_follow_the_host_numbering() {
    let all = [
        SplitError::NotInitialized,
        SplitError::AlreadyInitialized,
        SplitError::NotLeader,
        SplitError::AlreadyMember,
        SplitError::NoMembers,
        SplitError::ZeroAmount,
        SplitError::InsufficientFunds,
        SplitError::GroupFull,
        SplitError::CannotRemoveLeader,
        SplitError::MemberNotFound,
        SplitError::NoWithdrawRole,
        SplitError::ExceedsLimit,
        SplitError::NotMember,
    ];
    for (i, e) in all.iter().enumerate() {
        assert_eq!(e.code(), i as u32 + 1);
    }
}

#[test]
fn init_makes_leader_the_first_member() {
    let g = group_with(&[]);
    let members = g.get_members().unwrap();
    assert_eq!(members.len(), 1);
    assert_eq!(members[0].addr, "LEAD");
    assert_eq!(members[0].nickname, "Leader");
    assert_eq!(members[0].total_received, 0);
    let info = g.get_info(5).unwrap();
    assert_eq!(info.group.name, "Group");
    assert_eq!(info.group.leader, "LEAD");
    assert_eq!(info.group.usdc_token, "USDC");
    assert_eq!(info.group.created_at, 42);
    assert_eq!(info.member_count, 1);
    assert_eq!(info.current_balance, 5);
    assert_eq!((info.total_deposited, info.total_split, info.total_withdrawn, info.split_count), (0, 0, 0, 0));
}

#[test]
fn init_twice_is_refused_and_changes_nothing() {
    let mut g = group_with(&["A"]);
    assert_eq!(g.init(s("OTHER"), s("Other"), s("T"), 7), Err(SplitError::AlreadyInitialized));
    assert_eq!(g.get_info(0).unwrap().group.leader, "LEAD");
    assert_eq!(addrs(&g), vec![s("LEAD"), s("A")]);
}

#[test]
fn nothing_is_accepted_before_init() {
    let mut g = StellarSplitContract::new();
    let e = Err(SplitError::NotInitialized);
    assert_eq!(g.join(&s("L"), s("A"), s("a")), e);
    assert_eq!(g.remove_member(&s("L"), &s("A")), e);
    assert_eq!(g.deposit(10), e);
    assert_eq!(g.split(&s("L"), 100).map(|_| ()), e);
    assert_eq!(g.grant_withdraw(&s("L"), &s("A"), WithdrawRole::Full, 0), e);
    assert_eq!(g.revoke_withdraw(&s("L"), &s("A")), e);
    assert_eq!(g.withdraw(&s("A"), 1, 10).map(|_| ()), e);
    assert_eq!(g.get_withdraw_role(&s("A")).map(|_| ()), e);
    assert_eq!(g.get_info(0).map(|_| ()), e);
    assert_eq!(g.get_members().map(|_| ()), e);
    assert_eq!(g.get_balance(3), Err(SplitError::NotInitialized));
}

#[test]
fn only_the_leader_manages_the_group() {
    let mut g = group_with(&["A"]);
    let e = Err(SplitError::NotLeader);
    assert_eq!(g.join(&s("A"), s("B"), s("b")), e);
    assert_eq!(g.remove_member(&s("A"), &s("A")), e);
    assert_eq!(g.split(&s("A"), usdc(10)).map(|_| ()), e);
    assert_eq!(g.grant_withdraw(&s("A"), &s("A"), WithdrawRole::Full, 0), e);
    assert_eq!(g.revoke_withdraw(&s("A"), &s("A")), e);
    assert_eq!(addrs(&g), vec![s("LEAD"), s("A")]);
}

#[test]
fn the_group_holds_at_most_twenty_members() {
    let names: Vec<String> = (1..MAX_MEMBERS).map(|i| format!("M{}", i)).collect();
    let refs: Vec<&str> = names.iter().map(|n| n.as_str()).collect();
    let mut g = group_with(&refs);
    assert_eq!(g.get_info(0).unwrap().member_count, 20);
    assert_eq!(g.join(&s("LEAD"), s("EXTRA"), s("x")), Err(SplitError::GroupFull));
    assert_eq!(g.get_info(0).unwrap().member_count, 20);
}

#[test]
fn removing_an_unknown_member_is_refused() {
    let mut g = group_with(&["A"]);
    assert_eq!(g.remove_member(&s("LEAD"), &s("B")), Err(SplitError::MemberNotFound));
    assert_eq!(g.remove_member(&s("LEAD"), &s("LEAD")), Err(SplitError::CannotRemoveLeader));
}

#[test]
fn remove_undoes_join() {
    let mut g = group_with(&["A", "B"]);
    let before = addrs(&g);
    g.join(&s("LEAD"), s("C"), s("c")).unwrap();
    g.remove_member(&s("LEAD"), &s("C")).unwrap();
    assert_eq!(addrs(&g), before);
}

#[test]
fn remove_keeps_the_order_of_the_others() {
    let mut g = group_with(&["A", "B", "C"]);
    g.remove_member(&s("LEAD"), &s("B")).unwrap();
    assert_eq!(addrs(&g), vec![s("LEAD"), s("A"), s("C")]);
}

fn usdc(n: i128) -> i128 {
    n * STROOPS_PER_USDC
}

#[test]
fn split_pays_whole_equal_shares_and_keeps_the_rest() {
    let mut g = group_with(&["A", "B"]);
    // 7 USDC and 5 stroops among three members: 2 USDC each, 1 USDC and 5 stroops stay.
    let balance = usdc(7) + 5;
    let payouts = g.split(&s("LEAD"), balance).unwrap();
    assert_eq!(payouts.len(), 3);
    let to: Vec<String> = payouts.iter().map(|p| p.to.clone()).collect();
    assert_eq!(to, vec![s("LEAD"), s("A"), s("B")]);
    for p in &payouts {
        assert_eq!(p.amount, usdc(2));
    }
    let paid: i128 = payouts.iter().map(|p| p.amount).sum();
    assert_eq!(balance - paid, usdc(1) + 5);
    let info = g.get_info(balance - paid).unwrap();
    assert_eq!(info.total_split, usdc(6));
    assert_eq!(info.split_count, 1);
    for m in g.get_members().unwrap() {
        assert_eq!(m.total_received, usdc(2));
    }
}

#[test]
fn split_below_one_usdc_per_member_is_refused() {
    let mut g = group_with(&["A"]);
    assert_eq!(g.split(&s("LEAD"), usdc(2) - 1).map(|_| ()), Err(SplitError::InsufficientFunds));
    assert_eq!(g.split(&s("LEAD"), 0).map(|_| ()), Err(SplitError::InsufficientFunds));
    assert_eq!(g.split(&s("LEAD"), -5).map(|_| ()), Err(SplitError::InsufficientFunds));
    assert_eq!(g.get_info(0).unwrap().split_count, 0);
    assert_eq!(g.split(&s("LEAD"), usdc(2)).unwrap().len(), 2);
}

#[test]
fn received_stays_within_what_was_split() {
    let mut g = group_with(&["A", "B"]);
    g.split(&s("LEAD"), usdc(30)).unwrap();
    g.remove_member(&s("LEAD"), &s("A")).unwrap();
    let received: i128 = g.get_members().unwrap().iter().map(|m| m.total_received).sum();
    assert_eq!(received, usdc(20));
    assert_eq!(g.get_info(0).unwrap().total_split, usdc(30));
}

#[test]
fn deposit_adds_to_the_total() {
    let mut g = group_with(&[]);
    g.deposit(5).unwrap();
    g.deposit(7).unwrap();
    assert_eq!(g.deposit(0), Err(SplitError::ZeroAmount));
    assert_eq!(g.deposit(-3), Err(SplitError::ZeroAmount));
    assert_eq!(g.get_info(0).unwrap().total_deposited, 12);
}

#[test]
fn deposit_in_range_guards_the_total() {
    let mut g = group_with(&[]);
    assert!(g.deposit_in_range(i128::MAX));
    g.deposit(10).unwrap();
    assert!(!g.deposit_in_range(i128::MAX));
    assert!(g.deposit_in_range(i128::MAX - 10));
    assert!(g.deposit_in_range(0));
}

#[test]
fn grant_sets_the_right_and_checks_it() {
    let mut g = group_with(&["A"]);
    assert_eq!(g.grant_withdraw(&s("LEAD"), &s("B"), WithdrawRole::Full, 0), Err(SplitError::NotMember));
    assert_eq!(g.grant_withdraw(&s("LEAD"), &s("A"), WithdrawRole::NoRole, 5), Err(SplitError::NoWithdrawRole));
    assert_eq!(g.grant_withdraw(&s("LEAD"), &s("A"), WithdrawRole::Limited, 0), Err(SplitError::ZeroAmount));
    g.grant_withdraw(&s("LEAD"), &s("A"), WithdrawRole::Limited, 9).unwrap();
    assert_eq!(
        g.get_withdraw_role(&s("A")).unwrap(),
        WithdrawPermission { role: WithdrawRole::Limited, limit: 9, total_withdrawn: 0 }
    );
    assert_eq!(g.get_withdraw_role(&s("LEAD")).unwrap(), WithdrawPermission::none());
}

#[test]
fn revoke_blocks_withdraw_and_keeps_other_rights() {
    let mut g = group_with(&["A", "B"]);
    g.grant_withdraw(&s("LEAD"), &s("A"), WithdrawRole::Full, 0).unwrap();
    g.grant_withdraw(&s("LEAD"), &s("B"), WithdrawRole::Limited, 4).unwrap();
    g.revoke_withdraw(&s("LEAD"), &s("A")).unwrap();
    assert_eq!(g.get_withdraw_role(&s("A")).unwrap().role, WithdrawRole::NoRole);
    assert_eq!(g.withdraw(&s("A"), 1, 100).map(|_| ()), Err(SplitError::NoWithdrawRole));
    assert_eq!(g.get_withdraw_role(&s("B")).unwrap().limit, 4);
}

#[test]
fn withdraw_respects_the_right_and_the_fund() {
    let mut g = group_with(&["A", "B"]);
    g.grant_withdraw(&s("LEAD"), &s("A"), WithdrawRole::Full, 0).unwrap();
    g.grant_withdraw(&s("LEAD"), &s("B"), WithdrawRole::Limited, 50).unwrap();
    assert_eq!(g.withdraw(&s("A"), 0, 100).map(|_| ()), Err(SplitError::ZeroAmount));
    assert_eq!(g.withdraw(&s("A"), 101, 100).map(|_| ()), Err(SplitError::InsufficientFunds));
    assert_eq!(g.withdraw(&s("B"), 51, 100).map(|_| ()), Err(SplitError::ExceedsLimit));
    let p = g.withdraw(&s("A"), 100, 100).unwrap();
    assert_eq!((p.to.as_str(), p.amount), ("A", 100));
    let p = g.withdraw(&s("B"), 50, 60).unwrap();
    assert_eq!((p.to.as_str(), p.amount), ("B", 50));
    g.withdraw(&s("B"), 30, 60).unwrap();
    assert_eq!(g.get_withdraw_role(&s("B")).unwrap().total_withdrawn, 80);
    assert_eq!(g.get_withdraw_role(&s("A")).unwrap().total_withdrawn, 100);
    assert_eq!(g.get_info(0).unwrap().total_withdrawn, 180);
}

#[test]
fn a_removed_member_keeps_its_right() {
    let mut g = group_with(&["A"]);
    g.grant_withdraw(&s("LEAD"), &s("A"), WithdrawRole::Full, 0).unwrap();
    g.remove_member(&s("LEAD"), &s("A")).unwrap();
    assert_eq!(g.withdraw(&s("A"), 10, 10).unwrap().amount, 10);
}

#[test]
fn withdraw_in_range_guards_the_totals() {
    let mut g = group_with(&["A"]);
    g.grant_withdraw(&s("LEAD"), &s("A"), WithdrawRole::Full, 0).unwrap();
    g.withdraw(&s("A"), 10, 10).unwrap();
    assert!(!g.withdraw_in_range(&s("A"), i128::MAX, i128::MAX));
    assert!(g.withdraw_in_range(&s("A"), i128::MAX - 10, i128::MAX));
    assert!(g.withdraw_in_range(&s("B"), i128::MAX, i128::MAX));
}

#[test]
fn split_in_range_guards_the_totals() {
    let mut g = group_with(&[]);
    assert!(g.split_in_range(&s("LEAD"), i128::MAX));
    g.split(&s("LEAD"), usdc(1)).unwrap();
    assert!(!g.split_in_range(&s("LEAD"), i128::MAX));
    assert!(g.split_in_range(&s("A"), i128::MAX));
}

#[test]
fn snapshot_and_restore_give_back_the_group() {
    let mut g = group_with(&["A", "B"]);
    g.deposit(usdc(9)).unwrap();
    g.split(&s("LEAD"), usdc(9)).unwrap();
    g.grant_withdraw(&s("LEAD"), &s("B"), WithdrawRole::Limited, 3).unwrap();
    let parts = g.snapshot();
    let h = StellarSplitContract::restore(parts).unwrap();
    assert_eq!(addrs(&h), addrs(&g));
    let (a, b) = (g.get_info(1).unwrap(), h.get_info(1).unwrap());
    assert_eq!(
        (a.total_deposited, a.total_split, a.total_withdrawn, a.split_count),
        (b.total_deposited, b.total_split, b.total_withdrawn, b.split_count)
    );
    assert_eq!(h.get_withdraw_role(&s("B")).unwrap(), g.get_withdraw_role(&s("B")).unwrap());
    assert!(StellarSplitContract::restore(StellarSplitContract::new().snapshot()).is_some());
}

fn parts(members: Vec<Member>, perms: Vec<PermEntry>, total_split: i128) -> StateParts {
    StateParts {
        group: Some(GroupInfo { name: s("G"), leader: s("LEAD"), usdc_token: s("T"), created_at: 0 }),
        members,
        total_deposited: 0,
        total_split,
        total_withdrawn: 0,
        split_count: 0,
        perms,
    }
}

fn member(a: &str) -> Member {
    Member { addr: s(a), nickname: s(a), total_received: 0 }
}

#[test]
fn restore_refuses_unreachable_states() {
    assert!(StellarSplitContract::restore(parts(vec![member("LEAD"), member("A")], vec![], 0)).is_some());
    assert!(StellarSplitContract::restore(parts(vec![member("A")], vec![], 0)).is_none());
    assert!(StellarSplitContract::restore(parts(vec![member("LEAD"), member("A"), member("A")], vec![], 0)).is_none());
    assert!(StellarSplitContract::restore(parts(vec![member("LEAD")], vec![], -1)).is_none());
    let full = WithdrawPermission { role: WithdrawRole::Full, limit: 0, total_withdrawn: 0 };
    let twice = vec![PermEntry { holder: s("A"), perm: full }, PermEntry { holder: s("A"), perm: full }];
    assert!(StellarSplitContract::restore(parts(vec![member("LEAD")], twice, 0)).is_none());
    let none = vec![PermEntry { holder: s("A"), perm: WithdrawPermission::none() }];
    assert!(StellarSplitContract::restore(parts(vec![member("LEAD")], none, 0)).is_none());
    let mut empty = parts(vec![], vec![], 0);
    empty.group = None;
    assert!(StellarSplitContract::restore(empty).is_some());
}
