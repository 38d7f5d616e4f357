use vstd::prelude::*;

use crate::model::{lemma_share_bounds, leader_nickname, SplitModel, STROOPS_PER_USDC};
use crate::types::{GroupModel, MemberModel, SplitError, WithdrawPermission, WithdrawRole};

verus! {

/// What the members have received in total.
pub open spec fn received_sum(ms: Seq<MemberModel>) -> int
    decreases ms.len(),
{
    if ms.len() == 0 {
        0
    } else {
        received_sum(ms.drop_last()) + ms.last().total_received
    }
}

/// A group can be set up only once: once it is, `init` is refused with
/// `AlreadyInitialized` and changes nothing.
pub proof fn law_init_only_once(s: SplitModel, leader: Seq<char>, name: Seq<char>, token: Seq<char>, now: u64)
    requires
        s.group is Some,
    ensures
        s.init(leader, name, token, now) == Err::<SplitModel, SplitError>(SplitError::AlreadyInitialized),
{
}

/// Setting a group up makes the caller its leader and its only member,
/// nicknamed "Leader", with every statistic at zero.
pub proof fn law_init_makes_leader_first_member(leader: Seq<char>, name: Seq<char>, token: Seq<char>, now: u64)
    ensures
        SplitModel::empty().init(leader, name, token, now) matches Ok(t) && {
            &&& t.group == Some(GroupModel { name, leader, usdc_token: token, created_at: now })
            &&& t.members == seq![MemberModel { addr: leader, nickname: leader_nickname(), total_received: 0 }]
            &&& t.total_deposited == 0 && t.total_split == 0 && t.total_withdrawn == 0 && t.split_count == 0
            &&& t.inv()
        },
{
    let t = SplitModel::empty().init(leader, name, token, now).unwrap();
    assert(t.members[0].addr == leader);
    assert(t.is_member(t.leader()));
}

/// Before the group is set up, every request but `init` is refused with `NotInitialized`.
pub proof fn law_nothing_before_init(
    caller: Seq<char>,
    a: Seq<char>,
    nickname: Seq<char>,
    amount: int,
    balance: int,
    role: WithdrawRole,
    limit: i128,
)
    ensures
        ({
            let s = SplitModel::empty();
            let e = Err::<SplitModel, SplitError>(SplitError::NotInitialized);
            &&& s.join(caller, a, nickname) == e
            &&& s.remove_member(caller, a) == e
            &&& s.deposit(amount) == e
            &&& s.split(caller, balance) == e
            &&& s.grant_withdraw(caller, a, role, limit) == e
            &&& s.revoke_withdraw(caller, a) == e
            &&& s.withdraw(caller, amount, balance) == e
        }),
{
}

/// Only the leader manages the group: anyone else who adds or removes a
/// member, splits the fund, or grants or revokes a right is refused with
/// `NotLeader`.
pub proof fn law_only_leader_manages(
    s: SplitModel,
    caller: Seq<char>,
    a: Seq<char>,
    nickname: Seq<char>,
    balance: int,
    role: WithdrawRole,
    limit: i128,
)
    requires
        s.group is Some,
        caller != s.leader(),
    ensures
        ({
            let e = Err::<SplitModel, SplitError>(SplitError::NotLeader);
            &&& s.join(caller, a, nickname) == e
            &&& s.remove_member(caller, a) == e
            &&& s.split(caller, balance) == e
            &&& s.grant_withdraw(caller, a, role, limit) == e
            &&& s.revoke_withdraw(caller, a) == e
        }),
{
}

/// The leader cannot be removed, so the leader is always a member.
pub proof fn law_leader_stays_member(s: SplitModel, a: Seq<char>)
    requires
        s.inv(),
        s.group is Some,
    ensures
        s.is_member(s.leader()),
        s.remove_member(s.leader(), s.leader()) == Err::<SplitModel, SplitError>(SplitError::CannotRemoveLeader),
        s.remove_member(s.leader(), a) matches Ok(t) ==> t.is_member(t.leader()),
{
    if s.remove_member(s.leader(), a) is Ok {
        let t = s.remove_member(s.leader(), a).unwrap();
        let i = s.member_index(a);
        let li = choose|k: int| 0 <= k < s.members.len() && (#[trigger] s.members[k]).addr == s.leader();
        assert(li != i);
        let lj = if li < i { li } else { li - 1 };
        assert(t.members[lj] == s.members[li]);
    }
}

/// Removing a member that was just added gives back the group as it was.
pub proof fn law_remove_undoes_join(s: SplitModel, caller: Seq<char>, a: Seq<char>, nickname: Seq<char>)
    requires
        s.inv(),
        s.join(caller, a, nickname) is Ok,
    ensures
        s.join(caller, a, nickname).unwrap().remove_member(caller, a) == Ok::<SplitModel, SplitError>(s),
{
    let t = s.join(caller, a, nickname).unwrap();
    let n = s.members.len() as int;
    assert(t.members[n].addr == a);
    assert(t.is_member(a));
    assert(a != s.leader()) by {
        let li = choose|k: int| 0 <= k < s.members.len() && (#[trigger] s.members[k]).addr == s.leader();
        assert(s.members[li].addr == s.leader());
    }
    let i = t.member_index(a);
    assert(i == n) by {
        if i < n {
            assert(s.members[i] == t.members[i]);
            assert(s.is_member(a));
        }
    }
    assert(t.members.remove(n) =~= s.members);
    assert(t.remove_member(caller, a).unwrap() == s);
}

/// A split pays every member the same share: a whole, positive number of
/// USDC, no more in total than the fund holds, leaving less than one USDC
/// per member behind. The totals grow by what was paid out.
pub proof fn law_split_pays_equal_whole_shares(s: SplitModel, caller: Seq<char>, balance: int)
    requires
        s.inv(),
        s.split(caller, balance) is Ok,
    ensures
        ({
            let t = s.split(caller, balance).unwrap();
            let share = s.share(balance);
            let n = s.members.len();
            &&& share > 0
            &&& share % (STROOPS_PER_USDC as int) == 0
            &&& share * n <= balance
            &&& balance - share * n < n * STROOPS_PER_USDC
            &&& t.members.len() == n
            &&& forall|i: int|
                0 <= i < n ==> (#[trigger] t.members[i]).total_received == s.members[i].total_received + share
                    && t.members[i].addr == s.members[i].addr && t.members[i].nickname == s.members[i].nickname
            &&& received_sum(t.members) == received_sum(s.members) + share * n
            &&& t.total_split == s.total_split + share * n
            &&& t.split_count == s.split_count + 1
        }),
{
    let n = s.members.len();
    lemma_share_bounds(balance, n as int);
    lemma_received_sum_paid(s.members, s.share(balance));
}

/// Paying every member `share` adds `share` per member to what they received.
proof fn lemma_received_sum_paid(ms: Seq<MemberModel>, share: int)
    ensures
        received_sum(
            ms.map_values(
                |m: MemberModel|
                    MemberModel { addr: m.addr, nickname: m.nickname, total_received: m.total_received + share },
            ),
        ) == received_sum(ms) + share * ms.len(),
    decreases ms.len(),
{
    let f = |m: MemberModel|
        MemberModel { addr: m.addr, nickname: m.nickname, total_received: m.total_received + share };
    if ms.len() > 0 {
        lemma_received_sum_paid(ms.drop_last(), share);
        assert(ms.map_values(f).drop_last() =~= ms.drop_last().map_values(f));
        assert(share * ms.len() == share * (ms.len() - 1) + share) by (nonlinear_arith);
    } else {
        assert(ms.map_values(f) =~= Seq::<MemberModel>::empty());
    }
}

/// A member granted a right holds exactly that right, with nothing withdrawn yet.
pub proof fn law_grant_sets_right(s: SplitModel, caller: Seq<char>, grantee: Seq<char>, role: WithdrawRole, limit: i128)
    requires
        s.grant_withdraw(caller, grantee, role, limit) is Ok,
    ensures
        s.grant_withdraw(caller, grantee, role, limit).unwrap().role_of(grantee) == (WithdrawPermission {
            role,
            limit,
            total_withdrawn: 0,
        }),
        s.is_member(grantee),
        role != WithdrawRole::NoRole,
{
}

/// After a revoke the address holds no right, and a withdrawal by it is
/// refused with `NoWithdrawRole`; the rights of everyone else stay.
pub proof fn law_revoke_blocks_withdraw(
    s: SplitModel,
    caller: Seq<char>,
    grantee: Seq<char>,
    other: Seq<char>,
    amount: int,
    balance: int,
)
    requires
        s.revoke_withdraw(caller, grantee) is Ok,
        amount > 0,
        other != grantee,
    ensures
        ({
            let t = s.revoke_withdraw(caller, grantee).unwrap();
            &&& t.role_of(grantee) == WithdrawPermission::spec_none()
            &&& t.withdraw(grantee, amount, balance) == Err::<SplitModel, SplitError>(SplitError::NoWithdrawRole)
            &&& t.role_of(other) == s.role_of(other)
        }),
{
}

/// A withdrawal that succeeds was allowed by the right of the caller and
/// covered by the fund; it adds the amount to the caller's and to the
/// fund's withdrawn totals.
pub proof fn law_withdraw_respects_right(s: SplitModel, caller: Seq<char>, amount: int, balance: int)
    requires
        s.withdraw(caller, amount, balance) is Ok,
        s.withdraw_in_range(caller, amount, balance),
    ensures
        ({
            let t = s.withdraw(caller, amount, balance).unwrap();
            let p = s.role_of(caller);
            &&& 0 < amount <= balance
            &&& p.role != WithdrawRole::NoRole
            &&& p.role == WithdrawRole::Limited ==> amount <= p.limit
            &&& t.total_withdrawn == s.total_withdrawn + amount
            &&& t.role_of(caller).total_withdrawn == p.total_withdrawn + amount
            &&& t.role_of(caller).role == p.role && t.role_of(caller).limit == p.limit
        }),
{
}

/// A holder of a `Full` right may withdraw any positive amount that the
/// fund holds; a holder of a `Limited` one any such amount up to its limit.
pub proof fn law_right_allows_withdraw(s: SplitModel, caller: Seq<char>, amount: int, balance: int)
    requires
        s.group is Some,
        0 < amount <= balance,
        s.role_of(caller).role == WithdrawRole::Full || (s.role_of(caller).role == WithdrawRole::Limited
            && amount <= s.role_of(caller).limit),
    ensures
        s.withdraw(caller, amount, balance) is Ok,
{
}

/// A deposit is accepted exactly when the group is set up and the amount
/// is positive, and it adds the amount to the deposited total.
pub proof fn law_deposit_adds(s: SplitModel, amount: int)
    ensures
        s.deposit(amount) is Ok <==> (s.group is Some && amount > 0),
        s.deposit(amount) matches Ok(t) ==> t.total_deposited == s.total_deposited + amount,
{
}

/// Removing the member at `i` takes what it received out of the sum.
proof fn lemma_received_sum_remove(ms: Seq<MemberModel>, i: int)
    requires
        0 <= i < ms.len(),
    ensures
        received_sum(ms.remove(i)) == received_sum(ms) - ms[i].total_received,
    decreases ms.len(),
{
    if i == ms.len() - 1 {
        assert(ms.remove(i) =~= ms.drop_last());
    } else {
        lemma_received_sum_remove(ms.drop_last(), i);
        assert(ms.remove(i).drop_last() =~= ms.drop_last().remove(i));
        assert(ms.remove(i).last() == ms.last());
    }
}

/// What the current members received never exceeds what all splits paid
/// out: every operation keeps that so, starting from a fresh group.
pub proof fn law_received_never_exceeds_split(
    s: SplitModel,
    caller: Seq<char>,
    a: Seq<char>,
    nickname: Seq<char>,
    balance: int,
    leader: Seq<char>,
    name: Seq<char>,
    token: Seq<char>,
    now: u64,
    amount: int,
    role: WithdrawRole,
    limit: i128,
)
    requires
        s.inv(),
        received_sum(s.members) <= s.total_split,
    ensures
        s.deposit(amount) matches Ok(t) ==> received_sum(t.members) <= t.total_split,
        s.grant_withdraw(caller, a, role, limit) matches Ok(t) ==> received_sum(t.members) <= t.total_split,
        s.revoke_withdraw(caller, a) matches Ok(t) ==> received_sum(t.members) <= t.total_split,
        s.withdraw(caller, amount, balance) matches Ok(t) ==> received_sum(t.members) <= t.total_split,
        SplitModel::empty().init(leader, name, token, now) matches Ok(t) ==> received_sum(t.members)
            <= t.total_split,
        s.join(caller, a, nickname) matches Ok(t) ==> received_sum(t.members) <= t.total_split,
        s.remove_member(caller, a) matches Ok(t) ==> received_sum(t.members) <= t.total_split,
        s.split(caller, balance) matches Ok(t) ==> received_sum(t.members) <= t.total_split,
{
    let t0 = SplitModel::empty().init(leader, name, token, now).unwrap();
    assert(t0.members.drop_last() =~= Seq::<MemberModel>::empty());
    assert(received_sum(t0.members.drop_last()) == 0);
    assert(received_sum(t0.members) == 0);
    if s.join(caller, a, nickname) is Ok {
        let t = s.join(caller, a, nickname).unwrap();
        assert(t.members.drop_last() =~= s.members);
    }
    if s.remove_member(caller, a) is Ok {
        let i = s.member_index(a);
        lemma_received_sum_remove(s.members, i);
    }
    if s.split(caller, balance) is Ok {
        law_split_pays_equal_whole_shares(s, caller, balance);
    }
}

/// The leader of a set-up group can always split a fund that holds at least
/// one whole USDC per member; every member then receives at least one USDC.
pub proof fn law_split_succeeds_with_one_usdc_each(s: SplitModel, caller: Seq<char>, balance: int)
    requires
        s.inv(),
        s.group is Some,
        caller == s.leader(),
        balance >= s.members.len() * STROOPS_PER_USDC,
    ensures
        s.split(caller, balance) is Ok,
        s.share(balance) >= STROOPS_PER_USDC,
{
    let n = s.members.len() as int;
    let d = n * STROOPS_PER_USDC;
    assert(n >= 1) by {
        let li = choose|k: int| 0 <= k < s.members.len() && (#[trigger] s.members[k]).addr == s.leader();
    }
    assert(d > 0) by (nonlinear_arith)
        requires
            n >= 1,
            d == n * STROOPS_PER_USDC,
            STROOPS_PER_USDC > 0,
    ;
    assert(balance / d >= 1) by {
        vstd::arithmetic::div_mod::lemma_div_is_ordered(d, balance, d);
        vstd::arithmetic::div_mod::lemma_div_basics(d);
    }
    assert((balance / d) * STROOPS_PER_USDC >= STROOPS_PER_USDC) by (nonlinear_arith)
        requires
            balance / d >= 1,
            STROOPS_PER_USDC > 0,
    ;
}

/// The leader can give any member any right (a positive limit for a
/// `Limited` one) whatever right the member holds now, and the member then
/// holds exactly the new right.
pub proof fn law_grant_replaces_any_right(
    s: SplitModel,
    caller: Seq<char>,
    grantee: Seq<char>,
    role: WithdrawRole,
    limit: i128,
)
    requires
        s.group is Some,
        caller == s.leader(),
        s.is_member(grantee),
        role != WithdrawRole::NoRole,
        role == WithdrawRole::Limited ==> limit > 0,
    ensures
        s.grant_withdraw(caller, grantee, role, limit) matches Ok(t) && t.role_of(grantee) == (WithdrawPermission {
            role,
            limit,
            total_withdrawn: 0,
        }) && t.members == s.members,
{
}

/// Removing a member takes out exactly that member and keeps every other
/// one, in the order they joined.
pub proof fn law_remove_keeps_order(s: SplitModel, caller: Seq<char>, a: Seq<char>, i: int)
    requires
        s.inv(),
        s.remove_member(caller, a) is Ok,
        0 <= i < s.members.len(),
        s.members[i].addr == a,
    ensures
        ({
            let t = s.remove_member(caller, a).unwrap();
            &&& t.members == s.members.subrange(0, i) + s.members.subrange(i + 1, s.members.len() as int)
            &&& t.members.len() + 1 == s.members.len()
            &&& !t.is_member(a)
        }),
{
    let t = s.remove_member(caller, a).unwrap();
    let k = s.member_index(a);
    assert(k == i);
    assert(t.members =~= s.members.subrange(0, i) + s.members.subrange(i + 1, s.members.len() as int));
    if t.is_member(a) {
        let j = choose|j: int| 0 <= j < t.members.len() && (#[trigger] t.members[j]).addr == a;
        let j2 = if j < i { j } else { j + 1 };
        assert(t.members[j] == s.members[j2]);
    }
}

/// A join appends exactly the member it was given: its address, its
/// nickname and nothing received yet, after all the members there were.
pub proof fn law_join_appends_given_member(s: SplitModel, caller: Seq<char>, a: Seq<char>, nickname: Seq<char>)
    requires
        s.join(caller, a, nickname) is Ok,
    ensures
        ({
            let t = s.join(caller, a, nickname).unwrap();
            &&& t.members.len() == s.members.len() + 1
            &&& t.members.last().addr == a
            &&& t.members.last().nickname == nickname
            &&& t.members.last().total_received == 0
            &&& t.members.drop_last() == s.members
            &&& !s.is_member(a)
        }),
{
    let t = s.join(caller, a, nickname).unwrap();
    assert(t.members.drop_last() =~= s.members);
}

/// The leader of a set-up group can always take a right away, from a
/// member or from anyone else (a removed member, say); the address then
/// holds no right and cannot withdraw.
pub proof fn law_revoke_always_succeeds(s: SplitModel, caller: Seq<char>, grantee: Seq<char>, amount: int, balance: int)
    requires
        s.group is Some,
        caller == s.leader(),
        amount > 0,
    ensures
        s.revoke_withdraw(caller, grantee) matches Ok(t) && t.role_of(grantee) == WithdrawPermission::spec_none()
            && t.withdraw(grantee, amount, balance) == Err::<SplitModel, SplitError>(SplitError::NoWithdrawRole)
            && t.members == s.members,
{
}

} // verus!
