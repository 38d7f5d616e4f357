use vstd::prelude::*;

use crate::model::{lemma_share_bounds, SplitModel, MAX_MEMBERS, STROOPS_PER_USDC};
use crate::perms::{holders_unique, perm_map, PermTable};
use crate::types::{
    members_view, ContractInfo, GroupInfo, Member, MemberModel, Payout, PayoutModel, PermEntry, SplitError,
    WithdrawPermission, WithdrawRole,
};

verus! {

/// The call answered `r` and left the group in `after`, as the transition
/// `expected` from `before` prescribes: on success the state that it gives,
/// on a refusal its error, with nothing changed.
pub open spec fn settles<T>(
    expected: Result<SplitModel, SplitError>,
    r: Result<T, SplitError>,
    before: SplitModel,
    after: SplitModel,
) -> bool {
    match r {
        Ok(_) => expected == Ok::<SplitModel, SplitError>(after),
        Err(e) => expected == Err::<SplitModel, SplitError>(e) && after == before,
    }
}

/// The parts of a group's state, in plain values, as a host stores them.
pub struct StateParts {
    pub group: Option<GroupInfo>,
    pub members: Vec<Member>,
    pub total_deposited: i128,
    pub total_split: i128,
    pub total_withdrawn: i128,
    pub split_count: u32,
    pub perms: Vec<PermEntry>,
}

/// The abstract state that `p` describes.
pub open spec fn parts_model(p: StateParts) -> SplitModel {
    SplitModel {
        group: match p.group {
            Some(g) => Some(g@),
            None => None,
        },
        members: members_view(p.members@),
        total_deposited: p.total_deposited as int,
        total_split: p.total_split as int,
        total_withdrawn: p.total_withdrawn as int,
        split_count: p.split_count as int,
        perms: perm_map(p.perms@),
    }
}

/// `p` describes a state that the operations can reach, with one right per holder.
pub open spec fn parts_valid(p: StateParts) -> bool {
    parts_model(p).inv() && holders_unique(p.perms@)
}

/// A group fund: its leader, its members, what went in and out, and who may withdraw.
pub struct StellarSplitContract {
    group: Option<GroupInfo>,
    members: Vec<Member>,
    total_deposited: i128,
    total_split: i128,
    total_withdrawn: i128,
    split_count: u32,
    perms: PermTable,
}

impl View for StellarSplitContract {
    type V = SplitModel;

    closed spec fn view(&self) -> SplitModel {
        SplitModel {
            group: match self.group {
                Some(g) => Some(g@),
                None => None,
            },
            members: members_view(self.members@),
            total_deposited: self.total_deposited as int,
            total_split: self.total_split as int,
            total_withdrawn: self.total_withdrawn as int,
            split_count: self.split_count as int,
            perms: self.perms@,
        }
    }
}

impl StellarSplitContract {
    /// The state is one that the operations can reach.
    pub closed spec fn wf(&self) -> bool {
        &&& self@.inv()
        &&& self.perms.wf()
    }

    /// A well-formed group satisfies the invariant of the model.
    pub proof fn lemma_wf_inv(&self)
        requires
            self.wf(),
        ensures
            self@.inv(),
    {
    }

    /// A group that is not set up yet.
    pub fn new() -> (s: StellarSplitContract)
        ensures
            s.wf(),
            s@ == SplitModel::empty(),
    {
        let s = StellarSplitContract {
            group: None,
            members: Vec::new(),
            total_deposited: 0,
            total_split: 0,
            total_withdrawn: 0,
            split_count: 0,
            perms: PermTable::new(),
        };
        assert(s@.members =~= Seq::empty());
        s
    }

    /// The group information, or `NotInitialized` before the group is set up.
    fn require_init(&self) -> (r: Result<&GroupInfo, SplitError>)
        ensures
            match r {
                Ok(g) => self@.group == Some(g@),
                Err(e) => self@.group is None && e == SplitError::NotInitialized,
            },
    {
        match &self.group {
            Some(g) => Ok(g),
            None => Err(SplitError::NotInitialized),
        }
    }

    /// Sets the group up, once: `leader` leads it and is its first member.
    pub fn init(&mut self, leader: String, group_name: String, usdc_token: String, now: u64) -> (r: Result<
        (),
        SplitError,
    >)
        requires
            old(self).wf(),
        ensures
            final(self).wf(),
            settles(old(self)@.init(leader@, group_name@, usdc_token@, now), r, old(self)@, final(self)@),
    {
        if self.group.is_some() {
            return Err(SplitError::AlreadyInitialized);
        }
        let first = Member { addr: leader.clone(), nickname: "Leader".to_owned(), total_received: 0 };
        let mut members: Vec<Member> = Vec::new();
        members.push(first);
        self.group = Some(GroupInfo { name: group_name, leader, usdc_token, created_at: now });
        self.members = members;
        self.total_deposited = 0;
        self.total_split = 0;
        self.total_withdrawn = 0;
        self.split_count = 0;
        proof {
            let m = self@.members;
            assert(m =~= seq![m[0]]);
            assert(self@.is_member(self@.leader()) ) by {
                assert(m[0].addr == self@.leader());
            }
        }
        Ok(())
    }

    /// The position of the member with address `a`, if there is one.
    fn find_member(&self, a: &String) -> (r: Option<usize>)
        requires
            self.wf(),
        ensures
            match r {
                Some(i) => i < self@.members.len() && self@.members[i as int].addr == a@ && i
                    == self@.member_index(a@),
                None => !self@.is_member(a@),
            },
    {
        let mut i: usize = 0;
        while i < self.members.len()
            invariant
                self.wf(),
                i <= self.members@.len(),
                forall|j: int| 0 <= j < i ==> (#[trigger] self.members@[j]).addr@ != a@,
            decreases self.members@.len() - i,
        {
            if self.members[i].addr == *a {
                proof {
                    let m = self@.members;
                    assert(m[i as int].addr == a@);
                    let k = self@.member_index(a@);
                    assert(0 <= k < m.len() && m[k].addr == a@);
                }
                return Some(i);
            }
            i = i + 1;
        }
        proof {
            let m = self@.members;
            if self@.is_member(a@) {
                let k = choose|k: int| 0 <= k < m.len() && (#[trigger] m[k]).addr == a@;
                assert(self.members@[k].addr@ == a@);
            }
        }
        None
    }

    /// Whether `caller` leads the group; `NotInitialized` before it is set up.
    fn check_leader(&self, caller: &String) -> (r: Result<bool, SplitError>)
        ensures
            match r {
                Ok(b) => self@.group is Some && b == (caller@ == self@.leader()),
                Err(e) => self@.group is None && e == SplitError::NotInitialized,
            },
    {
        let g = self.require_init()?;
        Ok(*caller == g.leader)
    }

    /// The leader `caller` adds `member_addr`, called `nickname`, to the group.
    pub fn join(&mut self, caller: &String, member_addr: String, nickname: String) -> (r: Result<
        (),
        SplitError,
    >)
        requires
            old(self).wf(),
        ensures
            final(self).wf(),
            settles(old(self)@.join(caller@, member_addr@, nickname@), r, old(self)@, final(self)@),
    {
        if !self.check_leader(caller)? {
            return Err(SplitError::NotLeader);
        }
        if self.members.len() >= MAX_MEMBERS {
            return Err(SplitError::GroupFull);
        }
        if self.find_member(&member_addr).is_some() {
            return Err(SplitError::AlreadyMember);
        }
        let ghost before = self@;
        self.members.push(Member { addr: member_addr, nickname, total_received: 0 });
        proof {
            let m = self@.members;
            let n = before.members.len() as int;
            assert(m =~= before.members.push(m[n]));
            let li = choose|i: int| 0 <= i < before.members.len() && (#[trigger] before.members[i]).addr
                == before.leader();
            assert(m[li] == before.members[li]);
            assert(self@.is_member(self@.leader()));
            assert forall|i: int, j: int|
                0 <= i < m.len() && 0 <= j < m.len() && i != j implies (#[trigger] m[i]).addr
                != (#[trigger] m[j]).addr by {
                if i < n && j < n {
                    assert(m[i] == before.members[i] && m[j] == before.members[j]);
                } else if i < n {
                    assert(m[i] == before.members[i]);
                } else {
                    assert(m[j] == before.members[j]);
                }
            }
        }
        Ok(())
    }

    /// The leader `caller` removes `member_addr` from the group.
    pub fn remove_member(&mut self, caller: &String, member_addr: &String) -> (r: Result<(), SplitError>)
        requires
            old(self).wf(),
        ensures
            final(self).wf(),
            settles(old(self)@.remove_member(caller@, member_addr@), r, old(self)@, final(self)@),
    {
        if !self.check_leader(caller)? {
            return Err(SplitError::NotLeader);
        }
        if *member_addr == self.group.as_ref().unwrap().leader {
            return Err(SplitError::CannotRemoveLeader);
        }
        let ghost before = self@;
        match self.find_member(member_addr) {
            None => Err(SplitError::MemberNotFound),
            Some(i) => {
                self.members.remove(i);
                proof {
                    let m = self@.members;
                    let old_m = before.members;
                    let n = i as int;
                    assert(m =~= old_m.remove(n));
                    let li = choose|k: int| 0 <= k < old_m.len() && (#[trigger] old_m[k]).addr == before.leader();
                    assert(li != n);
                    let li2 = if li < n { li } else { li - 1 };
                    assert(m[li2] == old_m[li]);
                    assert(self@.is_member(self@.leader()));
                    assert forall|a: int, b: int|
                        0 <= a < m.len() && 0 <= b < m.len() && a != b implies (#[trigger] m[a]).addr
                        != (#[trigger] m[b]).addr by {
                        let a2 = if a < n { a } else { a + 1 };
                        let b2 = if b < n { b } else { b + 1 };
                        assert(m[a] == old_m[a2]);
                        assert(m[b] == old_m[b2]);
                    }
                    assert forall|a: int| 0 <= a < m.len() implies (#[trigger] m[a]).total_received >= 0 by {
                        let a2 = if a < n { a } else { a + 1 };
                        assert(m[a] == old_m[a2]);
                    }
                }
                Ok(())
            },
        }
    }

    /// Whether a deposit of `amount` keeps the total within `i128`.
    pub fn deposit_in_range(&self, amount: i128) -> (b: bool)
        requires
            self.wf(),
        ensures
            b == self@.deposit_in_range(amount as int),
    {
        self.group.is_none() || amount <= 0 || self.total_deposited <= i128::MAX - amount
    }

    /// `amount` is paid into the fund; the host moves the tokens on success.
    pub fn deposit(&mut self, amount: i128) -> (r: Result<(), SplitError>)
        requires
            old(self).wf(),
            old(self)@.deposit_in_range(amount as int),
        ensures
            final(self).wf(),
            settles(old(self)@.deposit(amount as int), r, old(self)@, final(self)@),
    {
        self.require_init()?;
        if amount <= 0 {
            return Err(SplitError::ZeroAmount);
        }
        let ghost before = self@;
        self.total_deposited = self.total_deposited + amount;
        assert(self@ == SplitModel { total_deposited: before.total_deposited + amount, ..before });
        assert(self@.members == before.members);
        assert(self@.inv());
        Ok(())
    }

    /// What each of the members receives from a fund holding `balance`.
    fn split_share(&self, balance: i128) -> (share: i128)
        requires
            self.wf(),
            self.members@.len() > 0,
            balance > 0,
        ensures
            share == self@.share(balance as int),
            0 <= share <= balance,
            share * self@.members.len() <= balance,
    {
        let n = self.members.len();
        proof {
            lemma_share_bounds(balance as int, n as int);
            assert(n <= MAX_MEMBERS);
        }
        let pool: i128 = (n as i128) * STROOPS_PER_USDC;
        (balance / pool) * STROOPS_PER_USDC
    }

    /// Whether a split of `balance` keeps every total within its integer type.
    pub fn split_in_range(&self, caller: &String, balance: i128) -> (b: bool)
        requires
            self.wf(),
        ensures
            b == self@.split_in_range(caller@, balance as int),
    {
        match self.check_leader(caller) {
            Err(_) => return true,
            Ok(false) => return true,
            Ok(true) => {},
        }
        if self.members.len() == 0 || balance <= 0 {
            return true;
        }
        let share = self.split_share(balance);
        if share == 0 {
            return true;
        }
        let n = self.members.len();
        let ghost model = self@;
        let mut i: usize = 0;
        while i < n
            invariant
                self.wf(),
                model == self@,
                model.split(caller@, balance as int) is Ok,
                n == self.members@.len(),
                i <= n,
                share == model.share(balance as int),
                share >= 0,
                forall|j: int|
                    0 <= j < i ==> (#[trigger] model.members[j]).total_received + share <= i128::MAX,
            decreases n - i,
        {
            assert(model.members[i as int] == self.members@[i as int]@);
            if self.members[i].total_received > i128::MAX - share {
                assert(!(model.members[i as int].total_received + share <= i128::MAX));
                return false;
            }
            i = i + 1;
        }
        self.total_split <= i128::MAX - share * (n as i128) && self.split_count < u32::MAX
    }

    /// The leader `caller` splits the fund, which holds `balance`, equally
    /// among the members; what does not make a whole USDC for everyone stays
    /// in the fund. The host pays out the returned transfers.
    pub fn split(&mut self, caller: &String, balance: i128) -> (r: Result<Vec<Payout>, SplitError>)
        requires
            old(self).wf(),
            old(self)@.split_in_range(caller@, balance as int),
        ensures
            final(self).wf(),
            settles(old(self)@.split(caller@, balance as int), r, old(self)@, final(self)@),
            r matches Ok(p) ==> {
                &&& p@.len() == old(self)@.members.len()
                &&& forall|i: int|
                    0 <= i < p@.len() ==> (#[trigger] p@[i])@ == (PayoutModel {
                        to: old(self)@.members[i].addr,
                        amount: old(self)@.share(balance as int),
                    })
            },
    {
        if !self.check_leader(caller)? {
            return Err(SplitError::NotLeader);
        }
        let n = self.members.len();
        if n == 0 {
            return Err(SplitError::NoMembers);
        }
        if balance <= 0 {
            return Err(SplitError::InsufficientFunds);
        }
        let share = self.split_share(balance);
        if share == 0 {
            return Err(SplitError::InsufficientFunds);
        }
        let total_sent = share * (n as i128);
        let ghost before = self@;
        let mut updated: Vec<Member> = Vec::new();
        let mut payouts: Vec<Payout> = Vec::new();
        let mut i: usize = 0;
        while i < n
            invariant
                self.wf(),
                before == self@,
                n == self.members@.len(),
                i <= n,
                share == before.share(balance as int),
                share > 0,
                before.split_in_range(caller@, balance as int),
                before.split(caller@, balance as int) is Ok,
                updated@.len() == i,
                payouts@.len() == i,
                forall|j: int|
                    0 <= j < i ==> (#[trigger] updated@[j])@ == (MemberModel {
                        addr: before.members[j].addr,
                        nickname: before.members[j].nickname,
                        total_received: before.members[j].total_received + share,
                    }),
                forall|j: int|
                    0 <= j < i ==> (#[trigger] payouts@[j])@ == (PayoutModel {
                        to: before.members[j].addr,
                        amount: share as int,
                    }),
            decreases n - i,
        {
            let m = &self.members[i];
            assert(before.members[i as int] == m@);
            payouts.push(Payout { to: m.addr.clone(), amount: share });
            updated.push(
                Member { addr: m.addr.clone(), nickname: m.nickname.clone(), total_received: m.total_received + share },
            );
            i = i + 1;
        }
        self.members = updated;
        self.total_split = self.total_split + total_sent;
        self.split_count = self.split_count + 1;
        proof {
            let m = self@.members;
            let old_m = before.members;
            assert(m =~= before.paid_members(share as int));
            assert(self@ == (SplitModel {
                members: before.paid_members(share as int),
                total_split: before.total_split + share * before.members.len(),
                split_count: before.split_count + 1,
                ..before
            }));
            let li = choose|k: int| 0 <= k < old_m.len() && (#[trigger] old_m[k]).addr == before.leader();
            assert(m[li].addr == old_m[li].addr);
            assert(self@.is_member(self@.leader()));
            assert forall|a: int, b: int|
                0 <= a < m.len() && 0 <= b < m.len() && a != b implies (#[trigger] m[a]).addr
                != (#[trigger] m[b]).addr by {
                assert(m[a].addr == old_m[a].addr);
                assert(m[b].addr == old_m[b].addr);
            }
            assert forall|a: int| 0 <= a < m.len() implies (#[trigger] m[a]).total_received >= 0 by {
                assert(m[a].total_received == old_m[a].total_received + share);
            }
        }
        Ok(payouts)
    }

    /// The leader `caller` grants `grantee`, a member, the right `role`;
    /// `limit` bounds each withdrawal of a `Limited` right.
    pub fn grant_withdraw(&mut self, caller: &String, grantee: &String, role: WithdrawRole, limit: i128) -> (r:
        Result<(), SplitError>)
        requires
            old(self).wf(),
        ensures
            final(self).wf(),
            settles(old(self)@.grant_withdraw(caller@, grantee@, role, limit), r, old(self)@, final(self)@),
    {
        if !self.check_leader(caller)? {
            return Err(SplitError::NotLeader);
        }
        if self.find_member(grantee).is_none() {
            return Err(SplitError::NotMember);
        }
        if role == WithdrawRole::NoRole {
            return Err(SplitError::NoWithdrawRole);
        }
        if role == WithdrawRole::Limited && limit <= 0 {
            return Err(SplitError::ZeroAmount);
        }
        let ghost before = self@;
        let perm = WithdrawPermission { role, limit, total_withdrawn: 0 };
        self.perms.set(grantee.clone(), perm);
        proof {
            assert(self@ == (SplitModel { perms: before.perms.insert(grantee@, perm), ..before }));
            assert(self@.members == before.members);
        }
        Ok(())
    }

    /// The leader `caller` takes away the withdrawal right of `grantee`.
    pub fn revoke_withdraw(&mut self, caller: &String, grantee: &String) -> (r: Result<(), SplitError>)
        requires
            old(self).wf(),
        ensures
            final(self).wf(),
            settles(old(self)@.revoke_withdraw(caller@, grantee@), r, old(self)@, final(self)@),
    {
        if !self.check_leader(caller)? {
            return Err(SplitError::NotLeader);
        }
        let ghost before = self@;
        self.perms.remove(grantee);
        proof {
            assert(self@ == (SplitModel { perms: before.perms.remove(grantee@), ..before }));
            assert(self@.members == before.members);
        }
        Ok(())
    }

    /// The right of `caller`, or no right at all.
    fn perm_of(&self, caller: &String) -> (p: WithdrawPermission)
        requires
            self.wf(),
        ensures
            p == self@.role_of(caller@),
    {
        match self.perms.get(caller) {
            Some(p) => p,
            None => WithdrawPermission::none(),
        }
    }

    /// Whether a withdrawal of `amount` keeps the totals within `i128`.
    pub fn withdraw_in_range(&self, caller: &String, amount: i128, balance: i128) -> (b: bool)
        requires
            self.wf(),
        ensures
            b == self@.withdraw_in_range(caller@, amount as int, balance as int),
    {
        if self.group.is_none() || amount <= 0 {
            return true;
        }
        let p = self.perm_of(caller);
        if p.role == WithdrawRole::NoRole || (p.role == WithdrawRole::Limited && amount > p.limit) || amount
            > balance {
            return true;
        }
        p.total_withdrawn <= i128::MAX - amount && self.total_withdrawn <= i128::MAX - amount
    }

    /// `caller` withdraws `amount` from the fund, which holds `balance`:
    /// any amount for a `Full` right, at most the limit for a `Limited` one.
    /// The host pays out the returned transfer.
    pub fn withdraw(&mut self, caller: &String, amount: i128, balance: i128) -> (r: Result<Payout, SplitError>)
        requires
            old(self).wf(),
            old(self)@.withdraw_in_range(caller@, amount as int, balance as int),
        ensures
            final(self).wf(),
            settles(old(self)@.withdraw(caller@, amount as int, balance as int), r, old(self)@, final(self)@),
            r matches Ok(p) ==> p@ == (PayoutModel { to: caller@, amount: amount as int }),
    {
        self.require_init()?;
        if amount <= 0 {
            return Err(SplitError::ZeroAmount);
        }
        let p = self.perm_of(caller);
        match p.role {
            WithdrawRole::NoRole => {
                return Err(SplitError::NoWithdrawRole);
            },
            WithdrawRole::Limited => {
                if amount > p.limit {
                    return Err(SplitError::ExceedsLimit);
                }
            },
            WithdrawRole::Full => {},
        }
        if amount > balance {
            return Err(SplitError::InsufficientFunds);
        }
        let ghost before = self@;
        let updated = WithdrawPermission {
            role: p.role,
            limit: p.limit,
            total_withdrawn: p.total_withdrawn + amount,
        };
        self.perms.set(caller.clone(), updated);
        self.total_withdrawn = self.total_withdrawn + amount;
        proof {
            assert(self@ == (SplitModel {
                perms: before.perms.insert(caller@, updated),
                total_withdrawn: before.total_withdrawn + amount,
                ..before
            }));
            assert(self@.members == before.members);
            assert(before.perms.contains_key(caller@));
        }
        Ok(Payout { to: caller.clone(), amount })
    }

    /// The parts of the state, for a host to store.
    pub fn snapshot(&self) -> (p: StateParts)
        requires
            self.wf(),
        ensures
            parts_valid(p),
            parts_model(p) == self@,
    {
        let group = match &self.group {
            Some(g) => Some(g.duplicate()),
            None => None,
        };
        let members = match self.get_members() {
            Ok(v) => v,
            Err(_) => Vec::new(),
        };
        let perms = self.perms.to_entries();
        proof {
            let e = self.perms.entries_view();
            assert(perms@.len() == e.len());
            assert forall|i: int, j: int|
                0 <= i < perms@.len() && 0 <= j < perms@.len() && i != j implies (#[trigger] perms@[i]).holder@
                != (#[trigger] perms@[j]).holder@ by {
                assert(perms@[i].holder@ == e[i].holder@);
                assert(perms@[j].holder@ == e[j].holder@);
                self.perms.lemma_wf_unique(i, j);
            }
            self.perms.lemma_same_map(perms@);
            if self.group is None {
                assert(members@ =~= Seq::<Member>::empty());
                assert(members_view(members@) =~= self@.members);
            }
        }
        StateParts {
            group,
            members,
            total_deposited: self.total_deposited,
            total_split: self.total_split,
            total_withdrawn: self.total_withdrawn,
            split_count: self.split_count,
            perms,
        }
    }

    /// The group that `parts` describe, or `None` where they describe no
    /// state that the operations can reach.
    pub fn restore(parts: StateParts) -> (r: Option<StellarSplitContract>)
        ensures
            r is Some <==> parts_valid(parts),
            r matches Some(s) ==> s.wf() && s@ == parts_model(parts),
    {
        let ghost model = parts_model(parts);
        let StateParts { group, members, total_deposited, total_split, total_withdrawn, split_count, perms } =
            parts;
        let ghost perms_seq = perms@;
        let table = match PermTable::from_entries(perms) {
            Some(t) => t,
            None => return None,
        };
        let candidate = StellarSplitContract {
            group,
            members,
            total_deposited,
            total_split,
            total_withdrawn,
            split_count,
            perms: table,
        };
        assert(candidate@ == model);
        if candidate.check_inv() {
            Some(candidate)
        } else {
            None
        }
    }

    /// Whether the view of `self` satisfies the invariant.
    fn check_inv(&self) -> (b: bool)
        requires
            self.perms.wf(),
        ensures
            b == self@.inv(),
    {
        let ghost m = self@;
        match &self.group {
            None => {
                if self.members.len() != 0 || self.total_deposited != 0 || self.total_split != 0
                    || self.total_withdrawn != 0 || self.split_count != 0 {
                    assert(!m.inv());
                    return false;
                }
                let empty = self.perms.is_empty();
                proof {
                    assert(m.members =~= Seq::<MemberModel>::empty()) by {
                        assert(m.members.len() == 0);
                    }
                }
                assert(empty == m.inv());
                empty
            },
            Some(g) => {
                let n = self.members.len();
                if n == 0 || n > MAX_MEMBERS || self.total_deposited < 0 || self.total_split < 0
                    || self.total_withdrawn < 0 {
                    assert(!m.inv());
                    return false;
                }
                let mut leader_found = false;
                let mut i: usize = 0;
                while i < n
                    invariant
                        m == self@,
                        self.group == Some(*g),
                        n == self.members@.len(),
                        0 < n <= MAX_MEMBERS,
                        m.total_deposited >= 0 && m.total_split >= 0 && m.total_withdrawn >= 0,
                        i <= n,
                        leader_found ==> m.is_member(m.leader()),
                        !leader_found ==> forall|j: int| 0 <= j < i ==> (#[trigger] m.members[j]).addr != m.leader(),
                        forall|j: int| 0 <= j < i ==> (#[trigger] m.members[j]).total_received >= 0,
                        forall|a: int, b: int|
                            0 <= a < i && 0 <= b < n && a != b ==> (#[trigger] m.members[a]).addr
                                != (#[trigger] m.members[b]).addr,
                    decreases n - i,
                {
                    let mi = &self.members[i];
                    assert(m.members[i as int] == mi@);
                    if mi.total_received < 0 {
                        assert(!(m.members[i as int].total_received >= 0));
                        return false;
                    }
                    if mi.addr == g.leader {
                        leader_found = true;
                    }
                    let mut j: usize = 0;
                    while j < n
                        invariant
                            m == self@,
                            n == self.members@.len(),
                            i < n,
                            j <= n,
                            m.members[i as int] == mi@,
                            forall|b: int| 0 <= b < j && b != i ==> m.members[i as int].addr != (#[trigger] m.members[b]).addr,
                        decreases n - j,
                    {
                        assert(m.members[j as int] == self.members@[j as int]@);
                        if j != i && self.members[j].addr == mi.addr {
                            assert(m.members[i as int].addr == m.members[j as int].addr);
                            assert(!m.members_unique());
                            return false;
                        }
                        j = j + 1;
                    }
                    i = i + 1;
                }
                if !leader_found {
                    assert(!m.is_member(m.leader())) by {
                        if m.is_member(m.leader()) {
                            let k = choose|k: int| 0 <= k < m.members.len() && (#[trigger] m.members[k]).addr == m.leader();
                            assert(m.members[k].addr != m.leader());
                        }
                    }
                    return false;
                }
                assert(m.members_unique());
                let all = self.perms.all_valid();
                assert(m.perms == self.perms@);
                all
            },
        }
    }

    /// The withdrawal right of `addr` (no right at all where none was granted).
    pub fn get_withdraw_role(&self, addr: &String) -> (r: Result<WithdrawPermission, SplitError>)
        requires
            self.wf(),
        ensures
            match r {
                Ok(p) => self@.group is Some && p == self@.role_of(addr@),
                Err(e) => self@.group is None && e == SplitError::NotInitialized,
            },
    {
        self.require_init()?;
        match self.perms.get(addr) {
            Some(p) => Ok(p),
            None => Ok(WithdrawPermission::none()),
        }
    }

    /// The group information and the fund statistics; `current_balance` is
    /// what the fund holds now.
    pub fn get_info(&self, current_balance: i128) -> (r: Result<ContractInfo, SplitError>)
        requires
            self.wf(),
        ensures
            match r {
                Ok(info) => {
                    &&& self@.group == Some(info.group@)
                    &&& info.member_count == self@.members.len()
                    &&& info.total_deposited == self@.total_deposited
                    &&& info.total_split == self@.total_split
                    &&& info.total_withdrawn == self@.total_withdrawn
                    &&& info.split_count == self@.split_count
                    &&& info.current_balance == current_balance
                },
                Err(e) => self@.group is None && e == SplitError::NotInitialized,
            },
    {
        let g = self.require_init()?;
        Ok(ContractInfo {
            group: g.duplicate(),
            member_count: self.members.len() as u32,
            total_deposited: self.total_deposited,
            total_split: self.total_split,
            total_withdrawn: self.total_withdrawn,
            split_count: self.split_count,
            current_balance,
        })
    }

    /// The members, in the order they joined, with what each has received.
    pub fn get_members(&self) -> (r: Result<Vec<Member>, SplitError>)
        requires
            self.wf(),
        ensures
            match r {
                Ok(v) => self@.group is Some && members_view(v@) == self@.members,
                Err(e) => self@.group is None && e == SplitError::NotInitialized,
            },
    {
        self.require_init()?;
        let mut v: Vec<Member> = Vec::new();
        let mut i: usize = 0;
        while i < self.members.len()
            invariant
                i <= self.members@.len(),
                v@.len() == i,
                forall|j: int| 0 <= j < i ==> (#[trigger] v@[j])@ == self.members@[j]@,
            decreases self.members@.len() - i,
        {
            v.push(self.members[i].duplicate());
            i = i + 1;
        }
        assert(members_view(v@) =~= self@.members);
        Ok(v)
    }

    /// What the fund holds, given that the token reports `balance` for it.
    pub fn get_balance(&self, balance: i128) -> (r: Result<i128, SplitError>)
        requires
            self.wf(),
        ensures
            match r {
                Ok(b) => self@.group is Some && b == balance,
                Err(e) => self@.group is None && e == SplitError::NotInitialized,
            },
    {
        self.require_init()?;
        Ok(balance)
    }
}

} // verus!
