use vstd::prelude::*;

use crate::types::{GroupModel, MemberModel, SplitError, WithdrawPermission, WithdrawRole};

verus! {

/// The most members that a group can have.
pub const MAX_MEMBERS: usize = 20;

/// The smallest unit of a split: one whole USDC, in stroops.
pub const STROOPS_PER_USDC: i128 = 10_000_000;

/// The nickname that the leader gets when the group is set up.
pub open spec fn leader_nickname() -> Seq<char> {
    "Leader"@
}

/// A withdrawal right as the group stores it: never `NoRole`, a positive
/// limit for `Limited`, and a total that never went negative.
pub open spec fn perm_valid(p: WithdrawPermission) -> bool {
    &&& p.role != WithdrawRole::NoRole
    &&& p.role == WithdrawRole::Limited ==> p.limit > 0
    &&& p.total_withdrawn >= 0
}

/// The abstract state of a group and of its fund.
pub struct SplitModel {
    /// `None` until the group is set up.
    pub group: Option<GroupModel>,
    pub members: Seq<MemberModel>,
    pub total_deposited: int,
    pub total_split: int,
    pub total_withdrawn: int,
    pub split_count: int,
    /// The withdrawal right of each address that holds one.
    pub perms: Map<Seq<char>, WithdrawPermission>,
}

impl SplitModel {
    /// The state before the group is set up.
    pub open spec fn empty() -> SplitModel {
        SplitModel {
            group: None,
            members: Seq::empty(),
            total_deposited: 0,
            total_split: 0,
            total_withdrawn: 0,
            split_count: 0,
            perms: Map::empty(),
        }
    }

    pub open spec fn is_member(self, a: Seq<char>) -> bool {
        exists|i: int| 0 <= i < self.members.len() && (#[trigger] self.members[i]).addr == a
    }

    /// The position of the member with address `a`.
    pub open spec fn member_index(self, a: Seq<char>) -> int {
        choose|i: int| 0 <= i < self.members.len() && (#[trigger] self.members[i]).addr == a
    }

    pub open spec fn leader(self) -> Seq<char> {
        self.group.unwrap().leader
    }

    /// No address occurs twice among the members.
    pub open spec fn members_unique(self) -> bool {
        forall|i: int, j: int|
            0 <= i < self.members.len() && 0 <= j < self.members.len() && i != j
                ==> (#[trigger] self.members[i]).addr != (#[trigger] self.members[j]).addr
    }

    /// What holds of every state that the operations can reach.
    pub open spec fn inv(self) -> bool {
        match self.group {
            None => {
                &&& self.members.len() == 0
                &&& self.total_deposited == 0
                &&& self.total_split == 0
                &&& self.total_withdrawn == 0
                &&& self.split_count == 0
                &&& self.perms == Map::<Seq<char>, WithdrawPermission>::empty()
            },
            Some(g) => {
                &&& self.is_member(g.leader)
                &&& 0 < self.members.len() <= MAX_MEMBERS
                &&& self.members_unique()
                &&& forall|i: int|
                    0 <= i < self.members.len() ==> (#[trigger] self.members[i]).total_received >= 0
                &&& self.total_deposited >= 0
                &&& self.total_split >= 0
                &&& self.total_withdrawn >= 0
                &&& 0 <= self.split_count <= u32::MAX
                &&& forall|k: Seq<char>| #[trigger] self.perms.contains_key(k) ==> perm_valid(self.perms[k])
            },
        }
    }

    /// The withdrawal right of `a`: the stored one, or no right at all.
    pub open spec fn role_of(self, a: Seq<char>) -> WithdrawPermission {
        if self.perms.contains_key(a) {
            self.perms[a]
        } else {
            WithdrawPermission::spec_none()
        }
    }

    /// Sets the group up, with `leader` as its leader and first member.
    pub open spec fn init(self, leader: Seq<char>, name: Seq<char>, token: Seq<char>, now: u64)
        -> Result<SplitModel, SplitError>
    {
        if self.group is Some {
            Err(SplitError::AlreadyInitialized)
        } else {
            Ok(SplitModel {
                group: Some(GroupModel { name, leader, usdc_token: token, created_at: now }),
                members: seq![MemberModel { addr: leader, nickname: leader_nickname(), total_received: 0 }],
                total_deposited: 0,
                total_split: 0,
                total_withdrawn: 0,
                split_count: 0,
                perms: self.perms,
            })
        }
    }

    /// The leader `caller` adds the member `a` with nickname `nickname`.
    pub open spec fn join(self, caller: Seq<char>, a: Seq<char>, nickname: Seq<char>)
        -> Result<SplitModel, SplitError>
    {
        match self.group {
            None => Err(SplitError::NotInitialized),
            Some(g) => if caller != g.leader {
                Err(SplitError::NotLeader)
            } else if self.members.len() >= MAX_MEMBERS {
                Err(SplitError::GroupFull)
            } else if self.is_member(a) {
                Err(SplitError::AlreadyMember)
            } else {
                Ok(SplitModel {
                    members: self.members.push(MemberModel { addr: a, nickname, total_received: 0 }),
                    ..self
                })
            },
        }
    }

    /// The leader `caller` removes the member `a`.
    pub open spec fn remove_member(self, caller: Seq<char>, a: Seq<char>) -> Result<SplitModel, SplitError> {
        match self.group {
            None => Err(SplitError::NotInitialized),
            Some(g) => if caller != g.leader {
                Err(SplitError::NotLeader)
            } else if a == g.leader {
                Err(SplitError::CannotRemoveLeader)
            } else if !self.is_member(a) {
                Err(SplitError::MemberNotFound)
            } else {
                Ok(SplitModel { members: self.members.remove(self.member_index(a)), ..self })
            },
        }
    }

    /// `amount` is paid into the fund.
    pub open spec fn deposit(self, amount: int) -> Result<SplitModel, SplitError> {
        if self.group is None {
            Err(SplitError::NotInitialized)
        } else if amount <= 0 {
            Err(SplitError::ZeroAmount)
        } else {
            Ok(SplitModel { total_deposited: self.total_deposited + amount, ..self })
        }
    }

    /// What each member receives when a fund holding `balance` is split:
    /// the largest number of whole USDC that every member can be paid.
    pub open spec fn share(self, balance: int) -> int {
        (balance / (self.members.len() * STROOPS_PER_USDC)) * STROOPS_PER_USDC
    }

    /// The members after each of them received `share`.
    pub open spec fn paid_members(self, share: int) -> Seq<MemberModel> {
        self.members.map_values(
            |m: MemberModel|
                MemberModel { addr: m.addr, nickname: m.nickname, total_received: m.total_received + share },
        )
    }

    /// The leader `caller` splits a fund that holds `balance` equally among the members.
    pub open spec fn split(self, caller: Seq<char>, balance: int) -> Result<SplitModel, SplitError> {
        match self.group {
            None => Err(SplitError::NotInitialized),
            Some(g) => if caller != g.leader {
                Err(SplitError::NotLeader)
            } else if self.members.len() == 0 {
                Err(SplitError::NoMembers)
            } else if balance <= 0 {
                Err(SplitError::InsufficientFunds)
            } else if self.share(balance) == 0 {
                Err(SplitError::InsufficientFunds)
            } else {
                Ok(SplitModel {
                    members: self.paid_members(self.share(balance)),
                    total_split: self.total_split + self.share(balance) * self.members.len(),
                    split_count: self.split_count + 1,
                    ..self
                })
            },
        }
    }

    /// The leader `caller` grants `grantee` the right `role` with limit `limit`.
    pub open spec fn grant_withdraw(self, caller: Seq<char>, grantee: Seq<char>, role: WithdrawRole, limit: i128)
        -> Result<SplitModel, SplitError>
    {
        match self.group {
            None => Err(SplitError::NotInitialized),
            Some(g) => if caller != g.leader {
                Err(SplitError::NotLeader)
            } else if !self.is_member(grantee) {
                Err(SplitError::NotMember)
            } else if role == WithdrawRole::NoRole {
                Err(SplitError::NoWithdrawRole)
            } else if role == WithdrawRole::Limited && limit <= 0 {
                Err(SplitError::ZeroAmount)
            } else {
                Ok(SplitModel {
                    perms: self.perms.insert(grantee, WithdrawPermission { role, limit, total_withdrawn: 0 }),
                    ..self
                })
            },
        }
    }

    /// The leader `caller` takes away the withdrawal right of `grantee`.
    pub open spec fn revoke_withdraw(self, caller: Seq<char>, grantee: Seq<char>) -> Result<SplitModel, SplitError> {
        match self.group {
            None => Err(SplitError::NotInitialized),
            Some(g) => if caller != g.leader {
                Err(SplitError::NotLeader)
            } else {
                Ok(SplitModel { perms: self.perms.remove(grantee), ..self })
            },
        }
    }

    /// `caller` withdraws `amount` from a fund that holds `balance`.
    pub open spec fn withdraw(self, caller: Seq<char>, amount: int, balance: int) -> Result<SplitModel, SplitError> {
        let p = self.role_of(caller);
        if self.group is None {
            Err(SplitError::NotInitialized)
        } else if amount <= 0 {
            Err(SplitError::ZeroAmount)
        } else if p.role == WithdrawRole::NoRole {
            Err(SplitError::NoWithdrawRole)
        } else if p.role == WithdrawRole::Limited && amount > p.limit {
            Err(SplitError::ExceedsLimit)
        } else if amount > balance {
            Err(SplitError::InsufficientFunds)
        } else {
            Ok(SplitModel {
                perms: self.perms.insert(
                    caller,
                    WithdrawPermission {
                        role: p.role,
                        limit: p.limit,
                        total_withdrawn: (p.total_withdrawn + amount) as i128,
                    },
                ),
                total_withdrawn: self.total_withdrawn + amount,
                ..self
            })
        }
    }

    /// A deposit of `amount` keeps the total within `i128`.
    pub open spec fn deposit_in_range(self, amount: int) -> bool {
        self.deposit(amount) is Ok ==> self.total_deposited + amount <= i128::MAX
    }

    /// A split of `balance` keeps every total within its integer type.
    pub open spec fn split_in_range(self, caller: Seq<char>, balance: int) -> bool {
        self.split(caller, balance) is Ok ==> {
            let share = self.share(balance);
            &&& forall|i: int|
                0 <= i < self.members.len() ==> (#[trigger] self.members[i]).total_received + share
                    <= i128::MAX
            &&& self.total_split + share * self.members.len() <= i128::MAX
            &&& self.split_count + 1 <= u32::MAX
        }
    }

    /// A withdrawal of `amount` keeps the totals within `i128`.
    pub open spec fn withdraw_in_range(self, caller: Seq<char>, amount: int, balance: int) -> bool {
        self.withdraw(caller, amount, balance) is Ok ==> {
            &&& self.role_of(caller).total_withdrawn + amount <= i128::MAX
            &&& self.total_withdrawn + amount <= i128::MAX
        }
    }
}

/// A split of `balance` among `n` members: each share is a whole number of
/// USDC, together they take no more than `balance`, and what stays behind
/// is less than one USDC per member.
pub proof fn lemma_share_bounds(balance: int, n: int)
    requires
        balance >= 0,
        n >= 1,
    ensures
        ({
            let share = (balance / (n * STROOPS_PER_USDC)) * STROOPS_PER_USDC;
            &&& 0 <= share
            &&& share % (STROOPS_PER_USDC as int) == 0
            &&& share * n <= balance
            &&& balance - share * n < n * STROOPS_PER_USDC
            &&& share <= balance
        }),
{
    let d = n * STROOPS_PER_USDC;
    assert(d >= STROOPS_PER_USDC) by (nonlinear_arith)
        requires
            n >= 1,
            d == n * STROOPS_PER_USDC,
            STROOPS_PER_USDC > 0,
    ;
    let q = balance / d;
    let r = balance % d;
    vstd::arithmetic::div_mod::lemma_fundamental_div_mod(balance, d);
    assert(0 <= r < d);
    assert(q >= 0) by {
        vstd::arithmetic::div_mod::lemma_div_pos_is_pos(balance, d);
    }
    let share = q * STROOPS_PER_USDC;
    assert(share * n == d * q) by (nonlinear_arith)
        requires
            share == q * STROOPS_PER_USDC,
            d == n * STROOPS_PER_USDC,
    ;
    assert(share % (STROOPS_PER_USDC as int) == 0) by {
        vstd::arithmetic::div_mod::lemma_mod_multiples_basic(q, STROOPS_PER_USDC as int);
    }
    assert(0 <= share) by (nonlinear_arith)
        requires
            share == q * STROOPS_PER_USDC,
            q >= 0,
    ;
    assert(share <= share * n) by (nonlinear_arith)
        requires
            share >= 0,
            n >= 1,
    ;
}

} // verus!
