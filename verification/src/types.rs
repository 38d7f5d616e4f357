use vstd::prelude::*;

verus! {

/// The errors that a request to the group can be refused with.
#[derive(Clone, Copy, Debug, PartialEq, Eq, Structural)]
pub enum SplitError {
    /// The group has not been set up yet.
    NotInitialized,
    /// The group was already set up.
    AlreadyInitialized,
    /// The caller is not the leader of the group.
    NotLeader,
    /// The address is already a member.
    AlreadyMember,
    /// The group has no members.
    NoMembers,
    /// The amount must be greater than zero.
    ZeroAmount,
    /// The fund does not hold enough to pay out.
    InsufficientFunds,
    /// The group already has its maximum number of members.
    GroupFull,
    /// The leader cannot be removed from the group.
    CannotRemoveLeader,
    /// The address is not a member of the group.
    MemberNotFound,
    /// The address has no right to withdraw.
    NoWithdrawRole,
    /// The amount exceeds the per-withdrawal limit.
    ExceedsLimit,
    /// Withdrawal rights can only be granted to members.
    NotMember,
}

impl SplitError {
    /// The numeric code under which the host reports this error.
    pub open spec fn spec_code(self) -> u32 {
        match self {
            SplitError::NotInitialized => 1,
            SplitError::AlreadyInitialized => 2,
            SplitError::NotLeader => 3,
            SplitError::AlreadyMember => 4,
            SplitError::NoMembers => 5,
            SplitError::ZeroAmount => 6,
            SplitError::InsufficientFunds => 7,
            SplitError::GroupFull => 8,
            SplitError::CannotRemoveLeader => 9,
            SplitError::MemberNotFound => 10,
            SplitError::NoWithdrawRole => 11,
            SplitError::ExceedsLimit => 12,
            SplitError::NotMember => 13,
        }
    }

    /// The numeric code under which the host reports this error.
    pub fn code(&self) -> (c: u32)
        ensures
            c == self.spec_code(),
    {
        match self {
            SplitError::NotInitialized => 1,
            SplitError::AlreadyInitialized => 2,
            SplitError::NotLeader => 3,
            SplitError::AlreadyMember => 4,
            SplitError::NoMembers => 5,
            SplitError::ZeroAmount => 6,
            SplitError::InsufficientFunds => 7,
            SplitError::GroupFull => 8,
            SplitError::CannotRemoveLeader => 9,
            SplitError::MemberNotFound => 10,
            SplitError::NoWithdrawRole => 11,
            SplitError::ExceedsLimit => 12,
            SplitError::NotMember => 13,
        }
    }
}

/// How much an address may withdraw from the fund.
#[derive(Clone, Copy, Debug, PartialEq, Eq, Structural)]
pub enum WithdrawRole {
    /// No right to withdraw (the default).
    NoRole,
    /// At most `limit` per withdrawal.
    Limited,
    /// Any amount that the fund holds.
    Full,
}

/// The withdrawal right of one address.
#[derive(Clone, Copy, Debug, PartialEq, Eq, Structural)]
pub struct WithdrawPermission {
    /// The level of the right.
    pub role: WithdrawRole,
    /// The most that one withdrawal may take (only for `Limited`).
    pub limit: i128,
    /// What the address has withdrawn since the right was granted.
    pub total_withdrawn: i128,
}

impl WithdrawPermission {
    /// The permission of an address that was never granted one.
    pub open spec fn spec_none() -> WithdrawPermission {
        WithdrawPermission { role: WithdrawRole::NoRole, limit: 0, total_withdrawn: 0 }
    }

    /// The permission of an address that was never granted one.
    pub fn none() -> (p: WithdrawPermission)
        ensures
            p == WithdrawPermission::spec_none(),
    {
        WithdrawPermission { role: WithdrawRole::NoRole, limit: 0, total_withdrawn: 0 }
    }
}

/// What a group was set up with.
#[derive(Clone, Debug)]
pub struct GroupInfo {
    /// The display name of the group.
    pub name: String,
    /// The address of the leader.
    pub leader: String,
    /// The address of the token that the fund holds.
    pub usdc_token: String,
    /// When the group was set up.
    pub created_at: u64,
}

/// The abstract value of a `GroupInfo`.
pub struct GroupModel {
    pub name: Seq<char>,
    pub leader: Seq<char>,
    pub usdc_token: Seq<char>,
    pub created_at: u64,
}

impl View for GroupInfo {
    type V = GroupModel;

    open spec fn view(&self) -> GroupModel {
        GroupModel {
            name: self.name@,
            leader: self.leader@,
            usdc_token: self.usdc_token@,
            created_at: self.created_at,
        }
    }
}

impl GroupInfo {
    /// A copy of `self` with the same abstract value.
    pub fn duplicate(&self) -> (r: GroupInfo)
        ensures
            r@ == self@,
    {
        GroupInfo {
            name: self.name.clone(),
            leader: self.leader.clone(),
            usdc_token: self.usdc_token.clone(),
            created_at: self.created_at,
        }
    }
}

/// One member of the group.
#[derive(Clone, Debug)]
pub struct Member {
    /// The address of the member.
    pub addr: String,
    /// The display name of the member.
    pub nickname: String,
    /// What the member has received from all splits so far.
    pub total_received: i128,
}

/// The abstract value of a `Member`.
pub struct MemberModel {
    pub addr: Seq<char>,
    pub nickname: Seq<char>,
    pub total_received: int,
}

impl View for Member {
    type V = MemberModel;

    open spec fn view(&self) -> MemberModel {
        MemberModel {
            addr: self.addr@,
            nickname: self.nickname@,
            total_received: self.total_received as int,
        }
    }
}

impl Member {
    /// A copy of `self` with the same abstract value.
    pub fn duplicate(&self) -> (r: Member)
        ensures
            r@ == self@,
    {
        Member {
            addr: self.addr.clone(),
            nickname: self.nickname.clone(),
            total_received: self.total_received,
        }
    }
}

/// The abstract value of a sequence of members.
pub open spec fn members_view(ms: Seq<Member>) -> Seq<MemberModel> {
    ms.map_values(|m: Member| m@)
}

/// A transfer out of the fund that the host has to make.
#[derive(Clone, Debug)]
pub struct Payout {
    /// The address that receives the tokens.
    pub to: String,
    /// How many tokens it receives.
    pub amount: i128,
}

/// The abstract value of a `Payout`.
pub struct PayoutModel {
    pub to: Seq<char>,
    pub amount: int,
}

impl View for Payout {
    type V = PayoutModel;

    open spec fn view(&self) -> PayoutModel {
        PayoutModel { to: self.to@, amount: self.amount as int }
    }
}

/// The state of the group and of its fund, as a query reports it.
#[derive(Clone, Debug)]
pub struct ContractInfo {
    pub group: GroupInfo,
    pub member_count: u32,
    pub total_deposited: i128,
    pub total_split: i128,
    pub total_withdrawn: i128,
    pub split_count: u32,
    pub current_balance: i128,
}

/// One withdrawal right, held by the address `holder`.
#[derive(Clone, Debug)]
pub struct PermEntry {
    pub holder: String,
    pub perm: WithdrawPermission,
}

} // verus!
