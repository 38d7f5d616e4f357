//! A verified model of a group fund that is split equally among its members.
//!
//! The library holds the whole state of one group (its leader, its members,
//! the fund statistics and the withdrawal rights) and decides every request
//! made to it. Moving tokens, checking signatures and storing the state are
//! left to the host that embeds the library: each operation tells the host
//! which transfers to make, and takes the token balance that the host
//! observed as an argument. A refused request changes nothing.
//!
//! - `types`: the plain values that the library takes and gives back.
//! - `model`: the abstract state of a group and what each request does to it.
//! - `perms`: the table of withdrawal rights, one per holder.
//! - `contract`: the group itself, whose operations follow the model.
//! - `laws`: what holds across requests, proved over the model.

pub mod contract;
pub mod laws;
pub mod model;
pub mod perms;
pub mod types;

pub use contract::{StateParts, StellarSplitContract};
pub use model::{SplitModel, MAX_MEMBERS, STROOPS_PER_USDC};
pub use perms::PermTable;
pub use types::{
    ContractInfo, GroupInfo, Member, Payout, PermEntry, SplitError, WithdrawPermission, WithdrawRole,
};
