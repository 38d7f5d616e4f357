# stellar_split

A group fund in which a leader collects USDC from the members and splits it
equally among them, and may grant members the right to withdraw from it.

- `src/` is the library, verified with Verus. `model.rs` states what each
  request does to the abstract state of a group (`SplitModel`); `contract.rs`
  implements the requests on `StellarSplitContract` and proves that each one
  follows the model and keeps its invariant; `perms.rs` holds the table of
  withdrawal rights; `laws.rs` proves what holds across requests.
- `app/` is the Soroban contract around the library: authentication, storage,
  token transfers and logging.
- `tests/` runs the scenarios of the fund against the library, with a small
  token ledger standing in for the host.

Amounts are in stroops (1 USDC = 10,000,000 stroops). A split pays every
member the same whole number of USDC; what is left stays in the fund.
