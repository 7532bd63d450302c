//! What the account interface answers.

use vstd::prelude::*;

verus! {

/// The balance that every account is reported to hold.
pub const TOTAL_BALANCE: u64 = 1005;

/// The balance of an account in one coin.
#[derive(Debug)]
pub struct Balance {
    /// The coin that the balance is held in.
    pub coin_type: String,
    /// The amount held.
    pub total_balance: u64,
}

/// The account interface.
pub struct AccountAPI {}

impl AccountAPI {
    /// The account interface.
    pub fn new() -> (r: Self)
        ensures
            r == (AccountAPI {  }),
    {
        AccountAPI {  }
    }

    /// The balance in the coin `token`.
    pub fn get_balance(&self, token: String) -> (r: Balance)
        ensures
            r.coin_type@ == token@,
            r.total_balance == TOTAL_BALANCE,
    {
        Balance { coin_type: token, total_balance: TOTAL_BALANCE }
    }
}

/// The account interface whose answers come wrapped in a response.
pub struct AccountServer {}

impl AccountServer {
    /// The account interface.
    pub fn new() -> (r: Self)
        ensures
            r == (AccountServer {  }),
    {
        AccountServer {  }
    }

    /// The balance in the coin `token`.
    pub fn get_balance(&self, token: String) -> (r: Balance)
        ensures
            r.coin_type@ == token@,
            r.total_balance == TOTAL_BALANCE,
    {
        Balance { coin_type: token, total_balance: TOTAL_BALANCE }
    }
}

/// The package that is to be published.
#[derive(Debug)]
pub struct PublishPackage {
    /// Where the modules of the package are.
    pub package_path: String,
}

impl PublishPackage {
    /// The bytes that stand for the package: those of its path.
    pub fn compile_module_and_serailize(&self) -> (r: Vec<u8>)
        ensures
            r@ == vstd::utf8::encode_utf8(self.package_path@),
    {
        self.package_path.as_str().as_bytes_vec()
    }
}

} // verus!
