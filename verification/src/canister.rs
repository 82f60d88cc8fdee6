//! The canisters built by the project, and where their modules are found.

use vstd::prelude::*;

verus! {

/// A canister built by the project.
pub enum Canister {
    /// The DBMS canister.
    DbmsCanister,
}

impl Canister {
    /// The path of the canister's compressed WASM module.
    pub fn as_path(&self) -> (r: &'static str)
        ensures
            r@ == (match self {
                Canister::DbmsCanister => "../../.artifact/example.wasm.gz"@,
            }),
    {
        match self {
            Canister::DbmsCanister => "../../.artifact/example.wasm.gz",
        }
    }
}

} // verus!
