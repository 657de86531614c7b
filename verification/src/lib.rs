//! A ledger ("universe") that tracks balances per labeled account and
//! periodically folds its state into a cryptographically summarized
//! snapshot, which can later be unfolded (verified and rehydrated)
//! from supporting data.

pub mod codec;
pub mod digest;
pub mod store;
pub mod types;

pub use store::UniverseState;
pub use types::Balance;
pub use types::LabelId;
pub use types::LandLock;
pub use types::SpecError;
pub use types::TransferTx;
pub use types::UniverseSnapshot;
