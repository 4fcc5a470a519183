//! A contract state engine: a content-addressed DAG of deeds rooted at a
//! genesis, the single-use tokens that link them, selective export of the
//! sub-DAG behind a set of tokens, and conflict-detecting acceptance of such
//! exports, with a versioned file layout for deeds and ledgers.

mod deed;
mod ledger;
mod stock;
mod export;
mod codec;
mod persist;
mod laws;
mod order;

pub use codec::{
    decode_deeds_file, encode_deeds_file, DEEDS_MAGIC_NUMBER, DEEDS_VERSION, LEDGER_MAGIC_NUMBER,
    LEDGER_VERSION,
};
pub use deed::{AuthToken, Deed, DeedView, Opid};
pub use ledger::{Ledger, Refusal};
pub use persist::{read_deeds, LoadError};
pub use stock::{AcceptError, Articles, CallParams, IssueError, Stock, StockError};
