//! Tracks which sequence-numbered units every unspent output of a chain holds.
//!
//! Every unit gets its sequence number when it is minted ([`subsidy`]). The outputs of a
//! transaction take the ranges of its inputs in order ([`queue`]), and what they leave goes to
//! the coinbase of the block ([`indexer`], [`fees`]). Between two checkpoints the new range
//! lists are held in memory ([`cache`]); at a checkpoint they go to the store in one piece
//! ([`storage`]), in the binary forms of [`entry`]. The engine does no input or output of its
//! own: [`indexer::Indexer::update`] takes what the outside reports and says what to do next,
//! and [`snapshot`] shows that what it is handed with a block is all it needs of the store.
//! That no unit is lost or doubled on the way is shown in [`conservation`].

pub mod block;
pub mod cache;
pub mod conservation;
pub mod entry;
pub mod fees;
pub mod indexer;
pub mod queue;
pub mod snapshot;
pub mod storage;
pub mod subsidy;
