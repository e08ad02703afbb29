//! Chain-read and peer-record logic of a Monad peer-set crawler: decoding of
//! staking-precompile replies, request building, and merging of discovered
//! name records.

pub mod abi;
pub mod hexcodec;
pub mod rpc;
pub mod peers;
pub mod network;
pub mod validators;
pub mod addr;
pub mod bootstrap;
