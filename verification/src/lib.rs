//! Wear monitoring: packet protocol, FTP CSV ingestion and wear classification.
use vstd::prelude::*;

pub mod connection;
pub mod ftp_reader;
pub mod model;
pub mod observation;
pub mod packet;
pub mod protocol;
pub mod text;
pub mod time;

verus! {

} // verus!
