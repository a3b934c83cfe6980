//! A client of the Syncthing block exchange protocol, as verified logic.
//!
//! Everything here works on plain values: bytes that came from a peer, rows that
//! came from a database, names that came from a file system.

pub mod assoc;
pub mod bep_data_parser;
pub mod bep_processor;
pub mod bep_state;
pub mod config;
pub mod config_text;
pub mod connectivity;
pub mod device_id;
pub mod file_writer;
pub mod framing;
pub mod fuse;
pub mod indices;
pub mod laws;
pub mod outgoing_requests;
pub mod paths;
pub mod pem;
pub mod read_back;
pub mod replacing;
pub mod rows;
pub mod statements;
pub mod storage;
pub mod syncthing;
pub mod text;
pub mod types;
pub mod wire;

use vstd::prelude::*;

verus! {

/// The views of the elements of `s`, in order.
pub open spec fn views<T: View>(s: Seq<T>) -> Seq<T::V> {
    Seq::new(s.len(), |i: int| s[i]@)
}

/// Appending an element appends its view.
pub proof fn lemma_views_push<T: View>(s: Seq<T>, x: T)
    ensures
        views(s.push(x)) == views(s).push(x@),
{
    assert(views(s.push(x)) =~= views(s).push(x@));
}

} // verus!
