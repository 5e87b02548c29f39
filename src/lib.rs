use vstd::prelude::*;

pub mod convert;
pub mod registry;
pub mod rms;
pub mod server;
pub mod stream;

verus! {

/// The message sink used while playback is resumed on its own: messages are
/// discarded, so a resumed renderer does not flood the operator's log.
pub fn dummy_log(s: String) {
    let _ = s;
}

} // verus!
