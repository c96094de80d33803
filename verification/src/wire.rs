//! The wire message that carries an endpoint between peers.

use horaedbproto::storage::Endpoint as EndPointPb;
use vstd::prelude::*;

verus! {

/// Makes the generated message type `horaedbproto::storage::Endpoint` known
/// to the verifier. Nothing is claimed of it: its two public fields, `ip` and
/// `port`, are read from the type as the crate defines it.
#[verifier::external_type_specification]
pub struct ExEndPointPb(EndPointPb);

} // verus!
