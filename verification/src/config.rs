//! Connection settings for the slot-notification feed. The feed
//! client itself lives outside the tracker; this is only the plain
//! data it is configured with.

use vstd::prelude::*;

verus! {

/// Where and how the feed client connects: the endpoint URL, an
/// optional access token (a leading `$` means "read the token from
/// that environment variable"), and how long to sleep before a
/// reconnection attempt.
#[derive(Clone, Debug)]
pub struct GrpcConfig {
    pub grpc_url: String,
    pub grpc_token: Option<String>,
    pub retry_connection_sleep_secs: u64,
}

} // verus!
