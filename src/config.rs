use vstd::prelude::*;

verus! {

/// Settings of the service.
pub struct Config {
    pub database_url: String,
    pub database_pool_size: u32,
    pub server_host_address: String,
    pub jwt_signing_key: String,
}

} // verus!
