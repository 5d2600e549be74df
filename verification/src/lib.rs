//! Download whitelist and egress admission for IronHub requests.
pub mod artifact_hosts;
pub mod direct_egress;
pub mod text;
