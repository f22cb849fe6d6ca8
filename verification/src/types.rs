//! Request and response values exchanged over the HTTP interface.
use vstd::prelude::*;

verus! {

/// What a rule request asks for a device: internet access restored or cut.
#[derive(Debug, Clone, Copy, PartialEq, Eq, Structural)]
pub enum Action {
    Allow,
    Deny,
}

/// Body of `POST /rule`: a device (alias or MAC address) and the action to take.
#[derive(Debug)]
pub struct RuleRequest {
    pub device: String,
    pub action: Action,
}

/// Answer of `GET /status`: the device as it was asked for, its MAC address,
/// and whether it currently has internet access.
#[derive(Debug)]
pub struct StatusResponse {
    pub device: String,
    pub mac: String,
    pub allowed: bool,
}

/// Body of every error answer.
#[derive(Debug)]
pub struct ErrorResponse {
    pub error: String,
}

/// One configured alias and the MAC address it names.
#[derive(Debug)]
pub struct AliasEntry {
    pub alias: String,
    pub mac: String,
}

/// The list of configured aliases.
#[derive(Debug)]
pub struct AliasesResponse {
    pub aliases: Vec<AliasEntry>,
}

/// One known device in the answer of `GET /statuses`: its alias, its MAC address and
/// whether it has internet access.
#[derive(Debug)]
pub struct DeviceStatus {
    pub alias: String,
    pub mac: String,
    pub allowed: bool,
}

/// Answer of `GET /statuses`: every known device.
#[derive(Debug)]
pub struct StatusesResponse {
    pub devices: Vec<DeviceStatus>,
}

} // verus!
