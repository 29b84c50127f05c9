//! The host information interface.
//!
//! The hosting service registers, once at startup, what the engine's
//! surroundings look like — the local agent's record, the application,
//! the space, the zome and the current call — and library code reads the
//! registered records through the accessors here. The registry is plain
//! state handed in by the host, never a global: whoever owns a
//! [`HostContext`] decides what is registered. Asking for a record that
//! was never registered is the one error this interface has.

use vstd::prelude::*;

use crate::types::AgentInfo;

verus! {

/// Information about the running application.
#[derive(Clone, Copy, Debug, PartialEq, Eq, Structural)]
pub struct AppInfo {
    /// The installed application, as an opaque identifier.
    pub app_id: u64,
    /// Whether the application is currently enabled.
    pub enabled: bool,
}

/// Information about the space (the DNA) the engine gossips in.
#[derive(Clone, Copy, Debug, PartialEq, Eq, Structural)]
pub struct DnaInfo {
    /// The space identifier.
    pub hash: u64,
    /// Opaque word standing for the DNA's name.
    pub name: u64,
}

/// Information about the zome a call runs in.
#[derive(Clone, Copy, Debug, PartialEq, Eq, Structural)]
pub struct ZomeInfo {
    /// Opaque word standing for the zome's name.
    pub name: u64,
    /// The zome's position in its DNA.
    pub id: u32,
}

/// Information about the current call.
#[derive(Clone, Copy, Debug, PartialEq, Eq, Structural)]
pub struct CallInfo {
    /// Opaque word standing for the called function's name.
    pub function_name: u64,
    /// The chain head the call sees, as a sequence number.
    pub as_at: u64,
}

/// The error of this interface: asked-for information was never
/// registered by the host.
#[derive(Clone, Copy, Debug, PartialEq, Eq, Structural)]
pub enum HostError {
    /// No record of the requested kind is registered.
    NotRegistered,
}

/// What the host has registered for library code to read.
#[derive(Clone, Copy, Debug, PartialEq, Eq, Structural)]
pub struct HostContext {
    /// The local agent's own record, if registered.
    pub agent: Option<AgentInfo>,
    /// The application record, if registered.
    pub app: Option<AppInfo>,
    /// The space record, if registered.
    pub dna: Option<DnaInfo>,
    /// The zome record, if registered.
    pub zome: Option<ZomeInfo>,
    /// The current call record, if registered.
    pub call: Option<CallInfo>,
}

impl HostContext {
    /// A context with nothing registered: every accessor errs.
    pub fn new() -> (r: HostContext)
        ensures
            r.agent is None,
            r.app is None,
            r.dna is None,
            r.zome is None,
            r.call is None,
    {
        HostContext { agent: None, app: None, dna: None, zome: None, call: None }
    }
}

/// The current agent's own record, exactly as the host registered it.
pub fn agent_info(ctx: &HostContext) -> (r: Result<AgentInfo, HostError>)
    ensures
        match r {
            Ok(info) => ctx.agent == Some(info),
            Err(e) => ctx.agent is None && e == HostError::NotRegistered,
        },
{
    match ctx.agent {
        Some(info) => Ok(info),
        None => Err(HostError::NotRegistered),
    }
}

/// The application record, exactly as the host registered it.
pub fn app_info(ctx: &HostContext) -> (r: Result<AppInfo, HostError>)
    ensures
        match r {
            Ok(info) => ctx.app == Some(info),
            Err(e) => ctx.app is None && e == HostError::NotRegistered,
        },
{
    match ctx.app {
        Some(info) => Ok(info),
        None => Err(HostError::NotRegistered),
    }
}

/// The space record, exactly as the host registered it.
pub fn dna_info(ctx: &HostContext) -> (r: Result<DnaInfo, HostError>)
    ensures
        match r {
            Ok(info) => ctx.dna == Some(info),
            Err(e) => ctx.dna is None && e == HostError::NotRegistered,
        },
{
    match ctx.dna {
        Some(info) => Ok(info),
        None => Err(HostError::NotRegistered),
    }
}

/// The zome record, exactly as the host registered it.
pub fn zome_info(ctx: &HostContext) -> (r: Result<ZomeInfo, HostError>)
    ensures
        match r {
            Ok(info) => ctx.zome == Some(info),
            Err(e) => ctx.zome is None && e == HostError::NotRegistered,
        },
{
    match ctx.zome {
        Some(info) => Ok(info),
        None => Err(HostError::NotRegistered),
    }
}

/// The current call record, exactly as the host registered it.
pub fn call_info(ctx: &HostContext) -> (r: Result<CallInfo, HostError>)
    ensures
        match r {
            Ok(info) => ctx.call == Some(info),
            Err(e) => ctx.call is None && e == HostError::NotRegistered,
        },
{
    match ctx.call {
        Some(info) => Ok(info),
        None => Err(HostError::NotRegistered),
    }
}

} // verus!
