//! Version metadata for the public API and the browser ABI.
use vstd::prelude::*;

verus! {

/// Current revision of the Rust API facade.
pub const API_REVISION: u32 = 1;

/// Current raw WASM ABI revision used by the browser viewer exports.
pub const WASM_ABI_REVISION: u32 = 1;

/// Minimum supported Rust version.
pub const MINIMUM_SUPPORTED_RUST_VERSION: &'static str = "1.87";

/// Version metadata for the public API and browser ABI.
#[derive(Clone, Copy, Debug, PartialEq, Eq)]
pub struct ApiVersion {
    /// Cargo package name.
    pub crate_name: &'static str,
    /// Cargo package version.
    pub crate_version: &'static str,
    /// Cargo package major version component.
    pub crate_version_major: &'static str,
    /// Cargo package minor version component.
    pub crate_version_minor: &'static str,
    /// Cargo package patch version component.
    pub crate_version_patch: &'static str,
    /// Revision of the curated Rust facade.
    pub api_revision: u32,
    /// Revision of the raw WASM ABI.
    pub wasm_abi_revision: u32,
    /// Minimum supported Rust version.
    pub msrv: &'static str,
}

/// Return version metadata for runtime diagnostics and compatibility checks.
pub fn version() -> (v: ApiVersion)
    ensures
        v.crate_name@ == "brep_kernel"@,
        v.crate_version@ == "0.1.0"@,
        v.crate_version_major@ == "0"@,
        v.crate_version_minor@ == "1"@,
        v.crate_version_patch@ == "0"@,
        v.api_revision == API_REVISION,
        v.wasm_abi_revision == WASM_ABI_REVISION,
        v.msrv@ == "1.87"@,
        v.msrv == MINIMUM_SUPPORTED_RUST_VERSION,
{
    ApiVersion {
        crate_name: "brep_kernel",
        crate_version: "0.1.0",
        crate_version_major: "0",
        crate_version_minor: "1",
        crate_version_patch: "0",
        api_revision: API_REVISION,
        wasm_abi_revision: WASM_ABI_REVISION,
        msrv: MINIMUM_SUPPORTED_RUST_VERSION,
    }
}

} // verus!
