use brep_kernel::api;

#[test]
fn version_metadata_matches_package_and_abi_policy() {
    let version = api::version();

    assert_eq!(version.crate_name, "brep_kernel");
    assert_eq!(version.crate_version, "0.1.0");
    assert_eq!(version.crate_version_major, "0");
    assert_eq!(version.crate_version_minor, "1");
    assert_eq!(version.crate_version_patch, "0");
    assert_eq!(version.api_revision, api::API_REVISION);
    assert_eq!(version.wasm_abi_revision, api::WASM_ABI_REVISION);
    assert_eq!(version.msrv, api::MINIMUM_SUPPORTED_RUST_VERSION);
}
