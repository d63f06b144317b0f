use brep_kernel::boolean::BooleanError;
use brep_kernel::errors::{
    DiagnosticSeverity, KernelDiagnostic, KernelDiagnosticReport, KernelError, KernelErrorKind,
    KernelSubsystem,
};
use brep_kernel::topology::TopologyError;

#[test]
fn boolean_unsupported_errors_preserve_structured_context() {
    let error = KernelError::from(BooleanError::Unsupported)
        .with_operation("build_closed_boolean_output")
        .with_note("input kept regions did not close into a shell");

    assert_eq!(error.primary.subsystem, KernelSubsystem::Boolean);
    assert_eq!(error.primary.kind, KernelErrorKind::Unsupported);
    assert_eq!(error.primary.code, "boolean.unsupported");
    assert_eq!(
        error.primary.operation.as_deref(),
        Some("build_closed_boolean_output")
    );
    assert!(error
        .primary
        .notes
        .iter()
        .any(|note| note.contains("structured diagnostics")));
    assert!(error
        .primary
        .notes
        .iter()
        .any(|note| note.contains("input kept regions")));
}

#[test]
fn diagnostic_report_promotes_first_error_and_retains_related_notes() {
    let warning = KernelDiagnostic::new(
        DiagnosticSeverity::Warning,
        KernelSubsystem::Intersection,
        KernelErrorKind::Numerical,
        "ssi.high_residual",
        "intersection residual exceeded the preferred tolerance",
    )
    .with_operation("surface_surface_intersection")
    .with_note("curve was still retained for downstream trimming");

    let error = KernelDiagnostic::new(
        DiagnosticSeverity::Error,
        KernelSubsystem::Boolean,
        KernelErrorKind::Topology,
        "boolean.open_shell",
        "classified kept regions did not form a closed shell",
    )
    .with_operation("build_closed_boolean_output");

    let report = KernelDiagnosticReport::new()
        .with_diagnostic(warning.clone())
        .with_diagnostic(error.clone());

    assert_eq!(report.warning_count(), 1);
    assert_eq!(report.error_count(), 1);

    let result = report.into_result(());
    let kernel_error = result.unwrap_err();
    assert_eq!(kernel_error.primary.code, error.code);
    assert_eq!(kernel_error.related, vec![warning]);
}

#[test]
fn report_without_errors_returns_the_value() {
    let info = KernelDiagnostic::new(
        DiagnosticSeverity::Info,
        KernelSubsystem::Geometry,
        KernelErrorKind::Numerical,
        "geometry.note",
        "informational",
    );
    let report = KernelDiagnosticReport::new().with_diagnostic(info);
    assert_eq!(report.warning_count(), 0);
    assert_eq!(report.error_count(), 0);
    assert_eq!(report.diagnostics().len(), 1);
    assert_eq!(report.into_result(7), Ok(7));
}

#[test]
fn fatal_diagnostics_count_as_errors() {
    let fatal = KernelDiagnostic::new(
        DiagnosticSeverity::Fatal,
        KernelSubsystem::Topology,
        KernelErrorKind::Internal,
        "topology.fatal",
        "fatal",
    );
    let report = KernelDiagnosticReport::new().with_diagnostic(fatal);
    assert_eq!(report.error_count(), 1);
    assert!(report.into_result(()).is_err());
}

#[test]
fn error_builders_attach_context() {
    let error = KernelError::new(
        KernelSubsystem::Exchange,
        KernelErrorKind::Parse,
        "exchange.parse",
        "bad input",
    )
    .with_operation("read")
    .with_source("inner");
    assert_eq!(error.primary.severity, DiagnosticSeverity::Error);
    assert_eq!(error.primary.operation.as_deref(), Some("read"));
    assert_eq!(error.primary.source.as_deref(), Some("inner"));
    assert_eq!(
        error.display_text(),
        "[exchange.parse] bad input while running `read`: inner"
    );

    let unsupported = KernelError::unsupported(KernelSubsystem::Boolean, "union", "not yet");
    assert_eq!(unsupported.primary.kind, KernelErrorKind::Unsupported);
    assert_eq!(unsupported.primary.code, "unsupported");
    assert_eq!(unsupported.primary.operation.as_deref(), Some("union"));
}

#[test]
fn topology_errors_convert_with_debug_source() {
    let error = KernelError::from(TopologyError::BoundaryEdge(1, 2));
    assert_eq!(error.primary.subsystem, KernelSubsystem::Topology);
    assert_eq!(error.primary.code, "topology.error");
    assert!(error.primary.source.unwrap().contains("BoundaryEdge(1, 2)"));
}
