//! Structured kernel diagnostics and errors.
use vstd::prelude::*;
use vstd::string::StringExecFns;
use crate::boolean::BooleanError;
use crate::euler::EulerError;
use crate::features::FeatureError;
use crate::nurbs::NurbsError;
use crate::topology::{EdgeId, FaceId, HalfEdgeId, PersistentId, SplitEdgeId, TopologyError, VertexId};

verus! {

/// Kernel result alias.
pub type KernelResult<T> = Result<T, KernelError>;

/// Subsystem that produced a diagnostic.
#[derive(Clone, Copy, Debug, PartialEq, Eq, Structural)]
pub enum KernelSubsystem {
    /// Topology and half-edge validation.
    Topology,
    /// Geometry primitives and evaluations.
    Geometry,
    /// NURBS evaluation and fitting.
    Nurbs,
    /// Surface/curve intersections.
    Intersection,
    /// Boolean classification and output generation.
    Boolean,
    /// Euler construction operators.
    Euler,
    /// Parametric feature layer.
    Feature,
    /// File exchange import/export.
    Exchange,
    /// GPU or tessellation layer.
    Tessellation,
}

/// Diagnostic severity.
#[derive(Clone, Copy, Debug, PartialEq, Eq, Structural)]
pub enum DiagnosticSeverity {
    /// Informational diagnostic.
    Info,
    /// Non-fatal warning.
    Warning,
    /// Recoverable error.
    Error,
    /// Fatal error that invalidates the operation.
    Fatal,
}

/// Broad error category.
#[derive(Clone, Copy, Debug, PartialEq, Eq, Structural)]
pub enum KernelErrorKind {
    /// Caller supplied invalid input.
    InvalidInput,
    /// Requested operation is outside the supported kernel scope.
    Unsupported,
    /// Text or exchange data could not be parsed.
    Parse,
    /// Topology or geometry validation failed.
    Validation,
    /// Numerical routine did not converge or could not certify a result.
    Numerical,
    /// Topology is open, non-manifold, or otherwise inconsistent.
    Topology,
    /// Import/export format is malformed or unsupported.
    Exchange,
    /// Unexpected internal invariant failure.
    Internal,
}

/// Optional entity reference attached to a diagnostic.
#[derive(Clone, Debug, PartialEq, Eq)]
pub enum KernelEntityRef {
    /// Snapshot vertex id.
    Vertex(VertexId),
    /// Snapshot half-edge/coedge id.
    HalfEdge(HalfEdgeId),
    /// Snapshot edge id.
    Edge(EdgeId),
    /// Staged split-edge id.
    SplitEdge(SplitEdgeId),
    /// Snapshot face id.
    Face(FaceId),
    /// Persistent topology id.
    Persistent(PersistentId),
    /// Exchange entity id, such as a STEP `#42` record.
    ExchangeEntity {
        /// Exchange format label.
        format: String,
        /// Entity number.
        id: usize,
    },
    /// Named entity or external reference.
    Named(String),
}

/// One structured diagnostic record.
#[derive(Clone, Debug, PartialEq, Eq)]
pub struct KernelDiagnostic {
    /// Diagnostic severity.
    pub severity: DiagnosticSeverity,
    /// Subsystem that produced the diagnostic.
    pub subsystem: KernelSubsystem,
    /// Broad category.
    pub kind: KernelErrorKind,
    /// Stable short code.
    pub code: String,
    /// Human-readable diagnostic.
    pub message: String,
    /// Operation being performed.
    pub operation: Option<String>,
    /// Related entity, when available.
    pub entity: Option<KernelEntityRef>,
    /// Source error text from a lower-level subsystem.
    pub source: Option<String>,
    /// Additional notes.
    pub notes: Vec<String>,
}

/// The diagnostic has the given header fields and no operation, entity,
/// source or notes.
pub open spec fn is_fresh_diagnostic(
    d: KernelDiagnostic,
    severity: DiagnosticSeverity,
    subsystem: KernelSubsystem,
    kind: KernelErrorKind,
    code: Seq<char>,
    message: Seq<char>,
) -> bool {
    &&& d.severity == severity
    &&& d.subsystem == subsystem
    &&& d.kind == kind
    &&& d.code@ == code
    &&& d.message@ == message
    &&& d.operation is None
    &&& d.entity is None
    &&& d.source is None
    &&& d.notes@.len() == 0
}

/// `d` equals `old` with its operation replaced by the text `operation`.
pub open spec fn with_operation_spec(d: KernelDiagnostic, old: KernelDiagnostic, operation: Seq<char>) -> bool {
    &&& d.operation matches Some(s) && s@ == operation
    &&& d == (KernelDiagnostic { operation: d.operation, ..old })
}

/// `d` equals `old` with its entity replaced by `entity`.
pub open spec fn with_entity_spec(d: KernelDiagnostic, old: KernelDiagnostic, entity: KernelEntityRef) -> bool {
    d == (KernelDiagnostic { entity: Some(entity), ..old })
}

/// `d` equals `old` with its source replaced by the text `source`.
pub open spec fn with_source_spec(d: KernelDiagnostic, old: KernelDiagnostic, source: Seq<char>) -> bool {
    &&& d.source matches Some(s) && s@ == source
    &&& d == (KernelDiagnostic { source: d.source, ..old })
}

/// `d` equals `old` with one more note, the text `note`, at the end.
pub open spec fn with_note_spec(d: KernelDiagnostic, old: KernelDiagnostic, note: Seq<char>) -> bool {
    &&& d.notes@.len() == old.notes@.len() + 1
    &&& d.notes@.drop_last() == old.notes@
    &&& d.notes@.last()@ == note
    &&& d == (KernelDiagnostic { notes: d.notes, ..old })
}

impl KernelDiagnostic {
    /// Construct a diagnostic.
    pub fn new(
        severity: DiagnosticSeverity,
        subsystem: KernelSubsystem,
        kind: KernelErrorKind,
        code: &str,
        message: &str,
    ) -> (d: Self)
        ensures
            is_fresh_diagnostic(d, severity, subsystem, kind, code@, message@),
    {
        Self {
            severity,
            subsystem,
            kind,
            code: String::from_str(code),
            message: String::from_str(message),
            operation: None,
            entity: None,
            source: None,
            notes: Vec::new(),
        }
    }

    /// Attach an operation name.
    pub fn with_operation(self, operation: &str) -> (d: Self)
        ensures
            with_operation_spec(d, self, operation@),
    {
        let mut d = self;
        d.operation = Some(String::from_str(operation));
        d
    }

    /// Attach an entity reference.
    pub fn with_entity(self, entity: KernelEntityRef) -> (d: Self)
        ensures
            with_entity_spec(d, self, entity),
    {
        let mut d = self;
        d.entity = Some(entity);
        d
    }

    /// Attach a lower-level source error string.
    pub fn with_source(self, source: &str) -> (d: Self)
        ensures
            with_source_spec(d, self, source@),
    {
        let mut d = self;
        d.source = Some(String::from_str(source));
        d
    }

    /// Attach an additional note.
    pub fn with_note(self, note: &str) -> (d: Self)
        ensures
            with_note_spec(d, self, note@),
    {
        let mut d = self;
        let ghost old_notes = d.notes@;
        d.notes.push(String::from_str(note));
        assert(d.notes@.drop_last() =~= old_notes);
        d
    }
}

/// Structured kernel error with a primary diagnostic and related diagnostics.
#[derive(Clone, Debug, PartialEq, Eq)]
pub struct KernelError {
    /// Primary diagnostic.
    pub primary: Box<KernelDiagnostic>,
    /// Related diagnostics.
    pub related: Vec<KernelDiagnostic>,
}

impl KernelError {
    /// Construct a new structured error with severity `Error`.
    pub fn new(subsystem: KernelSubsystem, kind: KernelErrorKind, code: &str, message: &str) -> (e: Self)
        ensures
            is_fresh_diagnostic(*e.primary, DiagnosticSeverity::Error, subsystem, kind, code@, message@),
            e.related@.len() == 0,
    {
        Self {
            primary: Box::new(
                KernelDiagnostic::new(DiagnosticSeverity::Error, subsystem, kind, code, message),
            ),
            related: Vec::new(),
        }
    }

    /// Construct an unsupported-operation error.
    pub fn unsupported(subsystem: KernelSubsystem, operation: &str, message: &str) -> (e: Self)
        ensures
            e.primary.severity == DiagnosticSeverity::Error,
            e.primary.subsystem == subsystem,
            e.primary.kind == KernelErrorKind::Unsupported,
            e.primary.code@ == "unsupported"@,
            e.primary.message@ == message@,
            e.primary.operation matches Some(s) && s@ == operation@,
            e.primary.entity is None,
            e.primary.source is None,
            e.primary.notes@.len() == 0,
            e.related@.len() == 0,
    {
        Self::new(subsystem, KernelErrorKind::Unsupported, "unsupported", message).with_operation(
            operation,
        )
    }

    /// Attach an operation name.
    pub fn with_operation(self, operation: &str) -> (e: Self)
        ensures
            with_operation_spec(*e.primary, *self.primary, operation@),
            e.related == self.related,
    {
        let KernelError { primary, related } = self;
        let d = (*primary).with_operation(operation);
        KernelError { primary: Box::new(d), related }
    }

    /// Attach an entity reference.
    pub fn with_entity(self, entity: KernelEntityRef) -> (e: Self)
        ensures
            with_entity_spec(*e.primary, *self.primary, entity),
            e.related == self.related,
    {
        let KernelError { primary, related } = self;
        let d = (*primary).with_entity(entity);
        KernelError { primary: Box::new(d), related }
    }

    /// Attach a lower-level source error string.
    pub fn with_source(self, source: &str) -> (e: Self)
        ensures
            with_source_spec(*e.primary, *self.primary, source@),
            e.related == self.related,
    {
        let KernelError { primary, related } = self;
        let d = (*primary).with_source(source);
        KernelError { primary: Box::new(d), related }
    }

    /// Attach an additional note.
    pub fn with_note(self, note: &str) -> (e: Self)
        ensures
            with_note_spec(*e.primary, *self.primary, note@),
            e.related == self.related,
    {
        let KernelError { primary, related } = self;
        let d = (*primary).with_note(note);
        KernelError { primary: Box::new(d), related }
    }

    /// Add a related diagnostic.
    pub fn with_related(self, diagnostic: KernelDiagnostic) -> (e: Self)
        ensures
            e.primary == self.primary,
            e.related@ == self.related@.push(diagnostic),
    {
        let mut e = self;
        e.related.push(diagnostic);
        e
    }

    /// Human-readable text: `[code] message`, followed by `` while running
    /// `operation` `` when an operation is attached and by `: source` when a
    /// source is attached.
    pub fn display_text(&self) -> (text: String)
        ensures
            text@ == error_display_text(*self.primary),
    {
        let mut text = String::from_str("[");
        text.append(self.primary.code.as_str());
        text.append("] ");
        text.append(self.primary.message.as_str());
        match &self.primary.operation {
            Some(operation) => {
                text.append(" while running `");
                text.append(operation.as_str());
                text.append("`");
            },
            None => {},
        }
        match &self.primary.source {
            Some(source) => {
                text.append(": ");
                text.append(source.as_str());
            },
            None => {},
        }
        text
    }
}

/// Display text of an error whose primary diagnostic is `d`.
pub open spec fn error_display_text(d: KernelDiagnostic) -> Seq<char> {
    let head = "["@ + d.code@ + "] "@ + d.message@;
    let with_operation = match d.operation {
        Some(op) => head + " while running `"@ + op@ + "`"@,
        None => head,
    };
    match d.source {
        Some(source) => with_operation + ": "@ + source@,
        None => with_operation,
    }
}


/// Debug rendering of a topology error.
pub uninterp spec fn topology_error_debug(error: TopologyError) -> Seq<char>;

/// Debug rendering of a Boolean error.
pub uninterp spec fn boolean_error_debug(error: BooleanError) -> Seq<char>;

/// Debug rendering of an Euler error.
pub uninterp spec fn euler_error_debug(error: EulerError) -> Seq<char>;

/// Debug rendering of a feature error.
pub uninterp spec fn feature_error_debug(error: FeatureError) -> Seq<char>;

/// Debug rendering of a NURBS error.
pub uninterp spec fn nurbs_error_debug(error: NurbsError) -> Seq<char>;

/// Renders a topology error with its derived `Debug` impl through
/// `format!("{:?}")`; the text is a function of the error alone.
#[verifier::external_body]
fn topology_error_text(error: &TopologyError) -> (text: String)
    ensures
        text@ == topology_error_debug(*error),
{
    format!("{:?}", error)
}

/// Renders a Boolean error with its derived `Debug` impl through
/// `format!("{:?}")`; the text is a function of the error alone.
#[verifier::external_body]
fn boolean_error_text(error: &BooleanError) -> (text: String)
    ensures
        text@ == boolean_error_debug(*error),
{
    format!("{:?}", error)
}

/// Renders an Euler error with its derived `Debug` impl through
/// `format!("{:?}")`; the text is a function of the error alone.
#[verifier::external_body]
fn euler_error_text(error: &EulerError) -> (text: String)
    ensures
        text@ == euler_error_debug(*error),
{
    format!("{:?}", error)
}

/// Renders a feature error with its derived `Debug` impl through
/// `format!("{:?}")`; the text is a function of the error alone.
#[verifier::external_body]
fn feature_error_text(error: &FeatureError) -> (text: String)
    ensures
        text@ == feature_error_debug(*error),
{
    format!("{:?}", error)
}

/// Renders a NURBS error with its derived `Debug` impl through
/// `format!("{:?}")`; the text is a function of the error alone.
#[verifier::external_body]
fn nurbs_error_text(error: &NurbsError) -> (text: String)
    ensures
        text@ == nurbs_error_debug(*error),
{
    format!("{:?}", error)
}

/// `e` is a fresh error-severity diagnostic with the given header fields and
/// source text, no operation, entity or notes, and no related diagnostics.
pub open spec fn is_converted_error(
    e: KernelError,
    subsystem: KernelSubsystem,
    kind: KernelErrorKind,
    code: Seq<char>,
    message: Seq<char>,
    source: Seq<char>,
) -> bool {
    &&& e.primary.severity == DiagnosticSeverity::Error
    &&& e.primary.subsystem == subsystem
    &&& e.primary.kind == kind
    &&& e.primary.code@ == code
    &&& e.primary.message@ == message
    &&& e.primary.operation is None
    &&& e.primary.entity is None
    &&& e.primary.source matches Some(s) && s@ == source
    &&& e.related@.len() == 0
}

impl KernelError {
    /// Convert a topology error: subsystem and kind `Topology`, code
    /// `topology.error`, and the error's debug text as source.
    pub fn from_topology_error(error: TopologyError) -> (e: Self)
        ensures
            is_converted_error(
                e,
                KernelSubsystem::Topology,
                KernelErrorKind::Topology,
                "topology.error"@,
                "topology operation failed"@,
                topology_error_debug(error),
            ),
            e.primary.notes@.len() == 0,
    {
        let text = topology_error_text(&error);
        Self::new(
            KernelSubsystem::Topology,
            KernelErrorKind::Topology,
            "topology.error",
            "topology operation failed",
        ).with_source(text.as_str())
    }

    /// Convert a Boolean error. An unsupported case keeps kind `Unsupported`,
    /// code `boolean.unsupported` and a note; every other case becomes a
    /// `Validation` error with code `boolean.error`. The error's debug text
    /// is the source either way.
    pub fn from_boolean_error(error: BooleanError) -> (e: Self)
        ensures
            error == BooleanError::Unsupported ==> {
                &&& is_converted_error(
                    e,
                    KernelSubsystem::Boolean,
                    KernelErrorKind::Unsupported,
                    "boolean.unsupported"@,
                    "boolean operation is outside the supported kernel scope"@,
                    boolean_error_debug(error),
                )
                &&& e.primary.notes@.len() == 1
                &&& e.primary.notes@[0]@
                    == "unsupported Boolean cases are reported as structured diagnostics"@
            },
            error != BooleanError::Unsupported ==> is_converted_error(
                e,
                KernelSubsystem::Boolean,
                KernelErrorKind::Validation,
                "boolean.error"@,
                "boolean operation failed"@,
                boolean_error_debug(error),
            ) && e.primary.notes@.len() == 0,
    {
        let text = boolean_error_text(&error);
        match error {
            BooleanError::Unsupported => {
                let e = Self::new(
                    KernelSubsystem::Boolean,
                    KernelErrorKind::Unsupported,
                    "boolean.unsupported",
                    "boolean operation is outside the supported kernel scope",
                ).with_source(text.as_str()).with_note(
                    "unsupported Boolean cases are reported as structured diagnostics",
                );
                assert(e.primary.notes@[0] == e.primary.notes@.last());
                e
            },
            _ => Self::new(
                KernelSubsystem::Boolean,
                KernelErrorKind::Validation,
                "boolean.error",
                "boolean operation failed",
            ).with_source(text.as_str()),
        }
    }

    /// Convert an Euler error: subsystem `Euler`, kind `Validation`, code
    /// `euler.error`, and the error's debug text as source.
    pub fn from_euler_error(error: EulerError) -> (e: Self)
        ensures
            is_converted_error(
                e,
                KernelSubsystem::Euler,
                KernelErrorKind::Validation,
                "euler.error"@,
                "Euler operation failed"@,
                euler_error_debug(error),
            ),
            e.primary.notes@.len() == 0,
    {
        let text = euler_error_text(&error);
        Self::new(
            KernelSubsystem::Euler,
            KernelErrorKind::Validation,
            "euler.error",
            "Euler operation failed",
        ).with_source(text.as_str())
    }

    /// Convert a feature error: subsystem `Feature`, kind `InvalidInput`,
    /// code `feature.error`, and the error's debug text as source.
    pub fn from_feature_error(error: FeatureError) -> (e: Self)
        ensures
            is_converted_error(
                e,
                KernelSubsystem::Feature,
                KernelErrorKind::InvalidInput,
                "feature.error"@,
                "feature operation failed"@,
                feature_error_debug(error),
            ),
            e.primary.notes@.len() == 0,
    {
        let text = feature_error_text(&error);
        Self::new(
            KernelSubsystem::Feature,
            KernelErrorKind::InvalidInput,
            "feature.error",
            "feature operation failed",
        ).with_source(text.as_str())
    }

    /// Convert a NURBS error: subsystem `Nurbs`, kind `Numerical`, code
    /// `nurbs.error`, and the error's debug text as source.
    pub fn from_nurbs_error(error: NurbsError) -> (e: Self)
        ensures
            is_converted_error(
                e,
                KernelSubsystem::Nurbs,
                KernelErrorKind::Numerical,
                "nurbs.error"@,
                "NURBS operation failed"@,
                nurbs_error_debug(error),
            ),
            e.primary.notes@.len() == 0,
    {
        let text = nurbs_error_text(&error);
        Self::new(
            KernelSubsystem::Nurbs,
            KernelErrorKind::Numerical,
            "nurbs.error",
            "NURBS operation failed",
        ).with_source(text.as_str())
    }
}

impl From<TopologyError> for KernelError {
    fn from(value: TopologyError) -> (e: Self)
        ensures
            is_converted_error(
                e,
                KernelSubsystem::Topology,
                KernelErrorKind::Topology,
                "topology.error"@,
                "topology operation failed"@,
                topology_error_debug(value),
            ),
            e.primary.notes@.len() == 0,
    {
        Self::from_topology_error(value)
    }
}

impl vstd::std_specs::convert::FromSpecImpl<TopologyError> for KernelError {
    open spec fn obeys_from_spec() -> bool {
        false
    }

    open spec fn from_spec(v: TopologyError) -> KernelError {
        arbitrary()
    }
}

impl From<BooleanError> for KernelError {
    fn from(value: BooleanError) -> (e: Self)
        ensures
            value == BooleanError::Unsupported ==> {
                &&& is_converted_error(
                    e,
                    KernelSubsystem::Boolean,
                    KernelErrorKind::Unsupported,
                    "boolean.unsupported"@,
                    "boolean operation is outside the supported kernel scope"@,
                    boolean_error_debug(value),
                )
                &&& e.primary.notes@.len() == 1
                &&& e.primary.notes@[0]@
                    == "unsupported Boolean cases are reported as structured diagnostics"@
            },
            value != BooleanError::Unsupported ==> is_converted_error(
                e,
                KernelSubsystem::Boolean,
                KernelErrorKind::Validation,
                "boolean.error"@,
                "boolean operation failed"@,
                boolean_error_debug(value),
            ) && e.primary.notes@.len() == 0,
    {
        Self::from_boolean_error(value)
    }
}

impl vstd::std_specs::convert::FromSpecImpl<BooleanError> for KernelError {
    open spec fn obeys_from_spec() -> bool {
        false
    }

    open spec fn from_spec(v: BooleanError) -> KernelError {
        arbitrary()
    }
}

impl From<EulerError> for KernelError {
    fn from(value: EulerError) -> (e: Self)
        ensures
            is_converted_error(
                e,
                KernelSubsystem::Euler,
                KernelErrorKind::Validation,
                "euler.error"@,
                "Euler operation failed"@,
                euler_error_debug(value),
            ),
            e.primary.notes@.len() == 0,
    {
        Self::from_euler_error(value)
    }
}

impl vstd::std_specs::convert::FromSpecImpl<EulerError> for KernelError {
    open spec fn obeys_from_spec() -> bool {
        false
    }

    open spec fn from_spec(v: EulerError) -> KernelError {
        arbitrary()
    }
}

impl From<FeatureError> for KernelError {
    fn from(value: FeatureError) -> (e: Self)
        ensures
            is_converted_error(
                e,
                KernelSubsystem::Feature,
                KernelErrorKind::InvalidInput,
                "feature.error"@,
                "feature operation failed"@,
                feature_error_debug(value),
            ),
            e.primary.notes@.len() == 0,
    {
        Self::from_feature_error(value)
    }
}

impl vstd::std_specs::convert::FromSpecImpl<FeatureError> for KernelError {
    open spec fn obeys_from_spec() -> bool {
        false
    }

    open spec fn from_spec(v: FeatureError) -> KernelError {
        arbitrary()
    }
}

impl From<NurbsError> for KernelError {
    fn from(value: NurbsError) -> (e: Self)
        ensures
            is_converted_error(
                e,
                KernelSubsystem::Nurbs,
                KernelErrorKind::Numerical,
                "nurbs.error"@,
                "NURBS operation failed"@,
                nurbs_error_debug(value),
            ),
            e.primary.notes@.len() == 0,
    {
        Self::from_nurbs_error(value)
    }
}

impl vstd::std_specs::convert::FromSpecImpl<NurbsError> for KernelError {
    open spec fn obeys_from_spec() -> bool {
        false
    }

    open spec fn from_spec(v: NurbsError) -> KernelError {
        arbitrary()
    }
}

/// The severity counts as an error: `Error` or `Fatal`.
pub open spec fn is_error_severity(severity: DiagnosticSeverity) -> bool {
    severity == DiagnosticSeverity::Error || severity == DiagnosticSeverity::Fatal
}

/// Number of diagnostics with the given severity class.
pub open spec fn severity_count(s: Seq<KernelDiagnostic>, errors: bool) -> nat
    decreases s.len(),
{
    if s.len() == 0 {
        0
    } else {
        let last = s.last().severity;
        let hit = if errors {
            is_error_severity(last)
        } else {
            last == DiagnosticSeverity::Warning
        };
        severity_count(s.drop_last(), errors) + if hit {
            1nat
        } else {
            0nat
        }
    }
}

/// The first error-severity diagnostic at or after `i`.
pub open spec fn first_error_index(s: Seq<KernelDiagnostic>, i: int) -> Option<int>
    decreases s.len() - i,
{
    if i < 0 || i >= s.len() {
        None
    } else if is_error_severity(s[i].severity) {
        Some(i)
    } else {
        first_error_index(s, i + 1)
    }
}

/// Ordered collection of diagnostics gathered while running an operation.
#[derive(Clone, Debug, PartialEq, Eq)]
pub struct KernelDiagnosticReport {
    diagnostics: Vec<KernelDiagnostic>,
}

impl View for KernelDiagnosticReport {
    type V = Seq<KernelDiagnostic>;

    closed spec fn view(&self) -> Seq<KernelDiagnostic> {
        self.diagnostics@
    }
}

impl KernelDiagnosticReport {
    /// Create an empty report.
    pub fn new() -> (r: Self)
        ensures
            r@.len() == 0,
    {
        Self { diagnostics: Vec::new() }
    }

    /// Append a diagnostic.
    pub fn with_diagnostic(self, diagnostic: KernelDiagnostic) -> (r: Self)
        ensures
            r@ == self@.push(diagnostic),
    {
        let mut r = self;
        r.diagnostics.push(diagnostic);
        r
    }

    /// Borrow the diagnostics in insertion order.
    pub fn diagnostics(&self) -> (d: &[KernelDiagnostic])
        ensures
            d@ == self@,
    {
        self.diagnostics.as_slice()
    }

    fn count(&self, errors: bool) -> (n: usize)
        ensures
            n == severity_count(self@, errors),
    {
        let mut n: usize = 0;
        let mut i: usize = 0;
        while i < self.diagnostics.len()
            invariant
                i <= self@.len(),
                self@ == self.diagnostics@,
                n == severity_count(self@.subrange(0, i as int), errors),
                n <= i,
            decreases self@.len() - i,
        {
            assert(self@.subrange(0, i + 1).drop_last() =~= self@.subrange(0, i as int));
            let severity = self.diagnostics[i].severity;
            let hit = if errors {
                severity == DiagnosticSeverity::Error || severity == DiagnosticSeverity::Fatal
            } else {
                severity == DiagnosticSeverity::Warning
            };
            if hit {
                n += 1;
            }
            i += 1;
        }
        assert(self@.subrange(0, i as int) =~= self@);
        n
    }

    /// Number of warning diagnostics.
    pub fn warning_count(&self) -> (n: usize)
        ensures
            n == severity_count(self@, false),
    {
        self.count(false)
    }

    /// Number of error or fatal diagnostics.
    pub fn error_count(&self) -> (n: usize)
        ensures
            n == severity_count(self@, true),
    {
        self.count(true)
    }

    /// `Ok(value)` when no diagnostic is an error; otherwise an error whose
    /// primary diagnostic is the first error and whose related diagnostics
    /// are all the others, in order.
    pub fn into_result<T>(self, value: T) -> (r: KernelResult<T>)
        ensures
            match first_error_index(self@, 0) {
                None => r == Ok::<T, KernelError>(value),
                Some(p) => r matches Err(e) && *e.primary == self@[p] && e.related@ == self@.remove(p),
            },
    {
        let ghost diags = self@;
        let mut i: usize = 0;
        while i < self.diagnostics.len()
            invariant
                i <= diags.len(),
                diags == self.diagnostics@,
                first_error_index(diags, 0) == first_error_index(diags, i as int),
            decreases diags.len() - i,
        {
            let severity = self.diagnostics[i].severity;
            if severity == DiagnosticSeverity::Error || severity == DiagnosticSeverity::Fatal {
                let mut related = self.diagnostics;
                let primary = related.remove(i);
                return Err(KernelError { primary: Box::new(primary), related });
            }
            i += 1;
        }
        Ok(value)
    }
}

} // verus!
