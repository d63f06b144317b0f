//! STEP and IGES exchange: the text layer of the faceted B-rep subset.
//!
//! The readers here take the exchange text apart (sections, entity records,
//! references, index fields) and assemble the faceted mesh it describes:
//! point identifiers in order and the triangles over them. Coordinates are
//! handed on as text; turning them into numbers is the caller's part, and a
//! caller reports a coordinate that does not read back through
//! `coordinate_errors`, so that the errors come in the order of the records.
use vstd::prelude::*;
use vstd::string::{StrSliceExecFns, StringExecFns};
use crate::errors::{
    DiagnosticSeverity, KernelEntityRef, KernelError, KernelErrorKind, KernelResult,
    KernelSubsystem,
};
use crate::euler::fan;
use crate::text::{
    chars_string, decimal, decimal_text, find_char, find_from, find_from_exec, first_index_of,
    has_prefix, int_error_text, is_digit, is_digit_char, last_index_of, lemma_find_from,
    lemma_first_index_of, lemma_last_index_of, occurs_at_exec, parse_usize_range, rfind_char,
    split_on, split_trimmed, str_chars, texts_view, trim_range, trimmed, trimmed_pieces,
    upper_chars, upper_text, usize_parse, IntErrorKind,
};

verus! {

/// Supported exchange format.
#[derive(Clone, Copy, Debug, PartialEq, Eq, Structural)]
pub enum ExchangeFormat {
    /// STEP Part 21 faceted B-rep subset.
    Step,
    /// Compact IGES faceted subset.
    Iges,
}

/// `e` is an exchange parse error (code `exchange.parse`, no related
/// diagnostics) with the given message, operation, STEP entity, source
/// and notes.
pub open spec fn exchange_error_shape(
    e: KernelError,
    message: Seq<char>,
    operation: Option<Seq<char>>,
    entity: Option<usize>,
    source: Option<Seq<char>>,
    notes: Seq<Seq<char>>,
) -> bool {
    &&& e.related@.len() == 0
    &&& e.primary.severity == DiagnosticSeverity::Error
    &&& e.primary.subsystem == KernelSubsystem::Exchange
    &&& e.primary.kind == KernelErrorKind::Parse
    &&& e.primary.code@ == "exchange.parse"@
    &&& e.primary.message@ == message
    &&& match operation {
        None => e.primary.operation is None,
        Some(op) => e.primary.operation matches Some(s) && s@ == op,
    }
    &&& match entity {
        None => e.primary.entity is None,
        Some(id) => e.primary.entity matches Some(KernelEntityRef::ExchangeEntity { format, id: i })
            && format@ == "STEP"@ && i == id,
    }
    &&& match source {
        None => e.primary.source is None,
        Some(src) => e.primary.source matches Some(s) && s@ == src,
    }
    &&& e.primary.notes@.len() == notes.len()
    &&& forall|i: int| 0 <= i < notes.len() ==> #[trigger] e.primary.notes@[i]@ == notes[i]
}

/// Construct an exchange parse error.
pub fn exchange_parse_error(message: &str) -> (e: KernelError)
    ensures
        exchange_error_shape(e, message@, None, None, None, seq![]),
{
    KernelError::new(KernelSubsystem::Exchange, KernelErrorKind::Parse, "exchange.parse", message)
}

/// Text of a STEP string literal: each `'` doubled.
pub open spec fn step_escaped(s: Seq<char>) -> Seq<char>
    decreases s.len(),
{
    if s.len() == 0 {
        seq![]
    } else if s.last() == '\'' {
        step_escaped(s.drop_last()) + seq!['\'', '\'']
    } else {
        step_escaped(s.drop_last()) + seq![s.last()]
    }
}

/// Escape a value for a STEP string literal.
pub fn step_string(value: &str) -> (escaped: String)
    ensures
        escaped@ == step_escaped(value@),
{
    let chars = str_chars(value);
    let mut out: Vec<char> = Vec::new();
    let mut i: usize = 0;
    while i < chars.len()
        invariant
            0 <= i <= chars@.len(),
            chars@ == value@,
            out@ == step_escaped(chars@.subrange(0, i as int)),
        decreases chars@.len() - i,
    {
        let c = chars[i];
        assert(chars@.subrange(0, i + 1).drop_last() =~= chars@.subrange(0, i as int));
        if c == '\'' {
            out.push('\'');
            out.push('\'');
        } else {
            out.push(c);
        }
        i = i + 1;
    }
    assert(chars@.subrange(0, i as int) =~= value@);
    chars_string(out.as_slice())
}

/// IGES token text: `,` and `;` become `_`.
pub open spec fn iges_token_text(s: Seq<char>) -> Seq<char> {
    s.map_values(|c: char| if c == ',' || c == ';' { '_' } else { c })
}

/// Sanitize a value for an IGES parameter token.
pub fn iges_token(value: &str) -> (token: String)
    ensures
        token@ == iges_token_text(value@),
{
    let chars = str_chars(value);
    let mut out: Vec<char> = Vec::new();
    let mut i: usize = 0;
    while i < chars.len()
        invariant
            0 <= i <= chars@.len(),
            chars@ == value@,
            out@ =~= iges_token_text(chars@.subrange(0, i as int)),
        decreases chars@.len() - i,
    {
        let c = chars[i];
        if c == ',' || c == ';' {
            out.push('_');
        } else {
            out.push(c);
        }
        i = i + 1;
    }
    assert(chars@.subrange(0, i as int) =~= value@);
    chars_string(out.as_slice())
}

/// Message of a failed unsigned-integer field.
pub open spec fn usize_field_message(field: Seq<char>) -> Seq<char> {
    "could not parse "@ + field + " as unsigned integer"@
}

/// `e` is the error of an unsigned-integer field that failed with `k`.
pub open spec fn usize_field_error(e: KernelError, field: Seq<char>, k: IntErrorKind) -> bool {
    exchange_error_shape(e, usize_field_message(field), None, None, Some(int_error_text(k)), seq![])
}

/// Parse the unsigned-integer field `s[lo..hi]`.
pub fn parse_usize_field(s: &[char], lo: usize, hi: usize, field: &str) -> (r: KernelResult<usize>)
    requires
        lo <= hi <= s@.len(),
    ensures
        match usize_parse(s@.subrange(lo as int, hi as int)) {
            Ok(v) => r == Ok::<usize, KernelError>(v as usize),
            Err(k) => r matches Err(e) && usize_field_error(e, field@, k),
        },
{
    match parse_usize_range(s, lo, hi) {
        Ok(v) => Ok(v),
        Err(k) => {
            let mut message = String::from_str("could not parse ");
            message.append(field);
            message.append(" as unsigned integer");
            let e = exchange_parse_error(message.as_str()).with_source(k.text());
            Err(e)
        },
    }
}

/// Parse an unsigned-integer field.
pub fn parse_usize(text: &str, field: &str) -> (r: KernelResult<usize>)
    ensures
        match usize_parse(text@) {
            Ok(v) => r == Ok::<usize, KernelError>(v as usize),
            Err(k) => r matches Err(e) && usize_field_error(e, field@, k),
        },
{
    let chars = str_chars(text);
    assert(chars@.subrange(0, chars@.len() as int) =~= text@);
    parse_usize_field(chars.as_slice(), 0, chars.len(), field)
}

/// End of the run of ASCII digits that starts at `i`.
pub open spec fn digit_run_end(s: Seq<char>, i: int) -> int
    decreases s.len() - i,
{
    if 0 <= i < s.len() && is_digit(s[i]) {
        digit_run_end(s, i + 1)
    } else {
        i
    }
}

pub proof fn lemma_digit_run_end(s: Seq<char>, i: int)
    requires
        0 <= i <= s.len(),
    ensures
        i <= digit_run_end(s, i) <= s.len(),
        forall|j: int| i <= j < digit_run_end(s, i) ==> is_digit(#[trigger] s[j]),
        digit_run_end(s, i) == s.len() || !is_digit(s[digit_run_end(s, i)]),
    decreases s.len() - i,
{
    if i < s.len() && is_digit(s[i]) {
        lemma_digit_run_end(s, i + 1);
    }
}

/// The `#n` references of a STEP entity body from position `i` on: each
/// `#` followed by a run of digits that reads as a `usize`.
pub open spec fn step_refs_from(s: Seq<char>, i: int) -> Seq<usize>
    decreases s.len() - i,
{
    if i < 0 || i >= s.len() {
        seq![]
    } else if s[i] != '#' {
        step_refs_from(s, i + 1)
    } else {
        let j = digit_run_end(s, i + 1);
        proof {
            lemma_digit_run_end(s, i + 1);
        }
        match usize_parse(s.subrange(i + 1, j)) {
            Ok(v) => seq![v as usize] + step_refs_from(s, j),
            Err(_) => step_refs_from(s, j),
        }
    }
}

/// The `#n` references of a STEP entity body.
pub open spec fn step_refs(s: Seq<char>) -> Seq<usize> {
    step_refs_from(s, 0)
}

/// The references of `s[lo..hi]`.
pub fn step_refs_range(s: &[char], lo: usize, hi: usize) -> (refs: Vec<usize>)
    requires
        lo <= hi <= s@.len(),
    ensures
        refs@ == step_refs(s@.subrange(lo as int, hi as int)),
{
    let ghost t = s@.subrange(lo as int, hi as int);
    let mut refs: Vec<usize> = Vec::new();
    let mut i = lo;
    while i < hi
        invariant
            lo <= i <= hi <= s@.len(),
            t == s@.subrange(lo as int, hi as int),
            step_refs(t) == refs@ + step_refs_from(t, i - lo),
        decreases hi - i,
    {
        if s[i] != '#' {
            assert(t[i - lo] == s@[i as int]);
            i = i + 1;
        } else {
            assert(t[i - lo] == '#');
            proof {
                lemma_digit_run_end(t, i - lo + 1);
            }
            let mut j = i + 1;
            while j < hi && is_digit_char(s[j])
                invariant
                    lo <= i < j <= hi <= s@.len(),
                    t == s@.subrange(lo as int, hi as int),
                    digit_run_end(t, i - lo + 1) == digit_run_end(t, j - lo),
                decreases hi - j,
            {
                assert(t[j - lo] == s@[j as int]);
                j = j + 1;
            }
            proof {
                if j < hi {
                    assert(t[j - lo] == s@[j as int]);
                }
                assert(t.subrange(i - lo + 1, j - lo) =~= s@.subrange(i + 1, j as int));
            }
            let parsed = parse_usize_range(s, i + 1, j);
            match parsed {
                Ok(v) => {
                    refs.push(v);
                },
                Err(_) => {},
            }
            proof {
                assert(refs@ + step_refs_from(t, j - lo) =~= step_refs(t));
            }
            i = j;
        }
    }
    refs
}

/// Extract the `#n` references of a STEP entity body.
pub fn parse_step_refs(body: &str) -> (refs: Vec<usize>)
    ensures
        refs@ == step_refs(body@),
{
    let chars = str_chars(body);
    assert(chars@.subrange(0, chars@.len() as int) =~= body@);
    step_refs_range(chars.as_slice(), 0, chars.len())
}

/// A poly-loop's references without the closing repeat of its first point.
pub open spec fn normalized_loop(refs: Seq<usize>) -> Seq<usize> {
    if refs.len() >= 2 && refs[0] == refs.last() {
        refs.drop_last()
    } else {
        refs
    }
}

/// Drop the closing repeat of a poly-loop's first reference.
pub fn normalize_loop_refs(point_refs: &[usize]) -> (r: &[usize])
    ensures
        r@ == normalized_loop(point_refs@),
{
    let n = point_refs.len();
    if n >= 2 && point_refs[0] == point_refs[n - 1] {
        let (head, _) = point_refs.split_at(n - 1);
        assert(head@ =~= point_refs@.drop_last());
        head
    } else {
        point_refs
    }
}

/// How one `;`-separated chunk of a STEP DATA section reads.
pub enum StepChunk {
    /// Blank, or not an entity instance (no leading `#`).
    Skip,
    /// Entity `#id=body`.
    Entity(usize, Seq<char>),
    /// A `#` record without `=`.
    MissingEquals,
    /// The identifier is not an unsigned integer.
    BadId(IntErrorKind),
}

/// Reading of one DATA chunk.
pub open spec fn step_chunk(chunk: Seq<char>) -> StepChunk {
    let e = trimmed(chunk);
    if e.len() == 0 || e[0] != '#' {
        StepChunk::Skip
    } else {
        let rest = e.drop_first();
        match first_index_of(rest, '=') {
            None => StepChunk::MissingEquals,
            Some(q) => match usize_parse(trimmed(rest.subrange(0, q))) {
                Ok(v) => StepChunk::Entity(
                    v as usize,
                    trimmed(rest.subrange(q + 1, rest.len() as int)),
                ),
                Err(k) => StepChunk::BadId(k),
            },
        }
    }
}

/// Entity table `s` with `(id, body)` stored: kept in increasing id order,
/// a later body for the same id replacing the earlier one.
pub open spec fn insert_entry<V>(s: Seq<(usize, V)>, id: usize, body: V) -> Seq<(usize, V)>
    decreases s.len(),
{
    if s.len() == 0 {
        seq![(id, body)]
    } else if s[0].0 < id {
        seq![s[0]] + insert_entry(s.drop_first(), id, body)
    } else if s[0].0 == id {
        seq![(id, body)] + s.drop_first()
    } else {
        seq![(id, body)] + s
    }
}

/// Why a STEP text has no entity table.
pub enum StepEntitiesError {
    /// No `DATA;` section.
    MissingData,
    /// The DATA section has no `ENDSEC;`.
    MissingDataEnd,
    /// A `#` record without `=`.
    MissingEquals,
    /// An identifier that is not an unsigned integer.
    BadId(IntErrorKind),
    /// The DATA section holds no entity.
    NoEntities,
}

/// The entity table of the chunks, read in order onto `acc`.
pub open spec fn step_entries_fold(chunks: Seq<Seq<char>>, acc: Seq<(usize, Seq<char>)>) -> Result<
    Seq<(usize, Seq<char>)>,
    StepEntitiesError,
>
    decreases chunks.len(),
{
    if chunks.len() == 0 {
        Ok(acc)
    } else {
        match step_chunk(chunks[0]) {
            StepChunk::Skip => step_entries_fold(chunks.drop_first(), acc),
            StepChunk::Entity(id, body) => step_entries_fold(
                chunks.drop_first(),
                insert_entry(acc, id, body),
            ),
            StepChunk::MissingEquals => Err(StepEntitiesError::MissingEquals),
            StepChunk::BadId(k) => Err(StepEntitiesError::BadId(k)),
        }
    }
}

/// The entity table of a STEP text, in increasing id order: the DATA
/// section runs from the first `DATA;` (ASCII case ignored) to the first
/// `ENDSEC;` after it, and is read chunk by chunk between `;`.
pub open spec fn step_entities(input: Seq<char>) -> Result<Seq<(usize, Seq<char>)>, StepEntitiesError> {
    let up = upper_text(input);
    match find_from(up, "DATA;"@, 0) {
        None => Err(StepEntitiesError::MissingData),
        Some(ds) => match find_from(up, "ENDSEC;"@, ds) {
            None => Err(StepEntitiesError::MissingDataEnd),
            Some(de) => match step_entries_fold(split_on(input.subrange(ds + 5, de), ';'), seq![]) {
                Ok(entries) => if entries.len() == 0 {
                    Err(StepEntitiesError::NoEntities)
                } else {
                    Ok(entries)
                },
                Err(e) => Err(e),
            },
        },
    }
}

/// The operation name that the STEP reader attaches.
pub open spec fn step_import_op() -> Option<Seq<char>> {
    Some("import_step_faceted_brep"@)
}

/// `e` is the error that reports `err`.
pub open spec fn step_entities_error(e: KernelError, err: StepEntitiesError) -> bool {
    match err {
        StepEntitiesError::MissingData => exchange_error_shape(
            e,
            "STEP input is missing DATA section"@,
            step_import_op(),
            None,
            None,
            seq![],
        ),
        StepEntitiesError::MissingDataEnd => exchange_error_shape(
            e,
            "STEP input is missing DATA ENDSEC"@,
            step_import_op(),
            None,
            None,
            seq![],
        ),
        StepEntitiesError::MissingEquals => exchange_error_shape(
            e,
            "STEP entity is missing `=`"@,
            step_import_op(),
            None,
            None,
            seq![],
        ),
        StepEntitiesError::BadId(k) => usize_field_error(e, "STEP entity id"@, k),
        StepEntitiesError::NoEntities => exchange_error_shape(
            e,
            "STEP DATA section contains no entities"@,
            step_import_op(),
            None,
            None,
            seq![],
        ),
    }
}

/// Entity table of exec values, as ids and body texts.
pub open spec fn entries_view(v: Seq<(usize, String)>) -> Seq<(usize, Seq<char>)> {
    v.map_values(|e: (usize, String)| (e.0, e.1@))
}

/// The ids of an entity table increase strictly.
pub open spec fn ids_increasing<V>(s: Seq<(usize, V)>) -> bool {
    forall|i: int, j: int| 0 <= i < j < s.len() ==> s[i].0 < s[j].0
}

pub proof fn lemma_insert_entry_split<V>(s: Seq<(usize, V)>, id: usize, body: V, i: int)
    requires
        0 <= i <= s.len(),
        forall|j: int| 0 <= j < i ==> s[j].0 < id,
    ensures
        insert_entry(s, id, body) == s.subrange(0, i) + insert_entry(
            s.subrange(i, s.len() as int),
            id,
            body,
        ),
    decreases i,
{
    if i > 0 {
        let t = s.drop_first();
        lemma_insert_entry_split(t, id, body, i - 1);
        assert(t.subrange(i - 1, t.len() as int) =~= s.subrange(i, s.len() as int));
        assert(s.subrange(0, i) =~= seq![s[0]] + t.subrange(0, i - 1));
    } else {
        assert(s.subrange(0, 0) + insert_entry(s.subrange(0, s.len() as int), id, body)
            =~= insert_entry(s, id, body)) by {
            assert(s.subrange(0, s.len() as int) =~= s);
        }
    }
}

pub proof fn lemma_insert_entry_increasing<V>(s: Seq<(usize, V)>, id: usize, body: V)
    requires
        ids_increasing(s),
    ensures
        ids_increasing(insert_entry(s, id, body)),
        insert_entry(s, id, body).len() > 0,
        forall|k: int|
            0 <= k < insert_entry(s, id, body).len() ==> (insert_entry(s, id, body)[k].0 == id
                || exists|j: int| 0 <= j < s.len() && s[j].0 == #[trigger] insert_entry(s, id, body)[k].0),
    decreases s.len(),
{
    let r = insert_entry(s, id, body);
    if s.len() > 0 {
        let t = s.drop_first();
        assert(ids_increasing(t)) by {
            assert forall|i: int, j: int| 0 <= i < j < t.len() implies t[i].0 < t[j].0 by {
                assert(t[i] == s[i + 1] && t[j] == s[j + 1]);
            }
        }
        if s[0].0 < id {
            lemma_insert_entry_increasing(t, id, body);
            let rt = insert_entry(t, id, body);
            assert(r == seq![s[0]] + rt);
            assert forall|k: int| 0 < k < r.len() implies s[0].0 < #[trigger] r[k].0 by {
                assert(r[k] == rt[k - 1]);
                if rt[k - 1].0 != id {
                    let j = choose|j: int| 0 <= j < t.len() && t[j].0 == rt[k - 1].0;
                    assert(t[j] == s[j + 1]);
                }
            }
            assert forall|k: int| 0 <= k < r.len() implies (r[k].0 == id || exists|j: int|
                0 <= j < s.len() && s[j].0 == #[trigger] r[k].0) by {
                if k == 0 {
                    assert(s[0].0 == r[0].0);
                } else {
                    assert(r[k] == rt[k - 1]);
                    if rt[k - 1].0 != id {
                        let j = choose|j: int| 0 <= j < t.len() && t[j].0 == rt[k - 1].0;
                        assert(t[j] == s[j + 1]);
                        assert(s[j + 1].0 == r[k].0);
                    }
                }
            }
        } else if s[0].0 == id {
            assert forall|k: int| 0 <= k < r.len() implies (r[k].0 == id || exists|j: int|
                0 <= j < s.len() && s[j].0 == #[trigger] r[k].0) by {
                if k > 0 {
                    assert(r[k] == s[k]);
                }
            }
        } else {
            assert forall|k: int| 0 <= k < r.len() implies (r[k].0 == id || exists|j: int|
                0 <= j < s.len() && s[j].0 == #[trigger] r[k].0) by {
                if k > 0 {
                    assert(r[k] == s[k - 1]);
                }
            }
        }
    }
}

/// Store `(id, body)` in an increasing entity table.
fn insert_entry_exec(entries: &mut Vec<(usize, String)>, id: usize, body: String)
    ensures
        entries_view(final(entries)@) == insert_entry(entries_view(old(entries)@), id, body@),
{
    let ghost v0 = entries_view(entries@);
    let mut i: usize = 0;
    while i < entries.len() && entries[i].0 < id
        invariant
            0 <= i <= entries@.len(),
            v0 == entries_view(entries@),
            forall|j: int| 0 <= j < i ==> v0[j].0 < id,
        decreases entries@.len() - i,
    {
        i = i + 1;
    }
    proof {
        lemma_insert_entry_split(v0, id, body@, i as int);
    }
    let ghost tail = v0.subrange(i as int, v0.len() as int);
    if i < entries.len() && entries[i].0 == id {
        entries.set(i, (id, body));
        proof {
            assert(tail[0] == v0[i as int]);
            assert(entries_view(entries@) =~= v0.subrange(0, i as int) + (seq![(id, body@)]
                + tail.drop_first()));
        }
    } else {
        entries.insert(i, (id, body));
        proof {
            if i < v0.len() {
                assert(tail[0] == v0[i as int]);
            }
            assert(entries_view(entries@) =~= v0.subrange(0, i as int) + (seq![(id, body@)]
                + tail));
        }
    }
}

/// Reading of the DATA chunk `s[lo..hi]`: `Ok(None)` to skip it,
/// `Ok(Some((id, body)))` for an entity.
fn read_step_chunk(s: &[char], lo: usize, hi: usize) -> (r: KernelResult<Option<(usize, String)>>)
    requires
        lo <= hi <= s@.len(),
    ensures
        match step_chunk(s@.subrange(lo as int, hi as int)) {
            StepChunk::Skip => r matches Ok(None),
            StepChunk::Entity(id, body) => r matches Ok(Some(entity)) && entity.0 == id
                && entity.1@ == body,
            StepChunk::MissingEquals => r matches Err(e) && step_entities_error(
                e,
                StepEntitiesError::MissingEquals,
            ),
            StepChunk::BadId(k) => r matches Err(e) && step_entities_error(
                e,
                StepEntitiesError::BadId(k),
            ),
        },
{
    let (a, b) = trim_range(s, lo, hi);
    if a == b || s[a] != '#' {
        return Ok(None);
    }
    let ghost e = s@.subrange(a as int, b as int);
    let ghost rest = e.drop_first();
    assert(rest =~= s@.subrange(a + 1, b as int));
    proof {
        lemma_first_index_of(rest, '=');
    }
    match find_char(s, '=', a + 1, b) {
        None => Err(
            exchange_parse_error("STEP entity is missing `=`").with_operation(
                "import_step_faceted_brep",
            ),
        ),
        Some(q) => {
            let (ia, ib) = trim_range(s, a + 1, q);
            assert(rest.subrange(0, q - (a + 1)) =~= s@.subrange(a + 1, q as int));
            let id = parse_usize_field(s, ia, ib, "STEP entity id")?;
            let (ba, bb) = trim_range(s, q + 1, b);
            assert(rest.subrange(q - (a + 1) + 1, rest.len() as int) =~= s@.subrange(
                q + 1,
                b as int,
            ));
            let body = chars_string(&s[ba..bb]);
            Ok(Some((id, body)))
        },
    }
}

pub proof fn lemma_step_data_bounds(input: Seq<char>)
    ensures
        match find_from(upper_text(input), "DATA;"@, 0) {
            Some(ds) => match find_from(upper_text(input), "ENDSEC;"@, ds) {
                Some(de) => 0 <= ds && ds + 5 <= de <= input.len(),
                None => true,
            },
            None => true,
        },
{
    let up = upper_text(input);
    lemma_find_from(up, "DATA;"@, 0);
    match find_from(up, "DATA;"@, 0) {
        Some(ds) => {
            lemma_find_from(up, "ENDSEC;"@, ds);
            match find_from(up, "ENDSEC;"@, ds) {
                Some(de) => {
                    reveal_strlit("DATA;");
                    reveal_strlit("ENDSEC;");
                    if de < ds + 5 {
                        assert(up.subrange(ds, ds + 5)[de - ds] == up[de]);
                        assert(up.subrange(de, de + 7)[0] == up[de]);
                    }
                },
                None => {},
            }
        },
        None => {},
    }
}

/// Read the entity table of a STEP Part 21 text.
#[verifier::spinoff_prover]
#[verifier::rlimit(40)]
pub fn parse_step_entities(input: &str) -> (r: KernelResult<Vec<(usize, String)>>)
    ensures
        match step_entities(input@) {
            Ok(entries) => r matches Ok(v) && entries_view(v@) == entries,
            Err(err) => r matches Err(e) && step_entities_error(e, err),
        },
        r matches Ok(v) ==> ids_increasing(entries_view(v@)),
{
    let chars = str_chars(input);
    let n = chars.len();
    let upper = upper_chars(chars.as_slice(), 0, n);
    assert(chars@.subrange(0, n as int) =~= input@);
    let data_pat = str_chars("DATA;");
    let end_pat = str_chars("ENDSEC;");
    proof {
        lemma_step_data_bounds(input@);
    }
    assert(upper@ == upper_text(input@));
    let ds = match find_from_exec(upper.as_slice(), data_pat.as_slice(), 0) {
        None => {
            return Err(
                exchange_parse_error("STEP input is missing DATA section").with_operation(
                    "import_step_faceted_brep",
                ),
            );
        },
        Some(ds) => ds,
    };
    let de = match find_from_exec(upper.as_slice(), end_pat.as_slice(), ds) {
        None => {
            return Err(
                exchange_parse_error("STEP input is missing DATA ENDSEC").with_operation(
                    "import_step_faceted_brep",
                ),
            );
        },
        Some(de) => de,
    };
    assert(data_pat@ == "DATA;"@);
    assert(find_from(upper_text(input@), "DATA;"@, 0) == Some(ds as int));
    assert(find_from(upper_text(input@), "ENDSEC;"@, ds as int) == Some(de as int));
    assert(ds + 5 <= de);
    let ghost data = input@.subrange(ds + 5, de as int);
    let mut entries: Vec<(usize, String)> = Vec::new();
    let mut start = ds + 5;
    assert(chars@.subrange(start as int, de as int) =~= data);
    assert(entries_view(entries@) =~= Seq::<(usize, Seq<char>)>::empty());
    loop
        invariant_except_break
            step_entries_fold(split_on(data, ';'), seq![]) == step_entries_fold(
                split_on(chars@.subrange(start as int, de as int), ';'),
                entries_view(entries@),
            ),
        invariant
            ds + 5 <= start <= de <= n,
            n == chars@.len(),
            chars@ == input@,
            data == input@.subrange(ds + 5, de as int),
            ids_increasing(entries_view(entries@)),
            find_from(upper_text(input@), "DATA;"@, 0) == Some(ds as int),
            find_from(upper_text(input@), "ENDSEC;"@, ds as int) == Some(de as int),
        ensures
            step_entries_fold(split_on(data, ';'), seq![]) == Ok::<
                Seq<(usize, Seq<char>)>,
                StepEntitiesError,
            >(entries_view(entries@)),
        decreases de - start,
    {
        let ghost t = chars@.subrange(start as int, de as int);
        let semi = find_char(chars.as_slice(), ';', start, de);
        let chunk_end = match semi {
            Some(k) => k,
            None => de,
        };
        proof {
            lemma_first_index_of(t, ';');
            match semi {
                Some(k) => {
                    assert(t.subrange(0, k - start) =~= chars@.subrange(start as int, k as int));
                    assert(t.subrange(k - start + 1, t.len() as int) =~= chars@.subrange(
                        k + 1,
                        de as int,
                    ));
                    let pieces = split_on(t, ';');
                    assert(pieces[0] == chars@.subrange(start as int, k as int));
                    assert(pieces.drop_first() =~= split_on(
                        chars@.subrange(k + 1, de as int),
                        ';',
                    ));
                },
                None => {
                    assert(split_on(t, ';') == seq![t]);
                    assert(seq![t].drop_first() =~= Seq::<Seq<char>>::empty());
                },
            }
        }
        let ghost pieces = split_on(t, ';');
        let ghost acc0 = entries_view(entries@);
        assert(pieces.len() > 0 && pieces[0] == chars@.subrange(start as int, chunk_end as int));
        let read = read_step_chunk(chars.as_slice(), start, chunk_end);
        match read {
            Err(e) => {
                assert(step_entries_fold(pieces, acc0) == step_entries_fold(split_on(data, ';'), seq![]));
                assert(step_entries_fold(pieces, acc0) matches Err(_));
                return Err(e);
            },
            Ok(None) => {},
            Ok(Some(entity)) => {
                let (id, body) = entity;
                proof {
                    lemma_insert_entry_increasing(entries_view(entries@), id, body@);
                }
                insert_entry_exec(&mut entries, id, body);
            },
        }
        proof {
            let rest = pieces.drop_first();
            match step_chunk(pieces[0]) {
                StepChunk::Skip => {
                    assert(step_entries_fold(pieces, acc0) == step_entries_fold(rest, acc0));
                },
                StepChunk::Entity(id, body) => {
                    assert(step_entries_fold(pieces, acc0) == step_entries_fold(
                        rest,
                        insert_entry(acc0, id, body),
                    ));
                },
                _ => {},
            }
            if semi is None {
                assert(rest.len() == 0);
                assert(step_entries_fold(rest, entries_view(entries@)) == Ok::<
                    Seq<(usize, Seq<char>)>,
                    StepEntitiesError,
                >(entries_view(entries@)));
            }
        }
        match semi {
            None => {
                break ;
            },
            Some(k) => {
                start = k + 1;
            },
        }
    }
    if entries.len() == 0 {
        return Err(
            exchange_parse_error("STEP DATA section contains no entities").with_operation(
                "import_step_faceted_brep",
            ),
        );
    }
    Ok(entries)
}

/// Record type of a STEP entity, read from the start of its body.
#[derive(Clone, Copy, Debug, PartialEq, Eq, Structural)]
pub enum StepEntityKind {
    /// `CARTESIAN_POINT`.
    CartesianPoint,
    /// `POLY_LOOP`.
    PolyLoop,
    /// `FACE_OUTER_BOUND`.
    FaceOuterBound,
    /// `FACE(`.
    Face,
    /// Any other record.
    Other,
}

/// Record type of an entity body (ASCII case ignored).
pub open spec fn step_entity_kind_of(body: Seq<char>) -> StepEntityKind {
    let up = upper_text(body);
    if has_prefix(up, "CARTESIAN_POINT"@) {
        StepEntityKind::CartesianPoint
    } else if has_prefix(up, "POLY_LOOP"@) {
        StepEntityKind::PolyLoop
    } else if has_prefix(up, "FACE_OUTER_BOUND"@) {
        StepEntityKind::FaceOuterBound
    } else if has_prefix(up, "FACE("@) {
        StepEntityKind::Face
    } else {
        StepEntityKind::Other
    }
}

/// Record type of an entity body.
pub fn step_entity_kind(body: &str) -> (k: StepEntityKind)
    ensures
        k == step_entity_kind_of(body@),
{
    let chars = str_chars(body);
    let up = upper_chars(chars.as_slice(), 0, chars.len());
    assert(chars@.subrange(0, chars@.len() as int) =~= body@);
    let point = str_chars("CARTESIAN_POINT");
    let poly = str_chars("POLY_LOOP");
    let bound = str_chars("FACE_OUTER_BOUND");
    let face = str_chars("FACE(");
    if occurs_at_exec(up.as_slice(), point.as_slice(), 0) {
        StepEntityKind::CartesianPoint
    } else if occurs_at_exec(up.as_slice(), poly.as_slice(), 0) {
        StepEntityKind::PolyLoop
    } else if occurs_at_exec(up.as_slice(), bound.as_slice(), 0) {
        StepEntityKind::FaceOuterBound
    } else if occurs_at_exec(up.as_slice(), face.as_slice(), 0) {
        StepEntityKind::Face
    } else {
        StepEntityKind::Other
    }
}

/// Why a `CARTESIAN_POINT` body has no coordinate triple.
#[derive(Clone, Copy, Debug, PartialEq, Eq, Structural)]
pub enum StepPointError {
    /// No `(`.
    MissingTuple,
    /// No `)` after the last `(`.
    UnclosedTuple,
    /// Not three comma-separated coordinates.
    WrongArity,
}

/// The coordinate texts of a point body: the comma-separated, trimmed
/// pieces between its last `(` and the first `)` after it.
pub open spec fn step_point_coords(body: Seq<char>) -> Result<Seq<Seq<char>>, StepPointError> {
    match last_index_of(body, '(') {
        None => Err(StepPointError::MissingTuple),
        Some(start) => match first_index_of(body.subrange(start, body.len() as int), ')') {
            None => Err(StepPointError::UnclosedTuple),
            Some(off) => {
                let coords = trimmed_pieces(body.subrange(start + 1, start + off), ',');
                if coords.len() == 3 {
                    Ok(coords)
                } else {
                    Err(StepPointError::WrongArity)
                }
            },
        },
    }
}

/// Message of a point-body failure.
pub open spec fn step_point_message(k: StepPointError) -> Seq<char> {
    match k {
        StepPointError::MissingTuple => "STEP point is missing coordinate tuple"@,
        StepPointError::UnclosedTuple => "STEP point coordinate tuple is not closed"@,
        StepPointError::WrongArity => "STEP point must contain exactly three coordinates"@,
    }
}

/// The three coordinate texts of a `CARTESIAN_POINT` body.
pub fn step_point_coordinates(body: &str) -> (r: KernelResult<Vec<String>>)
    ensures
        match step_point_coords(body@) {
            Ok(c) => r matches Ok(v) && texts_view(v@) == c,
            Err(k) => r matches Err(e) && exchange_error_shape(
                e,
                step_point_message(k),
                None,
                None,
                None,
                seq![],
            ),
        },
{
    let chars = str_chars(body);
    let n = chars.len();
    assert(chars@.subrange(0, n as int) =~= body@);
    proof {
        lemma_last_index_of(body@, '(');
    }
    let start = match rfind_char(chars.as_slice(), '(', 0, n) {
        None => {
            return Err(exchange_parse_error("STEP point is missing coordinate tuple"));
        },
        Some(start) => start,
    };
    let ghost tail = body@.subrange(start as int, n as int);
    proof {
        lemma_first_index_of(tail, ')');
    }
    let end = match find_char(chars.as_slice(), ')', start, n) {
        None => {
            return Err(exchange_parse_error("STEP point coordinate tuple is not closed"));
        },
        Some(end) => end,
    };
    assert(tail[0] == '(');
    assert(start + 1 <= end);
    assert(body@.subrange(start + 1, end as int) =~= chars@.subrange(start + 1, end as int));
    let coords = split_trimmed(chars.as_slice(), start + 1, end, ',');
    if coords.len() != 3 {
        return Err(exchange_parse_error("STEP point must contain exactly three coordinates"));
    }
    Ok(coords)
}

/// First value stored under `k` in an association list.
pub open spec fn lookup<V>(s: Seq<(usize, V)>, k: usize) -> Option<V>
    decreases s.len(),
{
    if s.len() == 0 {
        None
    } else if s[0].0 == k {
        Some(s[0].1)
    } else {
        lookup(s.drop_first(), k)
    }
}

/// Position of the first `x` in `s`.
pub open spec fn position_of(s: Seq<usize>, x: usize) -> Option<int>
    decreases s.len(),
{
    if s.len() == 0 {
        None
    } else if s[0] == x {
        Some(0)
    } else {
        match position_of(s.drop_first(), x) {
            Some(i) => Some(i + 1),
            None => None,
        }
    }
}

/// What the STEP reader has gathered, entity by entity.
pub struct StepScan {
    /// Point ids, in entity order.
    pub points: Seq<usize>,
    /// Coordinate texts of each point.
    pub coords: Seq<Seq<Seq<char>>>,
    /// Poly-loops with their references.
    pub loops: Seq<(usize, Seq<usize>)>,
    /// Face bounds with their poly-loop reference.
    pub bounds: Seq<(usize, usize)>,
    /// Outer-bound reference of each face, in entity order.
    pub face_bounds: Seq<usize>,
}

/// Why a STEP text does not give a faceted mesh.
pub enum StepImportError {
    /// The entity table could not be read.
    Entities(StepEntitiesError),
    /// A point body without a coordinate triple.
    PointShape(usize, StepPointError),
    /// A coordinate that the caller could not read, with the caller's error.
    PointValue(usize, KernelError),
    /// A face bound without reference.
    BoundWithoutLoop(usize),
    /// A face without reference.
    FaceWithoutBound(usize),
    /// No point or no face.
    NoPointsOrFaces,
    /// A face refers to a missing face bound.
    MissingBound(usize),
    /// A face bound refers to a missing poly-loop.
    MissingLoop(usize),
    /// A poly-loop with fewer than three points.
    ShortLoop(usize),
    /// A poly-loop refers to a missing point.
    MissingPoint(usize),
}

/// The scan after entity `(id, body)`; `errs` holds the caller's
/// coordinate errors by point id.
pub open spec fn step_scan_entity(
    st: StepScan,
    id: usize,
    body: Seq<char>,
    errs: Seq<(usize, KernelError)>,
) -> Result<StepScan, StepImportError> {
    match step_entity_kind_of(body) {
        StepEntityKind::CartesianPoint => match step_point_coords(body) {
            Err(k) => Err(StepImportError::PointShape(id, k)),
            Ok(c) => match lookup(errs, id) {
                Some(e) => Err(StepImportError::PointValue(id, e)),
                None => Ok(StepScan { points: st.points.push(id), coords: st.coords.push(c), ..st }),
            },
        },
        StepEntityKind::PolyLoop => Ok(StepScan { loops: st.loops.push((id, step_refs(body))), ..st }),
        StepEntityKind::FaceOuterBound => if step_refs(body).len() == 0 {
            Err(StepImportError::BoundWithoutLoop(id))
        } else {
            Ok(StepScan { bounds: st.bounds.push((id, step_refs(body)[0])), ..st })
        },
        StepEntityKind::Face => if step_refs(body).len() == 0 {
            Err(StepImportError::FaceWithoutBound(id))
        } else {
            Ok(StepScan { face_bounds: st.face_bounds.push(step_refs(body)[0]), ..st })
        },
        StepEntityKind::Other => Ok(st),
    }
}

/// The scan over entities, in order, from `st`.
pub open spec fn step_scan(
    entries: Seq<(usize, Seq<char>)>,
    errs: Seq<(usize, KernelError)>,
    st: StepScan,
) -> Result<StepScan, StepImportError>
    decreases entries.len(),
{
    if entries.len() == 0 {
        Ok(st)
    } else {
        match step_scan_entity(st, entries[0].0, entries[0].1, errs) {
            Ok(next) => step_scan(entries.drop_first(), errs, next),
            Err(e) => Err(e),
        }
    }
}

/// The empty scan.
pub open spec fn empty_scan() -> StepScan {
    StepScan {
        points: seq![],
        coords: seq![],
        loops: seq![],
        bounds: seq![],
        face_bounds: seq![],
    }
}

/// Point positions of the references, or the first reference that is no
/// point.
pub open spec fn loop_indices(points: Seq<usize>, refs: Seq<usize>) -> Result<Seq<usize>, usize>
    decreases refs.len(),
{
    if refs.len() == 0 {
        Ok(seq![])
    } else {
        match position_of(points, refs[0]) {
            None => Err(refs[0]),
            Some(i) => match loop_indices(points, refs.drop_first()) {
                Ok(rest) => Ok(seq![i as usize] + rest),
                Err(r) => Err(r),
            },
        }
    }
}

/// The fan triangles of the faces with the given outer bounds, in order.
pub open spec fn step_face_triangles(st: StepScan, face_bounds: Seq<usize>) -> Result<
    Seq<[usize; 3]>,
    StepImportError,
>
    decreases face_bounds.len(),
{
    if face_bounds.len() == 0 {
        Ok(seq![])
    } else {
        let b = face_bounds[0];
        match lookup(st.bounds, b) {
            None => Err(StepImportError::MissingBound(b)),
            Some(l) => match lookup(st.loops, l) {
                None => Err(StepImportError::MissingLoop(l)),
                Some(refs) => {
                    let lv = normalized_loop(refs);
                    if lv.len() < 3 {
                        Err(StepImportError::ShortLoop(l))
                    } else {
                        match loop_indices(st.points, lv) {
                            Err(p) => Err(StepImportError::MissingPoint(p)),
                            Ok(idx) => match step_face_triangles(st, face_bounds.drop_first()) {
                                Ok(rest) => Ok(fan(idx) + rest),
                                Err(e) => Err(e),
                            },
                        }
                    }
                },
            },
        }
    }
}

/// The faceted mesh of a STEP text: point ids, their coordinate texts and
/// the triangles over point positions.
pub open spec fn step_mesh(input: Seq<char>, errs: Seq<(usize, KernelError)>) -> Result<
    (Seq<usize>, Seq<Seq<Seq<char>>>, Seq<[usize; 3]>),
    StepImportError,
> {
    match step_entities(input) {
        Err(e) => Err(StepImportError::Entities(e)),
        Ok(entries) => match step_scan(entries, errs, empty_scan()) {
            Err(e) => Err(e),
            Ok(st) => if st.points.len() == 0 || st.face_bounds.len() == 0 {
                Err(StepImportError::NoPointsOrFaces)
            } else {
                match step_face_triangles(st, st.face_bounds) {
                    Err(e) => Err(e),
                    Ok(tris) => Ok((st.points, st.coords, tris)),
                }
            },
        },
    }
}

/// `e` is the caller's error `inner` with the reader's operation and the
/// STEP entity `id` attached.
pub open spec fn attached_error(e: KernelError, inner: KernelError, id: usize) -> bool {
    &&& e.related == inner.related
    &&& e.primary.operation matches Some(s) && s@ == "import_step_faceted_brep"@
    &&& e.primary.entity matches Some(KernelEntityRef::ExchangeEntity { format, id: i })
        && format@ == "STEP"@ && i == id
    &&& *e.primary == (crate::errors::KernelDiagnostic {
        operation: e.primary.operation,
        entity: e.primary.entity,
        ..*inner.primary
    })
}

/// `e` is the error that reports `err`.
pub open spec fn step_import_error(e: KernelError, err: StepImportError) -> bool {
    let op = step_import_op();
    match err {
        StepImportError::Entities(x) => step_entities_error(e, x),
        StepImportError::PointShape(id, k) => exchange_error_shape(
            e,
            step_point_message(k),
            op,
            Some(id),
            None,
            seq![],
        ),
        StepImportError::PointValue(id, inner) => attached_error(e, inner, id),
        StepImportError::BoundWithoutLoop(id) => exchange_error_shape(
            e,
            "STEP face bound is missing its poly-loop reference"@,
            op,
            Some(id),
            None,
            seq![],
        ),
        StepImportError::FaceWithoutBound(id) => exchange_error_shape(
            e,
            "STEP face is missing its outer-bound reference"@,
            op,
            Some(id),
            None,
            seq![],
        ),
        StepImportError::NoPointsOrFaces => exchange_error_shape(
            e,
            "STEP input did not contain points and faces"@,
            op,
            None,
            None,
            seq![],
        ),
        StepImportError::MissingBound(id) => exchange_error_shape(
            e,
            "STEP face references a missing face bound"@,
            op,
            Some(id),
            None,
            seq![],
        ),
        StepImportError::MissingLoop(id) => exchange_error_shape(
            e,
            "STEP face bound references a missing poly-loop"@,
            op,
            Some(id),
            None,
            seq![],
        ),
        StepImportError::ShortLoop(id) => exchange_error_shape(
            e,
            "STEP poly-loop has fewer than three vertices"@,
            op,
            Some(id),
            None,
            seq![],
        ),
        StepImportError::MissingPoint(id) => exchange_error_shape(
            e,
            "STEP poly-loop references a missing point"@,
            op,
            Some(id),
            None,
            seq![],
        ),
    }
}

/// The faceted mesh that an exchange text describes.
#[derive(Clone, Debug, PartialEq, Eq)]
pub struct FacetedMesh {
    /// Exchange ids of the points; point `i` of the mesh is the `i`-th.
    pub point_ids: Vec<usize>,
    /// The three coordinate texts of each point.
    pub point_coordinates: Vec<Vec<String>>,
    /// Triangles over point positions.
    pub triangles: Vec<[usize; 3]>,
}

/// Attach the reader's operation and a STEP entity to an error.
fn at_step_entity(e: KernelError, id: usize) -> (r: KernelError)
    ensures
        attached_error(r, e, id),
{
    e.with_operation("import_step_faceted_brep").with_entity(
        KernelEntityRef::ExchangeEntity { format: String::from_str("STEP"), id },
    )
}

pub proof fn lemma_lookup_first<V>(s: Seq<(usize, V)>, k: usize, j: int)
    requires
        0 <= j < s.len(),
        s[j].0 == k,
        forall|i: int| 0 <= i < j ==> s[i].0 != k,
    ensures
        lookup(s, k) == Some(s[j].1),
    decreases j,
{
    if j > 0 {
        let t = s.drop_first();
        assert forall|i: int| 0 <= i < j - 1 implies t[i].0 != k by {
            assert(t[i] == s[i + 1]);
        }
        lemma_lookup_first(t, k, j - 1);
    }
}

pub proof fn lemma_lookup_none<V>(s: Seq<(usize, V)>, k: usize)
    requires
        forall|i: int| 0 <= i < s.len() ==> s[i].0 != k,
    ensures
        lookup(s, k) is None,
    decreases s.len(),
{
    if s.len() > 0 {
        let t = s.drop_first();
        assert forall|i: int| 0 <= i < t.len() implies t[i].0 != k by {
            assert(t[i] == s[i + 1]);
        }
        lemma_lookup_none(t, k);
    }
}

pub proof fn lemma_position_first(s: Seq<usize>, x: usize, j: int)
    requires
        0 <= j < s.len(),
        s[j] == x,
        forall|i: int| 0 <= i < j ==> s[i] != x,
    ensures
        position_of(s, x) == Some(j),
    decreases j,
{
    if j > 0 {
        let t = s.drop_first();
        assert forall|i: int| 0 <= i < j - 1 implies t[i] != x by {
            assert(t[i] == s[i + 1]);
        }
        lemma_position_first(t, x, j - 1);
    }
}

pub proof fn lemma_position_none(s: Seq<usize>, x: usize)
    requires
        forall|i: int| 0 <= i < s.len() ==> s[i] != x,
    ensures
        position_of(s, x) is None,
    decreases s.len(),
{
    if s.len() > 0 {
        let t = s.drop_first();
        assert forall|i: int| 0 <= i < t.len() implies t[i] != x by {
            assert(t[i] == s[i + 1]);
        }
        lemma_position_none(t, x);
    }
}

/// Index of the first entry with key `k`.
pub(crate) fn first_key_index<V>(s: &[(usize, V)], k: usize) -> (r: Option<usize>)
    ensures
        match r {
            Some(j) => j < s@.len() && s@[j as int].0 == k && forall|i: int|
                0 <= i < j ==> s@[i].0 != k,
            None => forall|i: int| 0 <= i < s@.len() ==> s@[i].0 != k,
        },
{
    let mut j: usize = 0;
    while j < s.len()
        invariant
            0 <= j <= s@.len(),
            forall|i: int| 0 <= i < j ==> s@[i].0 != k,
        decreases s@.len() - j,
    {
        if s[j].0 == k {
            return Some(j);
        }
        j = j + 1;
    }
    None
}

/// Index of the first `x` in `s`.
fn first_position(s: &[usize], x: usize) -> (r: Option<usize>)
    ensures
        match r {
            Some(j) => position_of(s@, x) == Some(j as int),
            None => position_of(s@, x) is None,
        },
{
    let mut j: usize = 0;
    while j < s.len()
        invariant
            0 <= j <= s@.len(),
            forall|i: int| 0 <= i < j ==> s@[i] != x,
        decreases s@.len() - j,
    {
        if s[j] == x {
            proof {
                lemma_position_first(s@, x, j as int);
            }
            return Some(j);
        }
        j = j + 1;
    }
    proof {
        lemma_position_none(s@, x);
    }
    None
}

/// The STEP reader's gathered records.
struct StepScanState {
    points: Vec<usize>,
    coords: Vec<Vec<String>>,
    loops: Vec<(usize, Vec<usize>)>,
    bounds: Vec<(usize, usize)>,
    face_bounds: Vec<usize>,
}

impl View for StepScanState {
    type V = StepScan;

    closed spec fn view(&self) -> StepScan {
        StepScan {
            points: self.points@,
            coords: self.coords@.map_values(|c: Vec<String>| texts_view(c@)),
            loops: self.loops@.map_values(|e: (usize, Vec<usize>)| (e.0, e.1@)),
            bounds: self.bounds@,
            face_bounds: self.face_bounds@,
        }
    }
}

pub proof fn lemma_attached_shape(e: KernelError, r: KernelError, id: usize, message: Seq<char>)
    requires
        exchange_error_shape(e, message, None, None, None, seq![]),
        attached_error(r, e, id),
    ensures
        exchange_error_shape(r, message, step_import_op(), Some(id), None, seq![]),
{
}

/// Scan the entity table; `coordinate_errors` holds the caller's
/// coordinate errors by point id.
#[verifier::spinoff_prover]
#[verifier::rlimit(40)]
fn scan_step_entities(
    entries: &Vec<(usize, String)>,
    coordinate_errors: &mut Vec<(usize, KernelError)>,
) -> (r: Result<StepScanState, KernelError>)
    ensures
        match step_scan(entries_view(entries@), old(coordinate_errors)@, empty_scan()) {
            Ok(st) => r matches Ok(state) && state@ == st,
            Err(err) => r matches Err(e) && step_import_error(e, err),
        },
{
    let ghost errs = coordinate_errors@;
    let ghost es = entries_view(entries@);
    let mut state = StepScanState {
        points: Vec::new(),
        coords: Vec::new(),
        loops: Vec::new(),
        bounds: Vec::new(),
        face_bounds: Vec::new(),
    };
    assert(state@ == empty_scan()) by {
        assert(state@.coords =~= Seq::<Seq<Seq<char>>>::empty());
        assert(state@.loops =~= Seq::<(usize, Seq<usize>)>::empty());
    }
    let mut i: usize = 0;
    assert(es.subrange(0, es.len() as int) =~= es);
    while i < entries.len()
        invariant
            0 <= i <= entries@.len(),
            es == entries_view(entries@),
            errs == coordinate_errors@,
            errs == old(coordinate_errors)@,
            step_scan(es, errs, empty_scan()) == step_scan(
                es.subrange(i as int, es.len() as int),
                errs,
                state@,
            ),
        decreases entries@.len() - i,
    {
        let ghost cur = state@;
        let ghost tail = es.subrange(i as int, es.len() as int);
        assert(tail[0] == es[i as int]);
        assert(tail.drop_first() =~= es.subrange(i + 1, es.len() as int));
        let id = entries[i].0;
        let body = entries[i].1.as_str();
        assert(es[i as int] == (id, body@));
        assert(step_scan(tail, errs, cur) == match step_scan_entity(cur, id, body@, errs) {
            Ok(next) => step_scan(tail.drop_first(), errs, next),
            Err(e) => Err(e),
        });
        match step_entity_kind(body) {
            StepEntityKind::CartesianPoint => {
                let c = match step_point_coordinates(body) {
                    Err(e) => {
                        let r = at_step_entity(e, id);
                        proof {
                            match step_point_coords(body@) {
                                Err(k) => {
                                    lemma_attached_shape(e, r, id, step_point_message(k));
                                },
                                Ok(_) => {},
                            }
                        }
                        return Err(r);
                    },
                    Ok(c) => c,
                };
                match first_key_index(coordinate_errors.as_slice(), id) {
                    Some(j) => {
                        proof {
                            lemma_lookup_first(errs, id, j as int);
                        }
                        let (_, e) = coordinate_errors.remove(j);
                        return Err(at_step_entity(e, id));
                    },
                    None => {
                        proof {
                            lemma_lookup_none(errs, id);
                        }
                        state.points.push(id);
                        state.coords.push(c);
                        assert(state@.coords =~= cur.coords.push(texts_view(c@)));
                    },
                }
            },
            StepEntityKind::PolyLoop => {
                let refs = parse_step_refs(body);
                state.loops.push((id, refs));
                assert(state@.loops =~= cur.loops.push((id, step_refs(body@))));
            },
            StepEntityKind::FaceOuterBound => {
                let refs = parse_step_refs(body);
                if refs.len() == 0 {
                    return Err(
                        at_step_entity(
                            exchange_parse_error(
                                "STEP face bound is missing its poly-loop reference",
                            ),
                            id,
                        ),
                    );
                }
                state.bounds.push((id, refs[0]));
            },
            StepEntityKind::Face => {
                let refs = parse_step_refs(body);
                if refs.len() == 0 {
                    return Err(
                        at_step_entity(
                            exchange_parse_error("STEP face is missing its outer-bound reference"),
                            id,
                        ),
                    );
                }
                state.face_bounds.push(refs[0]);
            },
            StepEntityKind::Other => {},
        }
        i = i + 1;
    }
    assert(es.subrange(i as int, es.len() as int) =~= Seq::<(usize, Seq<char>)>::empty());
    Ok(state)
}

/// Point positions of the references of a poly-loop.
fn loop_point_indices(points: &Vec<usize>, lv: &[usize]) -> (r: Result<Vec<usize>, usize>)
    ensures
        match loop_indices(points@, lv@) {
            Ok(idx) => r matches Ok(v) && v@ == idx,
            Err(p) => r == Err::<Vec<usize>, usize>(p),
        },
        r matches Ok(v) ==> v@.len() == lv@.len(),
{
    let mut idx: Vec<usize> = Vec::new();
    let mut k: usize = 0;
    assert(lv@.subrange(0, lv@.len() as int) =~= lv@);
    while k < lv.len()
        invariant
            0 <= k <= lv@.len(),
            idx@.len() == k,
            loop_indices(points@, lv@) == match loop_indices(
                points@,
                lv@.subrange(k as int, lv@.len() as int),
            ) {
                Ok(rest) => Ok(idx@ + rest),
                Err(p) => Err(p),
            },
        decreases lv@.len() - k,
    {
        let ghost tail = lv@.subrange(k as int, lv@.len() as int);
        assert(tail[0] == lv@[k as int]);
        assert(tail.drop_first() =~= lv@.subrange(k + 1, lv@.len() as int));
        match first_position(points.as_slice(), lv[k]) {
            None => {
                return Err(lv[k]);
            },
            Some(p) => {
                let ghost before = idx@;
                idx.push(p);
                proof {
                    match loop_indices(points@, tail.drop_first()) {
                        Ok(rest) => {
                            assert(before + (seq![p] + rest) =~= idx@ + rest);
                        },
                        Err(_) => {},
                    }
                }
            },
        }
        k = k + 1;
    }
    proof {
        assert(lv@.subrange(k as int, lv@.len() as int) =~= Seq::<usize>::empty());
        assert(idx@ + Seq::<usize>::empty() =~= idx@);
    }
    Ok(idx)
}

/// The fan triangles of all faces.
#[verifier::spinoff_prover]
#[verifier::rlimit(40)]
fn step_triangles(state: &StepScanState) -> (r: KernelResult<Vec<[usize; 3]>>)
    ensures
        match step_face_triangles(state@, state@.face_bounds) {
            Ok(t) => r matches Ok(v) && v@ == t,
            Err(err) => r matches Err(e) && step_import_error(e, err),
        },
{
    let ghost st = state@;
    let ghost fb = st.face_bounds;
    let mut triangles: Vec<[usize; 3]> = Vec::new();
    let mut fi: usize = 0;
    assert(fb.subrange(0, fb.len() as int) =~= fb);
    while fi < state.face_bounds.len()
        invariant
            st == state@,
            fb == st.face_bounds,
            fb == state.face_bounds@,
            0 <= fi <= fb.len(),
            step_face_triangles(st, fb) == match step_face_triangles(
                st,
                fb.subrange(fi as int, fb.len() as int),
            ) {
                Ok(rest) => Ok(triangles@ + rest),
                Err(e) => Err(e),
            },
        decreases fb.len() - fi,
    {
        let ghost tail = fb.subrange(fi as int, fb.len() as int);
        assert(tail[0] == fb[fi as int]);
        assert(tail.drop_first() =~= fb.subrange(fi + 1, fb.len() as int));
        let b = state.face_bounds[fi];
        let bj = match first_key_index(state.bounds.as_slice(), b) {
            None => {
                proof {
                    lemma_lookup_none(st.bounds, b);
                }
                return Err(
                    at_step_entity(
                        exchange_parse_error("STEP face references a missing face bound"),
                        b,
                    ),
                );
            },
            Some(bj) => bj,
        };
        proof {
            lemma_lookup_first(st.bounds, b, bj as int);
        }
        let l = state.bounds[bj].1;
        let lj = match first_key_index(state.loops.as_slice(), l) {
            None => {
                proof {
                    assert forall|i: int| 0 <= i < st.loops.len() implies st.loops[i].0 != l by {
                        assert(st.loops[i] == (state.loops@[i].0, state.loops@[i].1@));
                    }
                    lemma_lookup_none(st.loops, l);
                }
                return Err(
                    at_step_entity(
                        exchange_parse_error("STEP face bound references a missing poly-loop"),
                        l,
                    ),
                );
            },
            Some(lj) => lj,
        };
        proof {
            assert forall|i: int| 0 <= i < lj implies st.loops[i].0 != l by {
                assert(st.loops[i] == (state.loops@[i].0, state.loops@[i].1@));
            }
            assert(st.loops[lj as int] == (state.loops@[lj as int].0, state.loops@[lj as int].1@));
            lemma_lookup_first(st.loops, l, lj as int);
        }
        let lv = normalize_loop_refs(state.loops[lj].1.as_slice());
        if lv.len() < 3 {
            return Err(
                at_step_entity(
                    exchange_parse_error("STEP poly-loop has fewer than three vertices"),
                    l,
                ),
            );
        }
        let idx = match loop_point_indices(&state.points, lv) {
            Err(p) => {
                return Err(
                    at_step_entity(
                        exchange_parse_error("STEP poly-loop references a missing point"),
                        p,
                    ),
                );
            },
            Ok(idx) => idx,
        };
        let ghost before = triangles@;
        let mut i: usize = 1;
        while i < idx.len() - 1
            invariant
                idx@.len() >= 3,
                1 <= i <= idx@.len() - 1,
                triangles@ == before + fan(idx@).subrange(0, i - 1),
            decreases idx@.len() - i,
        {
            triangles.push([idx[0], idx[i], idx[i + 1]]);
            i = i + 1;
            assert(triangles@ =~= before + fan(idx@).subrange(0, i - 1));
        }
        proof {
            assert(fan(idx@).subrange(0, i - 1) =~= fan(idx@));
            match step_face_triangles(st, tail.drop_first()) {
                Ok(rest) => {
                    assert(before + (fan(idx@) + rest) =~= triangles@ + rest);
                },
                Err(_) => {},
            }
        }
        fi = fi + 1;
    }
    proof {
        assert(fb.subrange(fi as int, fb.len() as int) =~= Seq::<usize>::empty());
        assert(triangles@ + Seq::<[usize; 3]>::empty() =~= triangles@);
    }
    Ok(triangles)
}

/// Read the faceted mesh of a STEP text of the subset that this crate
/// writes. `coordinate_errors` holds, by point id, the errors of the
/// coordinates that the caller could not read as numbers.
#[verifier::spinoff_prover]
#[verifier::rlimit(40)]
pub fn import_step_faceted_mesh(input: &str, coordinate_errors: Vec<(usize, KernelError)>) -> (r:
    KernelResult<FacetedMesh>)
    ensures
        match step_mesh(input@, coordinate_errors@) {
            Ok((ids, coords, tris)) => r matches Ok(m) && m.point_ids@ == ids
                && m.point_coordinates@.map_values(|c: Vec<String>| texts_view(c@)) == coords
                && m.triangles@ == tris,
            Err(err) => r matches Err(e) && step_import_error(e, err),
        },
{
    let mut errs = coordinate_errors;
    let entries = match parse_step_entities(input) {
        Err(e) => {
            return Err(e);
        },
        Ok(entries) => entries,
    };
    let state = scan_step_entities(&entries, &mut errs)?;
    if state.points.len() == 0 || state.face_bounds.len() == 0 {
        return Err(
            exchange_parse_error("STEP input did not contain points and faces").with_operation(
                "import_step_faceted_brep",
            ),
        );
    }
    let triangles = step_triangles(&state)?;
    Ok(FacetedMesh {
        point_ids: state.points,
        point_coordinates: state.coords,
        triangles,
    })
}

/// The record of an IGES line: its text before the first `;`, trimmed.
pub open spec fn iges_record(line: Seq<char>) -> Seq<char> {
    trimmed(split_on(line, ';')[0])
}

/// What the IGES reader has gathered, line by line.
pub struct IgesScan {
    /// Points by increasing id, with their coordinate texts; a later record
    /// for the same id replaces the earlier one.
    pub points: Seq<(usize, Seq<Seq<char>>)>,
    /// Triangle records: the three vertex ids of each, in line order.
    pub faces: Seq<[usize; 3]>,
}

/// Why an IGES text does not give a faceted mesh.
pub enum IgesImportError {
    /// A point record on the given line (counted from 0) without 5 fields.
    PointArity(nat),
    /// A point id that is not an unsigned integer.
    BadPointId(IntErrorKind),
    /// A coordinate that the caller could not read, with the caller's error.
    PointValue(KernelError),
    /// A triangle record on the given line (counted from 0) without 5 fields.
    TriangleArity(nat),
    /// A vertex field (named) that is not an unsigned integer.
    BadVertex(Seq<char>, IntErrorKind),
    /// No point or no triangle record.
    NoPointsOrTriangles,
    /// A triangle refers to a point id without record.
    MissingPoint,
}

/// The scan after line `k`; `errs` holds the caller's coordinate errors by
/// line.
pub open spec fn iges_scan_line(
    st: IgesScan,
    k: nat,
    line: Seq<char>,
    errs: Seq<(usize, KernelError)>,
) -> Result<IgesScan, IgesImportError> {
    let rec = iges_record(line);
    let f = trimmed_pieces(rec, ',');
    if rec.len() == 0 {
        Ok(st)
    } else if f[0] == "116"@ {
        if f.len() != 5 {
            Err(IgesImportError::PointArity(k))
        } else {
            match usize_parse(f[1]) {
                Err(x) => Err(IgesImportError::BadPointId(x)),
                Ok(id) => match lookup(errs, k as usize) {
                    Some(e) => Err(IgesImportError::PointValue(e)),
                    None => Ok(
                        IgesScan {
                            points: insert_entry(st.points, id as usize, f.subrange(2, 5)),
                            ..st
                        },
                    ),
                },
            }
        }
    } else if f[0] == "106"@ {
        if f.len() != 5 {
            Err(IgesImportError::TriangleArity(k))
        } else {
            match usize_parse(f[2]) {
                Err(x) => Err(IgesImportError::BadVertex("IGES triangle vertex a"@, x)),
                Ok(a) => match usize_parse(f[3]) {
                    Err(x) => Err(IgesImportError::BadVertex("IGES triangle vertex b"@, x)),
                    Ok(b) => match usize_parse(f[4]) {
                        Err(x) => Err(IgesImportError::BadVertex("IGES triangle vertex c"@, x)),
                        Ok(c) => Ok(
                            IgesScan {
                                faces: st.faces.push([a as usize, b as usize, c as usize]),
                                ..st
                            },
                        ),
                    },
                },
            }
        }
    } else {
        Ok(st)
    }
}

/// The scan over `lines`, the first being line `k`.
pub open spec fn iges_scan(
    lines: Seq<Seq<char>>,
    k: nat,
    errs: Seq<(usize, KernelError)>,
    st: IgesScan,
) -> Result<IgesScan, IgesImportError>
    decreases lines.len(),
{
    if lines.len() == 0 {
        Ok(st)
    } else {
        match iges_scan_line(st, k, lines[0], errs) {
            Ok(next) => iges_scan(lines.drop_first(), k + 1, errs, next),
            Err(e) => Err(e),
        }
    }
}

/// The triangles over point positions, or `None` where a vertex id has no
/// point.
pub open spec fn iges_face_positions(ids: Seq<usize>, faces: Seq<[usize; 3]>) -> Option<
    Seq<[usize; 3]>,
>
    decreases faces.len(),
{
    if faces.len() == 0 {
        Some(seq![])
    } else {
        let f = faces[0];
        match position_of(ids, f[0]) {
            None => None,
            Some(a) => match position_of(ids, f[1]) {
                None => None,
                Some(b) => match position_of(ids, f[2]) {
                    None => None,
                    Some(c) => match iges_face_positions(ids, faces.drop_first()) {
                        Some(rest) => Some(seq![[a as usize, b as usize, c as usize]] + rest),
                        None => None,
                    },
                },
            },
        }
    }
}

/// The faceted mesh of an IGES text: point ids, their coordinate texts and
/// the triangles over point positions.
pub open spec fn iges_mesh(input: Seq<char>, errs: Seq<(usize, KernelError)>) -> Result<
    (Seq<usize>, Seq<Seq<Seq<char>>>, Seq<[usize; 3]>),
    IgesImportError,
> {
    match iges_scan(split_on(input, '\n'), 0, errs, IgesScan { points: seq![], faces: seq![] }) {
        Err(e) => Err(e),
        Ok(st) => if st.points.len() == 0 || st.faces.len() == 0 {
            Err(IgesImportError::NoPointsOrTriangles)
        } else {
            let ids = st.points.map_values(|e: (usize, Seq<Seq<char>>)| e.0);
            match iges_face_positions(ids, st.faces) {
                None => Err(IgesImportError::MissingPoint),
                Some(tris) => Ok(
                    (ids, st.points.map_values(|e: (usize, Seq<Seq<char>>)| e.1), tris),
                ),
            }
        },
    }
}

/// The operation name that the IGES reader attaches.
pub open spec fn iges_import_op() -> Option<Seq<char>> {
    Some("import_iges_faceted_brep"@)
}

/// The note that names line `k` (counted from 0).
pub open spec fn line_note(k: nat) -> Seq<char> {
    "line "@ + decimal(k + 1)
}

/// `e` is the error that reports `err`.
pub open spec fn iges_import_error(e: KernelError, err: IgesImportError) -> bool {
    let op = iges_import_op();
    match err {
        IgesImportError::PointArity(k) => exchange_error_shape(
            e,
            "IGES point record must have id,x,y,z"@,
            op,
            None,
            None,
            seq![line_note(k)],
        ),
        IgesImportError::BadPointId(x) => usize_field_error(e, "IGES point id"@, x),
        IgesImportError::PointValue(inner) => e == inner,
        IgesImportError::TriangleArity(k) => exchange_error_shape(
            e,
            "IGES triangle record must have id,vertex_a,vertex_b,vertex_c"@,
            op,
            None,
            None,
            seq![line_note(k)],
        ),
        IgesImportError::BadVertex(field, x) => usize_field_error(e, field, x),
        IgesImportError::NoPointsOrTriangles => exchange_error_shape(
            e,
            "IGES input did not contain point and triangle records"@,
            op,
            None,
            None,
            seq![],
        ),
        IgesImportError::MissingPoint => exchange_error_shape(
            e,
            "IGES triangle references a missing point"@,
            op,
            None,
            None,
            seq![],
        ),
    }
}

/// The IGES reader's gathered records: point ids in increasing order with
/// their coordinate texts alongside, and the triangle records.
struct IgesScanState {
    ids: Vec<usize>,
    coords: Vec<Vec<String>>,
    faces: Vec<[usize; 3]>,
}

impl View for IgesScanState {
    type V = IgesScan;

    closed spec fn view(&self) -> IgesScan {
        IgesScan {
            points: Seq::new(
                self.ids@.len(),
                |i: int| (self.ids@[i], texts_view(self.coords@[i]@)),
            ),
            faces: self.faces@,
        }
    }
}

impl IgesScanState {
    closed spec fn wf(&self) -> bool {
        self.ids@.len() == self.coords@.len()
    }

    /// Store a point record.
    fn insert_point(&mut self, id: usize, coords: Vec<String>)
        requires
            old(self).wf(),
        ensures
            final(self).wf(),
            final(self)@ == (IgesScan {
                points: insert_entry(old(self)@.points, id, texts_view(coords@)),
                ..old(self)@
            }),
    {
        let ghost v0 = self@.points;
        let ghost c = texts_view(coords@);
        let mut i: usize = 0;
        while i < self.ids.len() && self.ids[i] < id
            invariant
                0 <= i <= self.ids@.len(),
                self.wf(),
                v0 == self@.points,
                forall|j: int| 0 <= j < i ==> v0[j].0 < id,
            decreases self.ids@.len() - i,
        {
            i = i + 1;
        }
        proof {
            lemma_insert_entry_split(v0, id, c, i as int);
        }
        let ghost tail = v0.subrange(i as int, v0.len() as int);
        if i < self.ids.len() && self.ids[i] == id {
            self.coords.set(i, coords);
            proof {
                assert(tail[0] == v0[i as int]);
                assert(self@.points =~= v0.subrange(0, i as int) + (seq![(id, c)]
                    + tail.drop_first()));
            }
        } else {
            self.ids.insert(i, id);
            self.coords.insert(i, coords);
            proof {
                if i < v0.len() {
                    assert(tail[0] == v0[i as int]);
                }
                assert(self@.points =~= v0.subrange(0, i as int) + (seq![(id, c)] + tail));
            }
        }
    }
}

/// The note text that names line `k` (counted from 0).
fn line_note_text(k: usize) -> (t: String)
    requires
        k < usize::MAX,
    ensures
        t@ == line_note(k as nat),
{
    let mut t = String::from_str("line ");
    let digits = decimal_text(k + 1);
    t.append(digits.as_str());
    t
}

/// Read line `k` of an IGES text, the characters `s[ls..le]`.
#[verifier::spinoff_prover]
#[verifier::rlimit(40)]
fn iges_read_line(
    state: &mut IgesScanState,
    s: &[char],
    ls: usize,
    le: usize,
    k: usize,
    errs: &mut Vec<(usize, KernelError)>,
) -> (r: Result<(), KernelError>)
    requires
        old(state).wf(),
        ls <= le <= s@.len(),
        k <= ls,
    ensures
        final(state).wf(),
        match iges_scan_line(old(state)@, k as nat, s@.subrange(ls as int, le as int), old(errs)@) {
            Ok(next) => r is Ok && final(state)@ == next && final(errs)@ == old(errs)@,
            Err(err) => r matches Err(e) && iges_import_error(e, err),
        },
{
    let ghost line = s@.subrange(ls as int, le as int);
    proof {
        lemma_first_index_of(line, ';');
    }
    let semi = find_char(s, ';', ls, le);
    let rec_end = match semi {
        Some(q) => q,
        None => le,
    };
    proof {
        match semi {
            Some(q) => {
                assert(line.subrange(0, q - ls) =~= s@.subrange(ls as int, q as int));
                assert(split_on(line, ';')[0] == s@.subrange(ls as int, q as int));
            },
            None => {
                assert(split_on(line, ';')[0] == line);
            },
        }
    }
    let (ra, rb) = trim_range(s, ls, rec_end);
    if ra == rb {
        return Ok(());
    }
    let ghost rec = s@.subrange(ra as int, rb as int);
    let mut fields = split_trimmed(s, ra, rb, ',');
    let ghost f = texts_view(fields@);
    assert(split_on(rec, ',').len() >= 1);
    assert(f.len() >= 1);
    assert(fields@[0]@ == f[0]);
    let tag_point = String::from_str("116");
    let tag_triangle = String::from_str("106");
    if fields[0] == tag_point {
        if fields.len() != 5 {
            return Err(
                exchange_parse_error("IGES point record must have id,x,y,z").with_operation(
                    "import_iges_faceted_brep",
                ).with_note(line_note_text(k).as_str()),
            );
        }
        assert(fields@[1]@ == f[1]);
        let id = parse_usize(fields[1].as_str(), "IGES point id")?;
        match first_key_index(errs.as_slice(), k) {
            Some(j) => {
                proof {
                    lemma_lookup_first(errs@, k, j as int);
                }
                let (_, e) = errs.remove(j);
                return Err(e);
            },
            None => {
                proof {
                    lemma_lookup_none(errs@, k);
                }
            },
        }
        let coords = fields.split_off(2);
        assert(texts_view(coords@) =~= f.subrange(2, 5));
        state.insert_point(id, coords);
        Ok(())
    } else if fields[0] == tag_triangle {
        if fields.len() != 5 {
            return Err(
                exchange_parse_error(
                    "IGES triangle record must have id,vertex_a,vertex_b,vertex_c",
                ).with_operation("import_iges_faceted_brep").with_note(
                    line_note_text(k).as_str(),
                ),
            );
        }
        assert(fields@[2]@ == f[2]);
        assert(fields@[3]@ == f[3]);
        assert(fields@[4]@ == f[4]);
        let a = parse_usize(fields[2].as_str(), "IGES triangle vertex a")?;
        let b = parse_usize(fields[3].as_str(), "IGES triangle vertex b")?;
        let c = parse_usize(fields[4].as_str(), "IGES triangle vertex c")?;
        state.faces.push([a, b, c]);
        Ok(())
    } else {
        Ok(())
    }
}

/// Read the faceted mesh of an IGES text of the subset that this crate
/// writes. `coordinate_errors` holds, by line (counted from 0), the errors
/// of the coordinates that the caller could not read as numbers.
#[verifier::spinoff_prover]
#[verifier::rlimit(40)]
pub fn import_iges_faceted_mesh(input: &str, coordinate_errors: Vec<(usize, KernelError)>) -> (r:
    KernelResult<FacetedMesh>)
    ensures
        match iges_mesh(input@, coordinate_errors@) {
            Ok((ids, coords, tris)) => r matches Ok(m) && m.point_ids@ == ids
                && m.point_coordinates@.map_values(|c: Vec<String>| texts_view(c@)) == coords
                && m.triangles@ == tris,
            Err(err) => r matches Err(e) && iges_import_error(e, err),
        },
{
    let ghost errs0 = coordinate_errors@;
    let mut errs = coordinate_errors;
    let chars = str_chars(input);
    let n = chars.len();
    let mut state = IgesScanState { ids: Vec::new(), coords: Vec::new(), faces: Vec::new() };
    let ghost empty = IgesScan { points: seq![], faces: seq![] };
    assert(state@ == empty) by {
        assert(state@.points =~= Seq::<(usize, Seq<Seq<char>>)>::empty());
    }
    let mut start: usize = 0;
    let mut k: usize = 0;
    assert(chars@.subrange(0, n as int) =~= input@);
    loop
        invariant_except_break
            iges_scan(split_on(input@, '\n'), 0, errs0, empty) == iges_scan(
                split_on(chars@.subrange(start as int, n as int), '\n'),
                k as nat,
                errs0,
                state@,
            ),
        invariant
            start <= n,
            k <= start,
            n == chars@.len(),
            chars@ == input@,
            state.wf(),
            errs@ == errs0,
            errs0 == coordinate_errors@,
            empty == (IgesScan { points: seq![], faces: seq![] }),
        ensures
            iges_scan(split_on(input@, '\n'), 0, errs0, empty) == Ok::<IgesScan, IgesImportError>(
                state@,
            ),
        decreases n - start,
    {
        let ghost t = chars@.subrange(start as int, n as int);
        proof {
            lemma_first_index_of(t, '\n');
        }
        let nl = find_char(chars.as_slice(), '\n', start, n);
        let le = match nl {
            Some(q) => q,
            None => n,
        };
        let ghost pieces = split_on(t, '\n');
        proof {
            match nl {
                Some(q) => {
                    assert(t.subrange(0, q - start) =~= chars@.subrange(start as int, q as int));
                    assert(t.subrange(q - start + 1, t.len() as int) =~= chars@.subrange(
                        q + 1,
                        n as int,
                    ));
                    assert(pieces.drop_first() =~= split_on(chars@.subrange(q + 1, n as int), '\n'));
                },
                None => {
                    assert(pieces == seq![t]);
                    assert(pieces.drop_first() =~= Seq::<Seq<char>>::empty());
                },
            }
            assert(pieces[0] == chars@.subrange(start as int, le as int));
        }
        let ghost cur = state@;
        let read = iges_read_line(&mut state, chars.as_slice(), start, le, k, &mut errs);
        match read {
            Err(e) => {
                proof {
                    assert(iges_scan(pieces, k as nat, errs0, cur) == match iges_scan_line(
                        cur,
                        k as nat,
                        pieces[0],
                        errs0,
                    ) {
                        Ok(next) => iges_scan(pieces.drop_first(), (k + 1) as nat, errs0, next),
                        Err(x) => Err(x),
                    });
                }
                return Err(e);
            },
            Ok(()) => {},
        }
        proof {
            assert(iges_scan(pieces, k as nat, errs0, cur) == iges_scan(
                pieces.drop_first(),
                (k + 1) as nat,
                errs0,
                state@,
            ));
            if nl is None {
                assert(iges_scan(pieces.drop_first(), (k + 1) as nat, errs0, state@) == Ok::<
                    IgesScan,
                    IgesImportError,
                >(state@));
            }
        }
        match nl {
            None => {
                break ;
            },
            Some(q) => {
                start = q + 1;
                k = k + 1;
            },
        }
    }
    if state.ids.len() == 0 || state.faces.len() == 0 {
        return Err(
            exchange_parse_error(
                "IGES input did not contain point and triangle records",
            ).with_operation("import_iges_faceted_brep"),
        );
    }
    let ghost st = state@;
    let ghost ids = st.points.map_values(|e: (usize, Seq<Seq<char>>)| e.0);
    assert(ids =~= state.ids@);
    let mut triangles: Vec<[usize; 3]> = Vec::new();
    let mut fi: usize = 0;
    assert(st.faces.subrange(0, st.faces.len() as int) =~= st.faces);
    while fi < state.faces.len()
        invariant
            st == state@,
            ids == state.ids@,
            0 <= fi <= st.faces.len(),
            errs0 == coordinate_errors@,
            iges_scan(split_on(input@, '\n'), 0, errs0, empty) == Ok::<IgesScan, IgesImportError>(st),
            empty == (IgesScan { points: seq![], faces: seq![] }),
            st.points.len() > 0,
            st.faces.len() > 0,
            ids == st.points.map_values(|e: (usize, Seq<Seq<char>>)| e.0),
            iges_face_positions(ids, st.faces) == match iges_face_positions(
                ids,
                st.faces.subrange(fi as int, st.faces.len() as int),
            ) {
                Some(rest) => Some(triangles@ + rest),
                None => None,
            },
        decreases st.faces.len() - fi,
    {
        let ghost tail = st.faces.subrange(fi as int, st.faces.len() as int);
        assert(tail[0] == st.faces[fi as int]);
        assert(tail.drop_first() =~= st.faces.subrange(fi + 1, st.faces.len() as int));
        let face = state.faces[fi];
        let a = first_position(state.ids.as_slice(), face[0]);
        let b = first_position(state.ids.as_slice(), face[1]);
        let c = first_position(state.ids.as_slice(), face[2]);
        match (a, b, c) {
            (Some(a), Some(b), Some(c)) => {
                let ghost before = triangles@;
                triangles.push([a, b, c]);
                proof {
                    match iges_face_positions(ids, tail.drop_first()) {
                        Some(rest) => {
                            assert(before + (seq![[a, b, c]] + rest) =~= triangles@ + rest);
                        },
                        None => {},
                    }
                }
            },
            _ => {
                assert(iges_face_positions(ids, tail) is None);
                return Err(
                    exchange_parse_error("IGES triangle references a missing point").with_operation(
                        "import_iges_faceted_brep",
                    ),
                );
            },
        }
        fi = fi + 1;
    }
    proof {
        assert(st.faces.subrange(fi as int, st.faces.len() as int) =~= Seq::<[usize; 3]>::empty());
        assert(triangles@ + Seq::<[usize; 3]>::empty() =~= triangles@);
    }
    let ghost coords_view = st.points.map_values(|e: (usize, Seq<Seq<char>>)| e.1);
    assert(state.coords@.map_values(|c: Vec<String>| texts_view(c@)) =~= coords_view);
    Ok(FacetedMesh { point_ids: state.ids, point_coordinates: state.coords, triangles })
}

/// The coordinate texts of the point records with five fields among
/// `lines`, the first being line `k`, each with its line, in line order.
pub open spec fn iges_point_texts(lines: Seq<Seq<char>>, k: nat) -> Seq<(usize, Seq<Seq<char>>)>
    decreases lines.len(),
{
    if lines.len() == 0 {
        seq![]
    } else {
        let f = trimmed_pieces(iges_record(lines[0]), ',');
        let rest = iges_point_texts(lines.drop_first(), k + 1);
        if f.len() == 5 && f[0] == "116"@ {
            seq![(k as usize, f.subrange(2, 5))] + rest
        } else {
            rest
        }
    }
}

/// The coordinate texts of the point record on `s[ls..le]`, if the line
/// holds one with five fields.
fn iges_line_point_texts(s: &[char], ls: usize, le: usize) -> (r: Option<Vec<String>>)
    requires
        ls <= le <= s@.len(),
    ensures
        ({
            let f = trimmed_pieces(iges_record(s@.subrange(ls as int, le as int)), ',');
            if f.len() == 5 && f[0] == "116"@ {
                r matches Some(v) && texts_view(v@) == f.subrange(2, 5)
            } else {
                r is None
            }
        }),
{
    let ghost line = s@.subrange(ls as int, le as int);
    proof {
        lemma_first_index_of(line, ';');
    }
    let semi = find_char(s, ';', ls, le);
    let rec_end = match semi {
        Some(q) => q,
        None => le,
    };
    proof {
        match semi {
            Some(q) => {
                assert(line.subrange(0, q - ls) =~= s@.subrange(ls as int, q as int));
                assert(split_on(line, ';')[0] == s@.subrange(ls as int, q as int));
            },
            None => {
                assert(split_on(line, ';')[0] == line);
            },
        }
    }
    let (ra, rb) = trim_range(s, ls, rec_end);
    let ghost rec = s@.subrange(ra as int, rb as int);
    let mut fields = split_trimmed(s, ra, rb, ',');
    let ghost f = texts_view(fields@);
    assert(split_on(rec, ',').len() >= 1);
    assert(f.len() >= 1);
    assert(fields@[0]@ == f[0]);
    let tag_point = String::from_str("116");
    if fields.len() == 5 && fields[0] == tag_point {
        let coords = fields.split_off(2);
        assert(texts_view(coords@) =~= f.subrange(2, 5));
        Some(coords)
    } else {
        None
    }
}

/// The coordinate texts of the IGES point records with five fields, each
/// with its line (counted from 0), in line order.
#[verifier::spinoff_prover]
#[verifier::rlimit(40)]
pub fn iges_point_records(input: &str) -> (r: Vec<(usize, Vec<String>)>)
    ensures
        r@.map_values(|e: (usize, Vec<String>)| (e.0, texts_view(e.1@))) == iges_point_texts(
            split_on(input@, '\n'),
            0,
        ),
{
    let chars = str_chars(input);
    let n = chars.len();
    let mut out: Vec<(usize, Vec<String>)> = Vec::new();
    let mut start: usize = 0;
    let mut k: usize = 0;
    assert(chars@.subrange(0, n as int) =~= input@);
    loop
        invariant_except_break
            iges_point_texts(split_on(input@, '\n'), 0) == out@.map_values(
                |e: (usize, Vec<String>)| (e.0, texts_view(e.1@)),
            ) + iges_point_texts(split_on(chars@.subrange(start as int, n as int), '\n'), k as nat),
        invariant
            start <= n,
            k <= start,
            n == chars@.len(),
            chars@ == input@,
        ensures
            iges_point_texts(split_on(input@, '\n'), 0) == out@.map_values(
                |e: (usize, Vec<String>)| (e.0, texts_view(e.1@)),
            ),
        decreases n - start,
    {
        let ghost t = chars@.subrange(start as int, n as int);
        proof {
            lemma_first_index_of(t, '\n');
        }
        let nl = find_char(chars.as_slice(), '\n', start, n);
        let le = match nl {
            Some(q) => q,
            None => n,
        };
        let ghost pieces = split_on(t, '\n');
        proof {
            match nl {
                Some(q) => {
                    assert(t.subrange(0, q - start) =~= chars@.subrange(start as int, q as int));
                    assert(t.subrange(q - start + 1, t.len() as int) =~= chars@.subrange(
                        q + 1,
                        n as int,
                    ));
                    assert(pieces.drop_first() =~= split_on(chars@.subrange(q + 1, n as int), '\n'));
                },
                None => {
                    assert(pieces == seq![t]);
                    assert(pieces.drop_first() =~= Seq::<Seq<char>>::empty());
                },
            }
            assert(pieces[0] == chars@.subrange(start as int, le as int));
        }
        let ghost before = out@.map_values(|e: (usize, Vec<String>)| (e.0, texts_view(e.1@)));
        let found = iges_line_point_texts(chars.as_slice(), start, le);
        match found {
            Some(coords) => {
                out.push((k, coords));
                proof {
                    let after = out@.map_values(|e: (usize, Vec<String>)| (e.0, texts_view(e.1@)));
                    assert(after =~= before.push((out@.last().0, texts_view(out@.last().1@))));
                }
            },
            None => {},
        }
        proof {
            let after = out@.map_values(|e: (usize, Vec<String>)| (e.0, texts_view(e.1@)));
            assert(before + iges_point_texts(pieces, k as nat) =~= after + iges_point_texts(
                pieces.drop_first(),
                (k + 1) as nat,
            ));
            if nl is None {
                assert(iges_point_texts(pieces.drop_first(), (k + 1) as nat) =~= Seq::<
                    (usize, Seq<Seq<char>>),
                >::empty());
            }
        }
        match nl {
            None => {
                break ;
            },
            Some(q) => {
                start = q + 1;
                k = k + 1;
            },
        }
    }
    out
}

/// The lines of a text joined, each followed by a line feed.
pub open spec fn concat_lines(lines: Seq<Seq<char>>) -> Seq<char>
    decreases lines.len(),
{
    if lines.len() == 0 {
        seq![]
    } else {
        concat_lines(lines.drop_last()) + lines.last() + "\n"@
    }
}

/// Texts joined with `,` between them.
pub open spec fn join_commas(parts: Seq<Seq<char>>) -> Seq<char>
    decreases parts.len(),
{
    if parts.len() == 0 {
        seq![]
    } else if parts.len() == 1 {
        parts[0]
    } else {
        join_commas(parts.drop_last()) + ","@ + parts.last()
    }
}

/// A STEP entity reference `#n`.
pub open spec fn ref_text(n: nat) -> Seq<char> {
    "#"@ + decimal(n)
}

/// The `CARTESIAN_POINT` record of point `id` with coordinate texts `c`.
pub open spec fn step_point_entity(id: nat, c: Seq<Seq<char>>) -> Seq<char> {
    ref_text(id) + "=CARTESIAN_POINT('',("@ + c[0] + ", "@ + c[1] + ", "@ + c[2] + "));"@
}

/// Record `part` (poly-loop, outer bound, face) of triangle `j`, after `v`
/// point records.
pub open spec fn step_face_entity(v: nat, j: nat, t: [usize; 3], part: int) -> Seq<char> {
    let l = v + 1 + 3 * j;
    if part == 0 {
        ref_text(l) + "=POLY_LOOP('',("@ + ref_text((t[0] + 1) as nat) + ","@ + ref_text(
            (t[1] + 1) as nat,
        ) + ","@ + ref_text((t[2] + 1) as nat) + "));"@
    } else if part == 1 {
        ref_text(l + 1) + "=FACE_OUTER_BOUND('',"@ + ref_text(l) + ",.T.);"@
    } else {
        ref_text(l + 2) + "=FACE('F"@ + decimal(j) + "',("@ + ref_text(l + 1) + "));"@
    }
}

/// The DATA records of a STEP text for the points `coords` and triangles
/// `tris`, named `name`.
pub open spec fn step_data_lines(
    coords: Seq<Seq<Seq<char>>>,
    tris: Seq<[usize; 3]>,
    name: Seq<char>,
) -> Seq<Seq<char>> {
    let v = coords.len();
    let f = tris.len();
    let shell = v + 3 * f + 1;
    Seq::new(v, |i: int| step_point_entity((i + 1) as nat, coords[i])) + Seq::new(
        3 * f,
        |m: int| step_face_entity(v, (m / 3) as nat, tris[m / 3], m % 3),
    ) + seq![
        ref_text(shell) + "=CLOSED_SHELL('',("@ + join_commas(
            Seq::new(f, |j: int| ref_text((v + 3 + 3 * j) as nat)),
        ) + "));"@,
        ref_text(shell + 1) + "=FACETED_BREP('"@ + step_escaped(name) + "',"@ + ref_text(shell)
            + ");"@,
    ]
}

/// The text before the DATA records.
pub open spec fn step_header(name: Seq<char>) -> Seq<char> {
    "ISO-10303-21;\n"@ + "HEADER;\n"@
        + "FILE_DESCRIPTION(('brep-kernel faceted B-rep subset'),'2;1');\n"@ + "FILE_NAME('"@
        + step_escaped(name)
        + "','',('brep-kernel'),('brep-kernel'),'brep-kernel','brep-kernel','');\n"@
        + "FILE_SCHEMA(('CONFIG_CONTROL_DESIGN'));\n"@ + "ENDSEC;\n"@ + "DATA;\n"@
}

/// The STEP Part 21 text of a faceted B-rep.
pub open spec fn step_text(coords: Seq<Seq<Seq<char>>>, tris: Seq<[usize; 3]>, name: Seq<char>) -> Seq<
    char,
> {
    step_header(name) + concat_lines(step_data_lines(coords, tris, name)) + "ENDSEC;\n"@
        + "END-ISO-10303-21;\n"@
}

/// The coordinate texts of each point.
pub open spec fn coords_view(c: Seq<[String; 3]>) -> Seq<Seq<Seq<char>>> {
    c.map_values(|p: [String; 3]| seq![p[0]@, p[1]@, p[2]@])
}

/// Every triangle refers to one of `v` points.
pub open spec fn triangles_in_range(tris: Seq<[usize; 3]>, v: nat) -> bool {
    forall|j: int, k: int| 0 <= j < tris.len() && 0 <= k < 3 ==> #[trigger] tris[j][k] < v
}

/// Append `#n`.
fn append_ref(out: &mut String, n: usize)
    ensures
        final(out)@ == old(out)@ + ref_text(n as nat),
{
    out.append("#");
    let d = decimal_text(n);
    out.append(d.as_str());
}

/// Append one line and its line feed.
fn append_line(out: &mut String, line: &String)
    ensures
        final(out)@ == old(out)@ + line@ + "\n"@,
{
    out.append(line.as_str());
    out.append("\n");
}

/// The `CARTESIAN_POINT` record of point `id`.
fn step_point_line(id: usize, c: &[String; 3]) -> (line: String)
    ensures
        line@ == step_point_entity(id as nat, seq![c[0]@, c[1]@, c[2]@]),
{
    let mut line = String::new();
    append_ref(&mut line, id);
    line.append("=CARTESIAN_POINT('',(");
    line.append(c[0].as_str());
    line.append(", ");
    line.append(c[1].as_str());
    line.append(", ");
    line.append(c[2].as_str());
    line.append("));");
    line
}

/// Record `part` of triangle `j`.
fn step_face_line(v: usize, j: usize, t: [usize; 3], part: usize) -> (line: String)
    requires
        part < 3,
        v + 3 * j + 3 <= usize::MAX,
        t[0] < usize::MAX,
        t[1] < usize::MAX,
        t[2] < usize::MAX,
    ensures
        line@ == step_face_entity(v as nat, j as nat, t, part as int),
{
    let l = v + 1 + 3 * j;
    let mut line = String::new();
    if part == 0 {
        append_ref(&mut line, l);
        line.append("=POLY_LOOP('',(");
        append_ref(&mut line, t[0] + 1);
        line.append(",");
        append_ref(&mut line, t[1] + 1);
        line.append(",");
        append_ref(&mut line, t[2] + 1);
        line.append("));");
    } else if part == 1 {
        append_ref(&mut line, l + 1);
        line.append("=FACE_OUTER_BOUND('',");
        append_ref(&mut line, l);
        line.append(",.T.);");
    } else {
        append_ref(&mut line, l + 2);
        line.append("=FACE('F");
        let d = decimal_text(j);
        line.append(d.as_str());
        line.append("',(");
        append_ref(&mut line, l + 1);
        line.append("));");
    }
    line
}

/// The `CLOSED_SHELL` record over `f` faces after `v` points.
fn step_shell_line(v: usize, f: usize) -> (line: String)
    requires
        v + 3 * f + 2 <= usize::MAX,
    ensures
        line@ == ref_text((v + 3 * f + 1) as nat) + "=CLOSED_SHELL('',("@ + join_commas(
            Seq::new(f as nat, |j: int| ref_text((v + 3 + 3 * j) as nat)),
        ) + "));"@,
{
    let shell = v + 3 * f + 1;
    let mut shell_line = String::new();
    append_ref(&mut shell_line, shell);
    shell_line.append("=CLOSED_SHELL('',(");
    let ghost face_refs = Seq::new(f as nat, |k: int| ref_text((v + 3 + 3 * k) as nat));
    let ghost prefix = shell_line@;
    let mut k: usize = 0;
    while k < f
        invariant
            v + 3 * f + 2 <= usize::MAX,
            face_refs == Seq::new(f as nat, |q: int| ref_text((v + 3 + 3 * q) as nat)),
            0 <= k <= f,
            shell_line@ == prefix + join_commas(face_refs.subrange(0, k as int)),
        decreases f - k,
    {
        let ghost before = face_refs.subrange(0, k as int);
        if k > 0 {
            shell_line.append(",");
        }
        append_ref(&mut shell_line, v + 3 + 3 * k);
        proof {
            let after = face_refs.subrange(0, k + 1);
            assert(after.drop_last() =~= before);
            if k == 0 {
                assert(join_commas(after) == after[0]);
            }
        }
        k = k + 1;
    }
    assert(face_refs.subrange(0, f as int) =~= face_refs);
    shell_line.append("));");
    shell_line
}

/// The `FACETED_BREP` record over shell `shell`, named `safe_name`.
fn step_brep_line(shell: usize, safe_name: &String) -> (line: String)
    requires
        shell < usize::MAX,
    ensures
        line@ == ref_text((shell + 1) as nat) + "=FACETED_BREP('"@ + safe_name@ + "',"@ + ref_text(
            shell as nat,
        ) + ");"@,
{
    let mut brep_line = String::new();
    append_ref(&mut brep_line, shell + 1);
    brep_line.append("=FACETED_BREP('");
    brep_line.append(safe_name.as_str());
    brep_line.append("',");
    append_ref(&mut brep_line, shell);
    brep_line.append(");");
    brep_line
}

pub proof fn lemma_step_face_line_index(
    cv: Seq<Seq<Seq<char>>>,
    tris: Seq<[usize; 3]>,
    name: Seq<char>,
    j: int,
    part: int,
)
    requires
        0 <= j < tris.len(),
        0 <= part < 3,
    ensures
        step_data_lines(cv, tris, name)[cv.len() + 3 * j + part] == step_face_entity(
            cv.len(),
            j as nat,
            tris[j],
            part,
        ),
{
    let v = cv.len();
    let f = tris.len();
    let m = 3 * j + part;
    assert(m / 3 == j && m % 3 == part) by (nonlinear_arith)
        requires
            m == 3 * j + part,
            0 <= part < 3,
    ;
    let faces = Seq::new(
        3 * f as nat,
        |q: int| step_face_entity(v, (q / 3) as nat, tris[q / 3], q % 3),
    );
    let points = Seq::new(v, |q: int| step_point_entity((q + 1) as nat, cv[q]));
    assert(faces[m] == step_face_entity(v, j as nat, tris[j], part));
    assert((points + faces)[v + m] == faces[m]);
}

/// The STEP Part 21 text of a faceted B-rep with points `coords` (three
/// coordinate texts each) and triangles over point positions.
#[verifier::spinoff_prover]
#[verifier::rlimit(40)]
pub fn step_faceted_text(coords: &[[String; 3]], triangles: &[[usize; 3]], product_name: &str) -> (text:
    String)
    requires
        triangles_in_range(triangles@, coords@.len()),
        coords@.len() + 3 * triangles@.len() + 2 <= usize::MAX,
    ensures
        text@ == step_text(coords_view(coords@), triangles@, product_name@),
{
    let ghost cv = coords_view(coords@);
    let ghost tris = triangles@;
    let ghost name = product_name@;
    let ghost lines = step_data_lines(cv, tris, name);
    let v = coords.len();
    let f = triangles.len();
    let safe_name = step_string(product_name);
    let mut out = String::from_str("ISO-10303-21;\n");
    out.append("HEADER;\n");
    out.append("FILE_DESCRIPTION(('brep-kernel faceted B-rep subset'),'2;1');\n");
    out.append("FILE_NAME('");
    out.append(safe_name.as_str());
    out.append("','',('brep-kernel'),('brep-kernel'),'brep-kernel','brep-kernel','');\n");
    out.append("FILE_SCHEMA(('CONFIG_CONTROL_DESIGN'));\n");
    out.append("ENDSEC;\n");
    out.append("DATA;\n");
    let ghost header = out@;
    assert(header == step_header(name));
    assert(lines.subrange(0, 0) =~= Seq::<Seq<char>>::empty());
    assert(lines.len() == v + 3 * f + 2);
    let mut i: usize = 0;
    while i < v
        invariant
            v == coords@.len(),
            f == triangles@.len(),
            cv == coords_view(coords@),
            lines == step_data_lines(cv, tris, name),
            lines.len() == v + 3 * f + 2,
            tris == triangles@,
            v + 3 * f + 2 <= usize::MAX,
            0 <= i <= v,
            out@ == header + concat_lines(lines.subrange(0, i as int)),
        decreases v - i,
    {
        let line = step_point_line(i + 1, &coords[i]);
        assert(cv[i as int] == seq![coords@[i as int][0]@, coords@[i as int][1]@, coords@[i as int][2]@]);
        assert(line@ == lines[i as int]);
        append_line(&mut out, &line);
        assert(lines.subrange(0, i + 1).drop_last() =~= lines.subrange(0, i as int));
        i = i + 1;
    }
    let mut j: usize = 0;
    while j < f
        invariant
            v == coords@.len(),
            f == triangles@.len(),
            cv == coords_view(coords@),
            lines == step_data_lines(cv, tris, name),
            lines.len() == v + 3 * f + 2,
            tris == triangles@,
            triangles_in_range(tris, v as nat),
            v + 3 * f + 2 <= usize::MAX,
            0 <= j <= f,
            out@ == header + concat_lines(lines.subrange(0, v + 3 * j)),
        decreases f - j,
    {
        let t = triangles[j];
        assert(t[0] < v && t[1] < v && t[2] < v) by {
            assert(tris[j as int][0] < v);
            assert(tris[j as int][1] < v);
            assert(tris[j as int][2] < v);
        }
        let mut part: usize = 0;
        while part < 3
            invariant
                v == coords@.len(),
                f == triangles@.len(),
                lines == step_data_lines(cv, tris, name),
                lines.len() == v + 3 * f + 2,
                cv == coords_view(coords@),
                tris == triangles@,
                t == tris[j as int],
                t[0] < v && t[1] < v && t[2] < v,
                v + 3 * f + 2 <= usize::MAX,
                0 <= j < f,
                0 <= part <= 3,
                out@ == header + concat_lines(lines.subrange(0, v + 3 * j + part)),
            decreases 3 - part,
        {
            let line = step_face_line(v, j, t, part);
            proof {
                lemma_step_face_line_index(cv, tris, name, j as int, part as int);
            }
            append_line(&mut out, &line);
            assert(lines.subrange(0, v + 3 * j + part + 1).drop_last() =~= lines.subrange(
                0,
                v + 3 * j + part,
            ));
            part = part + 1;
        }
        j = j + 1;
    }
    let shell = v + 3 * f + 1;
    let shell_line = step_shell_line(v, f);
    let brep_line = step_brep_line(shell, &safe_name);
    assert(shell_line@ == lines[v + 3 * f]);
    assert(out@ == header + concat_lines(lines.subrange(0, v + 3 * f)));
    append_line(&mut out, &shell_line);
    proof {
        let l1 = lines.subrange(0, v + 3 * f + 1);
        assert(l1.drop_last() =~= lines.subrange(0, v + 3 * f));
        assert(concat_lines(l1) == concat_lines(lines.subrange(0, v + 3 * f)) + lines[v + 3 * f]
            + "\n"@);
        assert(out@ =~= header + concat_lines(l1));
    }
    assert(brep_line@ == lines[v + 3 * f + 1]);
    append_line(&mut out, &brep_line);
    proof {
        let l2 = lines.subrange(0, v + 3 * f + 2);
        assert(l2.drop_last() =~= lines.subrange(0, v + 3 * f + 1));
        assert(concat_lines(l2) == concat_lines(lines.subrange(0, v + 3 * f + 1)) + lines[v + 3 * f
            + 1] + "\n"@);
        assert(out@ =~= header + concat_lines(l2));
    }
    assert(lines.subrange(0, v + 3 * f + 2) =~= lines);
    assert(out@ == header + concat_lines(lines));
    out.append("ENDSEC;\n");
    out.append("END-ISO-10303-21;\n");
    assert(out@ == step_header(name) + concat_lines(step_data_lines(cv, tris, name)) + "ENDSEC;\n"@
        + "END-ISO-10303-21;\n"@);
    out
}

/// A sequence number right-aligned in a field of seven.
pub open spec fn pad7(s: Seq<char>) -> Seq<char> {
    if s.len() < 7 {
        Seq::new((7 - s.len()) as nat, |i: int| ' ') + s
    } else {
        s
    }
}

/// The IGES point record of point `i` (counted from 0).
pub open spec fn iges_point_line(i: nat, c: Seq<Seq<char>>) -> Seq<char> {
    "116,"@ + decimal(i + 1) + ","@ + c[0] + ","@ + c[1] + ","@ + c[2] + ";P"@ + pad7(decimal(i + 1))
}

/// The IGES triangle record of triangle `j` (counted from 0), after `v`
/// point records.
pub open spec fn iges_triangle_line(v: nat, j: nat, t: [usize; 3]) -> Seq<char> {
    "106,"@ + decimal(j + 1) + ","@ + decimal((t[0] + 1) as nat) + ","@ + decimal((t[1] + 1) as nat)
        + ","@ + decimal((t[2] + 1) as nat) + ";P"@ + pad7(decimal(v + j + 1))
}

/// The lines of the IGES text of a faceted B-rep.
pub open spec fn iges_lines(coords: Seq<Seq<Seq<char>>>, tris: Seq<[usize; 3]>, name: Seq<char>) -> Seq<
    Seq<char>,
> {
    let v = coords.len();
    let f = tris.len();
    seq![
        "BREP_KERNEL_IGES_FACETED_SUBSET,1;S      1"@,
        "PRODUCT,"@ + iges_token_text(name) + ";G      1"@,
    ] + Seq::new(v, |i: int| iges_point_line(i as nat, coords[i])) + Seq::new(
        f,
        |j: int| iges_triangle_line(v, j as nat, tris[j]),
    ) + seq!["T,"@ + decimal(v) + ","@ + decimal(f) + ",0;T      1"@]
}

/// The IGES text of a faceted B-rep.
pub open spec fn iges_text(coords: Seq<Seq<Seq<char>>>, tris: Seq<[usize; 3]>, name: Seq<char>) -> Seq<
    char,
> {
    concat_lines(iges_lines(coords, tris, name))
}

/// Append a sequence number right-aligned in a field of seven.
fn append_padded(out: &mut String, n: usize)
    ensures
        final(out)@ == old(out)@ + pad7(decimal(n as nat)),
{
    let d = decimal_text(n);
    let len = d.as_str().unicode_len();
    let ghost start = out@;
    if len < 7 {
        let mut k: usize = len;
        while k < 7
            invariant
                len <= k <= 7,
                len == d@.len(),
                out@ == start + Seq::new((k - len) as nat, |i: int| ' '),
            decreases 7 - k,
        {
            out.append(" ");
            proof {
                reveal_strlit(" ");
            }
            assert(out@ =~= start + Seq::new((k + 1 - len) as nat, |i: int| ' '));
            k = k + 1;
        }
    }
    out.append(d.as_str());
    assert(out@ =~= start + pad7(decimal(n as nat)));
}

/// Append the decimal digits of `n`.
fn append_decimal(out: &mut String, n: usize)
    ensures
        final(out)@ == old(out)@ + decimal(n as nat),
{
    let d = decimal_text(n);
    out.append(d.as_str());
}

/// The IGES text of a faceted B-rep with points `coords` (three coordinate
/// texts each) and triangles over point positions.
#[verifier::spinoff_prover]
#[verifier::rlimit(40)]
pub fn iges_faceted_text(coords: &[[String; 3]], triangles: &[[usize; 3]], product_name: &str) -> (text:
    String)
    requires
        triangles_in_range(triangles@, coords@.len()),
        coords@.len() + triangles@.len() + 1 <= usize::MAX,
    ensures
        text@ == iges_text(coords_view(coords@), triangles@, product_name@),
{
    let ghost cv = coords_view(coords@);
    let ghost tris = triangles@;
    let ghost lines = iges_lines(cv, tris, product_name@);
    let v = coords.len();
    let f = triangles.len();
    assert(lines.len() == v + f + 3);
    let mut out = String::new();
    let first = String::from_str("BREP_KERNEL_IGES_FACETED_SUBSET,1;S      1");
    append_line(&mut out, &first);
    let mut product = String::from_str("PRODUCT,");
    let token = iges_token(product_name);
    product.append(token.as_str());
    product.append(";G      1");
    append_line(&mut out, &product);
    proof {
        let l1 = lines.subrange(0, 1);
        let l2 = lines.subrange(0, 2);
        assert(l1.drop_last() =~= Seq::<Seq<char>>::empty());
        assert(l2.drop_last() =~= l1);
        assert(concat_lines(Seq::<Seq<char>>::empty()) == Seq::<char>::empty());
        assert(concat_lines(l1) =~= lines[0] + "\n"@);
        assert(concat_lines(l2) =~= concat_lines(l1) + lines[1] + "\n"@);
        assert(out@ =~= concat_lines(l2));
    }
    let mut i: usize = 0;
    while i < v
        invariant
            v == coords@.len(),
            f == triangles@.len(),
            cv == coords_view(coords@),
            lines == iges_lines(cv, tris, product_name@),
            lines.len() == v + f + 3,
            v + f + 1 <= usize::MAX,
            0 <= i <= v,
            out@ == concat_lines(lines.subrange(0, 2 + i)),
        decreases v - i,
    {
        let c = &coords[i];
        let mut line = String::from_str("116,");
        append_decimal(&mut line, i + 1);
        line.append(",");
        line.append(c[0].as_str());
        line.append(",");
        line.append(c[1].as_str());
        line.append(",");
        line.append(c[2].as_str());
        line.append(";P");
        append_padded(&mut line, i + 1);
        assert(cv[i as int] == seq![c[0]@, c[1]@, c[2]@]);
        assert(line@ == lines[2 + i]);
        append_line(&mut out, &line);
        assert(lines.subrange(0, 2 + i + 1).drop_last() =~= lines.subrange(0, 2 + i));
        i = i + 1;
    }
    let mut j: usize = 0;
    while j < f
        invariant
            v == coords@.len(),
            f == triangles@.len(),
            tris == triangles@,
            triangles_in_range(tris, v as nat),
            lines == iges_lines(cv, tris, product_name@),
            lines.len() == v + f + 3,
            v + f + 1 <= usize::MAX,
            0 <= j <= f,
            out@ == concat_lines(lines.subrange(0, 2 + v + j)),
        decreases f - j,
    {
        let t = triangles[j];
        assert(t[0] < v && t[1] < v && t[2] < v) by {
            assert(tris[j as int][0] < v);
            assert(tris[j as int][1] < v);
            assert(tris[j as int][2] < v);
        }
        let mut line = String::from_str("106,");
        append_decimal(&mut line, j + 1);
        line.append(",");
        append_decimal(&mut line, t[0] + 1);
        line.append(",");
        append_decimal(&mut line, t[1] + 1);
        line.append(",");
        append_decimal(&mut line, t[2] + 1);
        line.append(";P");
        append_padded(&mut line, v + j + 1);
        assert(line@ == lines[2 + v + j]);
        append_line(&mut out, &line);
        assert(lines.subrange(0, 2 + v + j + 1).drop_last() =~= lines.subrange(0, 2 + v + j));
        j = j + 1;
    }
    let mut last = String::from_str("T,");
    append_decimal(&mut last, v);
    last.append(",");
    append_decimal(&mut last, f);
    last.append(",0;T      1");
    assert(last@ == lines[2 + v + f]);
    append_line(&mut out, &last);
    assert(lines.subrange(0, 3 + v + f).drop_last() =~= lines.subrange(0, 2 + v + f));
    assert(lines.subrange(0, 3 + v + f) =~= lines);
    out
}

} // verus!
