//! What the STEP reader gives back of what the STEP writer wrote.
use vstd::prelude::*;
use crate::exchange::{
    concat_lines, digit_run_end, join_commas, lemma_digit_run_end, lemma_step_face_line_index,
    ref_text, step_chunk, step_data_lines, step_entities, step_entries_fold, step_escaped,
    step_entity_kind_of, step_face_entity, step_header, step_point_coords, step_point_entity,
    step_refs, step_refs_from, step_text, StepChunk, StepEntitiesError, StepEntityKind,
    StepPointError,
};
use crate::exchange_laws::{
    free_of, lemma_concat_lines_front, lemma_decimal_digits, lemma_decimal_free,
    lemma_decimal_parses, lemma_decimal_plain, lemma_first_index_is, lemma_free_concat,
    lemma_insert_entry_append, lemma_split_prefix, lemma_split_whole, lemma_trimmed_same, lemma_ws_counts_bounded,
};
use crate::text::{
    ascii_upper, decimal, find_from, first_index_of, has_prefix, is_digit, is_unicode_whitespace,
    last_index_of, leading_ws, lemma_find_from, lemma_first_index_of, lemma_last_index_of,
    occurs_at, split_on, trimmed, trimmed_pieces, upper_text, usize_parse,
};

verus! {

/// Every `;` of `s` follows a character of `s` whose ASCII upper case is
/// not `x`.
pub open spec fn semis_after_not(s: Seq<char>, x: char) -> bool {
    &&& (s.len() == 0 || s[0] != ';')
    &&& forall|k: int| 0 <= k < s.len() - 1 && s[k + 1] == ';' ==> ascii_upper(#[trigger] s[k]) != x
}

pub proof fn lemma_upper_semi(c: char)
    ensures
        ascii_upper(c) == ';' <==> c == ';',
{
}

/// A text without `;` has none to check.
pub proof fn lemma_free_semis(s: Seq<char>, x: char)
    requires
        free_of(s, ';'),
    ensures
        semis_after_not(s, x),
{
}

pub proof fn lemma_semis_concat(a: Seq<char>, b: Seq<char>, x: char)
    requires
        semis_after_not(a, x),
        semis_after_not(b, x),
        b.len() == 0 || b[0] != ';',
    ensures
        semis_after_not(a + b, x),
{
    let s = a + b;
    if a.len() > 0 {
        assert(s[0] == a[0]);
    }
    assert forall|k: int| 0 <= k < s.len() - 1 && s[k + 1] == ';' implies ascii_upper(
        #[trigger] s[k],
    ) != x by {
        if k + 1 < a.len() {
            assert(s[k + 1] == a[k + 1]);
            assert(s[k] == a[k]);
        } else {
            assert(s[k + 1] == b[k + 1 - a.len()]);
            assert(k + 1 - a.len() >= 1);
            assert(s[k] == b[k - a.len()]);
        }
    }
}

/// Escaping adds no `;`.
pub proof fn lemma_escaped_free(name: Seq<char>)
    requires
        free_of(name, ';'),
    ensures
        free_of(step_escaped(name), ';'),
    decreases name.len(),
{
    if name.len() > 0 {
        let init = name.drop_last();
        assert(free_of(init, ';')) by {
            assert forall|i: int| 0 <= i < init.len() implies init[i] != ';' by {
                assert(init[i] == name[i]);
            }
        }
        lemma_escaped_free(init);
        if name.last() == '\'' {
            lemma_free_concat(step_escaped(init), seq!['\'', '\''], ';');
        } else {
            assert(name[name.len() - 1] != ';');
            lemma_free_concat(step_escaped(init), seq![name.last()], ';');
        }
    }
}

/// `p`, whose last character is `;`, does not occur at `j` in the upper
/// case of `pre + a + b` when `j` falls in `a`, every `;` of `a` follows a
/// character other than the one before `p`'s `;`, and `b` starts with no
/// `;` within `p`'s reach.
#[verifier::spinoff_prover]
#[verifier::rlimit(40)]
pub proof fn lemma_no_occurrence(pre: Seq<char>, a: Seq<char>, b: Seq<char>, p: Seq<char>, j: int)
    requires
        p.len() >= 2,
        p.last() == ';',
        semis_after_not(a, p[p.len() - 2]),
        forall|i: int| 0 <= i < p.len() - 1 && i < b.len() ==> b[i] != ';',
        pre.len() <= j < pre.len() + a.len(),
    ensures
        !occurs_at(upper_text(pre + a + b), p, j),
{
    let s = pre + a + b;
    let u = upper_text(s);
    if occurs_at(u, p, j) {
        let m = j + p.len() - 1;
        assert(u.subrange(j, j + p.len())[p.len() - 1] == p[p.len() - 1]);
        assert(u[m] == ';');
        lemma_upper_semi(s[m]);
        assert(s[m] == ';');
        if m < pre.len() + a.len() {
            let k = m - pre.len();
            assert(a[k] == s[m]);
            assert(k >= 1);
            assert(a[k - 1] == s[m - 1]);
            assert(a[(k - 1) + 1] == ';');
            assert(u.subrange(j, j + p.len())[p.len() - 2] == p[p.len() - 2]);
            assert(u[m - 1] == p[p.len() - 2]);
            assert(ascii_upper(a[k - 1]) != p[p.len() - 2]);
        } else {
            let i = m - pre.len() - a.len();
            assert(b[i] == s[m]);
        }
    }
}

/// The first occurrence at or after `from` is the one at `i` when none
/// comes between.
pub proof fn lemma_find_from_is(s: Seq<char>, p: Seq<char>, from: int, i: int)
    requires
        0 <= from <= i,
        occurs_at(s, p, i),
        forall|j: int| from <= j < i ==> !occurs_at(s, p, j),
    ensures
        find_from(s, p, from) == Some(i),
{
    lemma_find_from(s, p, from);
    match find_from(s, p, from) {
        Some(k) => {
            if k < i {
                assert(!occurs_at(s, p, k));
            }
        },
        None => {},
    }
}

/// The header up to its `DATA;` line.
pub open spec fn header_before_data(name: Seq<char>) -> Seq<char> {
    "ISO-10303-21;\n"@ + "HEADER;\n"@
        + "FILE_DESCRIPTION(('brep-kernel faceted B-rep subset'),'2;1');\n"@ + "FILE_NAME('"@
        + step_escaped(name)
        + "','',('brep-kernel'),('brep-kernel'),'brep-kernel','brep-kernel','');\n"@
        + "FILE_SCHEMA(('CONFIG_CONTROL_DESIGN'));\n"@ + "ENDSEC;\n"@
}

/// The header's `;` never follow an `A`.
#[verifier::spinoff_prover]
#[verifier::rlimit(40)]
pub proof fn lemma_header_semis(name: Seq<char>)
    requires
        free_of(name, ';'),
    ensures
        step_header(name) == header_before_data(name) + "DATA;\n"@,
        semis_after_not(header_before_data(name), 'A'),
{
    let l1 = "ISO-10303-21;\n"@;
    let l2 = "HEADER;\n"@;
    let l3 = "FILE_DESCRIPTION(('brep-kernel faceted B-rep subset'),'2;1');\n"@;
    let l4 = "FILE_NAME('"@;
    let l5 = "','',('brep-kernel'),('brep-kernel'),'brep-kernel','brep-kernel','');\n"@;
    let l6 = "FILE_SCHEMA(('CONFIG_CONTROL_DESIGN'));\n"@;
    let l7 = "ENDSEC;\n"@;
    reveal_strlit("ISO-10303-21;\n");
    reveal_strlit("HEADER;\n");
    reveal_strlit("FILE_DESCRIPTION(('brep-kernel faceted B-rep subset'),'2;1');\n");
    reveal_strlit("FILE_NAME('");
    reveal_strlit("','',('brep-kernel'),('brep-kernel'),'brep-kernel','brep-kernel','');\n");
    reveal_strlit("FILE_SCHEMA(('CONFIG_CONTROL_DESIGN'));\n");
    reveal_strlit("ENDSEC;\n");
    let esc = step_escaped(name);
    lemma_escaped_free(name);
    assert(semis_after_not(l1, 'A'));
    assert(semis_after_not(l2, 'A'));
    assert(semis_after_not(l3, 'A'));
    assert(semis_after_not(l4, 'A'));
    assert(semis_after_not(l5, 'A'));
    assert(semis_after_not(l6, 'A'));
    assert(semis_after_not(l7, 'A'));
    lemma_free_semis(esc, 'A');
    lemma_semis_concat(l1, l2, 'A');
    lemma_semis_concat(l1 + l2, l3, 'A');
    lemma_semis_concat(l1 + l2 + l3, l4, 'A');
    lemma_semis_concat(l1 + l2 + l3 + l4, esc, 'A');
    lemma_semis_concat(l1 + l2 + l3 + l4 + esc, l5, 'A');
    lemma_semis_concat(l1 + l2 + l3 + l4 + esc + l5, l6, 'A');
    lemma_semis_concat(l1 + l2 + l3 + l4 + esc + l5 + l6, l7, 'A');
    assert(step_header(name) =~= header_before_data(name) + "DATA;\n"@);
}

/// Entity record `#id=body`, without its closing `;`.
pub open spec fn entity_text(id: nat, body: Seq<char>) -> Seq<char> {
    ref_text(id) + "="@ + body
}

/// A record body that the reader takes back as it stands: it starts with
/// a non-whitespace character, ends with `)` and holds no `;`.
pub open spec fn plain_body(body: Seq<char>) -> bool {
    &&& body.len() > 0
    &&& !is_unicode_whitespace(body[0])
    &&& body.last() == ')'
    &&& free_of(body, ';')
}

#[verifier::spinoff_prover]
pub proof fn lemma_entity_text(id: nat, body: Seq<char>)
    requires
        plain_body(body),
    ensures
        entity_text(id, body).len() > 0,
        entity_text(id, body)[0] == '#',
        entity_text(id, body).last() == ')',
        free_of(entity_text(id, body), ';'),
        semis_after_not(entity_text(id, body) + ";"@, 'C'),
{
    reveal_strlit("#");
    reveal_strlit("=");
    reveal_strlit(";");
    let d = decimal(id);
    lemma_decimal_free(id);
    let x = entity_text(id, body);
    assert(x =~= seq!['#'] + d + seq!['='] + body);
    lemma_free_concat(seq!['#'], d, ';');
    lemma_free_concat(seq!['#'] + d, seq!['='], ';');
    lemma_free_concat(seq!['#'] + d + seq!['='], body, ';');
    let line = x + ";"@;
    assert forall|k: int| 0 <= k < line.len() - 1 && line[k + 1] == ';' implies ascii_upper(
        #[trigger] line[k],
    ) != 'C' by {
        if k + 1 < x.len() {
            assert(line[k + 1] == x[k + 1]);
        } else {
            assert(line[k] == x.last());
        }
    }
}

/// Leading whitespace does not change a trim.
pub proof fn lemma_trim_after_ws(w: char, x: Seq<char>)
    requires
        is_unicode_whitespace(w),
    ensures
        trimmed(seq![w] + x) == trimmed(x),
{
    let s = seq![w] + x;
    assert(s.drop_first() =~= x);
    assert(leading_ws(s) == 1 + leading_ws(x));
    lemma_ws_counts_bounded(x);
    assert(s.subrange(leading_ws(s) as int, s.len() as int) =~= x.subrange(
        leading_ws(x) as int,
        x.len() as int,
    ));
}

/// A DATA chunk holding one record reads as that entity.
#[verifier::spinoff_prover]
pub proof fn lemma_entity_chunk(id: nat, body: Seq<char>)
    requires
        id <= usize::MAX,
        plain_body(body),
    ensures
        step_chunk(seq!['\n'] + entity_text(id, body)) == StepChunk::Entity(id as usize, body),
{
    reveal_strlit("#");
    reveal_strlit("=");
    let x = entity_text(id, body);
    lemma_entity_text(id, body);
    lemma_trim_after_ws('\n', x);
    lemma_trimmed_same(x);
    let d = decimal(id);
    let rest = x.drop_first();
    assert(rest =~= d + seq!['='] + body);
    lemma_decimal_digits(id);
    assert(rest[d.len() as int] == '=');
    assert forall|j: int| 0 <= j < d.len() implies rest[j] != '=' by {
        assert(rest[j] == d[j]);
    }
    lemma_first_index_is(rest, '=', d.len() as int);
    assert(rest.subrange(0, d.len() as int) =~= d);
    lemma_decimal_plain(id);
    lemma_decimal_parses(id);
    assert(rest.subrange(d.len() as int + 1, rest.len() as int) =~= body);
    lemma_trimmed_same(body);
}

/// The last, empty DATA chunk reads as nothing.
pub proof fn lemma_blank_chunk()
    ensures
        step_chunk(seq!['\n']) == StepChunk::Skip,
{
    lemma_trim_after_ws('\n', Seq::<char>::empty());
    lemma_ws_counts_bounded(Seq::<char>::empty());
}

/// Records ending in `;`, each on its own line, split at `;` after a line
/// feed into a line feed and each record, and a last line feed.
#[verifier::spinoff_prover]
pub proof fn lemma_split_records(lines: Seq<Seq<char>>)
    requires
        forall|k: int|
            0 <= k < lines.len() ==> (#[trigger] lines[k]).len() > 0 && lines[k].last() == ';'
                && free_of(lines[k].drop_last(), ';'),
    ensures
        split_on(seq!['\n'] + concat_lines(lines), ';') == Seq::new(
            lines.len(),
            |k: int| seq!['\n'] + lines[k].drop_last(),
        ) + seq![seq!['\n']],
    decreases lines.len(),
{
    reveal_strlit("\n");
    if lines.len() == 0 {
        assert(seq!['\n'] + concat_lines(lines) =~= seq!['\n']);
        lemma_split_whole(seq!['\n'], ';');
        assert(Seq::new(lines.len(), |k: int| seq!['\n'] + lines[k].drop_last()) + seq![seq!['\n']]
            =~= seq![seq!['\n']]);
    } else {
        let rest = lines.drop_first();
        assert forall|k: int| 0 <= k < rest.len() implies (#[trigger] rest[k]).len() > 0
            && rest[k].last() == ';' && free_of(rest[k].drop_last(), ';') by {
            assert(rest[k] == lines[k + 1]);
        }
        lemma_split_records(rest);
        lemma_concat_lines_front(lines);
        let l0 = lines[0];
        let a = seq!['\n'] + l0.drop_last();
        let b = seq!['\n'] + concat_lines(rest);
        assert(l0 =~= l0.drop_last() + seq![';']);
        assert(seq!['\n'] + concat_lines(lines) =~= a + seq![';'] + b);
        assert(free_of(l0.drop_last(), ';'));
        lemma_free_concat(seq!['\n'], l0.drop_last(), ';');
        lemma_split_prefix(a, b, ';');
        assert(seq![a] + (Seq::new(rest.len(), |k: int| seq!['\n'] + rest[k].drop_last()) + seq![
            seq!['\n'],
        ]) =~= Seq::new(lines.len(), |k: int| seq!['\n'] + lines[k].drop_last()) + seq![
            seq!['\n'],
        ]);
    }
}

/// Body of the `CARTESIAN_POINT` record with coordinate texts `c`.
pub open spec fn point_body(c: Seq<Seq<char>>) -> Seq<char> {
    "CARTESIAN_POINT('',("@ + c[0] + ", "@ + c[1] + ", "@ + c[2] + "))"@
}

/// Body of record `part` (poly-loop, outer bound, face) of triangle `j`
/// after `v` point records.
pub open spec fn face_body(v: nat, j: nat, t: [usize; 3], part: int) -> Seq<char> {
    let l = v + 1 + 3 * j;
    if part == 0 {
        "POLY_LOOP('',("@ + ref_text((t[0] + 1) as nat) + ","@ + ref_text((t[1] + 1) as nat) + ","@
            + ref_text((t[2] + 1) as nat) + "))"@
    } else if part == 1 {
        "FACE_OUTER_BOUND('',"@ + ref_text(l) + ",.T.)"@
    } else {
        "FACE('F"@ + decimal(j) + "',("@ + ref_text(l + 1) + "))"@
    }
}

/// Body of the `CLOSED_SHELL` record over `f` faces after `v` points.
pub open spec fn shell_body(v: nat, f: nat) -> Seq<char> {
    "CLOSED_SHELL('',("@ + join_commas(Seq::new(f, |j: int| ref_text((v + 3 + 3 * j) as nat)))
        + "))"@
}

/// Body of the `FACETED_BREP` record over shell `shell`, named `name`.
pub open spec fn brep_body(shell: nat, name: Seq<char>) -> Seq<char> {
    "FACETED_BREP('"@ + step_escaped(name) + "',"@ + ref_text(shell) + ")"@
}

/// Body of the `k`-th DATA record that the writer emits.
pub open spec fn step_body(
    coords: Seq<Seq<Seq<char>>>,
    tris: Seq<[usize; 3]>,
    name: Seq<char>,
    k: int,
) -> Seq<char> {
    let v = coords.len();
    let f = tris.len();
    if k < v {
        point_body(coords[k])
    } else if k < v + 3 * f {
        face_body(v, ((k - v) / 3) as nat, tris[(k - v) / 3], (k - v) % 3)
    } else if k == v + 3 * f {
        shell_body(v, f)
    } else {
        brep_body(v + 3 * f + 1, name)
    }
}

pub proof fn lemma_point_record(id: nat, c: Seq<Seq<char>>)
    ensures
        step_point_entity(id, c) == entity_text(id, point_body(c)) + ";"@,
{
    reveal_strlit("=");
    reveal_strlit(";");
    reveal_strlit("=CARTESIAN_POINT('',(");
    reveal_strlit("CARTESIAN_POINT('',(");
    reveal_strlit("));");
    reveal_strlit("))");
    assert(step_point_entity(id, c) =~= entity_text(id, point_body(c)) + ";"@);
}

pub proof fn lemma_face_record(v: nat, j: nat, t: [usize; 3], part: int)
    requires
        0 <= part < 3,
    ensures
        step_face_entity(v, j, t, part) == entity_text(
            (v + 1 + 3 * j + part) as nat,
            face_body(v, j, t, part),
        ) + ";"@,
{
    reveal_strlit("=");
    reveal_strlit(";");
    if part == 0 {
        reveal_strlit("=POLY_LOOP('',(");
        reveal_strlit("POLY_LOOP('',(");
        reveal_strlit("));");
        reveal_strlit("))");
    } else if part == 1 {
        reveal_strlit("=FACE_OUTER_BOUND('',");
        reveal_strlit("FACE_OUTER_BOUND('',");
        reveal_strlit(",.T.);");
        reveal_strlit(",.T.)");
    } else {
        reveal_strlit("=FACE('F");
        reveal_strlit("FACE('F");
        reveal_strlit("));");
        reveal_strlit("))");
    }
    assert(step_face_entity(v, j, t, part) =~= entity_text(
        (v + 1 + 3 * j + part) as nat,
        face_body(v, j, t, part),
    ) + ";"@);
}

pub proof fn lemma_shell_record(v: nat, f: nat)
    ensures
        ref_text(v + 3 * f + 1) + "=CLOSED_SHELL('',("@ + join_commas(
            Seq::new(f, |j: int| ref_text((v + 3 + 3 * j) as nat)),
        ) + "));"@ == entity_text(v + 3 * f + 1, shell_body(v, f)) + ";"@,
{
    reveal_strlit("=");
    reveal_strlit(";");
    reveal_strlit("=CLOSED_SHELL('',(");
    reveal_strlit("CLOSED_SHELL('',(");
    reveal_strlit("));");
    reveal_strlit("))");
    assert(ref_text(v + 3 * f + 1) + "=CLOSED_SHELL('',("@ + join_commas(
        Seq::new(f, |j: int| ref_text((v + 3 + 3 * j) as nat)),
    ) + "));"@ =~= entity_text(v + 3 * f + 1, shell_body(v, f)) + ";"@);
}

pub proof fn lemma_brep_record(shell: nat, name: Seq<char>)
    ensures
        ref_text(shell + 1) + "=FACETED_BREP('"@ + step_escaped(name) + "',"@ + ref_text(shell)
            + ");"@ == entity_text(shell + 1, brep_body(shell, name)) + ";"@,
{
    reveal_strlit("=");
    reveal_strlit(";");
    reveal_strlit("=FACETED_BREP('");
    reveal_strlit("FACETED_BREP('");
    reveal_strlit(");");
    reveal_strlit(")");
    assert(ref_text(shell + 1) + "=FACETED_BREP('"@ + step_escaped(name) + "',"@ + ref_text(shell)
        + ");"@ =~= entity_text(shell + 1, brep_body(shell, name)) + ";"@);
}

/// The `k`-th DATA line is record `k + 1` with its body and a `;`.
#[verifier::spinoff_prover]
#[verifier::rlimit(40)]
pub proof fn lemma_data_line(
    coords: Seq<Seq<Seq<char>>>,
    tris: Seq<[usize; 3]>,
    name: Seq<char>,
    k: int,
)
    requires
        0 <= k < coords.len() + 3 * tris.len() + 2,
    ensures
        step_data_lines(coords, tris, name)[k] == entity_text(
            (k + 1) as nat,
            step_body(coords, tris, name, k),
        ) + ";"@,
{
    let v = coords.len();
    let f = tris.len();
    let lines = step_data_lines(coords, tris, name);
    let points = Seq::new(v, |i: int| step_point_entity((i + 1) as nat, coords[i]));
    let faces = Seq::new(
        3 * f,
        |m: int| step_face_entity(v, (m / 3) as nat, tris[m / 3], m % 3),
    );
    if k < v {
        assert(lines[k] == points[k]);
        lemma_point_record((k + 1) as nat, coords[k]);
    } else if k < v + 3 * f {
        let j = (k - v) / 3;
        let part = (k - v) % 3;
        assert(k - v == 3 * j + part && 0 <= part < 3) by (nonlinear_arith)
            requires
                j == (k - v) / 3,
                part == (k - v) % 3,
                k - v >= 0,
        ;
        assert(0 <= j < f);
        lemma_step_face_line_index(coords, tris, name, j, part);
        lemma_face_record(v, j as nat, tris[j], part);
    } else if k == v + 3 * f {
        lemma_shell_record(v, f);
    } else {
        lemma_brep_record(v + 3 * f + 1, name);
    }
}

/// A coordinate text that the STEP reader gives back unchanged: its own
/// trim, and free of `,`, `;`, `(` and `)`.
pub open spec fn step_plain_text(t: Seq<char>) -> bool {
    &&& trimmed(t) == t
    &&& free_of(t, ',')
    &&& free_of(t, ';')
    &&& free_of(t, '(')
    &&& free_of(t, ')')
}

/// Three plain coordinate texts per point.
pub open spec fn step_plain_coordinates(coords: Seq<Seq<Seq<char>>>) -> bool {
    forall|i: int, q: int|
        0 <= i < coords.len() && 0 <= q < 3 ==> coords[i].len() == 3 && step_plain_text(
            #[trigger] coords[i][q],
        )
}

pub proof fn lemma_ref_free(n: nat, c: char)
    requires
        c != '#',
        !(0x30 <= (c as u32) <= 0x39),
    ensures
        free_of(ref_text(n), c),
{
    reveal_strlit("#");
    lemma_decimal_digits(n);
    assert(ref_text(n) =~= seq!['#'] + decimal(n));
    assert forall|i: int| 0 <= i < ref_text(n).len() implies ref_text(n)[i] != c by {
        if i > 0 {
            assert(ref_text(n)[i] == decimal(n)[i - 1]);
        }
    }
}

/// Texts joined with commas hold no `c` other than a comma when none of
/// the parts does.
pub proof fn lemma_join_free(parts: Seq<Seq<char>>, c: char)
    requires
        c != ',',
        forall|k: int| 0 <= k < parts.len() ==> free_of(#[trigger] parts[k], c),
    ensures
        free_of(join_commas(parts), c),
    decreases parts.len(),
{
    reveal_strlit(",");
    if parts.len() > 1 {
        let init = parts.drop_last();
        assert forall|k: int| 0 <= k < init.len() implies free_of(#[trigger] init[k], c) by {
            assert(init[k] == parts[k]);
        }
        lemma_join_free(init, c);
        assert(free_of(parts.last(), c));
        lemma_free_concat(join_commas(init), ","@, c);
        lemma_free_concat(join_commas(init) + ","@, parts.last(), c);
    } else if parts.len() == 1 {
        assert(free_of(parts[0], c));
    }
}

/// Every record body the writer emits is plain.
#[verifier::spinoff_prover]
#[verifier::rlimit(40)]
pub proof fn lemma_body_plain(
    coords: Seq<Seq<Seq<char>>>,
    tris: Seq<[usize; 3]>,
    name: Seq<char>,
    k: int,
)
    requires
        step_plain_coordinates(coords),
        free_of(name, ';'),
        0 <= k < coords.len() + 3 * tris.len() + 2,
    ensures
        plain_body(step_body(coords, tris, name, k)),
{
    let v = coords.len();
    let f = tris.len();
    let body = step_body(coords, tris, name, k);
    if k < v {
        reveal_strlit("CARTESIAN_POINT('',(");
        reveal_strlit(", ");
        reveal_strlit("))");
        let c = coords[k];
        assert(step_plain_text(coords[k][0]) && step_plain_text(coords[k][1]) && step_plain_text(
            coords[k][2],
        ));
        let lit = "CARTESIAN_POINT('',("@;
        let sep = ", "@;
        lemma_free_concat(lit, c[0], ';');
        lemma_free_concat(lit + c[0], sep, ';');
        lemma_free_concat(lit + c[0] + sep, c[1], ';');
        lemma_free_concat(lit + c[0] + sep + c[1], sep, ';');
        lemma_free_concat(lit + c[0] + sep + c[1] + sep, c[2], ';');
        lemma_free_concat(lit + c[0] + sep + c[1] + sep + c[2], "))"@, ';');
    } else if k < v + 3 * f {
        let j = (k - v) / 3;
        let part = (k - v) % 3;
        assert(k - v == 3 * j + part && 0 <= part < 3) by (nonlinear_arith)
            requires
                j == (k - v) / 3,
                part == (k - v) % 3,
                k - v >= 0,
        ;
        let t = tris[j];
        let l = v + 1 + 3 * j;
        if part == 0 {
            reveal_strlit("POLY_LOOP('',(");
            reveal_strlit(",");
            reveal_strlit("))");
            let lit = "POLY_LOOP('',("@;
            let a = ref_text((t[0] + 1) as nat);
            let b = ref_text((t[1] + 1) as nat);
            let c = ref_text((t[2] + 1) as nat);
            lemma_ref_free((t[0] + 1) as nat, ';');
            lemma_ref_free((t[1] + 1) as nat, ';');
            lemma_ref_free((t[2] + 1) as nat, ';');
            lemma_free_concat(lit, a, ';');
            lemma_free_concat(lit + a, ","@, ';');
            lemma_free_concat(lit + a + ","@, b, ';');
            lemma_free_concat(lit + a + ","@ + b, ","@, ';');
            lemma_free_concat(lit + a + ","@ + b + ","@, c, ';');
            lemma_free_concat(lit + a + ","@ + b + ","@ + c, "))"@, ';');
        } else if part == 1 {
            reveal_strlit("FACE_OUTER_BOUND('',");
            reveal_strlit(",.T.)");
            let lit = "FACE_OUTER_BOUND('',"@;
            lemma_ref_free(l as nat, ';');
            lemma_free_concat(lit, ref_text(l as nat), ';');
            lemma_free_concat(lit + ref_text(l as nat), ",.T.)"@, ';');
        } else {
            reveal_strlit("FACE('F");
            reveal_strlit("',(");
            reveal_strlit("))");
            let lit = "FACE('F"@;
            let d = decimal(j as nat);
            lemma_decimal_free(j as nat);
            lemma_ref_free((l + 1) as nat, ';');
            lemma_free_concat(lit, d, ';');
            lemma_free_concat(lit + d, "',("@, ';');
            lemma_free_concat(lit + d + "',("@, ref_text((l + 1) as nat), ';');
            lemma_free_concat(lit + d + "',("@ + ref_text((l + 1) as nat), "))"@, ';');
        }
    } else if k == v + 3 * f {
        reveal_strlit("CLOSED_SHELL('',(");
        reveal_strlit("))");
        let parts = Seq::new(f, |j: int| ref_text((v + 3 + 3 * j) as nat));
        assert forall|q: int| 0 <= q < parts.len() implies free_of(#[trigger] parts[q], ';') by {
            lemma_ref_free((v + 3 + 3 * q) as nat, ';');
        }
        lemma_join_free(parts, ';');
        let lit = "CLOSED_SHELL('',("@;
        lemma_free_concat(lit, join_commas(parts), ';');
        lemma_free_concat(lit + join_commas(parts), "))"@, ';');
    } else {
        reveal_strlit("FACETED_BREP('");
        reveal_strlit("',");
        reveal_strlit(")");
        let lit = "FACETED_BREP('"@;
        let esc = step_escaped(name);
        let r = ref_text((v + 3 * f + 1) as nat);
        lemma_escaped_free(name);
        lemma_ref_free((v + 3 * f + 1) as nat, ';');
        lemma_free_concat(lit, esc, ';');
        lemma_free_concat(lit + esc, "',"@, ';');
        lemma_free_concat(lit + esc + "',"@, r, ';');
        lemma_free_concat(lit + esc + "',"@ + r, ")"@, ';');
    }
}

/// Lines whose `;` never follow `x` join into such a text.
pub proof fn lemma_concat_semis(lines: Seq<Seq<char>>, x: char)
    requires
        forall|k: int| 0 <= k < lines.len() ==> semis_after_not(#[trigger] lines[k], x),
    ensures
        semis_after_not(concat_lines(lines), x),
    decreases lines.len(),
{
    reveal_strlit("\n");
    if lines.len() > 0 {
        let init = lines.drop_last();
        assert forall|k: int| 0 <= k < init.len() implies semis_after_not(#[trigger] init[k], x) by {
            assert(init[k] == lines[k]);
        }
        lemma_concat_semis(init, x);
        assert(semis_after_not(lines.last(), x));
        lemma_semis_concat(concat_lines(init), lines.last(), x);
        lemma_free_semis("\n"@, x);
        lemma_semis_concat(concat_lines(init) + lines.last(), "\n"@, x);
    }
}

/// The DATA records of the writer, joined into lines.
pub open spec fn data_text(coords: Seq<Seq<Seq<char>>>, tris: Seq<[usize; 3]>, name: Seq<char>) -> Seq<
    char,
> {
    concat_lines(step_data_lines(coords, tris, name))
}

/// The first `DATA;` of a text whose `;` before it never follow an `A`.
#[verifier::spinoff_prover]
pub proof fn lemma_find_data(h: Seq<char>, rest: Seq<char>)
    requires
        semis_after_not(h, 'A'),
        rest.len() >= 6,
        rest.subrange(0, 6) == "DATA;\n"@,
    ensures
        find_from(upper_text(h + rest), "DATA;"@, 0) == Some(h.len() as int),
{
    reveal_strlit("DATA;\n");
    reveal_strlit("DATA;");
    let u = upper_text(h + rest);
    let pd = "DATA;"@;
    assert forall|i: int| 0 <= i < 6 implies rest[i] == "DATA;\n"@[i] by {
        assert(rest.subrange(0, 6)[i] == rest[i]);
    }
    assert(h + rest =~= Seq::<char>::empty() + h + rest);
    assert forall|j: int| 0 <= j < h.len() implies !occurs_at(u, pd, j) by {
        lemma_no_occurrence(Seq::<char>::empty(), h, rest, pd, j);
    }
    assert(u.subrange(h.len() as int, h.len() as int + 5) =~= pd) by {
        assert forall|i: int| 0 <= i < 5 implies u[h.len() + i] == pd[i] by {
            assert((h + rest)[h.len() + i] == rest[i]);
        }
    }
    lemma_find_from_is(u, pd, 0, h.len() as int);
}

/// The first `ENDSEC;` after `h` in `h + a + e`, when the `;` of `a` never
/// follow a `C` and `e` starts with `ENDSEC;`.
#[verifier::spinoff_prover]
pub proof fn lemma_find_endsec(h: Seq<char>, a: Seq<char>, e: Seq<char>)
    requires
        semis_after_not(a, 'C'),
        e.len() >= 7,
        e.subrange(0, 7) == "ENDSEC;"@,
    ensures
        find_from(upper_text(h + a + e), "ENDSEC;"@, h.len() as int) == Some(
            h.len() as int + a.len(),
        ),
{
    reveal_strlit("ENDSEC;");
    let u = upper_text(h + a + e);
    let pe = "ENDSEC;"@;
    assert forall|i: int| 0 <= i < 7 implies e[i] == pe[i] by {
        assert(e.subrange(0, 7)[i] == e[i]);
    }
    let de = h.len() as int + a.len();
    assert forall|j: int| h.len() <= j < de implies !occurs_at(u, pe, j) by {
        lemma_no_occurrence(h, a, e, pe, j);
    }
    assert(u.subrange(de, de + 7) =~= pe) by {
        assert forall|i: int| 0 <= i < 7 implies u[de + i] == pe[i] by {
            assert((h + a + e)[de + i] == e[i]);
        }
    }
    lemma_find_from_is(u, pe, h.len() as int, de);
}

pub proof fn lemma_data_line_semis(
    coords: Seq<Seq<Seq<char>>>,
    tris: Seq<[usize; 3]>,
    name: Seq<char>,
    k: int,
)
    requires
        step_plain_coordinates(coords),
        free_of(name, ';'),
        0 <= k < coords.len() + 3 * tris.len() + 2,
    ensures
        semis_after_not(step_data_lines(coords, tris, name)[k], 'C'),
{
    lemma_data_line(coords, tris, name, k);
    lemma_body_plain(coords, tris, name, k);
    lemma_entity_text((k + 1) as nat, step_body(coords, tris, name, k));
}

/// The `;` of the DATA line and records never follow a `C`.
#[verifier::spinoff_prover]
#[verifier::rlimit(40)]
pub proof fn lemma_data_semis(coords: Seq<Seq<Seq<char>>>, tris: Seq<[usize; 3]>, name: Seq<char>)
    requires
        step_plain_coordinates(coords),
        free_of(name, ';'),
    ensures
        semis_after_not("DATA;\n"@ + data_text(coords, tris, name), 'C'),
{
    reveal_strlit("DATA;\n");
    let lines = step_data_lines(coords, tris, name);
    assert forall|k: int| 0 <= k < lines.len() implies semis_after_not(#[trigger] lines[k], 'C') by {
        lemma_data_line_semis(coords, tris, name, k);
    }
    lemma_concat_semis(lines, 'C');
    assert(semis_after_not("DATA;\n"@, 'C'));
    lemma_semis_concat("DATA;\n"@, data_text(coords, tris, name), 'C');
}

/// The reader's DATA section of the writer's text is a line feed and the
/// DATA lines.
#[verifier::spinoff_prover]
#[verifier::rlimit(40)]
pub proof fn lemma_data_section(coords: Seq<Seq<Seq<char>>>, tris: Seq<[usize; 3]>, name: Seq<char>)
    requires
        step_plain_coordinates(coords),
        free_of(name, ';'),
    ensures
        find_from(upper_text(step_text(coords, tris, name)), "DATA;"@, 0) == Some(
            header_before_data(name).len() as int,
        ),
        find_from(
            upper_text(step_text(coords, tris, name)),
            "ENDSEC;"@,
            header_before_data(name).len() as int,
        ) == Some(header_before_data(name).len() as int + 6 + data_text(coords, tris, name).len()),
        step_text(coords, tris, name).subrange(
            header_before_data(name).len() as int + 5,
            header_before_data(name).len() as int + 6 + data_text(coords, tris, name).len(),
        ) == seq!['\n'] + data_text(coords, tris, name),
{
    reveal_strlit("DATA;\n");
    reveal_strlit("ENDSEC;\n");
    reveal_strlit("ENDSEC;");
    let h = header_before_data(name);
    let c = data_text(coords, tris, name);
    let d5 = "DATA;\n"@;
    let e = "ENDSEC;\n"@ + "END-ISO-10303-21;\n"@;
    let t = step_text(coords, tris, name);
    lemma_header_semis(name);
    lemma_data_semis(coords, tris, name);
    assert(t =~= h + (d5 + c + e));
    assert((d5 + c + e).subrange(0, 6) =~= d5);
    lemma_find_data(h, d5 + c + e);
    assert(t =~= h + (d5 + c) + e);
    assert(e.subrange(0, 7) =~= "ENDSEC;"@);
    lemma_find_endsec(h, d5 + c, e);
    assert(t.subrange(h.len() as int + 5, h.len() as int + 6 + c.len()) =~= seq!['\n'] + c);
}

/// The entity table of the first `i` records.
pub open spec fn entries_upto(
    coords: Seq<Seq<Seq<char>>>,
    tris: Seq<[usize; 3]>,
    name: Seq<char>,
    i: nat,
) -> Seq<(usize, Seq<char>)> {
    Seq::new(i, |k: int| ((k + 1) as usize, step_body(coords, tris, name, k)))
}

#[verifier::spinoff_prover]
pub proof fn lemma_fold_records(
    coords: Seq<Seq<Seq<char>>>,
    tris: Seq<[usize; 3]>,
    name: Seq<char>,
    chunks: Seq<Seq<char>>,
    i: nat,
)
    requires
        step_plain_coordinates(coords),
        free_of(name, ';'),
        coords.len() + 3 * tris.len() + 2 <= usize::MAX,
        i <= coords.len() + 3 * tris.len() + 2,
        chunks.len() == coords.len() + 3 * tris.len() + 2 - i + 1,
        forall|m: int|
            0 <= m < chunks.len() - 1 ==> #[trigger] chunks[m] == seq!['\n'] + entity_text(
                (i + m + 1) as nat,
                step_body(coords, tris, name, i + m),
            ),
        chunks.last() == seq!['\n'],
    ensures
        step_entries_fold(chunks, entries_upto(coords, tris, name, i)) == Ok::<
            Seq<(usize, Seq<char>)>,
            StepEntitiesError,
        >(entries_upto(coords, tris, name, (coords.len() + 3 * tris.len() + 2) as nat)),
    decreases chunks.len(),
{
    let n = coords.len() + 3 * tris.len() + 2;
    let acc = entries_upto(coords, tris, name, i);
    if i == n {
        lemma_blank_chunk();
        assert(chunks[0] == seq!['\n']);
        assert(chunks.drop_first() =~= Seq::<Seq<char>>::empty());
        assert(step_entries_fold(chunks.drop_first(), acc) == Ok::<
            Seq<(usize, Seq<char>)>,
            StepEntitiesError,
        >(acc));
    } else {
        let body = step_body(coords, tris, name, i as int);
        lemma_body_plain(coords, tris, name, i as int);
        assert(chunks[0] == seq!['\n'] + entity_text((i + 1) as nat, body));
        lemma_entity_chunk((i + 1) as nat, body);
        lemma_insert_entry_append(acc, (i + 1) as usize, body);
        assert(acc.push(((i + 1) as usize, body)) =~= entries_upto(coords, tris, name, i + 1));
        let rest = chunks.drop_first();
        assert forall|m: int| 0 <= m < rest.len() - 1 implies #[trigger] rest[m] == seq!['\n']
            + entity_text((i + 1 + m + 1) as nat, step_body(coords, tris, name, i + 1 + m)) by {
            assert(rest[m] == chunks[m + 1]);
        }
        assert(rest.last() == chunks.last());
        lemma_fold_records(coords, tris, name, rest, i + 1);
        assert(step_chunk(chunks[0]) == StepChunk::Entity((i + 1) as usize, body));
        assert(step_entries_fold(chunks, acc) == step_entries_fold(
            rest,
            crate::exchange::insert_entry(acc, (i + 1) as usize, body),
        ));
    }
}

/// The entity table that the reader takes from the writer's text: record
/// `k + 1` with the `k`-th body, in order.
#[verifier::spinoff_prover]
#[verifier::rlimit(40)]
pub proof fn lemma_step_records(coords: Seq<Seq<Seq<char>>>, tris: Seq<[usize; 3]>, name: Seq<char>)
    requires
        step_plain_coordinates(coords),
        free_of(name, ';'),
        coords.len() + 3 * tris.len() + 2 <= usize::MAX,
    ensures
        step_entities(step_text(coords, tris, name)) == Ok::<
            Seq<(usize, Seq<char>)>,
            StepEntitiesError,
        >(entries_upto(coords, tris, name, (coords.len() + 3 * tris.len() + 2) as nat)),
{
    let n = coords.len() + 3 * tris.len() + 2;
    let lines = step_data_lines(coords, tris, name);
    lemma_data_section(coords, tris, name);
    assert forall|k: int| 0 <= k < lines.len() implies (#[trigger] lines[k]).len() > 0
        && lines[k].last() == ';' && free_of(lines[k].drop_last(), ';') by {
        reveal_strlit(";");
        lemma_data_line(coords, tris, name, k);
        lemma_body_plain(coords, tris, name, k);
        let x = entity_text((k + 1) as nat, step_body(coords, tris, name, k));
        lemma_entity_text((k + 1) as nat, step_body(coords, tris, name, k));
        assert(lines[k].drop_last() =~= x);
    }
    lemma_split_records(lines);
    let chunks = Seq::new(lines.len(), |k: int| seq!['\n'] + lines[k].drop_last()) + seq![
        seq!['\n'],
    ];
    assert forall|m: int| 0 <= m < chunks.len() - 1 implies #[trigger] chunks[m] == seq!['\n']
        + entity_text((0 + m + 1) as nat, step_body(coords, tris, name, 0 + m)) by {
        reveal_strlit(";");
        lemma_data_line(coords, tris, name, m);
        assert(lines[m].drop_last() =~= entity_text(
            (m + 1) as nat,
            step_body(coords, tris, name, m),
        ));
    }
    assert(entries_upto(coords, tris, name, 0) =~= Seq::<(usize, Seq<char>)>::empty());
    lemma_fold_records(coords, tris, name, chunks, 0);
}

pub proof fn lemma_digit_run_to(s: Seq<char>, i: int, k: int)
    requires
        0 <= i <= k <= s.len(),
        forall|j: int| i <= j < k ==> is_digit(#[trigger] s[j]),
        k == s.len() || !is_digit(s[k]),
    ensures
        digit_run_end(s, i) == k,
    decreases k - i,
{
    if i < k {
        lemma_digit_run_to(s, i + 1, k);
    }
}

pub proof fn lemma_digit_run_shift(a: Seq<char>, b: Seq<char>, i: int)
    requires
        0 <= i <= b.len(),
    ensures
        digit_run_end(a + b, a.len() + i) == a.len() + digit_run_end(b, i),
    decreases b.len() - i,
{
    if i < b.len() {
        assert((a + b)[a.len() + i] == b[i]);
        if is_digit(b[i]) {
            lemma_digit_run_shift(a, b, i + 1);
        }
    }
}

/// References read from `b` are the same behind any prefix.
pub proof fn lemma_refs_shift(a: Seq<char>, b: Seq<char>, i: int)
    requires
        0 <= i,
    ensures
        step_refs_from(a + b, a.len() + i) == step_refs_from(b, i),
    decreases b.len() - i,
{
    let s = a + b;
    if i < b.len() {
        assert(s[a.len() + i] == b[i]);
        if b[i] != '#' {
            lemma_refs_shift(a, b, i + 1);
        } else {
            lemma_digit_run_end(b, i + 1);
            lemma_digit_run_shift(a, b, i + 1);
            let j = digit_run_end(b, i + 1);
            assert(s.subrange(a.len() + i + 1, a.len() + j) =~= b.subrange(i + 1, j));
            lemma_refs_shift(a, b, j);
        }
    }
}

/// Characters other than `#` are passed over.
pub proof fn lemma_refs_skip(s: Seq<char>, i: int, k: int)
    requires
        0 <= i <= k <= s.len(),
        forall|j: int| i <= j < k ==> s[j] != '#',
    ensures
        step_refs_from(s, i) == step_refs_from(s, k),
    decreases k - i,
{
    if i < k {
        lemma_refs_skip(s, i + 1, k);
    }
}

/// A prefix without `#` adds no reference.
pub proof fn lemma_refs_plain_prefix(a: Seq<char>, b: Seq<char>)
    requires
        free_of(a, '#'),
    ensures
        step_refs(a + b) == step_refs(b),
{
    assert forall|j: int| 0 <= j < a.len() implies (a + b)[j] != '#' by {
        assert((a + b)[j] == a[j]);
    }
    lemma_refs_skip(a + b, 0, a.len() as int);
    lemma_refs_shift(a, b, 0);
}

/// A reference `#n` not followed by a digit reads as `n`.
pub proof fn lemma_refs_ref(n: nat, b: Seq<char>)
    requires
        n <= usize::MAX,
        b.len() == 0 || !is_digit(b[0]),
    ensures
        step_refs(ref_text(n) + b) == seq![n as usize] + step_refs(b),
{
    reveal_strlit("#");
    let d = decimal(n);
    let r = ref_text(n);
    let s = r + b;
    assert(r =~= seq!['#'] + d);
    lemma_decimal_digits(n);
    lemma_decimal_parses(n);
    assert(s[0] == '#');
    assert forall|j: int| 1 <= j < 1 + d.len() implies is_digit(#[trigger] s[j]) by {
        assert(s[j] == d[j - 1]);
    }
    if b.len() > 0 {
        assert(s[1 + d.len() as int] == b[0]);
    }
    lemma_digit_run_to(s, 1, 1 + d.len() as int);
    assert(s.subrange(1, 1 + d.len() as int) =~= d);
    lemma_refs_shift(r, b, 0);
}

pub proof fn lemma_refs_empty()
    ensures
        step_refs(Seq::<char>::empty()) == Seq::<usize>::empty(),
{
}

/// A literal text holds no `#`.
pub proof fn lemma_no_hash_literals()
    ensures
        free_of("POLY_LOOP('',("@, '#'),
        free_of(","@, '#'),
        free_of("))"@, '#'),
        free_of("FACE_OUTER_BOUND('',"@, '#'),
        free_of(",.T.)"@, '#'),
        free_of("FACE('F"@, '#'),
        free_of("',("@, '#'),
{
    reveal_strlit("POLY_LOOP('',(");
    reveal_strlit(",");
    reveal_strlit("))");
    reveal_strlit("FACE_OUTER_BOUND('',");
    reveal_strlit(",.T.)");
    reveal_strlit("FACE('F");
    reveal_strlit("',(");
}

/// The references of a poly-loop record.
#[verifier::spinoff_prover]
#[verifier::rlimit(40)]
pub proof fn lemma_loop_refs(v: nat, j: nat, t: [usize; 3])
    requires
        t[0] < usize::MAX,
        t[1] < usize::MAX,
        t[2] < usize::MAX,
    ensures
        step_refs(face_body(v, j, t, 0)) == seq![
            (t[0] + 1) as usize,
            (t[1] + 1) as usize,
            (t[2] + 1) as usize,
        ],
{
    reveal_strlit(",");
    reveal_strlit("))");
    lemma_no_hash_literals();
    let comma = ","@;
    let close = "))"@;
    lemma_refs_empty();
    assert(close =~= close + Seq::<char>::empty());
    lemma_refs_plain_prefix(close, Seq::<char>::empty());
    let ra = ref_text((t[0] + 1) as nat);
    let rb = ref_text((t[1] + 1) as nat);
    let rc = ref_text((t[2] + 1) as nat);
    lemma_refs_ref((t[2] + 1) as nat, close);
    lemma_refs_plain_prefix(comma, rc + close);
    lemma_refs_ref((t[1] + 1) as nat, comma + (rc + close));
    lemma_refs_plain_prefix(comma, rb + (comma + (rc + close)));
    lemma_refs_ref((t[0] + 1) as nat, comma + (rb + (comma + (rc + close))));
    lemma_refs_plain_prefix(
        "POLY_LOOP('',("@,
        ra + (comma + (rb + (comma + (rc + close)))),
    );
    assert(face_body(v, j, t, 0) =~= "POLY_LOOP('',("@ + (ra + (comma + (rb + (comma + (rc
        + close))))));
    assert(seq![(t[0] + 1) as usize] + (seq![(t[1] + 1) as usize] + (seq![(t[2] + 1) as usize]
        + Seq::<usize>::empty())) =~= seq![
        (t[0] + 1) as usize,
        (t[1] + 1) as usize,
        (t[2] + 1) as usize,
    ]);
}

/// The references of an outer-bound record and of a face record.
#[verifier::spinoff_prover]
#[verifier::rlimit(40)]
pub proof fn lemma_bound_face_refs(v: nat, j: nat, t: [usize; 3])
    requires
        v + 3 * j + 3 <= usize::MAX,
    ensures
        step_refs(face_body(v, j, t, 1)) == seq![(v + 1 + 3 * j) as usize],
        step_refs(face_body(v, j, t, 2)) == seq![(v + 2 + 3 * j) as usize],
{
    reveal_strlit("))");
    reveal_strlit(",.T.)");
    lemma_no_hash_literals();
    let close = "))"@;
    lemma_refs_empty();
    assert(close =~= close + Seq::<char>::empty());
    lemma_refs_plain_prefix(close, Seq::<char>::empty());
    let l = v + 1 + 3 * j;
    let tail = ",.T.)"@;
    assert(tail =~= tail + Seq::<char>::empty());
    lemma_refs_plain_prefix(tail, Seq::<char>::empty());
    lemma_refs_ref(l, tail);
    lemma_refs_plain_prefix("FACE_OUTER_BOUND('',"@, ref_text(l) + tail);
    assert(face_body(v, j, t, 1) =~= "FACE_OUTER_BOUND('',"@ + (ref_text(l) + tail));
    assert(seq![l as usize] + Seq::<usize>::empty() =~= seq![l as usize]);
    let d = decimal(j);
    lemma_decimal_digits(j);
    let head = "FACE('F"@ + d + "',("@;
    assert(free_of(d, '#'));
    lemma_free_concat("FACE('F"@, d, '#');
    lemma_free_concat("FACE('F"@ + d, "',("@, '#');
    lemma_refs_ref(l + 1, close);
    lemma_refs_plain_prefix(head, ref_text(l + 1) + close);
    assert(face_body(v, j, t, 2) =~= head + (ref_text(l + 1) + close));
    assert(seq![(l + 1) as usize] + Seq::<usize>::empty() =~= seq![(l + 1) as usize]);
}

pub proof fn lemma_last_index_is(s: Seq<char>, c: char, i: int)
    requires
        0 <= i < s.len(),
        s[i] == c,
        forall|j: int| i < j < s.len() ==> s[j] != c,
    ensures
        last_index_of(s, c) == Some(i),
{
    lemma_last_index_of(s, c);
    match last_index_of(s, c) {
        Some(k) => {
            if k < i {
                assert(s[i] != c);
            }
        },
        None => {
            assert(s[i] != c);
        },
    }
}

/// The coordinate texts of a point record read back unchanged.
#[verifier::spinoff_prover]
#[verifier::rlimit(40)]
pub proof fn lemma_point_coords(c: Seq<Seq<char>>)
    requires
        c.len() == 3,
        step_plain_text(c[0]),
        step_plain_text(c[1]),
        step_plain_text(c[2]),
    ensures
        step_point_coords(point_body(c)) == Ok::<Seq<Seq<char>>, StepPointError>(c),
{
    reveal_strlit("CARTESIAN_POINT('',(");
    reveal_strlit(", ");
    reveal_strlit("))");
    let lit = "CARTESIAN_POINT('',("@;
    let close = "))"@;
    let sp = seq![' '];
    let cm = seq![','];
    let b1 = sp + c[1];
    let b2 = sp + c[2];
    let inner = c[0] + cm + (b1 + cm + b2);
    let body = point_body(c);
    assert(body =~= lit + inner + close);
    assert(lit.len() == 20);
    assert(free_of(sp, '(') && free_of(sp, ')') && free_of(sp, ','));
    assert(free_of(cm, '(') && free_of(cm, ')'));
    lemma_free_concat(sp, c[1], '(');
    lemma_free_concat(sp, c[2], '(');
    lemma_free_concat(b1, cm, '(');
    lemma_free_concat(b1 + cm, b2, '(');
    lemma_free_concat(c[0], cm, '(');
    lemma_free_concat(c[0] + cm, b1 + cm + b2, '(');
    lemma_free_concat(sp, c[1], ')');
    lemma_free_concat(sp, c[2], ')');
    lemma_free_concat(b1, cm, ')');
    lemma_free_concat(b1 + cm, b2, ')');
    lemma_free_concat(c[0], cm, ')');
    lemma_free_concat(c[0] + cm, b1 + cm + b2, ')');
    lemma_free_concat(sp, c[1], ',');
    lemma_free_concat(sp, c[2], ',');
    // the last `(`
    assert forall|j: int| 19 < j < body.len() implies body[j] != '(' by {
        if j < 20 + inner.len() {
            assert(body[j] == inner[j - 20]);
        } else {
            assert(body[j] == close[j - 20 - inner.len()]);
        }
    }
    lemma_last_index_is(body, '(', 19);
    // the first `)` after it
    let tail = body.subrange(19, body.len() as int);
    assert(tail =~= seq!['('] + inner + close);
    assert forall|j: int| 0 <= j < 1 + inner.len() implies tail[j] != ')' by {
        if j > 0 {
            assert(tail[j] == inner[j - 1]);
        }
    }
    assert(tail[1 + inner.len() as int] == ')');
    lemma_first_index_is(tail, ')', 1 + inner.len() as int);
    assert(body.subrange(20, 19 + 1 + inner.len() as int) =~= inner);
    // the three pieces
    lemma_split_whole(b2, ',');
    lemma_split_prefix(b1, b2, ',');
    lemma_split_prefix(c[0], b1 + cm + b2, ',');
    assert(split_on(inner, ',') =~= seq![c[0], b1, b2]);
    lemma_trim_after_ws(' ', c[1]);
    lemma_trim_after_ws(' ', c[2]);
    assert(trimmed_pieces(inner, ',') =~= c);
}

/// The ASCII upper case of a text starts with `p` when the text starts
/// with characters whose upper case spell `p`.
pub proof fn lemma_upper_prefix(lit: Seq<char>, rest: Seq<char>, p: Seq<char>)
    requires
        p.len() <= lit.len(),
        forall|i: int| 0 <= i < p.len() ==> ascii_upper(#[trigger] lit[i]) == p[i],
    ensures
        has_prefix(upper_text(lit + rest), p),
{
    let u = upper_text(lit + rest);
    assert forall|i: int| 0 <= i < p.len() implies u.subrange(0, p.len() as int)[i] == p[i] by {
        assert((lit + rest)[i] == lit[i]);
    }
    assert(u.subrange(0, p.len() as int) =~= p);
}

/// The ASCII upper case of a text does not start with `p` when its `i`-th
/// character differs from `p`'s.
pub proof fn lemma_upper_not_prefix(lit: Seq<char>, rest: Seq<char>, p: Seq<char>, i: int)
    requires
        0 <= i < p.len(),
        i < lit.len(),
        ascii_upper(lit[i]) != p[i],
    ensures
        !has_prefix(upper_text(lit + rest), p),
{
    let u = upper_text(lit + rest);
    assert((lit + rest)[i] == lit[i]);
    if has_prefix(u, p) {
        assert(u.subrange(0, p.len() as int)[i] == u[i]);
    }
}

pub proof fn lemma_point_kind(c: Seq<Seq<char>>)
    ensures
        step_entity_kind_of(point_body(c)) == StepEntityKind::CartesianPoint,
{
    reveal_strlit("CARTESIAN_POINT('',(");
    reveal_strlit("CARTESIAN_POINT");
    let lit = "CARTESIAN_POINT('',("@;
    let rest = c[0] + ", "@ + c[1] + ", "@ + c[2] + "))"@;
    assert(point_body(c) =~= lit + rest);
    lemma_upper_prefix(lit, rest, "CARTESIAN_POINT"@);
}

#[verifier::spinoff_prover]
#[verifier::rlimit(40)]
pub proof fn lemma_face_kinds(v: nat, j: nat, t: [usize; 3])
    ensures
        step_entity_kind_of(face_body(v, j, t, 0)) == StepEntityKind::PolyLoop,
        step_entity_kind_of(face_body(v, j, t, 1)) == StepEntityKind::FaceOuterBound,
        step_entity_kind_of(face_body(v, j, t, 2)) == StepEntityKind::Face,
{
    reveal_strlit("CARTESIAN_POINT");
    reveal_strlit("POLY_LOOP");
    reveal_strlit("FACE_OUTER_BOUND");
    reveal_strlit("FACE(");
    reveal_strlit("POLY_LOOP('',(");
    reveal_strlit("FACE_OUTER_BOUND('',");
    reveal_strlit("FACE('F");
    let l = v + 1 + 3 * j;
    let pl = "POLY_LOOP('',("@;
    let r0 = ref_text((t[0] + 1) as nat) + ","@ + ref_text((t[1] + 1) as nat) + ","@ + ref_text(
        (t[2] + 1) as nat,
    ) + "))"@;
    assert(face_body(v, j, t, 0) =~= pl + r0);
    lemma_upper_not_prefix(pl, r0, "CARTESIAN_POINT"@, 0);
    lemma_upper_prefix(pl, r0, "POLY_LOOP"@);
    let fob = "FACE_OUTER_BOUND('',"@;
    let r1 = ref_text(l) + ",.T.)"@;
    assert(face_body(v, j, t, 1) =~= fob + r1);
    lemma_upper_not_prefix(fob, r1, "CARTESIAN_POINT"@, 0);
    lemma_upper_not_prefix(fob, r1, "POLY_LOOP"@, 0);
    lemma_upper_prefix(fob, r1, "FACE_OUTER_BOUND"@);
    let fc = "FACE('F"@;
    let r2 = decimal(j) + "',("@ + ref_text(l + 1) + "))"@;
    assert(face_body(v, j, t, 2) =~= fc + r2);
    lemma_upper_not_prefix(fc, r2, "CARTESIAN_POINT"@, 0);
    lemma_upper_not_prefix(fc, r2, "POLY_LOOP"@, 0);
    lemma_upper_not_prefix(fc, r2, "FACE_OUTER_BOUND"@, 4);
    lemma_upper_prefix(fc, r2, "FACE("@);
}

#[verifier::spinoff_prover]
#[verifier::rlimit(40)]
pub proof fn lemma_other_kinds(v: nat, f: nat, shell: nat, name: Seq<char>)
    ensures
        step_entity_kind_of(shell_body(v, f)) == StepEntityKind::Other,
        step_entity_kind_of(brep_body(shell, name)) == StepEntityKind::Other,
{
    reveal_strlit("CARTESIAN_POINT");
    reveal_strlit("POLY_LOOP");
    reveal_strlit("FACE_OUTER_BOUND");
    reveal_strlit("FACE(");
    reveal_strlit("CLOSED_SHELL('',(");
    reveal_strlit("FACETED_BREP('");
    let cs = "CLOSED_SHELL('',("@;
    let rs = join_commas(Seq::new(f, |j: int| ref_text((v + 3 + 3 * j) as nat))) + "))"@;
    assert(shell_body(v, f) =~= cs + rs);
    lemma_upper_not_prefix(cs, rs, "CARTESIAN_POINT"@, 1);
    lemma_upper_not_prefix(cs, rs, "POLY_LOOP"@, 0);
    lemma_upper_not_prefix(cs, rs, "FACE_OUTER_BOUND"@, 0);
    lemma_upper_not_prefix(cs, rs, "FACE("@, 0);
    let fb = "FACETED_BREP('"@;
    let rb = step_escaped(name) + "',"@ + ref_text(shell) + ")"@;
    assert(brep_body(shell, name) =~= fb + rb);
    lemma_upper_not_prefix(fb, rb, "CARTESIAN_POINT"@, 0);
    lemma_upper_not_prefix(fb, rb, "POLY_LOOP"@, 0);
    lemma_upper_not_prefix(fb, rb, "FACE_OUTER_BOUND"@, 4);
    lemma_upper_not_prefix(fb, rb, "FACE("@, 4);
}

} // verus!
