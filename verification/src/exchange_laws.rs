//! What the IGES reader gives back of what the IGES writer wrote.
use vstd::prelude::*;
use crate::exchange::{
    concat_lines, iges_face_positions, iges_lines, iges_mesh, iges_point_line, iges_record,
    iges_scan, iges_scan_line, iges_text, iges_token_text, iges_triangle_line, insert_entry,
    lemma_position_first, lookup, pad7, position_of, triangles_in_range, IgesImportError,
    IgesScan,
};
use crate::errors::KernelError;
use crate::text::{
    decimal, digit_value, first_index_of, is_digit, is_unicode_whitespace, leading_ws,
    lemma_first_index_of, lemma_leading_ws, lemma_trailing_ws, scan_digits, split_on,
    trailing_ws, trimmed, trimmed_pieces, usize_parse, IntErrorKind,
};

verus! {

/// `s` holds no `c`.
pub open spec fn free_of(s: Seq<char>, c: char) -> bool {
    forall|i: int| 0 <= i < s.len() ==> s[i] != c
}

pub proof fn lemma_first_index_is(s: Seq<char>, c: char, i: int)
    requires
        0 <= i < s.len(),
        s[i] == c,
        forall|j: int| 0 <= j < i ==> s[j] != c,
    ensures
        first_index_of(s, c) == Some(i),
{
    lemma_first_index_of(s, c);
    match first_index_of(s, c) {
        Some(k) => {
            if k < i {
                assert(s[k] != c);
            }
            if k > i {
                assert(s[i] != c);
            }
        },
        None => {
            assert(s[i] != c);
        },
    }
}

/// Splitting `a`, a separator and `b` gives `a` and then the pieces of `b`.
pub proof fn lemma_split_prefix(a: Seq<char>, b: Seq<char>, sep: char)
    requires
        free_of(a, sep),
    ensures
        split_on(a + seq![sep] + b, sep) == seq![a] + split_on(b, sep),
{
    let s = a + seq![sep] + b;
    assert(s[a.len() as int] == sep);
    assert forall|j: int| 0 <= j < a.len() implies s[j] != sep by {
        assert(s[j] == a[j]);
    }
    lemma_first_index_is(s, sep, a.len() as int);
    assert(s.subrange(0, a.len() as int) =~= a);
    assert(s.subrange(a.len() as int + 1, s.len() as int) =~= b);
}

/// A text without the separator is one piece.
pub proof fn lemma_split_whole(a: Seq<char>, sep: char)
    requires
        free_of(a, sep),
    ensures
        split_on(a, sep) == seq![a],
{
    lemma_first_index_of(a, sep);
}

/// A text that neither starts nor ends with whitespace is its own trim.
pub proof fn lemma_trimmed_same(s: Seq<char>)
    requires
        s.len() > 0,
        !is_unicode_whitespace(s[0]),
        !is_unicode_whitespace(s.last()),
    ensures
        trimmed(s) == s,
{
    lemma_leading_ws(s, 0);
    assert(s.subrange(0, s.len() as int) =~= s);
    lemma_trailing_ws(s, 0);
    assert(s.subrange(0, s.len() as int) =~= s);
}

/// The joined lines, first line first.
pub proof fn lemma_concat_lines_front(lines: Seq<Seq<char>>)
    requires
        lines.len() > 0,
    ensures
        concat_lines(lines) == lines[0] + "\n"@ + concat_lines(lines.drop_first()),
    decreases lines.len(),
{
    if lines.len() == 1 {
        assert(lines.drop_last() =~= Seq::<Seq<char>>::empty());
        assert(lines.drop_first() =~= Seq::<Seq<char>>::empty());
        assert(concat_lines(Seq::<Seq<char>>::empty()) == Seq::<char>::empty());
        assert(concat_lines(lines) =~= lines[0] + "\n"@);
        assert(lines[0] + "\n"@ + Seq::<char>::empty() =~= lines[0] + "\n"@);
    } else {
        let init = lines.drop_last();
        lemma_concat_lines_front(init);
        assert(init.drop_first() =~= lines.drop_first().drop_last());
        assert(lines.drop_first().last() == lines.last());
        assert(concat_lines(lines.drop_first()) == concat_lines(lines.drop_first().drop_last())
            + lines.drop_first().last() + "\n"@);
        assert(concat_lines(lines) =~= lines[0] + "\n"@ + concat_lines(lines.drop_first()));
    }
}

/// Splitting joined lines at line feeds gives the lines back and an empty
/// last piece.
pub proof fn lemma_split_concat_lines(lines: Seq<Seq<char>>)
    requires
        forall|k: int| 0 <= k < lines.len() ==> free_of(#[trigger] lines[k], '\n'),
    ensures
        split_on(concat_lines(lines), '\n') == lines + seq![Seq::<char>::empty()],
    decreases lines.len(),
{
    reveal_strlit("\n");
    if lines.len() == 0 {
        assert(concat_lines(lines) == Seq::<char>::empty());
        lemma_split_whole(Seq::<char>::empty(), '\n');
        assert(lines + seq![Seq::<char>::empty()] =~= seq![Seq::<char>::empty()]);
    } else {
        let rest = lines.drop_first();
        assert forall|k: int| 0 <= k < rest.len() implies free_of(#[trigger] rest[k], '\n') by {
            assert(rest[k] == lines[k + 1]);
        }
        lemma_split_concat_lines(rest);
        lemma_concat_lines_front(lines);
        assert("\n"@ =~= seq!['\n']);
        assert(lines[0] + "\n"@ + concat_lines(rest) =~= lines[0] + seq!['\n'] + concat_lines(rest));
        assert(free_of(lines[0], '\n'));
        lemma_split_prefix(lines[0], concat_lines(rest), '\n');
        assert(seq![lines[0]] + (rest + seq![Seq::<char>::empty()]) =~= lines + seq![
            Seq::<char>::empty(),
        ]);
    }
}

pub proof fn lemma_digit_char(k: nat)
    requires
        k < 10,
    ensures
        is_digit((0x30 + k) as char),
        digit_value((0x30 + k) as char) == k,
{
}

/// Decimal digits are non-empty and all ASCII digits.
pub proof fn lemma_decimal_digits(n: nat)
    ensures
        decimal(n).len() > 0,
        forall|i: int| 0 <= i < decimal(n).len() ==> is_digit(#[trigger] decimal(n)[i]),
    decreases n,
{
    if n < 10 {
        lemma_digit_char(n);
    } else {
        lemma_decimal_digits(n / 10);
        lemma_digit_char(n % 10);
        let d = decimal(n);
        let p = decimal(n / 10);
        assert forall|i: int| 0 <= i < d.len() implies is_digit(#[trigger] d[i]) by {
            if i < p.len() {
                assert(d[i] == p[i]);
            }
        }
    }
}

/// Reading one more digit after a successful reading.
pub proof fn lemma_scan_push(s: Seq<char>, c: char, i: int, acc: nat, v: nat)
    requires
        0 <= i <= s.len(),
        scan_digits(s, i, acc) == Ok::<nat, IntErrorKind>(v),
        is_digit(c),
        v * 10 + digit_value(c) <= usize::MAX,
    ensures
        scan_digits(s.push(c), i, acc) == Ok::<nat, IntErrorKind>((v * 10 + digit_value(c)) as nat),
    decreases s.len() - i,
{
    let t = s.push(c);
    if i == s.len() {
        assert(t[i] == c);
        assert(scan_digits(t, i + 1, (acc * 10 + digit_value(c)) as nat) == Ok::<nat, IntErrorKind>(
            (acc * 10 + digit_value(c)) as nat,
        ));
    } else {
        assert(t[i] == s[i]);
        lemma_scan_push(s, c, i + 1, (acc * 10 + digit_value(s[i])) as nat, v);
    }
}

/// The decimal digits of `n` read back as `n`.
pub proof fn lemma_decimal_parses(n: nat)
    requires
        n <= usize::MAX,
    ensures
        usize_parse(decimal(n)) == Ok::<nat, IntErrorKind>(n),
    decreases n,
{
    lemma_decimal_digits(n);
    if n < 10 {
        lemma_digit_char(n);
        let s = decimal(n);
        assert(scan_digits(s, 1, n) == Ok::<nat, IntErrorKind>(n));
    } else {
        lemma_decimal_parses(n / 10);
        lemma_decimal_digits(n / 10);
        lemma_digit_char(n % 10);
        let p = decimal(n / 10);
        let c = (0x30 + n % 10) as char;
        assert(p[0] != '+' && p[0] != '-');
        assert(p.len() == 1 ==> !(p[0] == '+' || p[0] == '-'));
        assert(usize_parse(p) == scan_digits(p, 0, 0));
        lemma_scan_push(p, c, 0, 0, n / 10);
        assert(decimal(n) =~= p.push(c));
        assert(decimal(n)[0] == p[0]);
    }
}

/// Trailing whitespace stops at a non-whitespace character.
pub proof fn lemma_trailing_ws_bound(s: Seq<char>, j: int)
    requires
        0 <= j < s.len(),
        !is_unicode_whitespace(s[j]),
    ensures
        trailing_ws(s) <= s.len() - 1 - j,
    decreases s.len(),
{
    if is_unicode_whitespace(s.last()) {
        assert(j != s.len() - 1);
        assert(s.drop_last()[j] == s[j]);
        lemma_trailing_ws_bound(s.drop_last(), j);
    }
}

pub proof fn lemma_ws_counts_bounded(s: Seq<char>)
    ensures
        leading_ws(s) <= s.len(),
        trailing_ws(s) <= s.len(),
    decreases s.len(),
{
    if s.len() > 0 {
        lemma_ws_counts_bounded(s.drop_first());
        lemma_ws_counts_bounded(s.drop_last());
    }
}

/// A text that is its own trim starts and ends with non-whitespace.
pub proof fn lemma_trimmed_same_ends(s: Seq<char>)
    requires
        s.len() > 0,
        trimmed(s) == s,
    ensures
        !is_unicode_whitespace(s[0]),
        !is_unicode_whitespace(s.last()),
{
    lemma_ws_counts_bounded(s);
    let l = leading_ws(s);
    let t = s.subrange(l as int, s.len() as int);
    lemma_ws_counts_bounded(t);
    assert(trimmed(s).len() == t.len() - trailing_ws(t));
    if is_unicode_whitespace(s[0]) {
        assert(leading_ws(s) >= 1);
    }
    if is_unicode_whitespace(s.last()) {
        if leading_ws(s) == 0 {
            assert(t =~= s);
            assert(trailing_ws(t) >= 1);
        }
    }
}

/// A field that the IGES reader gives back unchanged: its own trim, and
/// free of `,`, `;` and line feeds.
pub open spec fn plain_field(t: Seq<char>) -> bool {
    &&& trimmed(t) == t
    &&& free_of(t, ',')
    &&& free_of(t, ';')
    &&& free_of(t, '\n')
}

/// The record text of five comma-separated fields.
pub open spec fn five_fields(f: Seq<Seq<char>>) -> Seq<char> {
    f[0] + seq![','] + f[1] + seq![','] + f[2] + seq![','] + f[3] + seq![','] + f[4]
}

pub proof fn lemma_free_concat(a: Seq<char>, b: Seq<char>, c: char)
    requires
        free_of(a, c),
        free_of(b, c),
    ensures
        free_of(a + b, c),
{
    assert forall|i: int| 0 <= i < (a + b).len() implies (a + b)[i] != c by {
        if i < a.len() {
            assert((a + b)[i] == a[i]);
        } else {
            assert((a + b)[i] == b[i - a.len()]);
        }
    }
}

/// Five plain fields, the first not empty, joined by commas and followed
/// by `;` and anything, read back as that record and those fields.
pub proof fn lemma_record_fields(f: Seq<Seq<char>>, tail: Seq<char>)
    requires
        f.len() == 5,
        f[0].len() > 0,
        forall|k: int| 0 <= k < 5 ==> plain_field(#[trigger] f[k]),
    ensures
        iges_record(five_fields(f) + seq![';'] + tail) == five_fields(f),
        trimmed_pieces(five_fields(f), ',') == f,
{
    let rec = five_fields(f);
    assert(plain_field(f[0]) && plain_field(f[1]) && plain_field(f[2]) && plain_field(f[3])
        && plain_field(f[4]));
    let comma = seq![','];
    assert(free_of(comma, ';'));
    let r1 = f[3] + comma + f[4];
    let r2 = f[2] + comma + r1;
    let r3 = f[1] + comma + r2;
    assert(rec =~= f[0] + comma + r3);
    lemma_free_concat(f[3], comma, ';');
    lemma_free_concat(f[3] + comma, f[4], ';');
    lemma_free_concat(f[2], comma, ';');
    lemma_free_concat(f[2] + comma, r1, ';');
    lemma_free_concat(f[1], comma, ';');
    lemma_free_concat(f[1] + comma, r2, ';');
    lemma_free_concat(f[0], comma, ';');
    lemma_free_concat(f[0] + comma, r3, ';');
    assert(free_of(rec, ';'));
    lemma_split_prefix(rec, tail, ';');
    lemma_trimmed_same_ends(f[0]);
    assert(rec[0] == f[0][0]);
    if f[4].len() > 0 {
        lemma_trimmed_same_ends(f[4]);
        assert(rec.last() == f[4].last());
    } else {
        assert(rec.last() == ',');
    }
    lemma_trimmed_same(rec);
    lemma_split_prefix(f[0], r3, ',');
    lemma_split_prefix(f[1], r2, ',');
    lemma_split_prefix(f[2], r1, ',');
    lemma_split_prefix(f[3], f[4], ',');
    lemma_split_whole(f[4], ',');
    assert(split_on(rec, ',') =~= seq![f[0], f[1], f[2], f[3], f[4]]);
    assert(trimmed_pieces(rec, ',') =~= f);
}

/// Decimal digits are a plain field.
pub proof fn lemma_decimal_plain(n: nat)
    ensures
        plain_field(decimal(n)),
{
    let d = decimal(n);
    lemma_decimal_digits(n);
    assert(!is_unicode_whitespace(d[0]));
    assert(!is_unicode_whitespace(d[d.len() - 1]));
    lemma_trimmed_same(d);
}

/// A point record of the writer reads as that point.
pub proof fn lemma_point_line(
    st: IgesScan,
    k: nat,
    i: nat,
    c: Seq<Seq<char>>,
    errs: Seq<(usize, KernelError)>,
)
    requires
        i + 1 <= usize::MAX,
        c.len() == 3,
        forall|q: int| 0 <= q < 3 ==> plain_field(#[trigger] c[q]),
        lookup(errs, k as usize) is None,
    ensures
        iges_scan_line(st, k, iges_point_line(i, c), errs) == Ok::<IgesScan, IgesImportError>(
            IgesScan { points: insert_entry(st.points, (i + 1) as usize, c), ..st },
        ),
{
    reveal_strlit("116,");
    reveal_strlit("116");
    reveal_strlit(",");
    reveal_strlit(";P");
    let d = decimal(i + 1);
    lemma_decimal_plain(i + 1);
    lemma_decimal_parses(i + 1);
    let head = "116"@;
    assert(head =~= seq!['1', '1', '6']);
    assert(!is_unicode_whitespace(head[0]) && !is_unicode_whitespace(head.last()));
    lemma_trimmed_same(head);
    let f = seq![head, d, c[0], c[1], c[2]];
    assert(plain_field(c[0]) && plain_field(c[1]) && plain_field(c[2]));
    assert forall|q: int| 0 <= q < 5 implies plain_field(#[trigger] f[q]) by {
        if q == 0 {
            assert(free_of(head, ',') && free_of(head, ';') && free_of(head, '\n'));
        }
    }
    let tail = seq!['P'] + pad7(decimal(i + 1));
    assert(iges_point_line(i, c) =~= five_fields(f) + seq![';'] + tail);
    lemma_record_fields(f, tail);
    assert(f.subrange(2, 5) =~= c);
}

/// A triangle record of the writer reads as that triangle, its corners
/// counted from one.
pub proof fn lemma_triangle_line(
    st: IgesScan,
    k: nat,
    v: nat,
    j: nat,
    t: [usize; 3],
    errs: Seq<(usize, KernelError)>,
)
    requires
        j + 1 <= usize::MAX,
        t[0] + 1 <= usize::MAX,
        t[1] + 1 <= usize::MAX,
        t[2] + 1 <= usize::MAX,
    ensures
        iges_scan_line(st, k, iges_triangle_line(v, j, t), errs) == Ok::<IgesScan, IgesImportError>(
            IgesScan {
                faces: st.faces.push([(t[0] + 1) as usize, (t[1] + 1) as usize, (t[2] + 1) as usize]),
                ..st
            },
        ),
{
    reveal_strlit("106,");
    reveal_strlit("106");
    reveal_strlit("116");
    reveal_strlit(",");
    reveal_strlit(";P");
    let a = decimal((t[0] + 1) as nat);
    let b = decimal((t[1] + 1) as nat);
    let c = decimal((t[2] + 1) as nat);
    let d = decimal(j + 1);
    lemma_decimal_plain(j + 1);
    lemma_decimal_plain((t[0] + 1) as nat);
    lemma_decimal_plain((t[1] + 1) as nat);
    lemma_decimal_plain((t[2] + 1) as nat);
    lemma_decimal_parses((t[0] + 1) as nat);
    lemma_decimal_parses((t[1] + 1) as nat);
    lemma_decimal_parses((t[2] + 1) as nat);
    let head = "106"@;
    assert(head =~= seq!['1', '0', '6']);
    assert(!is_unicode_whitespace(head[0]) && !is_unicode_whitespace(head.last()));
    lemma_trimmed_same(head);
    let f = seq![head, d, a, b, c];
    assert forall|q: int| 0 <= q < 5 implies plain_field(#[trigger] f[q]) by {
        if q == 0 {
            assert(free_of(head, ',') && free_of(head, ';') && free_of(head, '\n'));
        }
    }
    let tail = seq!['P'] + pad7(decimal(v + j + 1));
    assert(iges_triangle_line(v, j, t) =~= five_fields(f) + seq![';'] + tail);
    lemma_record_fields(f, tail);
    assert(head != "116"@) by {
        assert(head[1] != "116"@[1]);
    }
}

/// The first piece of a text that does not start with the separator
/// starts with the text's first character.
pub proof fn lemma_first_piece(s: Seq<char>, sep: char)
    requires
        s.len() > 0,
        s[0] != sep,
    ensures
        split_on(s, sep)[0].len() > 0,
        split_on(s, sep)[0][0] == s[0],
{
    lemma_first_index_of(s, sep);
}

/// Trimming a text that starts with non-whitespace keeps its first
/// character.
pub proof fn lemma_trim_first(s: Seq<char>)
    requires
        s.len() > 0,
        !is_unicode_whitespace(s[0]),
    ensures
        trimmed(s).len() > 0,
        trimmed(s)[0] == s[0],
{
    lemma_leading_ws(s, 0);
    assert(s.subrange(0, s.len() as int) =~= s);
    lemma_trailing_ws_bound(s, 0);
}

/// A line whose first character is neither whitespace, a separator nor the
/// `1` of a point or triangle record changes nothing.
pub proof fn lemma_other_line(st: IgesScan, k: nat, line: Seq<char>, errs: Seq<(usize, KernelError)>)
    requires
        line.len() > 0,
        !is_unicode_whitespace(line[0]),
        line[0] != ';',
        line[0] != ',',
        line[0] != '1',
    ensures
        iges_scan_line(st, k, line, errs) == Ok::<IgesScan, IgesImportError>(st),
{
    reveal_strlit("116");
    reveal_strlit("106");
    lemma_first_piece(line, ';');
    let p = split_on(line, ';')[0];
    lemma_trim_first(p);
    let rec = trimmed(p);
    assert(rec == iges_record(line));
    lemma_first_piece(rec, ',');
    let q = split_on(rec, ',')[0];
    lemma_trim_first(q);
    let f = trimmed_pieces(rec, ',');
    assert(f[0] == trimmed(q));
    assert(f[0][0] != "116"@[0]);
    assert(f[0][0] != "106"@[0]);
}

/// An empty line changes nothing.
pub proof fn lemma_empty_line(st: IgesScan, k: nat, errs: Seq<(usize, KernelError)>)
    ensures
        iges_scan_line(st, k, Seq::<char>::empty(), errs) == Ok::<IgesScan, IgesImportError>(st),
{
    lemma_split_whole(Seq::<char>::empty(), ';');
    lemma_ws_counts_bounded(Seq::<char>::empty());
}

/// Reading lines `a` and then lines `b`.
pub proof fn lemma_scan_concat(
    a: Seq<Seq<char>>,
    b: Seq<Seq<char>>,
    k: nat,
    errs: Seq<(usize, KernelError)>,
    st: IgesScan,
)
    ensures
        iges_scan(a + b, k, errs, st) == match iges_scan(a, k, errs, st) {
            Ok(next) => iges_scan(b, k + a.len(), errs, next),
            Err(e) => Err(e),
        },
    decreases a.len(),
{
    if a.len() == 0 {
        assert(a + b =~= b);
    } else {
        assert((a + b)[0] == a[0]);
        assert((a + b).drop_first() =~= a.drop_first() + b);
        match iges_scan_line(st, k, a[0], errs) {
            Ok(next) => {
                lemma_scan_concat(a.drop_first(), b, k + 1, errs, next);
            },
            Err(_) => {},
        }
    }
}

/// Storing an id above all stored ids appends it.
pub proof fn lemma_insert_entry_append<V>(s: Seq<(usize, V)>, id: usize, v: V)
    requires
        forall|j: int| 0 <= j < s.len() ==> #[trigger] s[j].0 < id,
    ensures
        insert_entry(s, id, v) == s.push((id, v)),
    decreases s.len(),
{
    if s.len() > 0 {
        let t = s.drop_first();
        assert forall|j: int| 0 <= j < t.len() implies #[trigger] t[j].0 < id by {
            assert(t[j] == s[j + 1]);
        }
        lemma_insert_entry_append(t, id, v);
        assert(seq![s[0]] + t.push((id, v)) =~= s.push((id, v)));
    }
}

/// The scan state after the first `i` point records.
pub open spec fn points_state(coords: Seq<Seq<Seq<char>>>, i: nat) -> IgesScan {
    IgesScan { points: Seq::new(i, |m: int| ((m + 1) as usize, coords[m])), faces: seq![] }
}

/// Coordinate texts that read back unchanged, three per point.
pub open spec fn plain_coordinates(coords: Seq<Seq<Seq<char>>>) -> bool {
    forall|i: int, q: int|
        0 <= i < coords.len() && 0 <= q < 3 ==> coords[i].len() == 3 && plain_field(
            #[trigger] coords[i][q],
        )
}

pub proof fn lemma_scan_points(
    lines: Seq<Seq<char>>,
    coords: Seq<Seq<Seq<char>>>,
    i: nat,
    k: nat,
)
    requires
        i <= coords.len(),
        coords.len() + 1 <= usize::MAX,
        plain_coordinates(coords),
        lines.len() == coords.len() - i,
        forall|m: int| 0 <= m < lines.len() ==> #[trigger] lines[m] == iges_point_line(
            (i + m) as nat,
            coords[i + m],
        ),
    ensures
        iges_scan(lines, k, seq![], points_state(coords, i)) == Ok::<IgesScan, IgesImportError>(
            points_state(coords, coords.len()),
        ),
    decreases lines.len(),
{
    if lines.len() == 0 {
        assert(i == coords.len());
    } else {
        let st = points_state(coords, i);
        let c = coords[i as int];
        assert(c.len() == 3 && plain_field(c[0]) && plain_field(c[1]) && plain_field(c[2])) by {
            assert(plain_field(coords[i as int][0]));
            assert(plain_field(coords[i as int][1]));
            assert(plain_field(coords[i as int][2]));
        }
        assert(lines[0] == iges_point_line(i, c));
        lemma_point_line(st, k, i, c, seq![]);
        lemma_insert_entry_append(st.points, (i + 1) as usize, c);
        assert(st.points.push(((i + 1) as usize, c)) =~= points_state(coords, i + 1).points);
        let rest = lines.drop_first();
        assert forall|m: int| 0 <= m < rest.len() implies #[trigger] rest[m] == iges_point_line(
            (i + 1 + m) as nat,
            coords[i + 1 + m],
        ) by {
            assert(rest[m] == lines[m + 1]);
        }
        lemma_scan_points(rest, coords, i + 1, k + 1);
    }
}

/// The scan state after all points and the first `j` triangle records.
pub open spec fn triangles_state(pts: IgesScan, tris: Seq<[usize; 3]>, j: nat) -> IgesScan {
    IgesScan {
        faces: Seq::new(
            j,
            |m: int| [(tris[m][0] + 1) as usize, (tris[m][1] + 1) as usize, (tris[m][2] + 1) as usize],
        ),
        ..pts
    }
}

#[verifier::spinoff_prover]
#[verifier::rlimit(40)]
pub proof fn lemma_scan_triangles(
    lines: Seq<Seq<char>>,
    pts: IgesScan,
    v: nat,
    tris: Seq<[usize; 3]>,
    j: nat,
    k: nat,
)
    requires
        j <= tris.len(),
        tris.len() + 1 <= usize::MAX,
        triangles_in_range(tris, v),
        v + 1 <= usize::MAX,
        lines.len() == tris.len() - j,
        forall|m: int| 0 <= m < lines.len() ==> #[trigger] lines[m] == iges_triangle_line(
            v,
            (j + m) as nat,
            tris[j + m],
        ),
    ensures
        iges_scan(lines, k, seq![], triangles_state(pts, tris, j)) == Ok::<IgesScan, IgesImportError>(
            triangles_state(pts, tris, tris.len()),
        ),
    decreases lines.len(),
{
    if lines.len() == 0 {
        assert(j == tris.len());
    } else {
        let st = triangles_state(pts, tris, j);
        let t = tris[j as int];
        assert(t[0] < v && t[1] < v && t[2] < v) by {
            assert(tris[j as int][0] < v);
            assert(tris[j as int][1] < v);
            assert(tris[j as int][2] < v);
        }
        assert(lines[0] == iges_triangle_line(v, j, t));
        lemma_triangle_line(st, k, v, j, t, seq![]);
        assert(st.faces.push([(t[0] + 1) as usize, (t[1] + 1) as usize, (t[2] + 1) as usize])
            =~= triangles_state(pts, tris, j + 1).faces);
        let rest = lines.drop_first();
        assert forall|m: int| 0 <= m < rest.len() implies #[trigger] rest[m] == iges_triangle_line(
            v,
            (j + 1 + m) as nat,
            tris[j + 1 + m],
        ) by {
            assert(rest[m] == lines[m + 1]);
        }
        lemma_scan_triangles(rest, pts, v, tris, j + 1, k + 1);
    }
}

/// Point positions of triangle records whose corners count from one.
pub proof fn lemma_face_positions(ids: Seq<usize>, faces: Seq<[usize; 3]>, tris: Seq<[usize; 3]>)
    requires
        forall|i: int| 0 <= i < ids.len() ==> #[trigger] ids[i] == i + 1,
        faces.len() == tris.len(),
        triangles_in_range(tris, ids.len()),
        forall|m: int|
            0 <= m < faces.len() ==> #[trigger] faces[m] == [
                (tris[m][0] + 1) as usize,
                (tris[m][1] + 1) as usize,
                (tris[m][2] + 1) as usize,
            ],
    ensures
        iges_face_positions(ids, faces) == Some(tris),
    decreases faces.len(),
{
    if faces.len() > 0 {
        let t = tris[0];
        assert(t[0] < ids.len() && t[1] < ids.len() && t[2] < ids.len()) by {
            assert(tris[0][0] < ids.len());
            assert(tris[0][1] < ids.len());
            assert(tris[0][2] < ids.len());
        }
        assert forall|q: int| 0 <= q < 3 implies position_of(ids, (t[q] + 1) as usize) == Some(
            t[q] as int,
        ) by {
            assert(ids[t[q] as int] == t[q] + 1);
            assert forall|jj: int| 0 <= jj < t[q] implies ids[jj] != (t[q] + 1) as usize by {
                assert(ids[jj] == jj + 1);
            }
            lemma_position_first(ids, (t[q] + 1) as usize, t[q] as int);
        }
        assert(faces[0] == [(t[0] + 1) as usize, (t[1] + 1) as usize, (t[2] + 1) as usize]);
        assert(position_of(ids, faces[0][0]) == Some(t[0] as int));
        assert(position_of(ids, faces[0][1]) == Some(t[1] as int));
        assert(position_of(ids, faces[0][2]) == Some(t[2] as int));
        let rf = faces.drop_first();
        let rt = tris.drop_first();
        assert forall|m: int| 0 <= m < rf.len() implies #[trigger] rf[m] == [
            (rt[m][0] + 1) as usize,
            (rt[m][1] + 1) as usize,
            (rt[m][2] + 1) as usize,
        ] by {
            assert(rf[m] == faces[m + 1]);
            assert(rt[m] == tris[m + 1]);
        }
        assert(triangles_in_range(rt, ids.len())) by {
            assert forall|jj: int, q: int| 0 <= jj < rt.len() && 0 <= q < 3 implies #[trigger] rt[jj][q]
                < ids.len() by {
                assert(rt[jj] == tris[jj + 1]);
                assert(tris[jj + 1][q] < ids.len());
            }
        }
        lemma_face_positions(ids, rf, rt);
        assert([t[0], t[1], t[2]] == t);
        assert(seq![t] + rt =~= tris);
    }
}

/// Decimal digits hold no line feed, comma or semicolon.
pub proof fn lemma_decimal_free(n: nat)
    ensures
        free_of(decimal(n), '\n'),
        free_of(decimal(n), ','),
        free_of(decimal(n), ';'),
{
    lemma_decimal_digits(n);
}

pub proof fn lemma_pad7_free(d: Seq<char>)
    requires
        free_of(d, '\n'),
    ensures
        free_of(pad7(d), '\n'),
{
    if d.len() < 7 {
        let sp = Seq::new((7 - d.len()) as nat, |i: int| ' ');
        assert(free_of(sp, '\n'));
        lemma_free_concat(sp, d, '\n');
    }
}

/// Every line the IGES writer emits is free of line feeds.
pub proof fn lemma_iges_lines_free(
    coords: Seq<Seq<Seq<char>>>,
    tris: Seq<[usize; 3]>,
    name: Seq<char>,
    k: int,
)
    requires
        plain_coordinates(coords),
        free_of(name, '\n'),
        0 <= k < iges_lines(coords, tris, name).len(),
    ensures
        free_of(iges_lines(coords, tris, name)[k], '\n'),
{
    reveal_strlit("BREP_KERNEL_IGES_FACETED_SUBSET,1;S      1");
    reveal_strlit("PRODUCT,");
    reveal_strlit(";G      1");
    reveal_strlit("116,");
    reveal_strlit("106,");
    reveal_strlit(",");
    reveal_strlit(";P");
    reveal_strlit("T,");
    reveal_strlit(",0;T      1");
    let v = coords.len();
    let f = tris.len();
    let lines = iges_lines(coords, tris, name);
    let comma = ","@;
    if k == 0 {
    } else if k == 1 {
        let tok = iges_token_text(name);
        assert(free_of(tok, '\n')) by {
            assert forall|i: int| 0 <= i < tok.len() implies tok[i] != '\n' by {
                assert(name[i] != '\n');
            }
        }
        lemma_free_concat("PRODUCT,"@, tok, '\n');
        lemma_free_concat("PRODUCT,"@ + tok, ";G      1"@, '\n');
    } else if k < 2 + v {
        let i = k - 2;
        let c = coords[i];
        assert(plain_field(coords[i][0]) && plain_field(coords[i][1]) && plain_field(coords[i][2]));
        let d = decimal((i + 1) as nat);
        lemma_decimal_free((i + 1) as nat);
        lemma_pad7_free(d);
        lemma_free_concat("116,"@, d, '\n');
        lemma_free_concat("116,"@ + d, comma, '\n');
        lemma_free_concat("116,"@ + d + comma, c[0], '\n');
        lemma_free_concat("116,"@ + d + comma + c[0], comma, '\n');
        lemma_free_concat("116,"@ + d + comma + c[0] + comma, c[1], '\n');
        lemma_free_concat("116,"@ + d + comma + c[0] + comma + c[1], comma, '\n');
        lemma_free_concat("116,"@ + d + comma + c[0] + comma + c[1] + comma, c[2], '\n');
        lemma_free_concat("116,"@ + d + comma + c[0] + comma + c[1] + comma + c[2], ";P"@, '\n');
        lemma_free_concat(
            "116,"@ + d + comma + c[0] + comma + c[1] + comma + c[2] + ";P"@,
            pad7(d),
            '\n',
        );
        assert(lines[k] == iges_point_line(i as nat, c));
    } else if k < 2 + v + f {
        let j = k - 2 - v;
        let t = tris[j];
        let d = decimal((j + 1) as nat);
        let a = decimal((t[0] + 1) as nat);
        let b = decimal((t[1] + 1) as nat);
        let c = decimal((t[2] + 1) as nat);
        let e = decimal((v + j + 1) as nat);
        lemma_decimal_free((j + 1) as nat);
        lemma_decimal_free((t[0] + 1) as nat);
        lemma_decimal_free((t[1] + 1) as nat);
        lemma_decimal_free((t[2] + 1) as nat);
        lemma_decimal_free((v + j + 1) as nat);
        lemma_pad7_free(e);
        lemma_free_concat("106,"@, d, '\n');
        lemma_free_concat("106,"@ + d, comma, '\n');
        lemma_free_concat("106,"@ + d + comma, a, '\n');
        lemma_free_concat("106,"@ + d + comma + a, comma, '\n');
        lemma_free_concat("106,"@ + d + comma + a + comma, b, '\n');
        lemma_free_concat("106,"@ + d + comma + a + comma + b, comma, '\n');
        lemma_free_concat("106,"@ + d + comma + a + comma + b + comma, c, '\n');
        lemma_free_concat("106,"@ + d + comma + a + comma + b + comma + c, ";P"@, '\n');
        lemma_free_concat(
            "106,"@ + d + comma + a + comma + b + comma + c + ";P"@,
            pad7(e),
            '\n',
        );
        assert(lines[k] == iges_triangle_line(v, j as nat, t));
    } else {
        let dv = decimal(v);
        let df = decimal(f);
        lemma_decimal_free(v);
        lemma_decimal_free(f);
        lemma_free_concat("T,"@, dv, '\n');
        lemma_free_concat("T,"@ + dv, comma, '\n');
        lemma_free_concat("T,"@ + dv + comma, df, '\n');
        lemma_free_concat("T,"@ + dv + comma + df, ",0;T      1"@, '\n');
    }
}

/// Reading back the IGES text that the writer produces, for at least one
/// point with plain coordinate texts and at least one triangle over the
/// points, gives the points numbered from one, their coordinate texts and
/// the triangles.
pub proof fn lemma_iges_round_trip(coords: Seq<Seq<Seq<char>>>, tris: Seq<[usize; 3]>, name: Seq<char>)
    requires
        coords.len() > 0,
        tris.len() > 0,
        plain_coordinates(coords),
        triangles_in_range(tris, coords.len()),
        coords.len() + tris.len() + 1 <= usize::MAX,
        free_of(name, '\n'),
    ensures
        iges_mesh(iges_text(coords, tris, name), seq![]) == Ok::<
            (Seq<usize>, Seq<Seq<Seq<char>>>, Seq<[usize; 3]>),
            IgesImportError,
        >((Seq::new(coords.len(), |i: int| (i + 1) as usize), coords, tris)),
{
    reveal_strlit("BREP_KERNEL_IGES_FACETED_SUBSET,1;S      1");
    reveal_strlit("PRODUCT,");
    reveal_strlit("T,");
    let v = coords.len();
    let f = tris.len();
    let vi = v as int;
    let fi = f as int;
    let lines = iges_lines(coords, tris, name);
    let empty_line = Seq::<char>::empty();
    assert(lines.len() == v + f + 3);
    assert forall|k: int| 0 <= k < lines.len() implies free_of(#[trigger] lines[k], '\n') by {
        lemma_iges_lines_free(coords, tris, name, k);
    }
    lemma_split_concat_lines(lines);
    let all = lines + seq![empty_line];
    let a = lines.subrange(0, 2);
    let p = lines.subrange(2, 2 + vi);
    let t = lines.subrange(2 + vi, 2 + vi + fi);
    let b = lines.subrange(2 + vi + fi, 3 + vi + fi) + seq![empty_line];
    assert(all =~= a + p + t + b);
    let st0 = IgesScan { points: seq![], faces: seq![] };
    let errs = Seq::<(usize, KernelError)>::empty();
    // the two header lines
    let h0 = lines[0];
    let h1 = lines[1];
    assert(h0[0] == 'B');
    assert(h1[0] == 'P');
    lemma_other_line(st0, 0, h0, errs);
    lemma_other_line(st0, 1, h1, errs);
    assert(a[0] == h0 && a[1] == h1);
    assert(a.drop_first().drop_first() =~= Seq::<Seq<char>>::empty());
    assert(a.drop_first()[0] == h1);
    assert(iges_scan(a.drop_first().drop_first(), 2, errs, st0) == Ok::<IgesScan, IgesImportError>(
        st0,
    ));
    assert(iges_scan(a.drop_first(), 1, errs, st0) == Ok::<IgesScan, IgesImportError>(st0));
    assert(iges_scan(a, 0, errs, st0) == Ok::<IgesScan, IgesImportError>(st0));
    // the point records
    assert(points_state(coords, 0) == st0) by {
        assert(points_state(coords, 0).points =~= Seq::<(usize, Seq<Seq<char>>)>::empty());
    }
    assert forall|m: int| 0 <= m < p.len() implies #[trigger] p[m] == iges_point_line(
        (0 + m) as nat,
        coords[0 + m],
    ) by {
        assert(p[m] == lines[2 + m]);
    }
    lemma_scan_points(p, coords, 0, 2);
    let pts = points_state(coords, v);
    // the triangle records
    assert(triangles_state(pts, tris, 0) == pts) by {
        assert(triangles_state(pts, tris, 0).faces =~= Seq::<[usize; 3]>::empty());
    }
    assert forall|m: int| 0 <= m < t.len() implies #[trigger] t[m] == iges_triangle_line(
        v,
        (0 + m) as nat,
        tris[0 + m],
    ) by {
        assert(t[m] == lines[2 + vi + m]);
    }
    lemma_scan_triangles(t, pts, v, tris, 0, (2 + v) as nat);
    let fin = triangles_state(pts, tris, f);
    // the closing record and the empty rest
    let tl = lines[2 + vi + fi];
    assert(tl[0] == 'T');
    lemma_other_line(fin, (2 + v + f) as nat, tl, errs);
    lemma_empty_line(fin, (3 + v + f) as nat, errs);
    assert(b[0] == tl && b[1] == empty_line);
    assert(b.drop_first().drop_first() =~= Seq::<Seq<char>>::empty());
    assert(b.drop_first()[0] == empty_line);
    assert(iges_scan(b.drop_first().drop_first(), (4 + v + f) as nat, errs, fin) == Ok::<
        IgesScan,
        IgesImportError,
    >(fin));
    assert(iges_scan(b.drop_first(), (3 + v + f) as nat, errs, fin) == Ok::<IgesScan, IgesImportError>(
        fin,
    ));
    assert(iges_scan(b, (2 + v + f) as nat, errs, fin) == Ok::<IgesScan, IgesImportError>(fin));
    lemma_scan_concat(a, p, 0, errs, st0);
    lemma_scan_concat(a + p, t, 0, errs, st0);
    lemma_scan_concat(a + p + t, b, 0, errs, st0);
    assert(iges_scan(all, 0, errs, st0) == Ok::<IgesScan, IgesImportError>(fin));
    // point positions of the triangles
    let ids = fin.points.map_values(|e: (usize, Seq<Seq<char>>)| e.0);
    assert forall|i: int| 0 <= i < ids.len() implies #[trigger] ids[i] == i + 1 by {}
    lemma_face_positions(ids, fin.faces, tris);
    assert(ids =~= Seq::new(v, |i: int| (i + 1) as usize));
    assert(fin.points.map_values(|e: (usize, Seq<Seq<char>>)| e.1) =~= coords);
}

} // verus!
