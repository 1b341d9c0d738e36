use vstd::prelude::*;
use crate::formats::ConvertError;
use crate::scalar::{spec_parse_int, spec_parse_bool, parse_int_chars, parse_bool_chars};
use crate::table::{
    Table, Column, Value, ColType, ColModel, ValueModel, spec_render_value, table_nrows, table_wf,
};
use crate::text::chars_to_string;

verus! {

/// Characters that force a field into quotes in the delimited text format.
pub open spec fn is_special(c: char) -> bool {
    c == ',' || c == '"' || c == '\n' || c == '\r'
}

pub open spec fn needs_quote(f: Seq<char>) -> bool {
    exists|i: int| 0 <= i < f.len() && is_special(#[trigger] f[i])
}

/// The escaped body of a quoted field from position `k` on: quotes are
/// doubled, everything else is copied.
pub open spec fn esc_from(f: Seq<char>, k: int) -> Seq<char>
    decreases f.len() - k,
{
    if k < 0 || k >= f.len() {
        Seq::empty()
    } else if f[k] == '"' {
        seq!['"', '"'] + esc_from(f, k + 1)
    } else {
        seq![f[k]] + esc_from(f, k + 1)
    }
}

/// One field as written: quoted and escaped when it holds a special
/// character, verbatim otherwise.
pub open spec fn render_field(f: Seq<char>) -> Seq<char> {
    if needs_quote(f) {
        seq!['"'] + esc_from(f, 0) + seq!['"']
    } else {
        f
    }
}

/// One row as written, fields from `j` on: comma-separated, newline-terminated.
pub open spec fn render_row_from(fs: Seq<Seq<char>>, j: int) -> Seq<char>
    decreases fs.len() - j,
{
    if j < 0 || j >= fs.len() {
        seq!['\n']
    } else if j == fs.len() - 1 {
        render_field(fs[j]) + seq!['\n']
    } else {
        render_field(fs[j]) + seq![','] + render_row_from(fs, j + 1)
    }
}

/// The whole text, rows from `k` on.
pub open spec fn render_rows_from(rs: Seq<Seq<Seq<char>>>, k: int) -> Seq<char>
    decreases rs.len() - k,
{
    if k < 0 || k >= rs.len() {
        Seq::empty()
    } else {
        render_row_from(rs[k], 0) + render_rows_from(rs, k + 1)
    }
}

/// Scans the body of a quoted field, starting inside the quotes; yields the
/// field text and the position after the closing quote.
pub open spec fn scan_quoted(s: Seq<char>, i: int) -> Option<(Seq<char>, int)>
    decreases s.len() - i,
{
    if i < 0 || i >= s.len() {
        Option::None
    } else if s[i] == '"' {
        if i + 1 < s.len() && s[i + 1] == '"' {
            match scan_quoted(s, i + 2) {
                Option::None => Option::None,
                Option::Some(p) => Option::Some((seq!['"'] + p.0, p.1)),
            }
        } else {
            Option::Some((Seq::empty(), i + 1))
        }
    } else {
        match scan_quoted(s, i + 1) {
            Option::None => Option::None,
            Option::Some(p) => Option::Some((seq![s[i]] + p.0, p.1)),
        }
    }
}

/// Scans an unquoted field: ends before a comma or newline, refuses a stray
/// quote.
pub open spec fn scan_unquoted(s: Seq<char>, i: int) -> Option<(Seq<char>, int)>
    decreases s.len() - i,
{
    if i < 0 {
        Option::None
    } else if i >= s.len() {
        Option::Some((Seq::empty(), i))
    } else if s[i] == ',' || s[i] == '\n' {
        Option::Some((Seq::empty(), i))
    } else if s[i] == '"' {
        Option::None
    } else {
        match scan_unquoted(s, i + 1) {
            Option::None => Option::None,
            Option::Some(p) => Option::Some((seq![s[i]] + p.0, p.1)),
        }
    }
}

/// Scans one field, quoted or not; after a quoted field only a separator or
/// the end of input may follow.
pub open spec fn scan_field(s: Seq<char>, i: int) -> Option<(Seq<char>, int)> {
    if 0 <= i < s.len() && s[i] == '"' {
        match scan_quoted(s, i + 1) {
            Option::None => Option::None,
            Option::Some(p) => if p.1 == s.len() || (p.1 < s.len() && (s[p.1] == ',' || s[p.1]
                == '\n')) {
                Option::Some(p)
            } else {
                Option::None
            },
        }
    } else {
        scan_unquoted(s, i)
    }
}

/// Scans one row: comma-separated fields up to a newline (consumed) or the
/// end of input.
pub open spec fn scan_row(s: Seq<char>, i: int) -> Option<(Seq<Seq<char>>, int)>
    decreases s.len() - i,
{
    match scan_field(s, i) {
        Option::None => Option::None,
        Option::Some(p) => {
            let f = p.0;
            let j = p.1;
            if j < i || j > s.len() {
                Option::None
            } else if j == s.len() {
                Option::Some((seq![f], j))
            } else if s[j] == '\n' {
                Option::Some((seq![f], j + 1))
            } else if s[j] == ',' {
                match scan_row(s, j + 1) {
                    Option::None => Option::None,
                    Option::Some(q) => Option::Some((seq![f] + q.0, q.1)),
                }
            } else {
                Option::None
            }
        },
    }
}

/// Scans all rows until the input is exhausted.
pub open spec fn scan_rows(s: Seq<char>, i: int) -> Option<Seq<Seq<Seq<char>>>>
    decreases s.len() - i,
{
    if i < 0 {
        Option::None
    } else if i >= s.len() {
        Option::Some(Seq::empty())
    } else {
        match scan_row(s, i) {
            Option::None => Option::None,
            Option::Some(p) => if p.1 <= i || p.1 > s.len() {
                Option::None
            } else {
                match scan_rows(s, p.1) {
                    Option::None => Option::None,
                    Option::Some(rs) => Option::Some(seq![p.0] + rs),
                }
            },
        }
    }
}

pub open spec fn col_tokens(data: Seq<Seq<Seq<char>>>, j: int) -> Seq<Seq<char>> {
    Seq::new(data.len(), |i: int| data[i][j])
}

pub open spec fn exists_nonempty(toks: Seq<Seq<char>>) -> bool {
    exists|i: int| 0 <= i < toks.len() && (#[trigger] toks[i]).len() > 0
}

pub open spec fn all_nonempty_int(toks: Seq<Seq<char>>) -> bool {
    forall|i: int|
        0 <= i < toks.len() && (#[trigger] toks[i]).len() > 0 ==> spec_parse_int(toks[i]) is Some
}

pub open spec fn all_nonempty_bool(toks: Seq<Seq<char>>) -> bool {
    forall|i: int|
        0 <= i < toks.len() && (#[trigger] toks[i]).len() > 0 ==> spec_parse_bool(toks[i]) is Some
}

/// Infers a column type by scanning every token of the column: all integers,
/// else all booleans, else text; empty tokens stand for nulls and do not
/// count.
pub open spec fn spec_infer(toks: Seq<Seq<char>>) -> ColType {
    if !exists_nonempty(toks) {
        ColType::StrType
    } else if all_nonempty_int(toks) {
        ColType::IntType
    } else if all_nonempty_bool(toks) {
        ColType::BoolType
    } else {
        ColType::StrType
    }
}

/// The value a token denotes under a column type; empty tokens are nulls.
pub open spec fn spec_convert_token(tok: Seq<char>, ty: ColType) -> ValueModel {
    if tok.len() == 0 {
        ValueModel::Null
    } else {
        match ty {
            ColType::IntType => match spec_parse_int(tok) {
                Option::Some(v) => ValueModel::Int(v as i64),
                Option::None => ValueModel::Null,
            },
            ColType::BoolType => match spec_parse_bool(tok) {
                Option::Some(b) => ValueModel::Bool(b),
                Option::None => ValueModel::Null,
            },
            ColType::StrType => ValueModel::Str(tok),
        }
    }
}

pub open spec fn spec_col_of(name: Seq<char>, toks: Seq<Seq<char>>) -> ColModel {
    ColModel {
        name: name,
        ty: spec_infer(toks),
        vals: Seq::new(toks.len(), |i: int| spec_convert_token(toks[i], spec_infer(toks))),
    }
}

/// What a delimited text denotes: a header row of names, then value rows of
/// equal width, each column typed by inference over all its tokens.
pub open spec fn spec_parse_table(s: Seq<char>) -> Option<Seq<ColModel>> {
    match scan_rows(s, 0) {
        Option::None => Option::None,
        Option::Some(rows) => if rows.len() == 0 {
            Option::None
        } else {
            let hdr = rows[0];
            let data = rows.skip(1);
            if exists|i: int| 0 <= i < data.len() && (#[trigger] data[i]).len() != hdr.len() {
                Option::None
            } else {
                Option::Some(
                    Seq::new(hdr.len(), |j: int| spec_col_of(hdr[j], col_tokens(data, j))),
                )
            }
        },
    }
}

pub open spec fn header_tokens(t: Seq<ColModel>) -> Seq<Seq<char>> {
    Seq::new(t.len(), |j: int| t[j].name)
}

pub open spec fn row_tokens(t: Seq<ColModel>, i: int) -> Seq<Seq<char>> {
    Seq::new(t.len(), |j: int| spec_render_value(t[j].vals[i]))
}

/// The token matrix of a table: the header row, then one row of rendered
/// values per table row.
pub open spec fn table_matrix(t: Seq<ColModel>) -> Seq<Seq<Seq<char>>> {
    seq![header_tokens(t)] + Seq::new(table_nrows(t) as nat, |i: int| row_tokens(t, i))
}

/// A table as delimited text.
pub open spec fn spec_render_table(t: Seq<ColModel>) -> Seq<char> {
    render_rows_from(table_matrix(t), 0)
}

pub open spec fn scan_view(r: Option<(Vec<char>, usize)>) -> Option<(Seq<char>, int)> {
    match r {
        Option::None => Option::None,
        Option::Some(p) => Option::Some((p.0@, p.1 as int)),
    }
}

pub open spec fn scan_row_view(r: Option<(Vec<Vec<char>>, usize)>) -> Option<(Seq<Seq<char>>, int)> {
    match r {
        Option::None => Option::None,
        Option::Some(p) => Option::Some((p.0.deep_view(), p.1 as int)),
    }
}

fn scan_quoted_exec(s: &Vec<char>, i: usize) -> (r: Option<(Vec<char>, usize)>)
    ensures
        scan_view(r) == scan_quoted(s@, i as int),
    decreases s@.len() - i,
{
    if i >= s.len() {
        return None;
    }
    if s[i] == '"' {
        if i + 1 < s.len() && s[i + 1] == '"' {
            match scan_quoted_exec(s, i + 2) {
                None => None,
                Some((mut v, j)) => {
                    v.insert(0, '"');
                    proof {
                        assert(v@ =~= seq!['"'] + scan_quoted(s@, i + 2)->Some_0.0);
                    }
                    Some((v, j))
                },
            }
        } else {
            Some((Vec::new(), i + 1))
        }
    } else {
        let c = s[i];
        match scan_quoted_exec(s, i + 1) {
            None => None,
            Some((mut v, j)) => {
                v.insert(0, c);
                proof {
                    assert(v@ =~= seq![s@[i as int]] + scan_quoted(s@, i + 1)->Some_0.0);
                }
                Some((v, j))
            },
        }
    }
}

fn scan_unquoted_exec(s: &Vec<char>, i: usize) -> (r: Option<(Vec<char>, usize)>)
    ensures
        scan_view(r) == scan_unquoted(s@, i as int),
    decreases s@.len() - i,
{
    if i >= s.len() {
        return Some((Vec::new(), i));
    }
    let c = s[i];
    if c == ',' || c == '\n' {
        Some((Vec::new(), i))
    } else if c == '"' {
        None
    } else {
        match scan_unquoted_exec(s, i + 1) {
            None => None,
            Some((mut v, j)) => {
                v.insert(0, c);
                proof {
                    assert(v@ =~= seq![s@[i as int]] + scan_unquoted(s@, i + 1)->Some_0.0);
                }
                Some((v, j))
            },
        }
    }
}

fn scan_field_exec(s: &Vec<char>, i: usize) -> (r: Option<(Vec<char>, usize)>)
    ensures
        scan_view(r) == scan_field(s@, i as int),
{
    if i < s.len() && s[i] == '"' {
        match scan_quoted_exec(s, i + 1) {
            None => None,
            Some((v, j)) => {
                if j == s.len() {
                    Some((v, j))
                } else if j < s.len() && (s[j] == ',' || s[j] == '\n') {
                    Some((v, j))
                } else {
                    None
                }
            },
        }
    } else {
        scan_unquoted_exec(s, i)
    }
}

fn scan_row_exec(s: &Vec<char>, i: usize) -> (r: Option<(Vec<Vec<char>>, usize)>)
    ensures
        scan_row_view(r) == scan_row(s@, i as int),
    decreases s@.len() - i,
{
    match scan_field_exec(s, i) {
        None => None,
        Some((f, j)) => {
            if j < i || j > s.len() {
                None
            } else if j == s.len() {
                let mut rows: Vec<Vec<char>> = Vec::new();
                rows.push(f);
                proof {
                    assert(rows.deep_view() =~= seq![scan_field(s@, i as int)->Some_0.0]) by {
                        assert(rows.deep_view()[0] == rows@[0].deep_view());
                        assert(rows@[0].deep_view() =~= rows@[0]@);
                    }
                }
                Some((rows, j))
            } else if s[j] == '\n' {
                let mut rows: Vec<Vec<char>> = Vec::new();
                rows.push(f);
                proof {
                    assert(rows.deep_view() =~= seq![scan_field(s@, i as int)->Some_0.0]) by {
                        assert(rows.deep_view()[0] == rows@[0].deep_view());
                        assert(rows@[0].deep_view() =~= rows@[0]@);
                    }
                }
                Some((rows, j + 1))
            } else if s[j] == ',' {
                match scan_row_exec(s, j + 1) {
                    None => None,
                    Some((mut rest, k)) => {
                        let ghost old_deep = rest.deep_view();
                        rest.insert(0, f);
                        proof {
                            assert(rest.deep_view() =~= seq![scan_field(s@, i as int)->Some_0.0]
                                + old_deep) by {
                                assert(forall|q: int|
                                    0 <= q < rest.deep_view().len() ==> rest.deep_view()[q]
                                        == rest@[q].deep_view());
                                assert(rest@[0].deep_view() =~= rest@[0]@);
                                assert(forall|q: int|
                                    1 <= q < rest@.len() ==> (#[trigger] rest@[q]).deep_view()
                                        == old_deep[q - 1]);
                            }
                        }
                        Some((rest, k))
                    },
                }
            } else {
                None
            }
        },
    }
}

fn scan_rows_exec(s: &Vec<char>, i: usize) -> (r: Option<Vec<Vec<Vec<char>>>>)
    ensures
        match r {
            Option::None => scan_rows(s@, i as int) is None,
            Option::Some(m) => scan_rows(s@, i as int) == Option::Some(m.deep_view()),
        },
    decreases s@.len() - i,
{
    if i >= s.len() {
        let m: Vec<Vec<Vec<char>>> = Vec::new();
        proof {
            assert(m.deep_view() =~= Seq::<Seq<Seq<char>>>::empty());
        }
        return Some(m);
    }
    match scan_row_exec(s, i) {
        None => None,
        Some((row, j)) => {
            if j <= i || j > s.len() {
                None
            } else {
                match scan_rows_exec(s, j) {
                    None => None,
                    Some(mut rest) => {
                        let ghost old_deep = rest.deep_view();
                        rest.insert(0, row);
                        proof {
                            assert(rest.deep_view() =~= seq![scan_row(s@, i as int)->Some_0.0]
                                + old_deep) by {
                                assert(forall|q: int|
                                    0 <= q < rest.deep_view().len() ==> rest.deep_view()[q]
                                        == rest@[q].deep_view());
                                assert(rest@[0].deep_view() =~= scan_row(s@, i as int)->Some_0.0);
                                assert(forall|q: int|
                                    1 <= q < rest@.len() ==> (#[trigger] rest@[q]).deep_view()
                                        == old_deep[q - 1]);
                            }
                        }
                        Some(rest)
                    },
                }
            }
        },
    }
}

} // verus!

verus! {

/// Links the deep view of a scanned row matrix to its element vectors.
pub open spec fn matrix_dv(rowsv: Seq<Vec<Vec<char>>>, dv: Seq<Seq<Seq<char>>>) -> bool {
    &&& dv.len() == rowsv.len()
    &&& forall|k: int| 0 <= k < rowsv.len() ==> (#[trigger] dv[k]).len() == rowsv[k]@.len()
    &&& forall|k: int, j: int|
        0 <= k < rowsv.len() && 0 <= j < rowsv[k]@.len() ==> (#[trigger] dv[k][j])
            == rowsv[k]@[j]@
}

proof fn lemma_matrix_dv(rowsv: Seq<Vec<Vec<char>>>, dv: Seq<Seq<Seq<char>>>)
    requires
        dv.len() == rowsv.len(),
        forall|k: int| 0 <= k < rowsv.len() ==> dv[k] == (#[trigger] rowsv[k]).deep_view(),
    ensures
        matrix_dv(rowsv, dv),
{
    assert forall|k: int, j: int|
        0 <= k < rowsv.len() && 0 <= j < rowsv[k]@.len() implies (#[trigger] dv[k][j])
        == rowsv[k]@[j]@ by {
        assert(dv[k][j] == rowsv[k]@[j].deep_view());
        assert(rowsv[k]@[j].deep_view() =~= rowsv[k]@[j]@);
    }
}

/// Reads a table from delimited text, inferring every column type from all
/// of the column's tokens, exactly as `spec_parse_table` says.
pub fn parse_delimited(text: &Vec<char>) -> (r: Result<Table, ConvertError>)
    ensures
        match spec_parse_table(text@) {
            Option::None => r == Result::<Table, ConvertError>::Err(ConvertError::DecodeError),
            Option::Some(tm) => r matches Ok(t) && t@ == tm,
        },
{
    let rows = match scan_rows_exec(text, 0) {
        None => {
            return Err(ConvertError::DecodeError);
        },
        Some(m) => m,
    };
    if rows.len() == 0 {
        return Err(ConvertError::DecodeError);
    }
    let ghost dv = rows.deep_view();
    let ghost hdr = dv[0];
    let ghost data = dv.skip(1);
    proof {
        lemma_matrix_dv(rows@, dv);
        assert(forall|q: int| 0 <= q < data.len() ==> data[q] == dv[q + 1]);
    }
    let width = rows[0].len();
    let mut i: usize = 1;
    while i < rows.len()
        invariant
            1 <= i <= rows@.len(),
            dv == rows.deep_view(),
            scan_rows(text@, 0) == Option::Some(dv),
            dv.len() >= 1,
            matrix_dv(rows@, dv),
            hdr == dv[0],
            data == dv.skip(1),
            forall|q: int| 0 <= q < data.len() ==> data[q] == dv[q + 1],
            width == hdr.len(),
            forall|k: int| 1 <= k < i ==> (#[trigger] dv[k]).len() == hdr.len(),
        decreases rows@.len() - i,
    {
        if rows[i].len() != width {
            proof {
                assert(data[i - 1].len() != hdr.len());
                assert(spec_parse_table(text@) is None);
            }
            return Err(ConvertError::DecodeError);
        }
        i += 1;
    }
    proof {
        assert forall|q: int| 0 <= q < data.len() implies (#[trigger] data[q]).len() == hdr.len()
        by {
            assert(data[q] == dv[q + 1]);
        }
        assert(spec_parse_table(text@) matches Some(tm) && tm == Seq::new(
            hdr.len(),
            |j: int| spec_col_of(hdr[j], col_tokens(data, j)),
        ));
    }
    let mut cols: Vec<Column> = Vec::new();
    let mut j: usize = 0;
    while j < width
        invariant
            0 <= j <= width,
            1 <= rows@.len(),
            dv == rows.deep_view(),
            matrix_dv(rows@, dv),
            hdr == dv[0],
            data == dv.skip(1),
            forall|q: int| 0 <= q < data.len() ==> data[q] == dv[q + 1],
            width == hdr.len(),
            forall|q: int| 0 <= q < data.len() ==> (#[trigger] data[q]).len() == hdr.len(),
            data.len() == rows@.len() - 1,
            cols.deep_view() =~= Seq::new(
                j as nat,
                |j2: int| spec_col_of(hdr[j2], col_tokens(data, j2)),
            ),
        decreases width - j,
    {
        let ghost ctoks = col_tokens(data, j as int);
        proof {
            assert forall|q: int| 0 <= q < ctoks.len() implies #[trigger] ctoks[q] == rows@[q
                + 1]@[j as int]@ by {
                assert(data[q] == dv[q + 1]);
            }
        }
        let mut has_ne = false;
        let mut all_int = true;
        let mut all_bool = true;
        let mut i2: usize = 1;
        while i2 < rows.len()
            invariant
                1 <= i2 <= rows@.len(),
                j < width,
                dv == rows.deep_view(),
                matrix_dv(rows@, dv),
                hdr == dv[0],
                data == dv.skip(1),
                forall|q: int| 0 <= q < data.len() ==> data[q] == dv[q + 1],
                width == hdr.len(),
                forall|q: int| 0 <= q < data.len() ==> (#[trigger] data[q]).len() == hdr.len(),
                data.len() == rows@.len() - 1,
                ctoks == col_tokens(data, j as int),
                forall|q: int|
                    0 <= q < ctoks.len() ==> #[trigger] ctoks[q] == rows@[q + 1]@[j as int]@,
                has_ne == exists|q: int|
                    0 <= q < i2 - 1 && (#[trigger] ctoks[q]).len() > 0,
                all_int == forall|q: int|
                    0 <= q < i2 - 1 && (#[trigger] ctoks[q]).len() > 0 ==> spec_parse_int(
                        ctoks[q],
                    ) is Some,
                all_bool == forall|q: int|
                    0 <= q < i2 - 1 && (#[trigger] ctoks[q]).len() > 0 ==> spec_parse_bool(
                        ctoks[q],
                    ) is Some,
            decreases rows@.len() - i2,
    {
            proof {
                assert(data[i2 - 1] == dv[i2 as int]);
                assert(dv[i2 as int].len() == rows@[i2 as int]@.len());
            }
            let tok = &rows[i2][j];
            proof {
                assert(ctoks[i2 - 1] == tok@);
            }
            let ghost old_has = has_ne;
            let ghost old_int = all_int;
            let ghost old_bool = all_bool;
            if tok.len() > 0 {
                has_ne = true;
                if parse_int_chars(tok).is_none() {
                    all_int = false;
                }
                if parse_bool_chars(tok).is_none() {
                    all_bool = false;
                }
            }
            proof {
                if tok@.len() == 0 {
                    assert forall|q: int|
                        0 <= q < i2 as int + 1 - 1 && (#[trigger] ctoks[q]).len() > 0 implies 0
                        <= q < i2 - 1 && ctoks[q].len() > 0 by {}
                }
            }
            i2 += 1;
        }
        proof {
            assert(ctoks.len() == i2 - 1);
            assert(has_ne == exists_nonempty(ctoks));
            assert(all_int == all_nonempty_int(ctoks));
            assert(all_bool == all_nonempty_bool(ctoks));
        }
        let ty: ColType = if !has_ne {
            ColType::StrType
        } else if all_int {
            ColType::IntType
        } else if all_bool {
            ColType::BoolType
        } else {
            ColType::StrType
        };
        proof {
            assert(ty == spec_infer(ctoks));
        }
        let mut vals: Vec<Value> = Vec::new();
        let mut i3: usize = 1;
        while i3 < rows.len()
            invariant
                1 <= i3 <= rows@.len(),
                j < width,
                dv == rows.deep_view(),
                matrix_dv(rows@, dv),
                hdr == dv[0],
                data == dv.skip(1),
                forall|q: int| 0 <= q < data.len() ==> data[q] == dv[q + 1],
                width == hdr.len(),
                forall|q: int| 0 <= q < data.len() ==> (#[trigger] data[q]).len() == hdr.len(),
                data.len() == rows@.len() - 1,
                ctoks == col_tokens(data, j as int),
                forall|q: int|
                    0 <= q < ctoks.len() ==> #[trigger] ctoks[q] == rows@[q + 1]@[j as int]@,
                ty == spec_infer(ctoks),
                vals.deep_view() =~= Seq::new(
                    (i3 - 1) as nat,
                    |q: int| spec_convert_token(ctoks[q], ty),
                ),
            decreases rows@.len() - i3,
        {
            proof {
                assert(data[i3 - 1] == dv[i3 as int]);
                assert(dv[i3 as int].len() == rows@[i3 as int]@.len());
            }
            let tok = &rows[i3][j];
            proof {
                assert(ctoks[i3 - 1] == tok@);
            }
            let v: Value = if tok.len() == 0 {
                Value::Null
            } else {
                match ty {
                    ColType::IntType => {
                        match parse_int_chars(tok) {
                            Some(x) => Value::Int(x),
                            None => Value::Null,
                        }
                    },
                    ColType::BoolType => {
                        match parse_bool_chars(tok) {
                            Some(b) => Value::Bool(b),
                            None => Value::Null,
                        }
                    },
                    ColType::StrType => Value::Str(chars_to_string(tok)),
                }
            };
            proof {
                assert(v@ == spec_convert_token(ctoks[i3 - 1], ty));
            }
            let ghost pd = vals.deep_view();
            vals.push(v);
            proof {
                assert(vals.deep_view() =~= pd.push(spec_convert_token(ctoks[i3 - 1], ty))) by {
                    assert(forall|q: int|
                        0 <= q < vals@.len() ==> vals.deep_view()[q] == (
                        #[trigger] vals@[q]).deep_view());
                }
                assert(pd.push(spec_convert_token(ctoks[i3 - 1], ty)) =~= Seq::new(
                    i3 as nat,
                    |q: int| spec_convert_token(ctoks[q], ty),
                ));
                assert(vals.deep_view() =~= Seq::new(
                    i3 as nat,
                    |q: int| spec_convert_token(ctoks[q], ty),
                ));
            }
            i3 += 1;
        }
        let name = chars_to_string(&rows[0][j]);
        let col = Column { name, ty, vals };
        proof {
            assert(col@ == spec_col_of(hdr[j as int], ctoks)) by {
                assert(hdr[j as int] == rows@[0]@[j as int]@);
                assert(ctoks.len() == data.len());
                assert(col@.vals =~= Seq::new(
                    ctoks.len(),
                    |q: int| spec_convert_token(ctoks[q], spec_infer(ctoks)),
                ));
            }
        }
        let ghost cd = cols.deep_view();
        cols.push(col);
        proof {
            assert(cols.deep_view() =~= cd.push(spec_col_of(hdr[j as int], ctoks))) by {
                assert(forall|q: int|
                    0 <= q < cols@.len() ==> cols.deep_view()[q] == (
                    #[trigger] cols@[q]).deep_view());
            }
            assert(cd.push(spec_col_of(hdr[j as int], ctoks)) =~= Seq::new(
                (j + 1) as nat,
                |j2: int| spec_col_of(hdr[j2], col_tokens(data, j2)),
            ));
            assert(cols.deep_view() =~= Seq::new(
                (j + 1) as nat,
                |j2: int| spec_col_of(hdr[j2], col_tokens(data, j2)),
            ));
        }
        j += 1;
    }
    let t = Table { cols };
    proof {
        assert(t@ =~= Seq::new(hdr.len(), |j2: int| spec_col_of(hdr[j2], col_tokens(data, j2))));
    }
    Ok(t)
}

} // verus!

verus! {

fn esc_exec(f: &Vec<char>, k: usize) -> (r: Vec<char>)
    ensures
        r@ == esc_from(f@, k as int),
    decreases f@.len() - k,
{
    if k >= f.len() {
        let v: Vec<char> = Vec::new();
        proof {
            assert(v@ =~= esc_from(f@, k as int));
        }
        v
    } else {
        let c = f[k];
        let mut rest = esc_exec(f, k + 1);
        if c == '"' {
            rest.insert(0, '"');
            rest.insert(0, '"');
            proof {
                assert(rest@ =~= seq!['"', '"'] + esc_from(f@, k + 1));
            }
        } else {
            rest.insert(0, c);
            proof {
                assert(rest@ =~= seq![f@[k as int]] + esc_from(f@, k + 1));
            }
        }
        rest
    }
}

fn render_field_exec(f: &Vec<char>) -> (r: Vec<char>)
    ensures
        r@ == render_field(f@),
{
    let n = f.len();
    let mut special = false;
    let mut i: usize = 0;
    while i < n
        invariant
            i <= n,
            n == f@.len(),
            special == exists|k: int| 0 <= k < i && is_special(#[trigger] f@[k]),
        decreases n - i,
    {
        let c = f[i];
        if c == ',' || c == '"' || c == '\n' || c == '\r' {
            special = true;
            proof {
                assert(is_special(f@[i as int]));
            }
        } else {
            proof {
                assert(!is_special(f@[i as int]));
                assert forall|k: int| 0 <= k < i + 1 && is_special(#[trigger] f@[k]) implies 0
                    <= k < i && is_special(f@[k]) by {}
            }
        }
        i += 1;
    }
    proof {
        assert(special == needs_quote(f@));
    }
    if special {
        let mut out: Vec<char> = Vec::new();
        out.push('"');
        let mut body = esc_exec(f, 0);
        out.append(&mut body);
        out.push('"');
        proof {
            assert(out@ =~= seq!['"'] + esc_from(f@, 0) + seq!['"']);
        }
        out
    } else {
        let mut out: Vec<char> = Vec::new();
        let mut i2: usize = 0;
        while i2 < n
            invariant
                i2 <= n,
                n == f@.len(),
                out@ == f@.take(i2 as int),
            decreases n - i2,
        {
            out.push(f[i2]);
            proof {
                assert(f@.take(i2 + 1) =~= f@.take(i2 as int).push(f@[i2 as int]));
            }
            i2 += 1;
        }
        proof {
            assert(f@.take(n as int) =~= f@);
        }
        out
    }
}

fn render_row_exec(fs: &Vec<Vec<char>>, j: usize) -> (r: Vec<char>)
    ensures
        r@ == render_row_from(fs.deep_view(), j as int),
    decreases fs@.len() - j,
{
    proof {
        assert(fs.deep_view().len() == fs@.len());
    }
    if j >= fs.len() {
        let mut v: Vec<char> = Vec::new();
        v.push('\n');
        proof {
            assert(v@ =~= seq!['\n']);
        }
        v
    } else {
        proof {
            assert(fs.deep_view()[j as int] == fs@[j as int].deep_view());
            assert(fs@[j as int].deep_view() =~= fs@[j as int]@);
        }
        let mut out = render_field_exec(&fs[j]);
        if j == fs.len() - 1 {
            out.push('\n');
            proof {
                assert(out@ =~= render_field(fs.deep_view()[j as int]) + seq!['\n']);
            }
            out
        } else {
            out.push(',');
            let mut rest = render_row_exec(fs, j + 1);
            out.append(&mut rest);
            proof {
                assert(out@ =~= render_field(fs.deep_view()[j as int]) + seq![',']
                    + render_row_from(fs.deep_view(), j + 1));
            }
            out
        }
    }
}

fn render_rows_exec(rs: &Vec<Vec<Vec<char>>>, k: usize) -> (r: Vec<char>)
    ensures
        r@ == render_rows_from(rs.deep_view(), k as int),
    decreases rs@.len() - k,
{
    proof {
        assert(rs.deep_view().len() == rs@.len());
    }
    if k >= rs.len() {
        let v: Vec<char> = Vec::new();
        proof {
            assert(v@ =~= render_rows_from(rs.deep_view(), k as int));
        }
        v
    } else {
        proof {
            assert(rs.deep_view()[k as int] == rs@[k as int].deep_view());
        }
        let mut out = render_row_exec(&rs[k], 0);
        let mut rest = render_rows_exec(rs, k + 1);
        out.append(&mut rest);
        out
    }
}

/// Writes a table as delimited text: a header row of the column names, then
/// one row per table row with every value in its canonical text form.
pub fn render_table(t: &Table) -> (r: Vec<char>)
    requires
        table_wf(t@),
    ensures
        r@ == spec_render_table(t@),
{
    let ncols = t.cols.len();
    proof {
        assert(t@.len() == ncols);
        assert(forall|q: int| 0 <= q < ncols ==> t@[q] == (#[trigger] t.cols@[q])@);
    }
    let mut hdr: Vec<Vec<char>> = Vec::new();
    let mut j: usize = 0;
    while j < ncols
        invariant
            j <= ncols,
            ncols == t.cols@.len(),
            ncols == t@.len(),
            forall|q: int| 0 <= q < ncols ==> t@[q] == (#[trigger] t.cols@[q])@,
            hdr@.len() == j,
            forall|q: int| 0 <= q < j ==> (#[trigger] hdr@[q])@ == t@[q].name,
        decreases ncols - j,
    {
        hdr.push(crate::text::str_to_chars(t.cols[j].name.as_str()));
        j += 1;
    }
    let nrows: usize = if ncols == 0 {
        0
    } else {
        t.cols[0].vals.len()
    };
    proof {
        assert(nrows == table_nrows(t@));
    }
    let ghost hd = hdr.deep_view();
    proof {
        assert(hd =~= header_tokens(t@)) by {
            assert(forall|q: int| 0 <= q < hd.len() ==> hd[q] == (#[trigger] hdr@[q]).deep_view());
            assert forall|q: int| 0 <= q < hd.len() implies #[trigger] hd[q] == t@[q].name by {
                assert(hdr@[q].deep_view() =~= hdr@[q]@);
            }
        }
    }
    let mut matrix: Vec<Vec<Vec<char>>> = Vec::new();
    matrix.push(hdr);
    let mut i: usize = 0;
    while i < nrows
        invariant
            i <= nrows,
            ncols == t.cols@.len(),
            ncols == t@.len(),
            table_wf(t@),
            nrows == table_nrows(t@),
            forall|q: int| 0 <= q < ncols ==> t@[q] == (#[trigger] t.cols@[q])@,
            matrix@.len() == i + 1,
            matrix@[0].deep_view() == header_tokens(t@),
            forall|q: int|
                1 <= q < i + 1 ==> (#[trigger] matrix@[q]).deep_view() == row_tokens(t@, q - 1),
        decreases nrows - i,
    {
        let mut row: Vec<Vec<char>> = Vec::new();
        let mut j2: usize = 0;
        while j2 < ncols
            invariant
                j2 <= ncols,
                i < nrows,
                ncols == t.cols@.len(),
                ncols == t@.len(),
                table_wf(t@),
                nrows == table_nrows(t@),
                forall|q: int| 0 <= q < ncols ==> t@[q] == (#[trigger] t.cols@[q])@,
                row@.len() == j2,
                forall|q: int|
                    0 <= q < j2 ==> (#[trigger] row@[q])@ == spec_render_value(
                        t@[q].vals[i as int],
                    ),
            decreases ncols - j2,
        {
            proof {
                assert(t@[j2 as int].vals.len() == nrows);
                assert(t.cols@[j2 as int].vals.deep_view().len()
                    == t.cols@[j2 as int].vals@.len());
                assert(t@[j2 as int].vals[i as int] == (#[trigger] t.cols@[j2 as int].vals@[
                    i as int])@);
            }
            row.push(crate::table::render_value(&t.cols[j2].vals[i]));
            j2 += 1;
        }
        proof {
            assert(row.deep_view() =~= row_tokens(t@, i as int)) by {
                assert(forall|q: int|
                    0 <= q < row@.len() ==> row.deep_view()[q] == (
                    #[trigger] row@[q]).deep_view());
                assert forall|q: int| 0 <= q < row@.len() implies (#[trigger] row@[
                    q]).deep_view() == spec_render_value(t@[q].vals[i as int]) by {
                    assert(row@[q].deep_view() =~= row@[q]@);
                }
            }
        }
        matrix.push(row);
        i += 1;
    }
    proof {
        assert(matrix.deep_view() =~= table_matrix(t@)) by {
            assert(forall|q: int|
                0 <= q < matrix@.len() ==> matrix.deep_view()[q] == (
                #[trigger] matrix@[q]).deep_view());
            assert(table_matrix(t@).len() == 1 + table_nrows(t@));
            assert(table_matrix(t@)[0] == header_tokens(t@));
            assert(forall|q: int|
                1 <= q < matrix@.len() ==> #[trigger] table_matrix(t@)[q] == row_tokens(
                    t@,
                    q - 1,
                ));
        }
    }
    render_rows_exec(&matrix, 0)
}

} // verus!

verus! {

proof fn lemma_scan_row_len(s: Seq<char>, i: int)
    requires
        scan_row(s, i) is Some,
    ensures
        scan_row(s, i)->Some_0.0.len() >= 1,
    decreases s.len() - i,
{
}

/// Whatever text parses at all parses to a well-formed table.
pub proof fn lemma_parse_table_wf(s: Seq<char>)
    requires
        spec_parse_table(s) is Some,
    ensures
        table_wf(spec_parse_table(s)->Some_0),
        spec_parse_table(s)->Some_0.len() >= 1,
{
    let rows = scan_rows(s, 0)->Some_0;
    let hdr = rows[0];
    let data = rows.skip(1);
    let t = spec_parse_table(s)->Some_0;
    assert(hdr.len() >= 1) by {
        if s.len() == 0 {
            assert(rows.len() == 0);
            assert(false);
        } else {
            lemma_scan_row_len(s, 0);
            assert(rows[0] == scan_row(s, 0)->Some_0.0);
        }
    }
    assert(t.len() == hdr.len());
    assert forall|j: int| 0 <= j < t.len() implies crate::table::col_wf(#[trigger] t[j])
        && t[j].vals.len() == table_nrows(t) by {
        let toks = col_tokens(data, j);
        assert(t[j] == spec_col_of(hdr[j], toks));
        assert(t[j].vals.len() == data.len());
        assert forall|q: int| 0 <= q < t[j].vals.len() implies crate::table::value_fits(
            #[trigger] t[j].vals[q],
            t[j].ty,
        ) by {
            assert(t[j].vals[q] == spec_convert_token(toks[q], spec_infer(toks)));
        }
        assert(t[0].vals.len() == data.len());
    }
}

} // verus!

verus! {

proof fn lemma_scan_quoted_esc(s: Seq<char>, i: int, f: Seq<char>, k: int)
    requires
        0 <= i,
        0 <= k <= f.len(),
        i + esc_from(f, k).len() < s.len(),
        s.subrange(i, i + esc_from(f, k).len()) == esc_from(f, k),
        s[i + esc_from(f, k).len()] == '"',
        i + esc_from(f, k).len() + 1 == s.len() || s[i + esc_from(f, k).len() + 1] != '"',
    ensures
        scan_quoted(s, i) == Option::Some((f.skip(k), i + esc_from(f, k).len() + 1)),
    decreases f.len() - k,
{
    let e = esc_from(f, k);
    let m = i + e.len();
    if k == f.len() {
        assert(f.skip(k) =~= Seq::<char>::empty());
        assert(m == i);
    } else if f[k] == '"' {
        let rest = esc_from(f, k + 1);
        assert(e == seq!['"', '"'] + rest);
        assert(s[i] == '"') by {
            assert(s.subrange(i, m)[0] == s[i]);
        }
        assert(s[i + 1] == '"') by {
            assert(s.subrange(i, m)[1] == s[i + 1]);
        }
        assert(s.subrange(i + 2, i + 2 + rest.len()) =~= rest) by {
            assert(forall|q: int|
                0 <= q < rest.len() ==> s.subrange(i, m)[q + 2] == #[trigger] s.subrange(
                    i + 2,
                    i + 2 + rest.len(),
                )[q]);
        }
        lemma_scan_quoted_esc(s, i + 2, f, k + 1);
        assert(seq!['"'] + f.skip(k + 1) =~= f.skip(k));
    } else {
        let rest = esc_from(f, k + 1);
        assert(e == seq![f[k]] + rest);
        assert(s[i] == f[k]) by {
            assert(s.subrange(i, m)[0] == s[i]);
        }
        assert(s.subrange(i + 1, i + 1 + rest.len()) =~= rest) by {
            assert(forall|q: int|
                0 <= q < rest.len() ==> s.subrange(i, m)[q + 1] == #[trigger] s.subrange(
                    i + 1,
                    i + 1 + rest.len(),
                )[q]);
        }
        lemma_scan_quoted_esc(s, i + 1, f, k + 1);
        assert(seq![f[k]] + f.skip(k + 1) =~= f.skip(k));
    }
}

proof fn lemma_scan_unquoted_lit(s: Seq<char>, i: int, f: Seq<char>, k: int)
    requires
        0 <= i,
        0 <= k <= f.len(),
        !needs_quote(f),
        i + f.len() - k <= s.len(),
        s.subrange(i, i + f.len() - k) == f.skip(k),
        i + f.len() - k == s.len() || s[i + f.len() - k] == ',' || s[i + f.len() - k] == '\n',
    ensures
        scan_unquoted(s, i) == Option::Some((f.skip(k), i + f.len() - k)),
    decreases f.len() - k,
{
    let m = i + f.len() - k;
    if k == f.len() {
        assert(f.skip(k) =~= Seq::<char>::empty());
    } else {
        assert(s[i] == f[k]) by {
            assert(s.subrange(i, m)[0] == s[i]);
        }
        assert(!is_special(f[k]));
        assert(s.subrange(i + 1, m) =~= f.skip(k + 1)) by {
            assert(forall|q: int|
                0 <= q < f.len() - k - 1 ==> s.subrange(i, m)[q + 1] == #[trigger] s.subrange(
                    i + 1,
                    m,
                )[q]);
            assert(forall|q: int|
                0 <= q < f.len() - k - 1 ==> f.skip(k)[q + 1] == #[trigger] f.skip(k + 1)[q]);
        }
        lemma_scan_unquoted_lit(s, i + 1, f, k + 1);
        assert(seq![f[k]] + f.skip(k + 1) =~= f.skip(k));
    }
}

proof fn lemma_scan_render_field(s: Seq<char>, i: int, f: Seq<char>)
    requires
        0 <= i,
        i + render_field(f).len() <= s.len(),
        s.subrange(i, i + render_field(f).len()) == render_field(f),
        i + render_field(f).len() == s.len() || s[i + render_field(f).len()] == ',' || s[i
            + render_field(f).len()] == '\n',
    ensures
        scan_field(s, i) == Option::Some((f, i + render_field(f).len())),
{
    let rf = render_field(f);
    let e = i + rf.len();
    if needs_quote(f) {
        let body = esc_from(f, 0);
        assert(rf == seq!['"'] + body + seq!['"']);
        assert(s[i] == '"') by {
            assert(s.subrange(i, e)[0] == s[i]);
        }
        assert(s.subrange(i + 1, i + 1 + body.len()) =~= body) by {
            assert(forall|q: int|
                0 <= q < body.len() ==> s.subrange(i, e)[q + 1] == #[trigger] s.subrange(
                    i + 1,
                    i + 1 + body.len(),
                )[q]);
        }
        assert(s[i + 1 + body.len()] == '"') by {
            assert(s.subrange(i, e)[1 + body.len() as int] == s[i + 1 + body.len()]);
        }
        lemma_scan_quoted_esc(s, i + 1, f, 0);
        assert(f.skip(0) =~= f);
    } else {
        if 0 <= i < s.len() && s[i] == '"' {
            if f.len() == 0 {
                assert(false);
            } else {
                assert(s[i] == f[0]) by {
                    assert(s.subrange(i, e)[0] == s[i]);
                }
                assert(is_special(f[0]));
                assert(false);
            }
        }
        assert(f.skip(0) =~= f);
        assert(s.subrange(i, i + f.len() - 0) == f.skip(0));
        lemma_scan_unquoted_lit(s, i, f, 0);
    }
}

proof fn lemma_scan_render_row(s: Seq<char>, i: int, fs: Seq<Seq<char>>, j: int)
    requires
        0 <= i,
        0 <= j < fs.len(),
        i + render_row_from(fs, j).len() <= s.len(),
        s.subrange(i, i + render_row_from(fs, j).len()) == render_row_from(fs, j),
    ensures
        scan_row(s, i) == Option::Some((fs.skip(j), i + render_row_from(fs, j).len())),
    decreases fs.len() - j,
{
    let rr = render_row_from(fs, j);
    let e = i + rr.len();
    let rf = render_field(fs[j]);
    if j == fs.len() - 1 {
        assert(rr == rf + seq!['\n']);
        assert(s.subrange(i, i + rf.len()) =~= rf) by {
            assert(forall|q: int|
                0 <= q < rf.len() ==> s.subrange(i, e)[q] == #[trigger] s.subrange(
                    i,
                    i + rf.len(),
                )[q]);
        }
        assert(s[i + rf.len()] == '\n') by {
            assert(s.subrange(i, e)[rf.len() as int] == s[i + rf.len()]);
        }
        lemma_scan_render_field(s, i, fs[j]);
        let p = i + rf.len();
        assert(p < s.len());
        assert(fs.skip(j) =~= seq![fs[j]]);
    } else {
        let rest = render_row_from(fs, j + 1);
        assert(rr == rf + seq![','] + rest);
        assert(s.subrange(i, i + rf.len()) =~= rf) by {
            assert(forall|q: int|
                0 <= q < rf.len() ==> s.subrange(i, e)[q] == #[trigger] s.subrange(
                    i,
                    i + rf.len(),
                )[q]);
        }
        assert(s[i + rf.len()] == ',') by {
            assert(s.subrange(i, e)[rf.len() as int] == s[i + rf.len()]);
        }
        lemma_scan_render_field(s, i, fs[j]);
        let p = i + rf.len();
        assert(s.subrange(p + 1, p + 1 + rest.len()) =~= rest) by {
            assert(forall|q: int|
                0 <= q < rest.len() ==> s.subrange(i, e)[q + rf.len() + 1]
                    == #[trigger] s.subrange(p + 1, p + 1 + rest.len())[q]);
        }
        lemma_scan_render_row(s, p + 1, fs, j + 1);
        assert(seq![fs[j]] + fs.skip(j + 1) =~= fs.skip(j));
    }
}

proof fn lemma_scan_render_rows(s: Seq<char>, i: int, rs: Seq<Seq<Seq<char>>>, k: int)
    requires
        0 <= i <= s.len(),
        0 <= k <= rs.len(),
        forall|l: int| k <= l < rs.len() ==> (#[trigger] rs[l]).len() >= 1,
        s.subrange(i, s.len() as int) == render_rows_from(rs, k),
    ensures
        scan_rows(s, i) == Option::Some(rs.skip(k)),
    decreases rs.len() - k,
{
    if k == rs.len() {
        assert(render_rows_from(rs, k).len() == 0);
        assert(i == s.len());
        assert(rs.skip(k) =~= Seq::<Seq<Seq<char>>>::empty());
    } else {
        let rr = render_row_from(rs[k], 0);
        let rest = render_rows_from(rs, k + 1);
        assert(render_rows_from(rs, k) == rr + rest);
        assert(rr.len() >= 1) by {
            lemma_render_row_len(rs[k], 0);
        }
        assert(i < s.len());
        assert(s.subrange(i, i + rr.len()) =~= rr) by {
            assert(forall|q: int|
                0 <= q < rr.len() ==> s.subrange(i, s.len() as int)[q] == #[trigger] s.subrange(
                    i,
                    i + rr.len(),
                )[q]);
        }
        lemma_scan_render_row(s, i, rs[k], 0);
        let e = i + rr.len();
        assert(rs[k].skip(0) =~= rs[k]);
        assert(s.subrange(e, s.len() as int) =~= rest) by {
            assert(forall|q: int|
                0 <= q < rest.len() ==> s.subrange(i, s.len() as int)[q + rr.len()]
                    == #[trigger] s.subrange(e, s.len() as int)[q]);
        }
        lemma_scan_render_rows(s, e, rs, k + 1);
        assert(seq![rs[k]] + rs.skip(k + 1) =~= rs.skip(k));
    }
}

proof fn lemma_render_row_len(fs: Seq<Seq<char>>, j: int)
    ensures
        render_row_from(fs, j).len() >= 1,
    decreases fs.len() - j,
{
    if !(j < 0 || j >= fs.len()) && j != fs.len() - 1 {
        lemma_render_row_len(fs, j + 1);
    }
}

/// Scanning rendered rows yields the rows back.
pub proof fn lemma_scan_of_render(rs: Seq<Seq<Seq<char>>>)
    requires
        forall|l: int| 0 <= l < rs.len() ==> (#[trigger] rs[l]).len() >= 1,
    ensures
        scan_rows(render_rows_from(rs, 0), 0) == Option::Some(rs),
{
    let s = render_rows_from(rs, 0);
    assert(s.subrange(0, s.len() as int) =~= s);
    lemma_scan_render_rows(s, 0, rs, 0);
    assert(rs.skip(0) =~= rs);
}

} // verus!

verus! {

use crate::scalar::{lemma_render_parse_int, lemma_render_int_shape, lemma_bool_words_not_int};
use crate::table::{col_normalized, table_normalized, value_fits, col_wf};

proof fn lemma_col_round(c: ColModel, toks: Seq<Seq<char>>)
    requires
        col_normalized(c),
        toks.len() == c.vals.len(),
        forall|q: int| 0 <= q < toks.len() ==> #[trigger] toks[q] == spec_render_value(c.vals[q]),
    ensures
        spec_infer(toks) == c.ty,
        forall|q: int|
            0 <= q < toks.len() ==> spec_convert_token(#[trigger] toks[q], c.ty) == c.vals[q],
{
    reveal_strlit("true");
    reveal_strlit("false");
    lemma_bool_words_not_int();
    match c.ty {
        ColType::IntType => {
            let i0 = choose|i: int|
                0 <= i < c.vals.len() && (#[trigger] c.vals[i]) matches ValueModel::Int(_);
            match c.vals[i0] {
                ValueModel::Int(x) => {
                    lemma_render_int_shape(x as int);
                    lemma_render_parse_int(x as int);
                    assert(toks[i0].len() > 0);
                },
                _ => {},
            }
            assert(exists_nonempty(toks));
            assert forall|q: int|
                0 <= q < toks.len() && (#[trigger] toks[q]).len() > 0 implies spec_parse_int(
                toks[q],
            ) is Some by {
                assert(value_fits(c.vals[q], c.ty));
                match c.vals[q] {
                    ValueModel::Int(x) => {
                        lemma_render_parse_int(x as int);
                    },
                    _ => {},
                }
            }
            assert(all_nonempty_int(toks));
            assert(spec_infer(toks) == ColType::IntType);
            assert forall|q: int| 0 <= q < toks.len() implies spec_convert_token(
                #[trigger] toks[q],
                c.ty,
            ) == c.vals[q] by {
                assert(value_fits(c.vals[q], c.ty));
                match c.vals[q] {
                    ValueModel::Int(x) => {
                        lemma_render_int_shape(x as int);
                        lemma_render_parse_int(x as int);
                        assert(spec_parse_int(toks[q]) == Option::Some(x as int));
                        assert((x as int) as i64 == x);
                    },
                    _ => {},
                }
            }
        },
        ColType::BoolType => {
            let i0 = choose|i: int|
                0 <= i < c.vals.len() && (#[trigger] c.vals[i]) matches ValueModel::Bool(_);
            assert(toks[i0].len() > 0);
            assert(exists_nonempty(toks));
            assert(spec_parse_int(toks[i0]) is None);
            assert(!all_nonempty_int(toks));
            assert forall|q: int|
                0 <= q < toks.len() && (#[trigger] toks[q]).len() > 0 implies spec_parse_bool(
                toks[q],
            ) is Some by {
                assert(value_fits(c.vals[q], c.ty));
            }
            assert(all_nonempty_bool(toks));
            assert(spec_infer(toks) == ColType::BoolType);
            assert forall|q: int| 0 <= q < toks.len() implies spec_convert_token(
                #[trigger] toks[q],
                c.ty,
            ) == c.vals[q] by {
                assert(value_fits(c.vals[q], c.ty));
            }
        },
        ColType::StrType => {
            if (forall|i: int|
                0 <= i < c.vals.len() ==> ((#[trigger] c.vals[i]) matches ValueModel::Null)) {
                assert forall|q: int| 0 <= q < toks.len() implies (#[trigger] toks[q]).len()
                    == 0 by {
                    assert(c.vals[q] matches ValueModel::Null);
                }
                assert(!exists_nonempty(toks));
                assert(spec_infer(toks) == ColType::StrType);
            } else {
                assert(exists|i: int|
                    0 <= i < c.vals.len() && !((#[trigger] c.vals[i]) matches ValueModel::Null));
                let w1 = choose|i: int|
                    0 <= i < c.vals.len() && ((#[trigger] c.vals[i]) matches ValueModel::Str(s)
                        && spec_parse_int(s) is None);
                let w2 = choose|i: int|
                    0 <= i < c.vals.len() && ((#[trigger] c.vals[i]) matches ValueModel::Str(s)
                        && spec_parse_bool(s) is None);
                match c.vals[w1] {
                    ValueModel::Str(s) => {
                        assert(s.len() > 0);
                        assert(toks[w1] == s);
                        assert(toks[w1].len() > 0);
                    },
                    _ => {},
                }
                assert(exists_nonempty(toks));
                assert(!all_nonempty_int(toks));
                match c.vals[w2] {
                    ValueModel::Str(s) => {
                        assert(s.len() > 0);
                        assert(toks[w2] == s);
                    },
                    _ => {},
                }
                assert(!all_nonempty_bool(toks));
                assert(spec_infer(toks) == ColType::StrType);
            }
            assert forall|q: int| 0 <= q < toks.len() implies spec_convert_token(
                #[trigger] toks[q],
                c.ty,
            ) == c.vals[q] by {
                assert(value_fits(c.vals[q], c.ty));
                match c.vals[q] {
                    ValueModel::Str(s) => {
                        assert(s.len() > 0);
                    },
                    _ => {},
                }
            }
        },
    }
}

/// Reading back a written table gives the very table: rendering then
/// parsing is the identity on tables the readers produce.
pub proof fn lemma_parse_of_render(t: Seq<ColModel>)
    requires
        table_normalized(t),
    ensures
        spec_parse_table(spec_render_table(t)) == Option::Some(t),
{
    let m = table_matrix(t);
    let nrows = table_nrows(t);
    assert(m.len() == 1 + nrows);
    assert(m[0] == header_tokens(t));
    assert forall|l: int| 0 <= l < m.len() implies (#[trigger] m[l]).len() >= 1 by {
        if l > 0 {
            assert(m[l] == row_tokens(t, l - 1));
        }
    }
    lemma_scan_of_render(m);
    let s = spec_render_table(t);
    assert(scan_rows(s, 0) == Option::Some(m));
    let hdr = m[0];
    let data = m.skip(1);
    assert(hdr.len() == t.len());
    assert forall|i: int| 0 <= i < data.len() implies (#[trigger] data[i]).len()
        == hdr.len() by {
        assert(data[i] == m[i + 1]);
        assert(m[i + 1] == row_tokens(t, i));
    }
    let res = Seq::new(hdr.len(), |j: int| spec_col_of(hdr[j], col_tokens(data, j)));
    assert(spec_parse_table(s) == Option::Some(res));
    assert forall|j: int| 0 <= j < t.len() implies #[trigger] res[j] == t[j] by {
        let toks = col_tokens(data, j);
        assert(toks.len() == nrows);
        assert forall|q: int| 0 <= q < toks.len() implies #[trigger] toks[q]
            == spec_render_value(t[j].vals[q]) by {
            assert(toks[q] == data[q][j]);
            assert(data[q] == m[q + 1]);
            assert(m[q + 1] == row_tokens(t, q));
        }
        lemma_col_round(t[j], toks);
        assert(hdr[j] == t[j].name);
        assert(res[j].vals =~= t[j].vals);
    }
    assert(res =~= t);
}

proof fn lemma_scan_rows_row_lens(s: Seq<char>, i: int)
    requires
        scan_rows(s, i) is Some,
    ensures
        forall|l: int|
            0 <= l < scan_rows(s, i)->Some_0.len() ==> (#[trigger] scan_rows(s, i)->Some_0[
                l]).len() >= 1,
    decreases s.len() - i,
{
    if 0 <= i < s.len() && scan_row(s, i) is Some {
        let p = scan_row(s, i)->Some_0;
        if i < p.1 <= s.len() && scan_rows(s, p.1) is Some {
            lemma_scan_rows_row_lens(s, p.1);
            lemma_scan_row_len(s, i);
            let rest = scan_rows(s, p.1)->Some_0;
            let whole = scan_rows(s, i)->Some_0;
            assert(whole == seq![p.0] + rest);
            assert forall|l: int| 0 <= l < whole.len() implies (#[trigger] whole[l]).len()
                >= 1 by {
                if l > 0 {
                    assert(whole[l] == rest[l - 1]);
                }
            }
        }
    }
}

/// Whatever text parses at all parses to a normalized table: columns carry
/// values of their type, typed columns are inhabited, and a string column
/// shows why it is one.
pub proof fn lemma_parse_normalized(s: Seq<char>)
    requires
        spec_parse_table(s) is Some,
    ensures
        table_normalized(spec_parse_table(s)->Some_0),
{
    lemma_parse_table_wf(s);
    let rows = scan_rows(s, 0)->Some_0;
    let hdr = rows[0];
    let data = rows.skip(1);
    let t = spec_parse_table(s)->Some_0;
    assert forall|j: int| 0 <= j < t.len() implies col_normalized(#[trigger] t[j]) by {
        let toks = col_tokens(data, j);
        let c = t[j];
        assert(c == spec_col_of(hdr[j], toks));
        assert(col_wf(c));
        assert(forall|q: int|
            0 <= q < c.vals.len() ==> #[trigger] c.vals[q] == spec_convert_token(
                toks[q],
                c.ty,
            ));
        match c.ty {
            ColType::IntType => {
                assert(exists_nonempty(toks) && all_nonempty_int(toks));
                let q0 = choose|q: int| 0 <= q < toks.len() && (#[trigger] toks[q]).len() > 0;
                assert(spec_parse_int(toks[q0]) is Some);
                assert(c.vals[q0] matches ValueModel::Int(_));
            },
            ColType::BoolType => {
                assert(exists_nonempty(toks) && all_nonempty_bool(toks));
                let q0 = choose|q: int| 0 <= q < toks.len() && (#[trigger] toks[q]).len() > 0;
                assert(spec_parse_bool(toks[q0]) is Some);
                assert(c.vals[q0] matches ValueModel::Bool(_));
            },
            ColType::StrType => {
                assert forall|q: int| 0 <= q < c.vals.len() implies ((#[trigger] c.vals[q])
                    matches ValueModel::Str(st) ==> st.len() > 0) by {
                    if toks[q].len() == 0 {
                        assert(c.vals[q] matches ValueModel::Null);
                    }
                }
                if exists|q: int|
                    0 <= q < c.vals.len() && !((#[trigger] c.vals[q]) matches ValueModel::Null) {
                    let qn = choose|q: int|
                        0 <= q < c.vals.len() && !((#[trigger] c.vals[q]) matches
                        ValueModel::Null);
                    assert(toks[qn].len() > 0);
                    assert(exists_nonempty(toks));
                    assert(!all_nonempty_int(toks) && !all_nonempty_bool(toks));
                    let q1 = choose|q: int|
                        0 <= q < toks.len() && (#[trigger] toks[q]).len() > 0 && spec_parse_int(
                            toks[q],
                        ) is None;
                    assert(c.vals[q1] == spec_convert_token(toks[q1], ColType::StrType));
                    assert(c.vals[q1] matches ValueModel::Str(st) && spec_parse_int(st)
                        is None);
                    let q2 = choose|q: int|
                        0 <= q < toks.len() && (#[trigger] toks[q]).len() > 0
                            && spec_parse_bool(toks[q]) is None;
                    assert(c.vals[q2] matches ValueModel::Str(st) && spec_parse_bool(st)
                        is None);
                }
            },
        }
    }
}

} // verus!
