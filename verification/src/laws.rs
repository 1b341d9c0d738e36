use vstd::prelude::*;
use crate::binary::enc_table;
use crate::compress::zstd_frame;
use crate::sorting::{
    sort_table_spec, sort_from, sorted_rows, table_rows, lemma_sort_from, lemma_sort_from_sorted_id,
    lemma_sort_table_wf, lemma_table_from_rows_id, lemma_rows_of_from_rows, lemma_table_rows_shape,
};
use crate::table::{ColModel, table_wf};

verus! {

/// Sort idempotence: sorting a table whose rows are already in order yields
/// the table itself, row for row.
pub proof fn lemma_sort_sorted_id(t: Seq<ColModel>)
    requires
        table_wf(t),
        sorted_rows(table_rows(t)),
    ensures
        sort_table_spec(t) == t,
{
    lemma_sort_from_sorted_id(table_rows(t), 0);
    assert(table_rows(t).skip(0) =~= table_rows(t));
    lemma_table_from_rows_id(t);
    assert(sort_table_spec(t) =~= t);
}

/// Sorting twice is sorting once: the sorted table's rows are in order, so
/// a second sort returns it unchanged.
pub proof fn lemma_sort_idempotent(t: Seq<ColModel>)
    requires
        table_wf(t),
    ensures
        sort_table_spec(sort_table_spec(t)) == sort_table_spec(t),
{
    let rows = table_rows(t);
    lemma_sort_from(rows, 0);
    assert(rows.skip(0) =~= rows);
    lemma_sort_table_wf(t);
    let st = sort_table_spec(t);
    if t.len() == 0 {
        assert(st =~= t);
        assert(table_rows(st).len() == 0);
        assert(sort_from(table_rows(st), 0) =~= Seq::<Seq<crate::table::ValueModel>>::empty());
        assert(sort_table_spec(st) =~= st);
    } else {
        lemma_table_rows_shape(t);
        let srows = sort_from(rows, 0);
        assert forall|q: int| 0 <= q < srows.len() implies (#[trigger] srows[q]).len()
            == t.len() by {
            let m = choose|m: int| 0 <= m < rows.len() && rows[m] == srows[q];
        }
        lemma_rows_of_from_rows(t, srows);
        assert(table_rows(st) == srows);
        assert(sorted_rows(table_rows(st)));
        lemma_sort_sorted_id(st);
    }
}

/// Compression determinism: the bytes written for a table to the columnar
/// binary format are a function of the table alone, so two writes of one
/// table are byte-identical.
pub proof fn lemma_binary_write_deterministic(t: Seq<ColModel>, b1: Seq<u8>, b2: Seq<u8>)
    requires
        b1 == zstd_frame(enc_table(t)),
        b2 == zstd_frame(enc_table(t)),
    ensures
        b1 == b2,
{
}

} // verus!

verus! {

use crate::binary::{dec_table, sizes_ok, lemma_dec_enc_table};
use crate::csv::{spec_parse_table, spec_render_table, lemma_parse_of_render,
    lemma_parse_normalized, lemma_parse_table_wf};
use crate::table::{ValueModel, ColType, table_normalized, col_normalized};

proof fn lemma_perm_contains(rows: Seq<Seq<ValueModel>>, srows: Seq<Seq<ValueModel>>, m: int)
    requires
        srows.to_multiset() == rows.to_multiset(),
        0 <= m < rows.len(),
    ensures
        exists|q: int| 0 <= q < srows.len() && #[trigger] srows[q] == rows[m],
{
    broadcast use vstd::seq_lib::group_to_multiset_ensures;

    assert(rows.contains(rows[m]));
    assert(rows.to_multiset().count(rows[m]) > 0);
    assert(srows.contains(rows[m]));
}

/// Sorting keeps a table normalized: it only reorders rows, so the
/// inhabitation and string-column witnesses survive.
proof fn lemma_sort_preserves_normalized(t: Seq<ColModel>)
    requires
        table_normalized(t),
    ensures
        table_normalized(sort_table_spec(t)),
{
    let rows = table_rows(t);
    lemma_sort_from(rows, 0);
    lemma_sort_table_wf(t);
    lemma_table_rows_shape(t);
    assert(rows.skip(0) =~= rows);
    let srows = sort_from(rows, 0);
    let st = sort_table_spec(t);
    assert(srows.to_multiset() == rows.to_multiset());
    assert forall|j: int| 0 <= j < st.len() implies col_normalized(#[trigger] st[j]) by {
        assert forall|q: int| 0 <= q < srows.len() implies (#[trigger] srows[q]).len()
            == t.len() by {
            let m = choose|m: int| 0 <= m < rows.len() && rows[m] == srows[q];
        }
        assert(forall|q: int|
            0 <= q < srows.len() ==> #[trigger] st[j].vals[q] == srows[q][j]);
        assert(st[j].ty == t[j].ty && st[j].vals.len() == rows.len());
        assert forall|q: int| 0 <= q < srows.len() implies exists|m: int|
            0 <= m < rows.len() && #[trigger] srows[q][j] == t[j].vals[m] by {
            let m = choose|m: int| 0 <= m < rows.len() && rows[m] == srows[q];
            assert(rows[m][j] == t[j].vals[m]);
            assert(srows[q][j] == t[j].vals[m]);
        }
        match t[j].ty {
            ColType::IntType => {
                let i0 = choose|i: int|
                    0 <= i < t[j].vals.len() && (#[trigger] t[j].vals[i]) matches
                    ValueModel::Int(_);
                assert(rows[i0][j] == t[j].vals[i0]);
                lemma_perm_contains(rows, srows, i0);
                let q = choose|q: int| 0 <= q < srows.len() && #[trigger] srows[q] == rows[i0];
                assert(st[j].vals[q] matches ValueModel::Int(_));
            },
            ColType::BoolType => {
                let i0 = choose|i: int|
                    0 <= i < t[j].vals.len() && (#[trigger] t[j].vals[i]) matches
                    ValueModel::Bool(_);
                assert(rows[i0][j] == t[j].vals[i0]);
                lemma_perm_contains(rows, srows, i0);
                let q = choose|q: int| 0 <= q < srows.len() && #[trigger] srows[q] == rows[i0];
                assert(st[j].vals[q] matches ValueModel::Bool(_));
            },
            ColType::StrType => {
                assert forall|q: int| 0 <= q < st[j].vals.len() implies ((#[trigger] st[j].vals[
                    q]) matches ValueModel::Str(s) ==> s.len() > 0) by {
                    let m = choose|m: int|
                        0 <= m < rows.len() && #[trigger] srows[q][j] == t[j].vals[m];
                }
                if exists|q: int|
                    0 <= q < st[j].vals.len() && !((#[trigger] st[j].vals[q]) matches
                    ValueModel::Null) {
                    let qn = choose|q: int|
                        0 <= q < st[j].vals.len() && !((#[trigger] st[j].vals[q]) matches
                        ValueModel::Null);
                    let mn = choose|m: int|
                        0 <= m < rows.len() && #[trigger] srows[qn][j] == t[j].vals[m];
                    assert(!(t[j].vals[mn] matches ValueModel::Null));
                    let i1 = choose|i: int|
                        0 <= i < t[j].vals.len() && ((#[trigger] t[j].vals[i]) matches
                        ValueModel::Str(s) && crate::scalar::spec_parse_int(s) is None);
                    lemma_perm_contains(rows, srows, i1);
                    let q1 = choose|q: int|
                        0 <= q < srows.len() && #[trigger] srows[q] == rows[i1];
                    assert(st[j].vals[q1] == t[j].vals[i1]);
                    let i2 = choose|i: int|
                        0 <= i < t[j].vals.len() && ((#[trigger] t[j].vals[i]) matches
                        ValueModel::Str(s) && crate::scalar::spec_parse_bool(s) is None);
                    lemma_perm_contains(rows, srows, i2);
                    let q2 = choose|q: int|
                        0 <= q < srows.len() && #[trigger] srows[q] == rows[i2];
                    assert(st[j].vals[q2] == t[j].vals[i2]);
                }
            },
        }
    }
}

/// Sorting keeps every count and string length, so the size check on the
/// columnar container is unaffected.
proof fn lemma_sort_preserves_sizes(t: Seq<ColModel>)
    requires
        table_wf(t),
        sizes_ok(t),
    ensures
        sizes_ok(sort_table_spec(t)),
{
    let rows = table_rows(t);
    lemma_sort_from(rows, 0);
    lemma_sort_table_wf(t);
    lemma_table_rows_shape(t);
    assert(rows.skip(0) =~= rows);
    let srows = sort_from(rows, 0);
    let st = sort_table_spec(t);
    assert forall|j: int, i: int|
        0 <= j < st.len() && 0 <= i < st[j].vals.len() implies crate::binary::val_size_ok(
        #[trigger] st[j].vals[i],
    ) by {
        let m = choose|m: int| 0 <= m < rows.len() && rows[m] == srows[i];
        assert(st[j].vals[i] == srows[i][j]);
        assert(srows[i][j] == rows[m][j]);
        assert(rows[m][j] == t[j].vals[m]);
        assert(crate::binary::val_size_ok(t[j].vals[m]));
    }
}

/// Round trip: a table read from delimited text survives a write to and a
/// read from the columnar binary container unchanged, and a further write
/// to and read from delimited text unchanged: same column names, same row
/// count, same values.
pub proof fn lemma_round_trip(c: Seq<char>, t: Seq<ColModel>)
    requires
        spec_parse_table(c) == Option::Some(t),
        sizes_ok(t),
    ensures
        dec_table(crate::binary::enc_table(t)) == Option::Some(t),
        spec_parse_table(spec_render_table(t)) == Option::Some(t),
{
    lemma_parse_table_wf(c);
    lemma_parse_normalized(c);
    lemma_dec_enc_table(t);
    lemma_parse_of_render(t);
}

/// Sort stability across formats: after sorting, writing to and reading
/// back from the columnar binary container yields the same table as writing
/// to and reading back from delimited text, so neither format reorders the
/// rows.
pub proof fn lemma_sort_stable_across_formats(c: Seq<char>, t: Seq<ColModel>)
    requires
        spec_parse_table(c) == Option::Some(t),
        sizes_ok(t),
    ensures
        dec_table(crate::binary::enc_table(sort_table_spec(t))) == Option::Some(
            sort_table_spec(t),
        ),
        spec_parse_table(spec_render_table(sort_table_spec(t))) == Option::Some(
            sort_table_spec(t),
        ),
{
    lemma_parse_table_wf(c);
    lemma_parse_normalized(c);
    lemma_sort_preserves_normalized(t);
    lemma_sort_preserves_sizes(t);
    lemma_sort_table_wf(t);
    lemma_dec_enc_table(sort_table_spec(t));
    lemma_parse_of_render(sort_table_spec(t));
}

} // verus!
