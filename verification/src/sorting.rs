use vstd::prelude::*;
use vstd::string::StrSliceExecFns;
use crate::table::{Table, Column, Value, ColModel, ValueModel, table_nrows, table_wf, value_fits};

verus! {

/// Three-way lexicographic comparison of two texts from position `i` on:
/// negative, zero or positive as the first is below, equal to or above the
/// second, by code point, a prefix below its extensions.
pub open spec fn cmp_str(a: Seq<char>, b: Seq<char>, i: int) -> int
    decreases a.len() - i,
{
    if i < 0 {
        0
    } else if i >= a.len() && i >= b.len() {
        0
    } else if i >= a.len() {
        -1
    } else if i >= b.len() {
        1
    } else if (a[i] as u32) < (b[i] as u32) {
        -1
    } else if (a[i] as u32) > (b[i] as u32) {
        1
    } else {
        cmp_str(a, b, i + 1)
    }
}

/// Nulls order before every other value; differently typed values order by
/// a fixed rank, which never decides within one well-formed column.
pub open spec fn val_rank(v: ValueModel) -> int {
    match v {
        ValueModel::Null => 0,
        ValueModel::Int(_) => 1,
        ValueModel::Bool(_) => 2,
        ValueModel::Str(_) => 3,
    }
}

/// Three-way comparison of two cells: nulls first, integers by value,
/// booleans with false first, texts lexicographically.
pub open spec fn cmp_val(a: ValueModel, b: ValueModel) -> int {
    if val_rank(a) < val_rank(b) {
        -1
    } else if val_rank(a) > val_rank(b) {
        1
    } else {
        match (a, b) {
            (ValueModel::Int(x), ValueModel::Int(y)) => if x < y {
                -1
            } else if x > y {
                1
            } else {
                0
            },
            (ValueModel::Bool(x), ValueModel::Bool(y)) => if !x && y {
                -1
            } else if x && !y {
                1
            } else {
                0
            },
            (ValueModel::Str(x), ValueModel::Str(y)) => cmp_str(x, y, 0),
            _ => 0,
        }
    }
}

/// Three-way comparison of two rows, columns from `i` on: the composite
/// ascending key uses every column in table order as a tie break.
pub open spec fn cmp_row(a: Seq<ValueModel>, b: Seq<ValueModel>, i: int) -> int
    decreases a.len() - i,
{
    if i < 0 {
        0
    } else if i >= a.len() && i >= b.len() {
        0
    } else if i >= a.len() {
        -1
    } else if i >= b.len() {
        1
    } else if cmp_val(a[i], b[i]) != 0 {
        cmp_val(a[i], b[i])
    } else {
        cmp_row(a, b, i + 1)
    }
}

pub open spec fn sorted_rows(rs: Seq<Seq<ValueModel>>) -> bool {
    forall|p: int, q: int|
        0 <= p < q < rs.len() ==> cmp_row(#[trigger] rs[p], #[trigger] rs[q], 0) <= 0
}

/// Places a row before the first row it does not order strictly after.
pub open spec fn insert_row(r: Seq<ValueModel>, rs: Seq<Seq<ValueModel>>) -> Seq<
    Seq<ValueModel>,
>
    decreases rs.len(),
{
    if rs.len() == 0 {
        seq![r]
    } else if cmp_row(r, rs[0], 0) <= 0 {
        seq![r] + rs
    } else {
        seq![rs[0]] + insert_row(r, rs.drop_first())
    }
}

/// Insertion sort of the rows from `i` on.
pub open spec fn sort_from(rs: Seq<Seq<ValueModel>>, i: int) -> Seq<Seq<ValueModel>>
    decreases rs.len() - i,
{
    if i < 0 || i >= rs.len() {
        Seq::empty()
    } else {
        insert_row(rs[i], sort_from(rs, i + 1))
    }
}

/// The rows of a table, each row reading one index across all columns.
pub open spec fn table_rows(t: Seq<ColModel>) -> Seq<Seq<ValueModel>> {
    Seq::new(table_nrows(t) as nat, |i: int| Seq::new(t.len(), |j: int| t[j].vals[i]))
}

/// The table with the given rows under the names and types of `t`.
pub open spec fn table_from_rows(t: Seq<ColModel>, rows: Seq<Seq<ValueModel>>) -> Seq<
    ColModel,
> {
    Seq::new(
        t.len(),
        |j: int|
            ColModel {
                name: t[j].name,
                ty: t[j].ty,
                vals: Seq::new(rows.len(), |i: int| rows[i][j]),
            },
    )
}

/// The table sorted: a stable full sort on all columns in table order,
/// ascending, nulls first.
pub open spec fn sort_table_spec(t: Seq<ColModel>) -> Seq<ColModel> {
    table_from_rows(t, sort_from(table_rows(t), 0))
}

pub proof fn lemma_cmp_str_antisym(a: Seq<char>, b: Seq<char>, i: int)
    ensures
        cmp_str(a, b, i) == -cmp_str(b, a, i),
    decreases a.len() + b.len() - i,
{
    if 0 <= i && i < a.len() && i < b.len() && (a[i] as u32) == (b[i] as u32) {
        lemma_cmp_str_antisym(a, b, i + 1);
    }
}

pub proof fn lemma_cmp_str_zero(a: Seq<char>, b: Seq<char>, i: int)
    requires
        0 <= i <= a.len(),
        i <= b.len(),
        cmp_str(a, b, i) == 0,
    ensures
        a.len() == b.len(),
        forall|k: int| i <= k < a.len() ==> a[k] == b[k],
    decreases a.len() - i,
{
    if i < a.len() || i < b.len() {
        assert(i < a.len() && i < b.len());
        assert((a[i] as u32) == (b[i] as u32));
        vstd::utf8::char_u32_cast(a[i], a[i] as u32);
        vstd::utf8::char_u32_cast(b[i], b[i] as u32);
        assert(a[i] == b[i]);
        lemma_cmp_str_zero(a, b, i + 1);
    }
}

pub proof fn lemma_cmp_str_trans(a: Seq<char>, b: Seq<char>, c: Seq<char>, i: int)
    requires
        0 <= i,
        cmp_str(a, b, i) <= 0,
        cmp_str(b, c, i) <= 0,
    ensures
        cmp_str(a, c, i) <= 0,
    decreases a.len() + b.len() + c.len() - i,
{
    if i >= a.len() {
    } else {
        assert(i < b.len());
        assert(i < c.len());
        if (a[i] as u32) == (b[i] as u32) && (b[i] as u32) == (c[i] as u32) {
            lemma_cmp_str_trans(a, b, c, i + 1);
        }
    }
}

pub proof fn lemma_cmp_val_antisym(a: ValueModel, b: ValueModel)
    ensures
        cmp_val(a, b) == -cmp_val(b, a),
{
    if val_rank(a) == val_rank(b) {
        match (a, b) {
            (ValueModel::Str(x), ValueModel::Str(y)) => {
                lemma_cmp_str_antisym(x, y, 0);
            },
            _ => {},
        }
    }
}

pub proof fn lemma_cmp_val_zero(a: ValueModel, b: ValueModel)
    requires
        cmp_val(a, b) == 0,
    ensures
        a == b,
{
    match (a, b) {
        (ValueModel::Str(x), ValueModel::Str(y)) => {
            lemma_cmp_str_zero(x, y, 0);
            assert(x =~= y);
        },
        _ => {},
    }
}

pub proof fn lemma_cmp_val_trans(a: ValueModel, b: ValueModel, c: ValueModel)
    requires
        cmp_val(a, b) <= 0,
        cmp_val(b, c) <= 0,
    ensures
        cmp_val(a, c) <= 0,
{
    if val_rank(a) == val_rank(b) && val_rank(b) == val_rank(c) {
        match (a, b) {
            (ValueModel::Str(x), ValueModel::Str(y)) => {
                match c {
                    ValueModel::Str(z) => {
                        lemma_cmp_str_trans(x, y, z, 0);
                    },
                    _ => {},
                }
            },
            _ => {},
        }
    }
}

pub proof fn lemma_cmp_row_antisym(a: Seq<ValueModel>, b: Seq<ValueModel>, i: int)
    ensures
        cmp_row(a, b, i) == -cmp_row(b, a, i),
    decreases a.len() + b.len() - i,
{
    if 0 <= i && i < a.len() && i < b.len() {
        lemma_cmp_val_antisym(a[i], b[i]);
        if cmp_val(a[i], b[i]) == 0 {
            lemma_cmp_row_antisym(a, b, i + 1);
        }
    }
}

pub proof fn lemma_cmp_row_trans(a: Seq<ValueModel>, b: Seq<ValueModel>, c: Seq<ValueModel>, i: int)
    requires
        0 <= i,
        cmp_row(a, b, i) <= 0,
        cmp_row(b, c, i) <= 0,
    ensures
        cmp_row(a, c, i) <= 0,
    decreases a.len() + b.len() + c.len() - i,
{
    if i >= a.len() {
    } else {
        assert(i < b.len());
        assert(i < c.len());
        let vab = cmp_val(a[i], b[i]);
        let vbc = cmp_val(b[i], c[i]);
        assert(vab <= 0);
        assert(vbc <= 0);
        lemma_cmp_val_trans(a[i], b[i], c[i]);
        if cmp_val(a[i], c[i]) == 0 {
            lemma_cmp_val_zero(a[i], c[i]);
            if vab < 0 {
                lemma_cmp_val_antisym(b[i], c[i]);
                lemma_cmp_val_antisym(a[i], b[i]);
                assert(false);
            }
            if vbc < 0 {
                lemma_cmp_val_antisym(a[i], b[i]);
                assert(false);
            }
            lemma_cmp_val_zero(a[i], b[i]);
            lemma_cmp_val_zero(b[i], c[i]);
            lemma_cmp_row_trans(a, b, c, i + 1);
        }
    }
}

} // verus!

verus! {

proof fn lemma_cons_multiset<T>(x: T, s: Seq<T>)
    ensures
        (seq![x] + s).to_multiset() =~= s.to_multiset().insert(x),
    decreases s.len(),
{
    broadcast use vstd::seq_lib::group_to_multiset_ensures;

    if s.len() == 0 {
        assert(seq![x] + s =~= Seq::<T>::empty().push(x));
        assert(Seq::<T>::empty().push(x).to_multiset() =~= Seq::<T>::empty()
            .to_multiset()
            .insert(x));
        assert(s.to_multiset() =~= Seq::<T>::empty().to_multiset());
    } else {
        let last = s.last();
        lemma_cons_multiset(x, s.drop_last());
        assert(seq![x] + s =~= (seq![x] + s.drop_last()).push(last));
        assert(s =~= s.drop_last().push(last));
    }
}

/// Inserting keeps sortedness, adds the row to the multiset, and introduces
/// no other row.
proof fn lemma_insert_row(r: Seq<ValueModel>, rs: Seq<Seq<ValueModel>>)
    requires
        sorted_rows(rs),
    ensures
        sorted_rows(insert_row(r, rs)),
        insert_row(r, rs).len() == rs.len() + 1,
        insert_row(r, rs).to_multiset() =~= rs.to_multiset().insert(r),
        forall|q: int|
            0 <= q < insert_row(r, rs).len() ==> #[trigger] insert_row(r, rs)[q] == r || exists|
                m: int,
            | 0 <= m < rs.len() && rs[m] == insert_row(r, rs)[q],
    decreases rs.len(),
{
    let res = insert_row(r, rs);
    if rs.len() == 0 {
        lemma_cons_multiset(r, rs);
        assert(res =~= seq![r] + rs);
    } else if cmp_row(r, rs[0], 0) <= 0 {
        lemma_cons_multiset(r, rs);
        assert forall|p: int, q: int| 0 <= p < q < res.len() implies cmp_row(
            #[trigger] res[p],
            #[trigger] res[q],
            0,
        ) <= 0 by {
            if p == 0 {
                assert(res[q] == rs[q - 1]);
                if q > 1 {
                    assert(cmp_row(rs[0], rs[q - 1], 0) <= 0);
                    lemma_cmp_row_trans(r, rs[0], rs[q - 1], 0);
                }
            } else {
                assert(res[p] == rs[p - 1] && res[q] == rs[q - 1]);
            }
        }
        assert forall|q: int| 0 <= q < res.len() implies #[trigger] res[q] == r || exists|m: int|
            0 <= m < rs.len() && rs[m] == res[q] by {
            if q > 0 {
                assert(rs[q - 1] == res[q]);
            }
        }
    } else {
        let rest = rs.drop_first();
        assert(sorted_rows(rest)) by {
            assert(forall|p: int, q: int|
                0 <= p < q < rest.len() ==> #[trigger] rest[p] == rs[p + 1] && #[trigger] rest[q]
                    == rs[q + 1]);
        }
        lemma_insert_row(r, rest);
        let sub = insert_row(r, rest);
        assert(res =~= seq![rs[0]] + sub);
        lemma_cons_multiset(rs[0], sub);
        lemma_cons_multiset(rs[0], rest);
        assert(rs =~= seq![rs[0]] + rest);
        assert(res.to_multiset() =~= rs.to_multiset().insert(r)) by {
            assert(res.to_multiset() =~= sub.to_multiset().insert(rs[0]));
            assert(sub.to_multiset() =~= rest.to_multiset().insert(r));
            assert(rs.to_multiset() =~= rest.to_multiset().insert(rs[0]));
        }
        lemma_cmp_row_antisym(r, rs[0], 0);
        assert forall|p: int, q: int| 0 <= p < q < res.len() implies cmp_row(
            #[trigger] res[p],
            #[trigger] res[q],
            0,
        ) <= 0 by {
            if p == 0 {
                assert(res[q] == sub[q - 1]);
                assert(sub[q - 1] == r || exists|m: int| 0 <= m < rest.len() && rest[m] == sub[q
                    - 1]);
                if sub[q - 1] == r {
                    assert(cmp_row(rs[0], r, 0) <= 0);
                } else {
                    let m = choose|m: int| 0 <= m < rest.len() && rest[m] == sub[q - 1];
                    assert(rest[m] == rs[m + 1]);
                    assert(cmp_row(rs[0], rs[m + 1], 0) <= 0);
                }
            } else {
                assert(res[p] == sub[p - 1] && res[q] == sub[q - 1]);
            }
        }
        assert forall|q: int| 0 <= q < res.len() implies #[trigger] res[q] == r || exists|m: int|
            0 <= m < rs.len() && rs[m] == res[q] by {
            if q == 0 {
                assert(rs[0] == res[0]);
            } else {
                assert(res[q] == sub[q - 1]);
                if sub[q - 1] != r {
                    let m = choose|m: int| 0 <= m < rest.len() && rest[m] == sub[q - 1];
                    assert(rs[m + 1] == res[q]);
                }
            }
        }
    }
}

/// The sorted suffix: sorted, the same rows as a multiset, no new row.
pub proof fn lemma_sort_from(rs: Seq<Seq<ValueModel>>, i: int)
    requires
        0 <= i <= rs.len(),
    ensures
        sorted_rows(sort_from(rs, i)),
        sort_from(rs, i).len() == rs.len() - i,
        sort_from(rs, i).to_multiset() =~= rs.skip(i).to_multiset(),
        forall|q: int|
            0 <= q < sort_from(rs, i).len() ==> exists|m: int|
                i <= m < rs.len() && rs[m] == #[trigger] sort_from(rs, i)[q],
    decreases rs.len() - i,
{
    broadcast use vstd::seq_lib::group_to_multiset_ensures;

    if i < rs.len() {
        lemma_sort_from(rs, i + 1);
        let sub = sort_from(rs, i + 1);
        lemma_insert_row(rs[i], sub);
        let res = sort_from(rs, i);
        assert(res == insert_row(rs[i], sub));
        lemma_cons_multiset(rs[i], rs.skip(i + 1));
        assert(rs.skip(i) =~= seq![rs[i]] + rs.skip(i + 1));
        assert(res.to_multiset() =~= rs.skip(i).to_multiset()) by {
            assert(res.to_multiset() =~= sub.to_multiset().insert(rs[i]));
            assert(sub.to_multiset() =~= rs.skip(i + 1).to_multiset());
            assert(rs.skip(i).to_multiset() =~= rs.skip(i + 1).to_multiset().insert(rs[i]));
        }
        assert forall|q: int| 0 <= q < res.len() implies exists|m: int|
            i <= m < rs.len() && rs[m] == #[trigger] res[q] by {
            if res[q] == rs[i] {
            } else {
                assert(exists|m2: int| 0 <= m2 < sub.len() && sub[m2] == res[q]) by {
                    assert(res[q] == rs[i] || exists|m2: int|
                        0 <= m2 < sub.len() && sub[m2] == res[q]);
                }
                let m2 = choose|m2: int| 0 <= m2 < sub.len() && sub[m2] == res[q];
                let m = choose|m: int| i + 1 <= m < rs.len() && rs[m] == sub[m2];
                assert(i <= m < rs.len() && rs[m] == res[q]);
            }
        }
    } else {
        assert(rs.skip(i) =~= Seq::<Seq<ValueModel>>::empty());
    }
}

/// Sorting rows that are already sorted changes nothing.
pub proof fn lemma_sort_from_sorted_id(rs: Seq<Seq<ValueModel>>, i: int)
    requires
        0 <= i <= rs.len(),
        sorted_rows(rs),
    ensures
        sort_from(rs, i) =~= rs.skip(i),
    decreases rs.len() - i,
{
    if i < rs.len() {
        lemma_sort_from_sorted_id(rs, i + 1);
        let sub = sort_from(rs, i + 1);
        assert(sub =~= rs.skip(i + 1));
        if sub.len() == 0 {
            assert(sort_from(rs, i) =~= seq![rs[i]]);
            assert(rs.skip(i) =~= seq![rs[i]]);
        } else {
            assert(sub[0] == rs[i + 1]);
            assert(cmp_row(rs[i], rs[i + 1], 0) <= 0);
            assert(sort_from(rs, i) == seq![rs[i]] + sub);
            assert(seq![rs[i]] + rs.skip(i + 1) =~= rs.skip(i));
        }
    } else {
        assert(rs.skip(i) =~= Seq::<Seq<ValueModel>>::empty());
    }
}

/// Rebuilding a well-formed table from its own rows gives the table back.
pub proof fn lemma_table_from_rows_id(t: Seq<ColModel>)
    requires
        table_wf(t),
    ensures
        table_from_rows(t, table_rows(t)) =~= t,
{
    let rows = table_rows(t);
    assert forall|j: int| 0 <= j < t.len() implies #[trigger] table_from_rows(t, rows)[j]
        == t[j] by {
        assert(table_from_rows(t, rows)[j].vals =~= t[j].vals);
    }
}

/// Reading back the rows of a rebuilt table gives the rows back.
pub proof fn lemma_rows_of_from_rows(t: Seq<ColModel>, rows: Seq<Seq<ValueModel>>)
    requires
        t.len() > 0,
        forall|q: int| 0 <= q < rows.len() ==> (#[trigger] rows[q]).len() == t.len(),
    ensures
        table_rows(table_from_rows(t, rows)) =~= rows,
{
    let t2 = table_from_rows(t, rows);
    assert(table_nrows(t2) == rows.len());
    assert forall|q: int| 0 <= q < rows.len() implies #[trigger] table_rows(t2)[q]
        == rows[q] by {
        assert(table_rows(t2)[q] =~= rows[q]);
    }
}

/// Every row of a well-formed table has the table's width, and its cells fit
/// the column types.
pub proof fn lemma_table_rows_shape(t: Seq<ColModel>)
    requires
        table_wf(t),
    ensures
        forall|q: int| 0 <= q < table_rows(t).len() ==> (#[trigger] table_rows(t)[q]).len()
            == t.len(),
        forall|q: int, j: int|
            0 <= q < table_rows(t).len() && 0 <= j < t.len() ==> value_fits(
                #[trigger] table_rows(t)[q][j],
                t[j].ty,
            ),
{
}

/// Sorting keeps the table well formed.
pub proof fn lemma_sort_table_wf(t: Seq<ColModel>)
    requires
        table_wf(t),
    ensures
        table_wf(sort_table_spec(t)),
        sort_table_spec(t).len() == t.len(),
        table_nrows(sort_table_spec(t)) == table_nrows(t),
        forall|j: int|
            0 <= j < t.len() ==> (#[trigger] sort_table_spec(t)[j]).name == t[j].name
                && sort_table_spec(t)[j].ty == t[j].ty,
{
    let rows = table_rows(t);
    lemma_sort_from(rows, 0);
    lemma_table_rows_shape(t);
    let srows = sort_from(rows, 0);
    assert(rows.skip(0) =~= rows);
    let t2 = sort_table_spec(t);
    assert(t2.len() == t.len());
    assert forall|j: int| 0 <= j < t2.len() implies crate::table::col_wf(#[trigger] t2[j])
        && t2[j].vals.len() == table_nrows(t2) by {
        assert forall|q: int| 0 <= q < t2[j].vals.len() implies value_fits(
            #[trigger] t2[j].vals[q],
            t2[j].ty,
        ) by {
            assert(t2[j].vals[q] == srows[q][j]);
            let m = choose|m: int| 0 <= m < rows.len() && rows[m] == srows[q];
            assert(value_fits(rows[m][j], t[j].ty));
        }
    }
}

} // verus!

verus! {

proof fn lemma_insert_index(r: Seq<ValueModel>, rs: Seq<Seq<ValueModel>>, idx: int)
    requires
        0 <= idx <= rs.len(),
        forall|k: int| 0 <= k < idx ==> cmp_row(r, #[trigger] rs[k], 0) > 0,
        idx < rs.len() ==> cmp_row(r, rs[idx], 0) <= 0,
    ensures
        insert_row(r, rs) =~= rs.take(idx) + seq![r] + rs.skip(idx),
    decreases idx,
{
    if idx == 0 {
        if rs.len() == 0 {
            assert(insert_row(r, rs) =~= rs.take(0) + seq![r] + rs.skip(0));
        } else {
            assert(insert_row(r, rs) == seq![r] + rs);
            assert(seq![r] + rs =~= rs.take(0) + seq![r] + rs.skip(0));
        }
    } else {
        let rest = rs.drop_first();
        assert(cmp_row(r, rs[0], 0) > 0);
        assert forall|k: int| 0 <= k < idx - 1 implies cmp_row(r, #[trigger] rest[k], 0) > 0 by {
            assert(rest[k] == rs[k + 1]);
        }
        if idx - 1 < rest.len() {
            assert(rest[idx - 1] == rs[idx]);
        }
        lemma_insert_index(r, rest, idx - 1);
        assert(insert_row(r, rs) == seq![rs[0]] + insert_row(r, rest));
        assert(seq![rs[0]] + (rest.take(idx - 1) + seq![r] + rest.skip(idx - 1)) =~= rs.take(idx)
            + seq![r] + rs.skip(idx));
    }
}

/// Copies one value.
fn clone_value(v: &Value) -> (r: Value)
    ensures
        r@ == v@,
{
    match v {
        Value::Null => Value::Null,
        Value::Int(x) => Value::Int(*x),
        Value::Bool(b) => Value::Bool(*b),
        Value::Str(s) => Value::Str(s.clone()),
    }
}

fn clone_row(v: &Vec<Value>) -> (r: Vec<Value>)
    ensures
        r.deep_view() == v.deep_view(),
{
    let n = v.len();
    let mut out: Vec<Value> = Vec::new();
    let mut i: usize = 0;
    while i < n
        invariant
            i <= n,
            n == v@.len(),
            out@.len() == i,
            forall|k: int| 0 <= k < i ==> (#[trigger] out@[k])@ == v@[k]@,
        decreases n - i,
    {
        out.push(clone_value(&v[i]));
        i += 1;
    }
    proof {
        assert(out.deep_view() =~= v.deep_view()) by {
            assert(forall|k: int|
                0 <= k < n ==> (#[trigger] out.deep_view()[k]) == out@[k].deep_view());
            assert(forall|k: int|
                0 <= k < n ==> (#[trigger] v.deep_view()[k]) == v@[k].deep_view());
        }
    }
    out
}

fn cmp_str_exec(a: &str, b: &str, i: usize, an: usize, bn: usize) -> (r: i32)
    requires
        an == a@.len(),
        bn == b@.len(),
    ensures
        r as int == cmp_str(a@, b@, i as int),
    decreases a@.len() - i,
{
    if i >= an && i >= bn {
        0
    } else if i >= an {
        -1
    } else if i >= bn {
        1
    } else {
        let ca = a.get_char(i) as u32;
        let cb = b.get_char(i) as u32;
        if ca < cb {
            -1
        } else if ca > cb {
            1
        } else {
            cmp_str_exec(a, b, i + 1, an, bn)
        }
    }
}

fn cmp_val_exec(a: &Value, b: &Value) -> (r: i32)
    ensures
        r as int == cmp_val(a@, b@),
{
    let ra: i32 = match a {
        Value::Null => 0,
        Value::Int(_) => 1,
        Value::Bool(_) => 2,
        Value::Str(_) => 3,
    };
    let rb: i32 = match b {
        Value::Null => 0,
        Value::Int(_) => 1,
        Value::Bool(_) => 2,
        Value::Str(_) => 3,
    };
    if ra < rb {
        -1
    } else if ra > rb {
        1
    } else {
        match (a, b) {
            (Value::Int(x), Value::Int(y)) => {
                if *x < *y {
                    -1
                } else if *x > *y {
                    1
                } else {
                    0
                }
            },
            (Value::Bool(x), Value::Bool(y)) => {
                if !*x && *y {
                    -1
                } else if *x && !*y {
                    1
                } else {
                    0
                }
            },
            (Value::Str(x), Value::Str(y)) => {
                let xs = x.as_str();
                let ys = y.as_str();
                cmp_str_exec(xs, ys, 0, xs.unicode_len(), ys.unicode_len())
            },
            _ => 0,
        }
    }
}

fn cmp_row_exec(a: &Vec<Value>, b: &Vec<Value>, i: usize) -> (r: i32)
    ensures
        r as int == cmp_row(a.deep_view(), b.deep_view(), i as int),
    decreases a@.len() - i,
{
    proof {
        assert(a.deep_view().len() == a@.len());
        assert(b.deep_view().len() == b@.len());
    }
    if i >= a.len() && i >= b.len() {
        0
    } else if i >= a.len() {
        -1
    } else if i >= b.len() {
        1
    } else {
        proof {
            assert(a.deep_view()[i as int] == (#[trigger] a@[i as int]).deep_view());
            assert(b.deep_view()[i as int] == (#[trigger] b@[i as int]).deep_view());
        }
        let c = cmp_val_exec(&a[i], &b[i]);
        if c != 0 {
            c
        } else {
            cmp_row_exec(a, b, i + 1)
        }
    }
}

fn insert_row_exec(r: Vec<Value>, rs: Vec<Vec<Value>>) -> (out: Vec<Vec<Value>>)
    ensures
        out.deep_view() == insert_row(r.deep_view(), rs.deep_view()),
{
    let ghost rd = r.deep_view();
    let ghost rsd = rs.deep_view();
    let n = rs.len();
    proof {
        assert(rsd.len() == n);
    }
    let mut idx: usize = 0;
    loop
        invariant_except_break
            idx <= n,
            n == rs@.len(),
            rs.deep_view() == rsd,
            r.deep_view() == rd,
            forall|k: int| 0 <= k < idx ==> cmp_row(rd, #[trigger] rsd[k], 0) > 0,
        ensures
            idx <= n,
            n == rs@.len(),
            rs.deep_view() == rsd,
            r.deep_view() == rd,
            forall|k: int| 0 <= k < idx ==> cmp_row(rd, #[trigger] rsd[k], 0) > 0,
            idx < n ==> cmp_row(rd, rsd[idx as int], 0) <= 0,
        decreases n - idx,
    {
        if idx >= n {
            break;
        }
        proof {
            assert(rs.deep_view()[idx as int] == (#[trigger] rs@[idx as int]).deep_view());
        }
        if cmp_row_exec(&r, &rs[idx], 0) <= 0 {
            break;
        }
        idx += 1;
    }
    proof {
        lemma_insert_index(rd, rsd, idx as int);
    }
    let mut out = rs;
    let ghost outv = out@;
    out.insert(idx, r);
    proof {
        assert(out@ == outv.insert(idx as int, r));
        assert(out.deep_view() =~= rsd.take(idx as int) + seq![rd] + rsd.skip(idx as int)) by {
            assert(forall|k: int|
                0 <= k < out@.len() ==> (#[trigger] out.deep_view()[k]) == out@[k].deep_view());
            assert(forall|k: int| 0 <= k < idx ==> out@[k] == outv[k]);
            assert(out@[idx as int] == r);
            assert(forall|k: int|
                idx < k < out@.len() ==> (#[trigger] out@[k]) == outv[k - 1]);
            assert(forall|k: int|
                0 <= k < outv.len() ==> (#[trigger] outv[k]).deep_view() == rsd[k]);
        }
    }
    out
}

fn sort_from_exec(rows: &Vec<Vec<Value>>, i: usize) -> (out: Vec<Vec<Value>>)
    ensures
        out.deep_view() == sort_from(rows.deep_view(), i as int),
    decreases rows@.len() - i,
{
    proof {
        assert(rows.deep_view().len() == rows@.len());
    }
    if i >= rows.len() {
        let v: Vec<Vec<Value>> = Vec::new();
        proof {
            assert(v.deep_view() =~= Seq::<Seq<ValueModel>>::empty());
        }
        v
    } else {
        proof {
            assert(rows.deep_view()[i as int] == (#[trigger] rows@[i as int]).deep_view());
        }
        let rest = sort_from_exec(rows, i + 1);
        let r = clone_row(&rows[i]);
        insert_row_exec(r, rest)
    }
}

fn table_to_rows(t: &Table) -> (r: Vec<Vec<Value>>)
    requires
        table_wf(t@),
    ensures
        r.deep_view() == table_rows(t@),
{
    let ncols = t.cols.len();
    proof {
        assert(t@.len() == ncols);
        assert(forall|q: int| 0 <= q < ncols ==> t@[q] == (#[trigger] t.cols@[q])@);
    }
    let nrows: usize = if ncols == 0 {
        0
    } else {
        t.cols[0].vals.len()
    };
    proof {
        assert(nrows == table_nrows(t@));
    }
    let mut out: Vec<Vec<Value>> = Vec::new();
    let mut i: usize = 0;
    while i < nrows
        invariant
            i <= nrows,
            ncols == t.cols@.len(),
            ncols == t@.len(),
            table_wf(t@),
            nrows == table_nrows(t@),
            forall|q: int| 0 <= q < ncols ==> t@[q] == (#[trigger] t.cols@[q])@,
            out@.len() == i,
            forall|q: int|
                0 <= q < i ==> (#[trigger] out@[q]).deep_view() == table_rows(t@)[q],
        decreases nrows - i,
    {
        let mut row: Vec<Value> = Vec::new();
        let mut j: usize = 0;
        while j < ncols
            invariant
                j <= ncols,
                i < nrows,
                ncols == t.cols@.len(),
                ncols == t@.len(),
                table_wf(t@),
                nrows == table_nrows(t@),
                forall|q: int| 0 <= q < ncols ==> t@[q] == (#[trigger] t.cols@[q])@,
                row@.len() == j,
                forall|q: int| 0 <= q < j ==> (#[trigger] row@[q])@ == t@[q].vals[i as int],
            decreases ncols - j,
        {
            proof {
                assert(t@[j as int].vals.len() == nrows);
                assert(t@[j as int].vals[i as int] == (#[trigger] t.cols@[j as int].vals@[
                    i as int])@);
            }
            row.push(clone_value(&t.cols[j].vals[i]));
            j += 1;
        }
        proof {
            assert(row.deep_view() =~= table_rows(t@)[i as int]) by {
                assert(forall|q: int|
                    0 <= q < row@.len() ==> (#[trigger] row.deep_view()[q]) == row@[
                        q].deep_view());
            }
        }
        out.push(row);
        i += 1;
    }
    proof {
        assert(out.deep_view() =~= table_rows(t@)) by {
            assert(forall|q: int|
                0 <= q < out@.len() ==> (#[trigger] out.deep_view()[q]) == out@[q].deep_view());
        }
    }
    out
}

/// Sorts the table's rows by the composite key of all columns in table
/// order, ascending, nulls before every value; a pure reordering of rows.
pub fn sort_table(t: &Table) -> (r: Table)
    requires
        table_wf(t@),
    ensures
        r@ == sort_table_spec(t@),
{
    let rows = table_to_rows(t);
    let sorted = sort_from_exec(&rows, 0);
    let ghost srows = sort_from(table_rows(t@), 0);
    proof {
        lemma_sort_from(table_rows(t@), 0);
        lemma_table_rows_shape(t@);
        assert(sorted.deep_view() == srows);
        assert forall|q: int| 0 <= q < srows.len() implies (#[trigger] srows[q]).len()
            == t@.len() by {
            let m = choose|m: int|
                0 <= m < table_rows(t@).len() && table_rows(t@)[m] == srows[q];
        }
        assert(forall|q: int|
            0 <= q < sorted@.len() ==> (#[trigger] sorted@[q]).deep_view() == srows[q]);
        assert(t@.len() == t.cols@.len());
        assert(forall|q: int| 0 <= q < t@.len() ==> t@[q] == (#[trigger] t.cols@[q])@);
    }
    let ncols = t.cols.len();
    let nsr = sorted.len();
    let mut cols: Vec<Column> = Vec::new();
    let mut j: usize = 0;
    while j < ncols
        invariant
            j <= ncols,
            ncols == t.cols@.len(),
            ncols == t@.len(),
            table_wf(t@),
            nsr == sorted@.len(),
            srows == sort_from(table_rows(t@), 0),
            sorted.deep_view() == srows,
            srows.len() == nsr,
            forall|q: int| 0 <= q < nsr ==> (#[trigger] srows[q]).len() == t@.len(),
            forall|q: int|
                0 <= q < nsr ==> (#[trigger] sorted@[q]).deep_view() == srows[q],
            forall|q: int| 0 <= q < t@.len() ==> t@[q] == (#[trigger] t.cols@[q])@,
            cols@.len() == j,
            forall|q: int|
                0 <= q < j ==> (#[trigger] cols@[q])@ == sort_table_spec(t@)[q],
        decreases ncols - j,
    {
        let mut vals: Vec<Value> = Vec::new();
        let mut i: usize = 0;
        while i < nsr
            invariant
                i <= nsr,
                j < ncols,
                ncols == t@.len(),
                nsr == sorted@.len(),
                srows.len() == nsr,
                forall|q: int| 0 <= q < nsr ==> (#[trigger] srows[q]).len() == t@.len(),
                forall|q: int|
                    0 <= q < nsr ==> (#[trigger] sorted@[q]).deep_view() == srows[q],
                vals@.len() == i,
                forall|q: int|
                    0 <= q < i ==> (#[trigger] vals@[q])@ == srows[q][j as int],
            decreases nsr - i,
        {
            proof {
                assert(sorted@[i as int].deep_view() == srows[i as int]);
                assert(sorted@[i as int]@.len() == srows[i as int].len());
                assert((#[trigger] sorted@[i as int]@[j as int]).deep_view() == srows[i as int][
                    j as int]);
            }
            vals.push(clone_value(&sorted[i][j]));
            i += 1;
        }
        let col = Column { name: t.cols[j].name.clone(), ty: t.cols[j].ty, vals };
        proof {
            assert(col@ == sort_table_spec(t@)[j as int]) by {
                assert(col@.vals =~= sort_table_spec(t@)[j as int].vals);
            }
        }
        cols.push(col);
        j += 1;
    }
    let r = Table { cols };
    proof {
        assert(r@ =~= sort_table_spec(t@));
    }
    r
}

} // verus!
