use vstd::prelude::*;
use vstd::bytes::{
    spec_u32_to_le_bytes, spec_u32_from_le_bytes, spec_u64_to_le_bytes, spec_u64_from_le_bytes,
    u32_to_le_bytes, u32_from_le_bytes, u64_to_le_bytes, u64_from_le_bytes,
    lemma_auto_spec_u32_to_from_le_bytes, lemma_auto_spec_u64_to_from_le_bytes,
};
use vstd::utf8::{encode_utf8, decode_utf8, valid_utf8};
use vstd::slice::{slice_subrange, slice_to_vec};
use crate::formats::ConvertError;
use crate::table::{Table, Column, Value, ColType, ColModel, ValueModel, table_nrows, table_wf};
use crate::text::{bytes_to_string, string_to_bytes};

verus! {

/// The two's-complement image of an `i64` in a `u64`.
pub open spec fn i64_bits(x: i64) -> u64 {
    if x >= 0 {
        x as u64
    } else {
        (x + 0x1_0000_0000_0000_0000) as u64
    }
}

/// The `i64` whose two's-complement image a `u64` is.
pub open spec fn bits_i64(u: u64) -> i64 {
    if u < 0x8000_0000_0000_0000 {
        u as i64
    } else {
        (u - 0x1_0000_0000_0000_0000) as i64
    }
}

pub open spec fn tag_of(ty: ColType) -> u8 {
    match ty {
        ColType::IntType => 1,
        ColType::BoolType => 2,
        ColType::StrType => 3,
    }
}

pub open spec fn ty_of_tag(b: u8) -> Option<ColType> {
    if b == 1 {
        Option::Some(ColType::IntType)
    } else if b == 2 {
        Option::Some(ColType::BoolType)
    } else if b == 3 {
        Option::Some(ColType::StrType)
    } else {
        Option::None
    }
}

pub open spec fn enc_u32v(n: int) -> Seq<u8> {
    spec_u32_to_le_bytes(n as u32)
}

/// A string in the container: its UTF-8 byte count, then its UTF-8 bytes.
pub open spec fn enc_str(s: Seq<char>) -> Seq<u8> {
    enc_u32v(encode_utf8(s).len() as int) + encode_utf8(s)
}

/// A cell in the container: a presence byte, then the value.
pub open spec fn enc_value(v: ValueModel) -> Seq<u8> {
    match v {
        ValueModel::Null => seq![0u8],
        ValueModel::Int(x) => seq![1u8] + spec_u64_to_le_bytes(i64_bits(x)),
        ValueModel::Bool(b) => seq![1u8, if b { 1u8 } else { 0u8 }],
        ValueModel::Str(s) => seq![1u8] + enc_str(s),
    }
}

pub open spec fn enc_vals_from(vals: Seq<ValueModel>, i: int) -> Seq<u8>
    decreases vals.len() - i,
{
    if i < 0 || i >= vals.len() {
        Seq::empty()
    } else {
        enc_value(vals[i]) + enc_vals_from(vals, i + 1)
    }
}

pub open spec fn enc_headers_from(t: Seq<ColModel>, j: int) -> Seq<u8>
    decreases t.len() - j,
{
    if j < 0 || j >= t.len() {
        Seq::empty()
    } else {
        enc_str(t[j].name) + seq![tag_of(t[j].ty)] + enc_headers_from(t, j + 1)
    }
}

pub open spec fn enc_cols_from(t: Seq<ColModel>, j: int) -> Seq<u8>
    decreases t.len() - j,
{
    if j < 0 || j >= t.len() {
        Seq::empty()
    } else {
        enc_vals_from(t[j].vals, 0) + enc_cols_from(t, j + 1)
    }
}

/// The self-describing payload of the columnar container: the column count,
/// each column's name and type, the row count, then every column's cells in
/// column order.
pub open spec fn enc_table(t: Seq<ColModel>) -> Seq<u8> {
    enc_u32v(t.len() as int) + enc_headers_from(t, 0) + enc_u32v(table_nrows(t)) + enc_cols_from(
        t,
        0,
    )
}

pub open spec fn val_size_ok(v: ValueModel) -> bool {
    match v {
        ValueModel::Str(s) => encode_utf8(s).len() <= u32::MAX,
        _ => true,
    }
}

/// Every count and string length in the table fits the container's 32-bit
/// fields.
pub open spec fn sizes_ok(t: Seq<ColModel>) -> bool {
    &&& t.len() <= u32::MAX
    &&& table_nrows(t) <= u32::MAX
    &&& forall|j: int|
        0 <= j < t.len() ==> encode_utf8((#[trigger] t[j]).name).len() <= u32::MAX
    &&& forall|j: int, i: int|
        0 <= j < t.len() && 0 <= i < t[j].vals.len() ==> val_size_ok(#[trigger] t[j].vals[i])
}

pub open spec fn dec_u32(s: Seq<u8>, i: int) -> Option<(int, int)> {
    if 0 <= i && i + 4 <= s.len() {
        Option::Some((spec_u32_from_le_bytes(s.subrange(i, i + 4)) as int, i + 4))
    } else {
        Option::None
    }
}

pub open spec fn dec_u64(s: Seq<u8>, i: int) -> Option<(u64, int)> {
    if 0 <= i && i + 8 <= s.len() {
        Option::Some((spec_u64_from_le_bytes(s.subrange(i, i + 8)), i + 8))
    } else {
        Option::None
    }
}

pub open spec fn dec_str(s: Seq<u8>, i: int) -> Option<(Seq<char>, int)> {
    match dec_u32(s, i) {
        Option::None => Option::None,
        Option::Some(p) => {
            let n = p.0;
            let j = p.1;
            if j + n <= s.len() && valid_utf8(s.subrange(j, j + n)) {
                Option::Some((decode_utf8(s.subrange(j, j + n)), j + n))
            } else {
                Option::None
            }
        },
    }
}

pub open spec fn dec_value(s: Seq<u8>, i: int, ty: ColType) -> Option<(ValueModel, int)> {
    if i < 0 || i >= s.len() {
        Option::None
    } else if s[i] == 0 {
        Option::Some((ValueModel::Null, i + 1))
    } else if s[i] == 1 {
        match ty {
            ColType::IntType => match dec_u64(s, i + 1) {
                Option::None => Option::None,
                Option::Some(p) => Option::Some((ValueModel::Int(bits_i64(p.0)), p.1)),
            },
            ColType::BoolType => if i + 2 <= s.len() && (s[i + 1] == 0 || s[i + 1] == 1) {
                Option::Some((ValueModel::Bool(s[i + 1] == 1), i + 2))
            } else {
                Option::None
            },
            ColType::StrType => match dec_str(s, i + 1) {
                Option::None => Option::None,
                Option::Some(p) => Option::Some((ValueModel::Str(p.0), p.1)),
            },
        }
    } else {
        Option::None
    }
}

pub open spec fn dec_vals(s: Seq<u8>, i: int, ty: ColType, cnt: int) -> Option<
    (Seq<ValueModel>, int),
>
    decreases cnt,
{
    if cnt <= 0 {
        Option::Some((Seq::empty(), i))
    } else {
        match dec_value(s, i, ty) {
            Option::None => Option::None,
            Option::Some(p) => match dec_vals(s, p.1, ty, cnt - 1) {
                Option::None => Option::None,
                Option::Some(q) => Option::Some((seq![p.0] + q.0, q.1)),
            },
        }
    }
}

pub open spec fn dec_headers(s: Seq<u8>, i: int, cnt: int) -> Option<
    (Seq<(Seq<char>, ColType)>, int),
>
    decreases cnt,
{
    if cnt <= 0 {
        Option::Some((Seq::empty(), i))
    } else {
        match dec_str(s, i) {
            Option::None => Option::None,
            Option::Some(p) => {
                let j = p.1;
                if 0 <= j < s.len() {
                    match ty_of_tag(s[j]) {
                        Option::None => Option::None,
                        Option::Some(ty) => match dec_headers(s, j + 1, cnt - 1) {
                            Option::None => Option::None,
                            Option::Some(q) => Option::Some((seq![(p.0, ty)] + q.0, q.1)),
                        },
                    }
                } else {
                    Option::None
                }
            },
        }
    }
}

pub open spec fn dec_cols(
    s: Seq<u8>,
    i: int,
    hs: Seq<(Seq<char>, ColType)>,
    k: int,
    nrows: int,
) -> Option<(Seq<ColModel>, int)>
    decreases hs.len() - k,
{
    if k < 0 || k >= hs.len() {
        Option::Some((Seq::empty(), i))
    } else {
        match dec_vals(s, i, hs[k].1, nrows) {
            Option::None => Option::None,
            Option::Some(p) => match dec_cols(s, p.1, hs, k + 1, nrows) {
                Option::None => Option::None,
                Option::Some(q) => Option::Some(
                    (seq![ColModel { name: hs[k].0, ty: hs[k].1, vals: p.0 }] + q.0, q.1),
                ),
            },
        }
    }
}

/// What a container payload denotes; the whole payload must be consumed.
pub open spec fn dec_table(s: Seq<u8>) -> Option<Seq<ColModel>> {
    match dec_u32(s, 0) {
        Option::None => Option::None,
        Option::Some(p1) => match dec_headers(s, p1.1, p1.0) {
            Option::None => Option::None,
            Option::Some(p2) => match dec_u32(s, p2.1) {
                Option::None => Option::None,
                Option::Some(p3) => match dec_cols(s, p3.1, p2.0, 0, p3.0) {
                    Option::None => Option::None,
                    Option::Some(p4) => if p4.1 == s.len() && p2.0.len() == p1.0 {
                        Option::Some(p4.0)
                    } else {
                        Option::None
                    },
                },
            },
        },
    }
}

fn i64_bits_exec(x: i64) -> (u: u64)
    ensures
        u == i64_bits(x),
{
    if x >= 0 {
        x as u64
    } else {
        ((x as i128) + 0x1_0000_0000_0000_0000i128) as u64
    }
}

fn bits_i64_exec(u: u64) -> (x: i64)
    ensures
        x == bits_i64(u),
{
    if u < 0x8000_0000_0000_0000u64 {
        u as i64
    } else {
        ((u as i128) - 0x1_0000_0000_0000_0000i128) as i64
    }
}

fn enc_str_exec(s: &String) -> (r: Vec<u8>)
    requires
        encode_utf8(s@).len() <= u32::MAX,
    ensures
        r@ == enc_str(s@),
{
    let mut b = string_to_bytes(s.as_str());
    let n = b.len();
    let mut out = u32_to_le_bytes(n as u32);
    proof {
        lemma_auto_spec_u32_to_from_le_bytes();
    }
    out.append(&mut b);
    out
}

fn enc_value_exec(v: &Value) -> (r: Vec<u8>)
    requires
        val_size_ok(v@),
    ensures
        r@ == enc_value(v@),
{
    match v {
        Value::Null => {
            let mut out: Vec<u8> = Vec::new();
            out.push(0u8);
            proof {
                assert(out@ =~= seq![0u8]);
            }
            out
        },
        Value::Int(x) => {
            let mut out: Vec<u8> = Vec::new();
            out.push(1u8);
            let mut b = u64_to_le_bytes(i64_bits_exec(*x));
            out.append(&mut b);
            proof {
                assert(out@ =~= seq![1u8] + spec_u64_to_le_bytes(i64_bits(*x)));
            }
            out
        },
        Value::Bool(b) => {
            let mut out: Vec<u8> = Vec::new();
            out.push(1u8);
            if *b {
                out.push(1u8);
            } else {
                out.push(0u8);
            }
            proof {
                assert(out@ =~= seq![1u8, if *b { 1u8 } else { 0u8 }]);
            }
            out
        },
        Value::Str(s) => {
            let mut out: Vec<u8> = Vec::new();
            out.push(1u8);
            let mut b = enc_str_exec(s);
            out.append(&mut b);
            proof {
                assert(out@ =~= seq![1u8] + enc_str(s@));
            }
            out
        },
    }
}

fn enc_vals_exec(vals: &Vec<Value>, i: usize) -> (r: Vec<u8>)
    requires
        forall|q: int| 0 <= q < vals@.len() ==> val_size_ok((#[trigger] vals@[q])@),
    ensures
        r@ == enc_vals_from(vals.deep_view(), i as int),
    decreases vals@.len() - i,
{
    proof {
        assert(vals.deep_view().len() == vals@.len());
    }
    if i >= vals.len() {
        let v: Vec<u8> = Vec::new();
        proof {
            assert(v@ =~= enc_vals_from(vals.deep_view(), i as int));
        }
        v
    } else {
        proof {
            assert(vals.deep_view()[i as int] == (#[trigger] vals@[i as int]).deep_view());
        }
        let mut out = enc_value_exec(&vals[i]);
        let mut rest = enc_vals_exec(vals, i + 1);
        out.append(&mut rest);
        out
    }
}

} // verus!

verus! {

fn enc_headers_exec(cols: &Vec<Column>, j: usize) -> (r: Vec<u8>)
    requires
        forall|q: int|
            0 <= q < cols@.len() ==> encode_utf8((#[trigger] cols@[q])@.name).len() <= u32::MAX,
    ensures
        r@ == enc_headers_from(cols.deep_view(), j as int),
    decreases cols@.len() - j,
{
    proof {
        assert(cols.deep_view().len() == cols@.len());
    }
    if j >= cols.len() {
        let v: Vec<u8> = Vec::new();
        proof {
            assert(v@ =~= enc_headers_from(cols.deep_view(), j as int));
        }
        v
    } else {
        proof {
            assert(cols.deep_view()[j as int] == (#[trigger] cols@[j as int]).deep_view());
        }
        let c = &cols[j];
        let mut out = enc_str_exec(&c.name);
        match c.ty {
            ColType::IntType => out.push(1u8),
            ColType::BoolType => out.push(2u8),
            ColType::StrType => out.push(3u8),
        }
        proof {
            assert(out@ =~= enc_str(cols.deep_view()[j as int].name) + seq![tag_of(
                cols.deep_view()[j as int].ty,
            )]);
        }
        let mut rest = enc_headers_exec(cols, j + 1);
        out.append(&mut rest);
        out
    }
}

fn enc_cols_exec(cols: &Vec<Column>, j: usize) -> (r: Vec<u8>)
    requires
        forall|q: int, i: int|
            0 <= q < cols@.len() && 0 <= i < cols@[q].vals@.len() ==> val_size_ok(
                (#[trigger] cols@[q].vals@[i])@,
            ),
    ensures
        r@ == enc_cols_from(cols.deep_view(), j as int),
    decreases cols@.len() - j,
{
    proof {
        assert(cols.deep_view().len() == cols@.len());
    }
    if j >= cols.len() {
        let v: Vec<u8> = Vec::new();
        proof {
            assert(v@ =~= enc_cols_from(cols.deep_view(), j as int));
        }
        v
    } else {
        proof {
            assert(cols.deep_view()[j as int] == (#[trigger] cols@[j as int]).deep_view());
            assert(forall|q: int|
                0 <= q < cols@[j as int].vals@.len() ==> (#[trigger] cols@[j as int].vals@[
                    q])@ == cols@[j as int].vals.deep_view()[q]);
        }
        let mut out = enc_vals_exec(&cols[j].vals, 0);
        let mut rest = enc_cols_exec(cols, j + 1);
        out.append(&mut rest);
        out
    }
}

fn check_sizes(t: &Table) -> (r: bool)
    requires
        table_wf(t@),
    ensures
        r == sizes_ok(t@),
{
    let ncols = t.cols.len();
    proof {
        assert(t@.len() == ncols);
        assert(forall|q: int| 0 <= q < ncols ==> t@[q] == (#[trigger] t.cols@[q])@);
    }
    if ncols > u32::MAX as usize {
        return false;
    }
    let nrows: usize = if ncols == 0 {
        0
    } else {
        t.cols[0].vals.len()
    };
    proof {
        assert(nrows == table_nrows(t@));
    }
    if nrows > u32::MAX as usize {
        return false;
    }
    let mut j: usize = 0;
    while j < ncols
        invariant
            j <= ncols,
            ncols == t.cols@.len(),
            ncols == t@.len(),
            table_wf(t@),
            forall|q: int| 0 <= q < ncols ==> t@[q] == (#[trigger] t.cols@[q])@,
            forall|q: int|
                0 <= q < j ==> encode_utf8((#[trigger] t@[q]).name).len() <= u32::MAX,
            forall|q: int, i: int|
                0 <= q < j && 0 <= i < t@[q].vals.len() ==> val_size_ok(
                    #[trigger] t@[q].vals[i],
                ),
        decreases ncols - j,
    {
        let nb = crate::text::string_to_bytes(t.cols[j].name.as_str());
        if nb.len() > u32::MAX as usize {
            return false;
        }
        let nv = t.cols[j].vals.len();
        let mut i: usize = 0;
        while i < nv
            invariant
                i <= nv,
                j < ncols,
                ncols == t.cols@.len(),
                ncols == t@.len(),
                forall|q: int| 0 <= q < ncols ==> t@[q] == (#[trigger] t.cols@[q])@,
                nv == t.cols@[j as int].vals@.len(),
                forall|q: int|
                    0 <= q < i ==> val_size_ok(#[trigger] t@[j as int].vals[q]),
            decreases nv - i,
        {
            proof {
                assert(t@[j as int].vals[i as int] == (#[trigger] t.cols@[j as int].vals@[
                    i as int])@);
            }
            match &t.cols[j].vals[i] {
                Value::Str(s) => {
                    let sb = crate::text::string_to_bytes(s.as_str());
                    if sb.len() > u32::MAX as usize {
                        return false;
                    }
                },
                _ => {},
            }
            i += 1;
        }
        j += 1;
    }
    true
}

/// Writes a table as the container's payload bytes; fails only when a count
/// or string length exceeds the container's 32-bit fields.
pub fn encode_table_bytes(t: &Table) -> (r: Result<Vec<u8>, ConvertError>)
    requires
        table_wf(t@),
    ensures
        sizes_ok(t@) ==> (r matches Ok(b) && b@ == enc_table(t@)),
        !sizes_ok(t@) ==> r == Result::<Vec<u8>, ConvertError>::Err(ConvertError::EncodeError),
{
    if !check_sizes(t) {
        return Err(ConvertError::EncodeError);
    }
    let ncols = t.cols.len();
    proof {
        assert(t@.len() == ncols);
        assert(forall|q: int| 0 <= q < ncols ==> t@[q] == (#[trigger] t.cols@[q])@);
        assert(forall|q: int|
            0 <= q < ncols ==> (#[trigger] t.cols@[q])@.name == t.cols@[q].name@);
        assert(forall|q: int, i: int|
            0 <= q < ncols && 0 <= i < t.cols@[q].vals@.len() ==> ((#[trigger] t.cols@[q].vals@[
                i])@) == t@[q].vals[i]) by {
            assert(forall|q: int|
                0 <= q < ncols ==> (#[trigger] t@[q]).vals == t.cols@[q].vals.deep_view());
        }
    }
    let nrows: usize = if ncols == 0 {
        0
    } else {
        t.cols[0].vals.len()
    };
    proof {
        assert(nrows == table_nrows(t@));
    }
    let mut out = u32_to_le_bytes(ncols as u32);
    let mut hs = enc_headers_exec(&t.cols, 0);
    out.append(&mut hs);
    let mut nr = u32_to_le_bytes(nrows as u32);
    out.append(&mut nr);
    let mut cs = enc_cols_exec(&t.cols, 0);
    out.append(&mut cs);
    proof {
        assert(t.cols.deep_view() == t@);
        assert(out@ =~= enc_table(t@));
    }
    Ok(out)
}

fn dec_u32_exec(s: &Vec<u8>, i: usize) -> (r: Option<(u32, usize)>)
    ensures
        match r {
            Option::None => dec_u32(s@, i as int) is None,
            Option::Some(p) => dec_u32(s@, i as int) == Option::Some(
                (p.0 as int, p.1 as int),
            ),
        },
{
    if s.len() >= 4 && i <= s.len() - 4 {
        let b = slice_subrange(s.as_slice(), i, i + 4);
        let x = u32_from_le_bytes(b);
        Some((x, i + 4))
    } else {
        None
    }
}

fn dec_u64_exec(s: &Vec<u8>, i: usize) -> (r: Option<(u64, usize)>)
    ensures
        match r {
            Option::None => dec_u64(s@, i as int) is None,
            Option::Some(p) => dec_u64(s@, i as int) == Option::Some((p.0, p.1 as int)),
        },
{
    if s.len() >= 8 && i <= s.len() - 8 {
        let b = slice_subrange(s.as_slice(), i, i + 8);
        let x = u64_from_le_bytes(b);
        Some((x, i + 8))
    } else {
        None
    }
}

fn dec_str_exec(s: &Vec<u8>, i: usize) -> (r: Option<(String, usize)>)
    ensures
        match r {
            Option::None => dec_str(s@, i as int) is None,
            Option::Some(p) => dec_str(s@, i as int) == Option::Some((p.0@, p.1 as int)),
        },
{
    match dec_u32_exec(s, i) {
        None => None,
        Some((n, j)) => {
            let nu = n as usize;
            if nu <= s.len() && j <= s.len() - nu {
                let b = slice_to_vec(slice_subrange(s.as_slice(), j, j + nu));
                match bytes_to_string(&b) {
                    None => None,
                    Some(st) => {
                        proof {
                            vstd::utf8::encode_utf8_decode_utf8(st@);
                            assert(decode_utf8(s@.subrange(j as int, j as int + n as int))
                                == st@);
                        }
                        Some((st, j + nu))
                    },
                }
            } else {
                None
            }
        },
    }
}

fn dec_value_exec(s: &Vec<u8>, i: usize, ty: ColType) -> (r: Option<(Value, usize)>)
    ensures
        match r {
            Option::None => dec_value(s@, i as int, ty) is None,
            Option::Some(p) => dec_value(s@, i as int, ty) == Option::Some(
                (p.0@, p.1 as int),
            ),
        },
{
    if i >= s.len() {
        return None;
    }
    let flag = s[i];
    if flag == 0 {
        Some((Value::Null, i + 1))
    } else if flag == 1 {
        match ty {
            ColType::IntType => {
                match dec_u64_exec(s, i + 1) {
                    None => None,
                    Some((u, j)) => Some((Value::Int(bits_i64_exec(u)), j)),
                }
            },
            ColType::BoolType => {
                if s.len() >= 2 && i <= s.len() - 2 && (s[i + 1] == 0 || s[i + 1] == 1) {
                    Some((Value::Bool(s[i + 1] == 1), i + 2))
                } else {
                    None
                }
            },
            ColType::StrType => {
                match dec_str_exec(s, i + 1) {
                    None => None,
                    Some((st, j)) => Some((Value::Str(st), j)),
                }
            },
        }
    } else {
        None
    }
}

fn dec_vals_exec(s: &Vec<u8>, i: usize, ty: ColType, cnt: usize) -> (r: Option<
    (Vec<Value>, usize),
>)
    ensures
        match r {
            Option::None => dec_vals(s@, i as int, ty, cnt as int) is None,
            Option::Some(p) => dec_vals(s@, i as int, ty, cnt as int) == Option::Some(
                (p.0.deep_view(), p.1 as int),
            ),
        },
    decreases cnt,
{
    if cnt == 0 {
        let v: Vec<Value> = Vec::new();
        proof {
            assert(v.deep_view() =~= Seq::<ValueModel>::empty());
        }
        return Some((v, i));
    }
    match dec_value_exec(s, i, ty) {
        None => None,
        Some((v, j)) => {
            match dec_vals_exec(s, j, ty, cnt - 1) {
                None => None,
                Some((mut rest, k)) => {
                    let ghost old_deep = rest.deep_view();
                    rest.insert(0, v);
                    proof {
                        assert(rest.deep_view() =~= seq![dec_value(
                            s@,
                            i as int,
                            ty,
                        )->Some_0.0] + old_deep) by {
                            assert(forall|q: int|
                                0 <= q < rest@.len() ==> rest.deep_view()[q] == (
                                #[trigger] rest@[q]).deep_view());
                        }
                    }
                    Some((rest, k))
                },
            }
        },
    }
}

} // verus!

verus! {

pub open spec fn hs_view(hs: Seq<(String, ColType)>) -> Seq<(Seq<char>, ColType)> {
    Seq::new(hs.len(), |k: int| (hs[k].0@, hs[k].1))
}

fn dec_headers_exec(s: &Vec<u8>, i: usize, cnt: usize) -> (r: Option<
    (Vec<(String, ColType)>, usize),
>)
    ensures
        match r {
            Option::None => dec_headers(s@, i as int, cnt as int) is None,
            Option::Some(p) => dec_headers(s@, i as int, cnt as int) == Option::Some(
                (hs_view(p.0@), p.1 as int),
            ),
        },
    decreases cnt,
{
    if cnt == 0 {
        let v: Vec<(String, ColType)> = Vec::new();
        proof {
            assert(hs_view(v@) =~= Seq::<(Seq<char>, ColType)>::empty());
        }
        return Some((v, i));
    }
    match dec_str_exec(s, i) {
        None => None,
        Some((nm, j)) => {
            if j < s.len() {
                let tag = s[j];
                let ty: ColType = if tag == 1 {
                    ColType::IntType
                } else if tag == 2 {
                    ColType::BoolType
                } else if tag == 3 {
                    ColType::StrType
                } else {
                    proof {
                        assert(ty_of_tag(s@[j as int]) is None);
                    }
                    return None;
                };
                proof {
                    assert(ty_of_tag(s@[j as int]) == Option::Some(ty));
                }
                match dec_headers_exec(s, j + 1, cnt - 1) {
                    None => None,
                    Some((mut rest, k)) => {
                        let ghost old_hv = hs_view(rest@);
                        let ghost old_seq = rest@;
                        let ghost nmv = nm@;
                        rest.insert(0, (nm, ty));
                        proof {
                            assert(hs_view(rest@) =~= seq![(nmv, ty)] + old_hv) by {
                                assert(forall|q: int|
                                    1 <= q < rest@.len() ==> (#[trigger] rest@[q]) == old_seq[q
                                        - 1]);
                            }
                        }
                        Some((rest, k))
                    },
                }
            } else {
                None
            }
        },
    }
}

fn dec_cols_exec(
    s: &Vec<u8>,
    i: usize,
    hs: &Vec<(String, ColType)>,
    k: usize,
    nrows: usize,
) -> (r: Option<(Vec<Column>, usize)>)
    ensures
        match r {
            Option::None => dec_cols(s@, i as int, hs_view(hs@), k as int, nrows as int)
                is None,
            Option::Some(p) => dec_cols(s@, i as int, hs_view(hs@), k as int, nrows as int)
                == Option::Some((p.0.deep_view(), p.1 as int)),
        },
    decreases hs@.len() - k,
{
    if k >= hs.len() {
        let v: Vec<Column> = Vec::new();
        proof {
            assert(v.deep_view() =~= Seq::<ColModel>::empty());
        }
        return Some((v, i));
    }
    let ty = hs[k].1;
    proof {
        assert(hs_view(hs@)[k as int] == (hs@[k as int].0@, hs@[k as int].1));
    }
    match dec_vals_exec(s, i, ty, nrows) {
        None => None,
        Some((vals, j)) => {
            match dec_cols_exec(s, j, hs, k + 1, nrows) {
                None => None,
                Some((mut rest, m)) => {
                    let name = hs[k].0.clone();
                    let col = Column { name, ty, vals };
                    let ghost cm = col@;
                    let ghost old_deep = rest.deep_view();
                    rest.insert(0, col);
                    proof {
                        assert(rest.deep_view() =~= seq![cm] + old_deep) by {
                            assert(forall|q: int|
                                0 <= q < rest@.len() ==> rest.deep_view()[q] == (
                                #[trigger] rest@[q]).deep_view());
                        }
                        assert(cm == ColModel {
                            name: hs_view(hs@)[k as int].0,
                            ty: hs_view(hs@)[k as int].1,
                            vals: dec_vals(s@, i as int, ty, nrows as int)->Some_0.0,
                        });
                    }
                    Some((rest, m))
                },
            }
        },
    }
}

/// Reads a table from the container's payload bytes, taking names and types
/// from the embedded schema, exactly as `dec_table` says.
pub fn decode_table_bytes(s: &Vec<u8>) -> (r: Result<Table, ConvertError>)
    ensures
        match dec_table(s@) {
            Option::None => r == Result::<Table, ConvertError>::Err(ConvertError::DecodeError),
            Option::Some(tm) => r matches Ok(t) && t@ == tm,
        },
{
    let (nc, i1) = match dec_u32_exec(s, 0) {
        None => {
            return Err(ConvertError::DecodeError);
        },
        Some(p) => p,
    };
    let (hs, i2) = match dec_headers_exec(s, i1, nc as usize) {
        None => {
            return Err(ConvertError::DecodeError);
        },
        Some(p) => p,
    };
    let (nr, i3) = match dec_u32_exec(s, i2) {
        None => {
            return Err(ConvertError::DecodeError);
        },
        Some(p) => p,
    };
    let (cols, i4) = match dec_cols_exec(s, i3, &hs, 0, nr as usize) {
        None => {
            return Err(ConvertError::DecodeError);
        },
        Some(p) => p,
    };
    if i4 != s.len() || hs.len() != nc as usize {
        return Err(ConvertError::DecodeError);
    }
    let t = Table { cols };
    proof {
        assert(hs_view(hs@).len() == hs@.len());
        assert(t@ == dec_table(s@)->Some_0);
    }
    Ok(t)
}

/// Decoded cells match the column's declared type.
proof fn lemma_dec_vals_wf(s: Seq<u8>, i: int, ty: ColType, cnt: int)
    requires
        cnt >= 0,
        dec_vals(s, i, ty, cnt) is Some,
    ensures
        dec_vals(s, i, ty, cnt)->Some_0.0.len() == cnt,
        forall|q: int|
            0 <= q < cnt ==> crate::table::value_fits(
                #[trigger] dec_vals(s, i, ty, cnt)->Some_0.0[q],
                ty,
            ),
    decreases cnt,
{
    if cnt > 0 {
        let p = dec_value(s, i, ty)->Some_0;
        lemma_dec_vals_wf(s, p.1, ty, cnt - 1);
        let vs = dec_vals(s, i, ty, cnt)->Some_0.0;
        let rest = dec_vals(s, p.1, ty, cnt - 1)->Some_0.0;
        assert(vs == seq![p.0] + rest);
        assert(crate::table::value_fits(p.0, ty));
        assert forall|q: int| 0 <= q < cnt implies crate::table::value_fits(
            #[trigger] vs[q],
            ty,
        ) by {
            if q > 0 {
                assert(vs[q] == rest[q - 1]);
            }
        }
    }
}

/// Decoded columns carry the schema's names and types and share one row
/// count.
proof fn lemma_dec_cols_wf(s: Seq<u8>, i: int, hs: Seq<(Seq<char>, ColType)>, k: int, nrows: int)
    requires
        0 <= k <= hs.len(),
        nrows >= 0,
        dec_cols(s, i, hs, k, nrows) is Some,
    ensures
        dec_cols(s, i, hs, k, nrows)->Some_0.0.len() == hs.len() - k,
        forall|q: int|
            0 <= q < hs.len() - k ==> {
                let c = #[trigger] dec_cols(s, i, hs, k, nrows)->Some_0.0[q];
                crate::table::col_wf(c) && c.vals.len() == nrows
            },
    decreases hs.len() - k,
{
    if k < hs.len() {
        let p = dec_vals(s, i, hs[k].1, nrows)->Some_0;
        lemma_dec_vals_wf(s, i, hs[k].1, nrows);
        lemma_dec_cols_wf(s, p.1, hs, k + 1, nrows);
        let cs = dec_cols(s, i, hs, k, nrows)->Some_0.0;
        let rest = dec_cols(s, p.1, hs, k + 1, nrows)->Some_0.0;
        let c0 = ColModel { name: hs[k].0, ty: hs[k].1, vals: p.0 };
        assert(cs == seq![c0] + rest);
        assert(crate::table::col_wf(c0));
        assert forall|q: int| 0 <= q < hs.len() - k implies {
            let c = #[trigger] cs[q];
            crate::table::col_wf(c) && c.vals.len() == nrows
        } by {
            if q > 0 {
                assert(cs[q] == rest[q - 1]);
            }
        }
    }
}

/// Whatever payload decodes at all decodes to a well-formed table.
pub proof fn lemma_dec_table_wf(s: Seq<u8>)
    requires
        dec_table(s) is Some,
    ensures
        table_wf(dec_table(s)->Some_0),
{
    let p1 = dec_u32(s, 0)->Some_0;
    let p2 = dec_headers(s, p1.1, p1.0)->Some_0;
    let p3 = dec_u32(s, p2.1)->Some_0;
    lemma_dec_cols_wf(s, p3.1, p2.0, 0, p3.0);
    let t = dec_table(s)->Some_0;
    assert(t.len() == p2.0.len());
    if t.len() > 0 {
        assert(table_nrows(t) == t[0].vals.len());
    }
}

} // verus!

verus! {

/// The schema the container embeds: each column's name and type.
pub open spec fn hdr_model(t: Seq<ColModel>) -> Seq<(Seq<char>, ColType)> {
    Seq::new(t.len(), |j: int| (t[j].name, t[j].ty))
}

proof fn lemma_bits_roundtrip(x: i64)
    ensures
        bits_i64(i64_bits(x)) == x,
{
}

proof fn lemma_dec_enc_str(s: Seq<u8>, i: int, x: Seq<char>)
    requires
        0 <= i,
        i + enc_str(x).len() <= s.len(),
        s.subrange(i, i + enc_str(x).len()) == enc_str(x),
        encode_utf8(x).len() <= u32::MAX,
    ensures
        dec_str(s, i) == Option::Some((x, i + enc_str(x).len())),
{
    lemma_auto_spec_u32_to_from_le_bytes();
    let e = encode_utf8(x);
    let n = e.len() as int;
    let full = enc_str(x);
    assert(full.len() == 4 + n);
    assert(s.subrange(i, i + 4) =~= spec_u32_to_le_bytes(n as u32)) by {
        assert(forall|k: int|
            0 <= k < 4 ==> s.subrange(i, i + full.len())[k] == #[trigger] s.subrange(
                i,
                i + 4,
            )[k]);
    }
    assert(dec_u32(s, i) == Option::Some((n, i + 4)));
    assert(s.subrange(i + 4, i + 4 + n) =~= e) by {
        assert(forall|k: int|
            0 <= k < n ==> s.subrange(i, i + full.len())[k + 4] == #[trigger] s.subrange(
                i + 4,
                i + 4 + n,
            )[k]);
    }
    vstd::utf8::encode_utf8_valid_utf8(x);
    vstd::utf8::encode_utf8_decode_utf8(x);
}

proof fn lemma_dec_enc_value(s: Seq<u8>, i: int, v: ValueModel, ty: ColType)
    requires
        0 <= i,
        i + enc_value(v).len() <= s.len(),
        s.subrange(i, i + enc_value(v).len()) == enc_value(v),
        crate::table::value_fits(v, ty),
        val_size_ok(v),
    ensures
        dec_value(s, i, ty) == Option::Some((v, i + enc_value(v).len())),
{
    let e = enc_value(v);
    assert(s[i] == e[0]) by {
        assert(s.subrange(i, i + e.len())[0] == s[i]);
    }
    match v {
        ValueModel::Null => {
            assert(s[i] == 0);
        },
        ValueModel::Int(x) => {
            lemma_auto_spec_u64_to_from_le_bytes();
            assert(s[i] == 1);
            let ub = spec_u64_to_le_bytes(i64_bits(x));
            assert(e.len() == 9);
            assert(s.subrange(i + 1, i + 9) =~= ub) by {
                assert(forall|k: int|
                    0 <= k < 8 ==> s.subrange(i, i + 9)[k + 1] == #[trigger] s.subrange(
                        i + 1,
                        i + 9,
                    )[k]);
            }
            assert(dec_u64(s, i + 1) == Option::Some((i64_bits(x), i + 9)));
            lemma_bits_roundtrip(x);
        },
        ValueModel::Bool(b) => {
            assert(s[i] == 1);
            assert(s[i + 1] == e[1]) by {
                assert(s.subrange(i, i + 2)[1] == s[i + 1]);
            }
        },
        ValueModel::Str(x) => {
            assert(s[i] == 1);
            assert(s.subrange(i + 1, i + 1 + enc_str(x).len()) =~= enc_str(x)) by {
                assert(forall|k: int|
                    0 <= k < enc_str(x).len() ==> s.subrange(i, i + e.len())[k + 1]
                        == #[trigger] s.subrange(i + 1, i + 1 + enc_str(x).len())[k]);
            }
            lemma_dec_enc_str(s, i + 1, x);
        },
    }
}

proof fn lemma_dec_enc_vals(s: Seq<u8>, i: int, vals: Seq<ValueModel>, ty: ColType, k: int)
    requires
        0 <= i,
        0 <= k <= vals.len(),
        i + enc_vals_from(vals, k).len() <= s.len(),
        s.subrange(i, i + enc_vals_from(vals, k).len()) == enc_vals_from(vals, k),
        forall|q: int| 0 <= q < vals.len() ==> crate::table::value_fits(#[trigger] vals[q], ty),
        forall|q: int| 0 <= q < vals.len() ==> val_size_ok(#[trigger] vals[q]),
    ensures
        dec_vals(s, i, ty, vals.len() - k) == Option::Some(
            (vals.skip(k), i + enc_vals_from(vals, k).len()),
        ),
    decreases vals.len() - k,
{
    if k == vals.len() {
        assert(vals.skip(k) =~= Seq::<ValueModel>::empty());
    } else {
        let ev = enc_value(vals[k]);
        let rest = enc_vals_from(vals, k + 1);
        let full = enc_vals_from(vals, k);
        assert(full == ev + rest);
        assert(s.subrange(i, i + ev.len()) =~= ev) by {
            assert(forall|q: int|
                0 <= q < ev.len() ==> s.subrange(i, i + full.len())[q] == #[trigger] s.subrange(
                    i,
                    i + ev.len(),
                )[q]);
        }
        lemma_dec_enc_value(s, i, vals[k], ty);
        assert(s.subrange(i + ev.len(), i + full.len()) =~= rest) by {
            assert(forall|q: int|
                0 <= q < rest.len() ==> s.subrange(i, i + full.len())[q + ev.len()]
                    == #[trigger] s.subrange(i + ev.len(), i + full.len())[q]);
        }
        lemma_dec_enc_vals(s, i + ev.len(), vals, ty, k + 1);
        assert(seq![vals[k]] + vals.skip(k + 1) =~= vals.skip(k));
    }
}

proof fn lemma_dec_enc_headers(s: Seq<u8>, i: int, t: Seq<ColModel>, j: int)
    requires
        0 <= i,
        0 <= j <= t.len(),
        i + enc_headers_from(t, j).len() <= s.len(),
        s.subrange(i, i + enc_headers_from(t, j).len()) == enc_headers_from(t, j),
        forall|q: int|
            0 <= q < t.len() ==> encode_utf8((#[trigger] t[q]).name).len() <= u32::MAX,
    ensures
        dec_headers(s, i, t.len() - j) == Option::Some(
            (hdr_model(t).skip(j), i + enc_headers_from(t, j).len()),
        ),
    decreases t.len() - j,
{
    if j == t.len() {
        assert(hdr_model(t).skip(j) =~= Seq::<(Seq<char>, ColType)>::empty());
    } else {
        let es = enc_str(t[j].name);
        let rest = enc_headers_from(t, j + 1);
        let full = enc_headers_from(t, j);
        assert(full == es + seq![tag_of(t[j].ty)] + rest);
        assert(s.subrange(i, i + es.len()) =~= es) by {
            assert(forall|q: int|
                0 <= q < es.len() ==> s.subrange(i, i + full.len())[q] == #[trigger] s.subrange(
                    i,
                    i + es.len(),
                )[q]);
        }
        lemma_dec_enc_str(s, i, t[j].name);
        let jt = i + es.len();
        assert(s[jt] == tag_of(t[j].ty)) by {
            assert(s.subrange(i, i + full.len())[es.len() as int] == s[jt]);
        }
        assert(ty_of_tag(tag_of(t[j].ty)) == Option::Some(t[j].ty));
        assert(s.subrange(jt + 1, i + full.len()) =~= rest) by {
            assert(forall|q: int|
                0 <= q < rest.len() ==> s.subrange(i, i + full.len())[q + es.len() + 1]
                    == #[trigger] s.subrange(jt + 1, i + full.len())[q]);
        }
        lemma_dec_enc_headers(s, jt + 1, t, j + 1);
        assert(seq![(t[j].name, t[j].ty)] + hdr_model(t).skip(j + 1) =~= hdr_model(t).skip(j));
    }
}

proof fn lemma_dec_enc_cols(s: Seq<u8>, i: int, t: Seq<ColModel>, j: int)
    requires
        0 <= i,
        0 <= j <= t.len(),
        i + enc_cols_from(t, j).len() <= s.len(),
        s.subrange(i, i + enc_cols_from(t, j).len()) == enc_cols_from(t, j),
        table_wf(t),
        sizes_ok(t),
    ensures
        dec_cols(s, i, hdr_model(t), j, table_nrows(t)) == Option::Some(
            (t.skip(j), i + enc_cols_from(t, j).len()),
        ),
    decreases t.len() - j,
{
    if j == t.len() {
        assert(t.skip(j) =~= Seq::<ColModel>::empty());
    } else {
        let ev = enc_vals_from(t[j].vals, 0);
        let rest = enc_cols_from(t, j + 1);
        let full = enc_cols_from(t, j);
        assert(full == ev + rest);
        assert(s.subrange(i, i + ev.len()) =~= ev) by {
            assert(forall|q: int|
                0 <= q < ev.len() ==> s.subrange(i, i + full.len())[q] == #[trigger] s.subrange(
                    i,
                    i + ev.len(),
                )[q]);
        }
        lemma_dec_enc_vals(s, i, t[j].vals, t[j].ty, 0);
        assert(t[j].vals.skip(0) =~= t[j].vals);
        assert(t[j].vals.len() == table_nrows(t));
        assert(hdr_model(t)[j] == (t[j].name, t[j].ty));
        assert(s.subrange(i + ev.len(), i + full.len()) =~= rest) by {
            assert(forall|q: int|
                0 <= q < rest.len() ==> s.subrange(i, i + full.len())[q + ev.len()]
                    == #[trigger] s.subrange(i + ev.len(), i + full.len())[q]);
        }
        lemma_dec_enc_cols(s, i + ev.len(), t, j + 1);
        let c0 = ColModel { name: t[j].name, ty: t[j].ty, vals: t[j].vals };
        assert(c0 == t[j]);
        assert(seq![t[j]] + t.skip(j + 1) =~= t.skip(j));
    }
}

/// The container round-trips exactly: decoding what encoding produced gives
/// the very table back.
pub proof fn lemma_dec_enc_table(t: Seq<ColModel>)
    requires
        table_wf(t),
        sizes_ok(t),
    ensures
        dec_table(enc_table(t)) == Option::Some(t),
{
    lemma_auto_spec_u32_to_from_le_bytes();
    let s = enc_table(t);
    let a = enc_u32v(t.len() as int);
    let b = enc_headers_from(t, 0);
    let c = enc_u32v(table_nrows(t));
    let d = enc_cols_from(t, 0);
    assert(s == a + b + c + d);
    assert(a.len() == 4 && c.len() == 4);
    assert(s.subrange(0, 4) =~= a);
    assert(dec_u32(s, 0) == Option::Some((t.len() as int, 4int)));
    assert(s.subrange(4, 4 + b.len() as int) =~= b) by {
        assert(forall|q: int| 0 <= q < b.len() ==> s[q + 4] == #[trigger] b[q]);
        assert(forall|q: int|
            0 <= q < b.len() ==> #[trigger] s.subrange(4, 4 + b.len() as int)[q] == s[q + 4]);
    }
    lemma_dec_enc_headers(s, 4, t, 0);
    assert(hdr_model(t).skip(0) =~= hdr_model(t));
    let i2 = 4 + b.len() as int;
    assert(s.subrange(i2, i2 + 4) =~= c) by {
        assert(forall|q: int| 0 <= q < 4 ==> s[q + i2] == #[trigger] c[q]);
        assert(forall|q: int|
            0 <= q < 4 ==> #[trigger] s.subrange(i2, i2 + 4)[q] == s[q + i2]);
    }
    assert(dec_u32(s, i2) == Option::Some((table_nrows(t), i2 + 4int)));
    let i3 = i2 + 4;
    assert(s.subrange(i3, i3 + d.len()) =~= d) by {
        assert(forall|q: int| 0 <= q < d.len() ==> s[q + i3] == #[trigger] d[q]);
        assert(forall|q: int|
            0 <= q < d.len() ==> #[trigger] s.subrange(i3, i3 + d.len())[q] == s[q + i3]);
    }
    lemma_dec_enc_cols(s, i3, t, 0);
    assert(t.skip(0) =~= t);
    assert(i3 + d.len() == s.len());
    assert(hdr_model(t).len() == t.len());
}

} // verus!
