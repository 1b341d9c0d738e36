use vstd::prelude::*;

verus! {

/// The decimal digit character for `d` in `0..10`.
pub open spec fn digit_char(d: int) -> char {
    ((48 + d) as u8) as char
}

pub open spec fn is_digit(c: char) -> bool {
    48 <= c as u32 <= 57
}

pub open spec fn digit_val(c: char) -> int {
    c as u32 - 48
}

/// The canonical decimal digits of `n`, most significant first.
pub open spec fn dec_digits(n: nat) -> Seq<char>
    decreases n,
{
    if n < 10 {
        seq![digit_char(n as int)]
    } else {
        dec_digits(n / 10).push(digit_char((n % 10) as int))
    }
}

/// The canonical decimal text of an integer: optional minus sign, then
/// digits with no leading zero.
pub open spec fn spec_render_int(v: int) -> Seq<char> {
    if v >= 0 {
        dec_digits(v as nat)
    } else {
        seq!['-'] + dec_digits((-v) as nat)
    }
}

pub open spec fn all_digits(s: Seq<char>) -> bool {
    forall|i: int| 0 <= i < s.len() ==> is_digit(#[trigger] s[i])
}

/// The value of a digit string, most significant first.
pub open spec fn digits_val(s: Seq<char>) -> int
    decreases s.len(),
{
    if s.len() == 0 {
        0
    } else {
        digits_val(s.drop_last()) * 10 + digit_val(s.last())
    }
}

/// What a token denotes as an integer: an optional minus sign and one or
/// more decimal digits, whose value fits in `i64`; anything else is not an
/// integer token.
pub open spec fn spec_parse_int(s: Seq<char>) -> Option<int> {
    let neg = s.len() > 0 && s[0] == '-';
    let ds = if neg {
        s.skip(1)
    } else {
        s
    };
    if ds.len() == 0 || !all_digits(ds) {
        None
    } else {
        let v = if neg {
            -digits_val(ds)
        } else {
            digits_val(ds)
        };
        if i64::MIN <= v <= i64::MAX {
            Some(v)
        } else {
            None
        }
    }
}

pub open spec fn spec_parse_i64(s: Seq<char>) -> Option<i64> {
    match spec_parse_int(s) {
        Option::None => Option::None,
        Option::Some(v) => Option::Some(v as i64),
    }
}

/// What a token denotes as a boolean: exactly `true` or `false`.
pub open spec fn spec_parse_bool(s: Seq<char>) -> Option<bool> {
    if s == "true"@ {
        Option::Some(true)
    } else if s == "false"@ {
        Option::Some(false)
    } else {
        Option::None
    }
}

pub proof fn lemma_dec_digits_digits(n: nat)
    ensures
        all_digits(dec_digits(n)),
        dec_digits(n).len() >= 1,
        is_digit(dec_digits(n)[0]),
    decreases n,
{
    if n < 10 {
    } else {
        lemma_dec_digits_digits(n / 10);
        assert(dec_digits(n) == dec_digits(n / 10).push(digit_char((n % 10) as int)));
        assert forall|i: int| 0 <= i < dec_digits(n).len() implies is_digit(
            #[trigger] dec_digits(n)[i],
        ) by {
            if i < dec_digits(n / 10).len() {
                assert(dec_digits(n)[i] == dec_digits(n / 10)[i]);
            }
        }
    }
}

pub proof fn lemma_dec_digits_val(n: nat)
    ensures
        digits_val(dec_digits(n)) == n,
    decreases n,
{
    if n < 10 {
        let s = dec_digits(n);
        assert(s == seq![digit_char(n as int)]);
        assert(s.drop_last() =~= Seq::<char>::empty());
        assert(digits_val(s) == digits_val(s.drop_last()) * 10 + digit_val(s.last()));
        assert(digits_val(Seq::<char>::empty()) == 0);
        assert(s.last() == digit_char(n as int));
        assert(digit_val(digit_char(n as int)) == n);
    } else {
        lemma_dec_digits_val(n / 10);
        let d = dec_digits(n);
        assert(d.drop_last() =~= dec_digits(n / 10));
        assert(digit_val(d.last()) == n % 10);
    }
}

/// Parsing the canonical text of an integer gives the integer back.
pub proof fn lemma_render_parse_int(v: int)
    requires
        i64::MIN <= v <= i64::MAX,
    ensures
        spec_parse_int(spec_render_int(v)) == Some(v),
{
    let s = spec_render_int(v);
    if v >= 0 {
        lemma_dec_digits_digits(v as nat);
        lemma_dec_digits_val(v as nat);
        assert(s[0] != '-') by {
            assert(is_digit(s[0]));
        }
        assert(spec_parse_int(s) == Some(v));
    } else {
        lemma_dec_digits_digits((-v) as nat);
        lemma_dec_digits_val((-v) as nat);
        assert(s[0] == '-');
        assert(s.skip(1) =~= dec_digits((-v) as nat));
        assert(spec_parse_int(s) == Some(v));
    }
}

/// The canonical text of an integer is never empty and never the text of a
/// boolean.
pub proof fn lemma_render_int_shape(v: int)
    ensures
        spec_render_int(v).len() >= 1,
        spec_parse_bool(spec_render_int(v)) is None,
{
    let s = spec_render_int(v);
    if v >= 0 {
        lemma_dec_digits_digits(v as nat);
    } else {
        lemma_dec_digits_digits((-v) as nat);
    }
    proof_bool_words();
    assert(!is_digit('t') && !is_digit('f') && 't' != '-' && 'f' != '-');
    if s == "true"@ {
        assert(s[0] == 't');
        assert(false);
    }
    if s == "false"@ {
        assert(s[0] == 'f');
        assert(false);
    }
}

/// The texts `true` and `false` are not integer tokens.
pub proof fn lemma_bool_words_not_int()
    ensures
        spec_parse_int("true"@) is None,
        spec_parse_int("false"@) is None,
{
    proof_bool_words();
    assert(!is_digit('t') && !is_digit('f'));
    assert('t' != '-' && 'f' != '-');
    let t = "true"@;
    if spec_parse_int(t) is Some {
        assert(all_digits(t));
        assert(is_digit(t[0]));
        assert(false);
    }
    let f = "false"@;
    if spec_parse_int(f) is Some {
        assert(all_digits(f));
        assert(is_digit(f[0]));
        assert(false);
    }
}

proof fn proof_bool_words()
    ensures
        "true"@.len() == 4,
        "true"@[0] == 't',
        "false"@.len() == 5,
        "false"@[0] == 'f',
{
    reveal_strlit("true");
    reveal_strlit("false");
}

proof fn lemma_digits_val_take_step(s: Seq<char>, i: int)
    requires
        0 <= i < s.len(),
    ensures
        digits_val(s.take(i + 1)) == digits_val(s.take(i)) * 10 + digit_val(s[i]),
{
    assert(s.take(i + 1).drop_last() =~= s.take(i));
    assert(s.take(i + 1).last() == s[i]);
}

proof fn lemma_digits_val_nonneg(s: Seq<char>)
    requires
        all_digits(s),
    ensures
        digits_val(s) >= 0,
    decreases s.len(),
{
    if s.len() > 0 {
        assert(all_digits(s.drop_last())) by {
            assert(forall|i: int|
                0 <= i < s.len() - 1 ==> #[trigger] s.drop_last()[i] == s[i]);
        }
        lemma_digits_val_nonneg(s.drop_last());
        assert(is_digit(s.last()));
    }
}

proof fn lemma_digits_val_grows(s: Seq<char>, i: int, j: int)
    requires
        all_digits(s),
        0 <= i <= j <= s.len(),
    ensures
        digits_val(s.take(j)) >= digits_val(s.take(i)),
    decreases j - i,
{
    if i < j {
        lemma_digits_val_grows(s, i, j - 1);
        lemma_digits_val_take_step(s, j - 1);
        assert(all_digits(s.take(i))) by {
            assert(forall|k: int| 0 <= k < i ==> #[trigger] s.take(i)[k] == s[k]);
        }
        lemma_digits_val_nonneg(s.take(i));
        let p = digits_val(s.take(j - 1));
        assert(p >= digits_val(s.take(i)));
        assert(all_digits(s.take(j - 1))) by {
            assert(forall|k: int| 0 <= k < j - 1 ==> #[trigger] s.take(j - 1)[k] == s[k]);
        }
        lemma_digits_val_nonneg(s.take(j - 1));
        assert(p * 10 >= p) by (nonlinear_arith)
            requires
                p >= 0,
        ;
    }
}

/// Parses a token as an integer, exactly as `spec_parse_int` says.
pub fn parse_int_chars(s: &Vec<char>) -> (r: Option<i64>)
    ensures
        r == spec_parse_i64(s@),
{
    let n = s.len();
    let neg = n > 0 && s[0] == '-';
    let start: usize = if neg {
        1
    } else {
        0
    };
    let ghost ds = if neg {
        s@.skip(1)
    } else {
        s@
    };
    proof {
        assert(ds.len() == n - start);
        assert(forall|k: int| 0 <= k < ds.len() ==> #[trigger] ds[k] == s@[k + start]);
    }
    if start >= n {
        proof {
            assert(ds.len() == 0);
        }
        return None;
    }
    let mut acc: u64 = 0;
    let mut i: usize = start;
    while i < n
        invariant
            start <= i <= n,
            n == s@.len(),
            start == if neg { 1int } else { 0int },
            neg ==> s@.len() > 0 && s@[0] == '-',
            !neg ==> !(s@.len() > 0 && s@[0] == '-'),
            ds == if neg { s@.skip(1) } else { s@ },
            ds.len() == n - start,
            forall|k: int| 0 <= k < ds.len() ==> #[trigger] ds[k] == s@[k + start],
            all_digits(ds.take(i - start)),
            acc as int == digits_val(ds.take(i - start)),
        decreases n - i,
    {
        let c = s[i];
        let u = c as u32;
        if !(48 <= u && u <= 57) {
            proof {
                assert(ds[i - start] == c);
                assert(!is_digit(c));
                assert(!all_digits(ds));
            }
            return None;
        }
        let d = (u - 48) as u64;
        proof {
            lemma_digits_val_take_step(ds, i - start);
        }
        if acc > (u64::MAX - d) / 10 {
            proof {
                let v1 = digits_val(ds.take(i - start + 1));
                assert(acc as int * 10 + d > u64::MAX) by (nonlinear_arith)
                    requires
                        acc as int > (u64::MAX - d) / 10,
                        0 <= d <= 9,
                ;
                assert(v1 > u64::MAX);
                assert(all_digits(ds.take(i - start + 1))) by {
                    assert(forall|k: int|
                        0 <= k < i - start + 1 ==> #[trigger] ds.take(i - start + 1)[k] == ds[k]);
                    assert(ds[i - start] == c);
                }
                if all_digits(ds) {
                    lemma_digits_val_grows(ds, i - start + 1, ds.len() as int);
                    assert(ds.take(ds.len() as int) =~= ds);
                    assert(digits_val(ds) > u64::MAX);
                }
            }
            return None;
        }
        acc = acc * 10 + d;
        proof {
            assert(ds.take(i - start + 1).drop_last() =~= ds.take(i - start));
            assert(all_digits(ds.take(i + 1 - start))) by {
                assert(forall|k: int|
                    0 <= k < i - start + 1 ==> #[trigger] ds.take(i - start + 1)[k] == ds[k]);
                assert(ds[i - start] == c);
            }
        }
        i += 1;
    }
    proof {
        assert(ds.take(ds.len() as int) =~= ds);
        assert(all_digits(ds));
        assert(acc as int == digits_val(ds));
    }
    if neg {
        if acc > 9223372036854775808u64 {
            return None;
        }
        let w: i128 = -(acc as i128);
        Some(w as i64)
    } else {
        if acc > i64::MAX as u64 {
            return None;
        }
        Some(acc as i64)
    }
}

/// Parses a token as a boolean, exactly as `spec_parse_bool` says.
pub fn parse_bool_chars(s: &Vec<char>) -> (r: Option<bool>)
    ensures
        r == spec_parse_bool(s@),
{
    proof {
        reveal_strlit("true");
        reveal_strlit("false");
    }
    if s.len() == 4 {
        if s[0] == 't' && s[1] == 'r' && s[2] == 'u' && s[3] == 'e' {
            proof {
                assert(s@ =~= "true"@);
            }
            Some(true)
        } else {
            proof {
                if s@ == "true"@ {
                    assert(s@[0] == 't' && s@[1] == 'r' && s@[2] == 'u' && s@[3] == 'e');
                }
            }
            None
        }
    } else if s.len() == 5 {
        if s[0] == 'f' && s[1] == 'a' && s[2] == 'l' && s[3] == 's' && s[4] == 'e' {
            proof {
                assert(s@ =~= "false"@);
            }
            Some(false)
        } else {
            proof {
                if s@ == "false"@ {
                    assert(s@[0] == 'f' && s@[1] == 'a' && s@[2] == 'l' && s@[3] == 's'
                        && s@[4] == 'e');
                }
            }
            None
        }
    } else {
        None
    }
}

/// Renders an integer in its canonical decimal text.
fn render_u64(n: u64) -> (r: Vec<char>)
    ensures
        r@ == dec_digits(n as nat),
    decreases n,
{
    if n < 10 {
        let mut v: Vec<char> = Vec::new();
        let c = ((48 + n as u8)) as char;
        v.push(c);
        proof {
            assert(v@ =~= dec_digits(n as nat));
        }
        v
    } else {
        let mut v = render_u64(n / 10);
        let c = ((48 + (n % 10) as u8)) as char;
        v.push(c);
        v
    }
}

/// Renders an `i64` in its canonical decimal text.
pub fn render_int(x: i64) -> (r: Vec<char>)
    ensures
        r@ == spec_render_int(x as int),
{
    if x >= 0 {
        render_u64(x as u64)
    } else {
        let m: i128 = -(x as i128);
        let mut v: Vec<char> = Vec::new();
        v.push('-');
        let mut d = render_u64(m as u64);
        v.append(&mut d);
        proof {
            assert(v@ =~= seq!['-'] + dec_digits((-(x as int)) as nat));
        }
        v
    }
}

} // verus!
