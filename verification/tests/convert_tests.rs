use tableconv::convert::convert_bytes;
use tableconv::formats::{ConvertError, Format};
use tableconv::formats::resolve_format;
use tableconv::convert::read_table;
use tableconv::sorting::sort_table;
use tableconv::table::{ColType, Value};

fn conv(inp: &str, outp: &str, data: &str, sort: bool) -> Result<Vec<u8>, ConvertError> {
    convert_bytes(inp, outp, &data.as_bytes().to_vec(), sort)
}

fn conv_bytes(inp: &str, outp: &str, data: Vec<u8>, sort: bool) -> Result<Vec<u8>, ConvertError> {
    convert_bytes(inp, outp, &data, sort)
}

#[test]
fn resolve_known_extensions() {
    assert_eq!(resolve_format("a.csv"), Ok(Format::DelimitedText));
    assert_eq!(resolve_format("dir/sub/a.parquet"), Ok(Format::ColumnarBinary));
    assert_eq!(resolve_format("data.txt"), Err(ConvertError::UnsupportedFormat));
    assert_eq!(resolve_format("noext"), Err(ConvertError::UnsupportedFormat));
    assert_eq!(resolve_format("dir.csv/file"), Err(ConvertError::UnsupportedFormat));
    assert_eq!(resolve_format("a.CSV"), Err(ConvertError::UnsupportedFormat));
}

#[test]
fn unsupported_input_extension_fails_before_content() {
    let r = conv("data.txt", "out.csv", "n\n1\n", false);
    assert_eq!(r, Err(ConvertError::UnsupportedFormat));
}

#[test]
fn unsupported_output_extension_fails() {
    let r = conv("data.csv", "out.bin", "n\n1\n", false);
    assert_eq!(r, Err(ConvertError::UnsupportedFormat));
}

#[test]
fn no_sort_preserves_row_order() {
    let input = "n,s\n2,b\n1,a\n";
    let out = conv("in.csv", "out.csv", input, false).unwrap();
    assert_eq!(String::from_utf8(out).unwrap(), "n,s\n2,b\n1,a\n");
}

#[test]
fn sort_orders_rows() {
    let input = "n,s\n2,b\n1,a\n";
    let out = conv("in.csv", "out.csv", input, true).unwrap();
    assert_eq!(String::from_utf8(out).unwrap(), "n,s\n1,a\n2,b\n");
}

#[test]
fn round_trip_through_binary() {
    let input = "name,count,flag\nalice,3,true\nbob,,false\n,7,\n";
    let bin = conv("in.csv", "mid.parquet", input, false).unwrap();
    let back = conv_bytes("mid.parquet", "out.csv", bin, false).unwrap();
    assert_eq!(String::from_utf8(back).unwrap(), input);
}

#[test]
fn binary_write_is_deterministic() {
    let input = "a,b\n1,x\n2,y\n";
    let one = conv("in.csv", "out.parquet", input, false).unwrap();
    let two = conv("in.csv", "out.parquet", input, false).unwrap();
    assert_eq!(one, two);
}

#[test]
fn sort_stable_across_formats() {
    let input = "k,v\n3,c\n1,a\n2,b\n";
    let via_bin = conv("in.csv", "m.parquet", input, true).unwrap();
    let bin_back = conv_bytes("m.parquet", "out.csv", via_bin, false).unwrap();
    let via_text = conv("in.csv", "out.csv", input, true).unwrap();
    assert_eq!(bin_back, via_text);
}

#[test]
fn integer_column_inference() {
    let t = read_table(&b"c\n1\n2\n3\n".to_vec(), Format::DelimitedText).unwrap();
    assert_eq!(t.cols.len(), 1);
    assert_eq!(t.cols[0].ty, ColType::IntType);
    assert_eq!(
        t.cols[0].vals,
        vec![Value::Int(1), Value::Int(2), Value::Int(3)]
    );
}

#[test]
fn mixed_column_is_string() {
    let t = read_table(&b"c\n1\n2\nx\n".to_vec(), Format::DelimitedText).unwrap();
    assert_eq!(t.cols[0].ty, ColType::StrType);
    assert_eq!(
        t.cols[0].vals,
        vec![
            Value::Str("1".to_string()),
            Value::Str("2".to_string()),
            Value::Str("x".to_string())
        ]
    );
}

#[test]
fn boolean_column_with_null() {
    let t = read_table(&b"b\ntrue\n\nfalse\n".to_vec(), Format::DelimitedText).unwrap();
    assert_eq!(t.cols[0].ty, ColType::BoolType);
    assert_eq!(
        t.cols[0].vals,
        vec![Value::Bool(true), Value::Null, Value::Bool(false)]
    );
}

#[test]
fn sort_is_idempotent_on_table() {
    let t = read_table(&b"n,s\n2,b\n1,a\n3,\n".to_vec(), Format::DelimitedText).unwrap();
    let once = sort_table(&t);
    let twice = sort_table(&once);
    assert_eq!(once, twice);
}

#[test]
fn nulls_sort_before_values() {
    let input = "n\n2\n\n1\n";
    let out = conv("in.csv", "out.csv", input, true).unwrap();
    assert_eq!(String::from_utf8(out).unwrap(), "n\n\n1\n2\n");
}

#[test]
fn ragged_row_is_decode_error() {
    let r = conv("in.csv", "out.csv", "a,b\n1\n", false);
    assert_eq!(r, Err(ConvertError::DecodeError));
}

#[test]
fn invalid_utf8_is_decode_error() {
    let r = conv_bytes("in.csv", "out.csv", vec![0xff, 0xfe, 0x0a], false);
    assert_eq!(r, Err(ConvertError::DecodeError));
}

#[test]
fn empty_text_is_decode_error() {
    let r = conv("in.csv", "out.csv", "", false);
    assert_eq!(r, Err(ConvertError::DecodeError));
}

#[test]
fn garbage_binary_is_decode_error() {
    let r = conv_bytes("in.parquet", "out.csv", vec![1, 2, 3, 4, 5], false);
    assert_eq!(r, Err(ConvertError::DecodeError));
}

#[test]
fn quoted_fields_round_trip() {
    let input = "s\n\"a,b\"\n\"he said \"\"hi\"\"\"\nplain\n";
    let out = conv("in.csv", "out.csv", input, false).unwrap();
    assert_eq!(String::from_utf8(out).unwrap(), input);
    let bin = conv("in.csv", "m.parquet", input, false).unwrap();
    let back = conv_bytes("m.parquet", "out.csv", bin, false).unwrap();
    assert_eq!(String::from_utf8(back).unwrap(), input);
}

#[test]
fn extreme_integers_round_trip() {
    let input = "n\n-9223372036854775808\n9223372036854775807\n0\n";
    let bin = conv("in.csv", "m.parquet", input, false).unwrap();
    let back = conv_bytes("m.parquet", "out.csv", bin, false).unwrap();
    assert_eq!(String::from_utf8(back).unwrap(), input);
}

#[test]
fn leading_zero_integer_is_canonicalized() {
    let t = read_table(&b"n\n007\n".to_vec(), Format::DelimitedText).unwrap();
    assert_eq!(t.cols[0].ty, ColType::IntType);
    assert_eq!(t.cols[0].vals, vec![Value::Int(7)]);
    let out = conv("in.csv", "out.csv", "n\n007\n", false).unwrap();
    assert_eq!(String::from_utf8(out).unwrap(), "n\n7\n");
}

#[test]
fn overflowing_integer_becomes_string() {
    let t = read_table(&b"n\n99999999999999999999\n".to_vec(), Format::DelimitedText).unwrap();
    assert_eq!(t.cols[0].ty, ColType::StrType);
}

#[test]
fn sort_uses_later_columns_as_tie_break() {
    let input = "a,b\n1,z\n1,a\n0,q\n";
    let out = conv("in.csv", "out.csv", input, true).unwrap();
    assert_eq!(String::from_utf8(out).unwrap(), "a,b\n0,q\n1,a\n1,z\n");
}

#[test]
fn missing_final_newline_still_parses() {
    let t = read_table(&b"a\n1".to_vec(), Format::DelimitedText).unwrap();
    assert_eq!(t.cols[0].ty, ColType::IntType);
    assert_eq!(t.cols[0].vals, vec![Value::Int(1)]);
}

#[test]
fn extension_of_hidden_file_counts() {
    assert_eq!(resolve_format(".csv"), Ok(Format::DelimitedText));
}

#[test]
fn all_null_column_round_trips_rendered() {
    let input = "a,b\n1,\n2,\n";
    let bin = conv("in.csv", "m.parquet", input, false).unwrap();
    let back = conv_bytes("m.parquet", "out.csv", bin, false).unwrap();
    assert_eq!(String::from_utf8(back).unwrap(), input);
}

#[test]
fn header_only_file_gives_empty_table() {
    let t = read_table(&b"x,y\n".to_vec(), Format::DelimitedText).unwrap();
    assert_eq!(t.cols.len(), 2);
    assert_eq!(t.cols[0].vals.len(), 0);
    assert_eq!(t.cols[0].name, "x");
    assert_eq!(t.cols[1].name, "y");
}

#[test]
fn trailing_separator_is_ignored() {
    assert_eq!(resolve_format("a.csv/"), Ok(Format::DelimitedText));
    assert_eq!(resolve_format("dir/a.parquet//"), Ok(Format::ColumnarBinary));
    assert_eq!(resolve_format("/"), Err(ConvertError::UnsupportedFormat));
}
