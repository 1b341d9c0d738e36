use vstd::prelude::*;
use vstd::utf8::{encode_utf8, decode_utf8, valid_utf8};
use crate::binary::{enc_table, dec_table, sizes_ok, encode_table_bytes, decode_table_bytes,
    lemma_dec_table_wf};
use crate::compress::{zstd_frame, compress_bytes, decompress_bytes};
use crate::csv::{spec_parse_table, spec_render_table, parse_delimited, render_table,
    lemma_parse_table_wf};
use crate::formats::{Format, ConvertError, spec_resolve, resolve_format};
use crate::sorting::{sort_table_spec, sort_table, lemma_sort_table_wf};
use crate::table::{Table, ColModel, table_wf};
use crate::text::{bytes_to_string, string_to_bytes, str_to_chars, chars_to_string};

verus! {

/// What one conversion writes for the table it read: the optionally sorted
/// table in the output format; only the columnar container can refuse a
/// table, and only over its size fields or its codec.
pub open spec fn pipeline_result(
    t: Seq<ColModel>,
    fout: Format,
    sort: bool,
    r: Result<Vec<u8>, ConvertError>,
) -> bool {
    let t2 = if sort {
        sort_table_spec(t)
    } else {
        t
    };
    match fout {
        Format::DelimitedText => r matches Ok(b) && b@ == encode_utf8(spec_render_table(t2)),
        Format::ColumnarBinary => if sizes_ok(t2) {
            r matches Ok(b) && b@ == zstd_frame(enc_table(t2))
        } else {
            r == Result::<Vec<u8>, ConvertError>::Err(ConvertError::EncodeError)
        },
    }
}

/// The whole conversion, path to path: resolution first, then read, the
/// optional sort, and the write.
pub open spec fn convert_post(
    inp: Seq<char>,
    outp: Seq<char>,
    data: Seq<u8>,
    sort: bool,
    r: Result<Vec<u8>, ConvertError>,
) -> bool {
    match spec_resolve(inp) {
        Option::None => r == Result::<Vec<u8>, ConvertError>::Err(
            ConvertError::UnsupportedFormat,
        ),
        Option::Some(fin) => match spec_resolve(outp) {
            Option::None => r == Result::<Vec<u8>, ConvertError>::Err(
                ConvertError::UnsupportedFormat,
            ),
            Option::Some(fout) => match fin {
                Format::DelimitedText => {
                    if !valid_utf8(data) {
                        r == Result::<Vec<u8>, ConvertError>::Err(ConvertError::DecodeError)
                    } else {
                        match spec_parse_table(decode_utf8(data)) {
                            Option::None => r == Result::<Vec<u8>, ConvertError>::Err(
                                ConvertError::DecodeError,
                            ),
                            Option::Some(t) => pipeline_result(t, fout, sort, r),
                        }
                    }
                },
                Format::ColumnarBinary => {
                    &&& (forall|p: Seq<u8>|
                        data == #[trigger] zstd_frame(p) ==> (match dec_table(p) {
                            Option::None => r == Result::<Vec<u8>, ConvertError>::Err(
                                ConvertError::DecodeError,
                            ),
                            Option::Some(t) => pipeline_result(t, fout, sort, r),
                        }))
                    &&& (r is Ok || r == Result::<Vec<u8>, ConvertError>::Err(
                        ConvertError::DecodeError,
                    ) || r == Result::<Vec<u8>, ConvertError>::Err(ConvertError::EncodeError))
                    &&& (r is Ok ==> exists|t: Seq<ColModel>|
                        table_wf(t) && pipeline_result(t, fout, sort, r))
                },
            },
        },
    }
}

/// Reads a table from raw file bytes in the given format.  Text input is
/// decoded as UTF-8 and parsed with full type inference; binary input is
/// decompressed and decoded by the embedded schema.
pub fn read_table(data: &Vec<u8>, f: Format) -> (r: Result<Table, ConvertError>)
    ensures
        r matches Ok(t) ==> table_wf(t@),
        r matches Err(e) ==> e == ConvertError::DecodeError,
        f == Format::DelimitedText ==> (match r {
            Result::Ok(t) => valid_utf8(data@) && spec_parse_table(decode_utf8(data@))
                == Option::Some(t@),
            Result::Err(_) => !valid_utf8(data@) || spec_parse_table(decode_utf8(data@))
                is None,
        }),
        f == Format::ColumnarBinary ==> (forall|p: Seq<u8>|
            data@ == #[trigger] zstd_frame(p) ==> (match r {
                Result::Ok(t) => dec_table(p) == Option::Some(t@),
                Result::Err(_) => dec_table(p) is None,
            })),
        f == Format::ColumnarBinary ==> (r matches Ok(t) ==> exists|p: Seq<u8>|
            dec_table(p) == Option::Some(t@)),
{
    match f {
        Format::DelimitedText => {
            let s = match bytes_to_string(data) {
                None => {
                    return Err(ConvertError::DecodeError);
                },
                Some(s) => s,
            };
            proof {
                vstd::utf8::encode_utf8_decode_utf8(s@);
            }
            let chars = str_to_chars(s.as_str());
            match parse_delimited(&chars) {
                Err(e) => {
                    proof {
                        assert(spec_parse_table(decode_utf8(data@)) is None);
                    }
                    Err(ConvertError::DecodeError)
                },
                Ok(t) => {
                    proof {
                        lemma_parse_table_wf(decode_utf8(data@));
                    }
                    Ok(t)
                },
            }
        },
        Format::ColumnarBinary => {
            let payload = match decompress_bytes(data) {
                None => {
                    return Err(ConvertError::DecodeError);
                },
                Some(p) => p,
            };
            match decode_table_bytes(&payload) {
                Err(e) => Err(ConvertError::DecodeError),
                Ok(t) => {
                    proof {
                        lemma_dec_table_wf(payload@);
                        assert(dec_table(payload@) == Option::Some(t@));
                    }
                    Ok(t)
                },
            }
        },
    }
}

/// Writes a table as file bytes in the given format.  Text output always
/// succeeds; the columnar container is compressed at the codec's maximum
/// level and succeeds exactly when no count or string length overflows its
/// 32-bit size fields.
pub fn write_table(t: &Table, f: Format) -> (r: Result<Vec<u8>, ConvertError>)
    requires
        table_wf(t@),
    ensures
        f == Format::DelimitedText ==> (r matches Ok(b) && b@ == encode_utf8(
            spec_render_table(t@),
        )),
        f == Format::ColumnarBinary ==> (if sizes_ok(t@) {
            r matches Ok(b) && b@ == zstd_frame(enc_table(t@))
        } else {
            r == Result::<Vec<u8>, ConvertError>::Err(ConvertError::EncodeError)
        }),
{
    match f {
        Format::DelimitedText => {
            let chars = render_table(t);
            let s = chars_to_string(&chars);
            Ok(string_to_bytes(s.as_str()))
        },
        Format::ColumnarBinary => {
            let payload = match encode_table_bytes(t) {
                Err(e) => {
                    return Err(ConvertError::EncodeError);
                },
                Ok(p) => p,
            };
            Ok(compress_bytes(&payload))
        },
    }
}

/// One whole conversion over in-memory bytes: pick both formats from the
/// two paths (failing before any content is touched), read, sort when asked
/// (and only then), and write.  Never returns `IoError` or `SortError`.
pub fn convert_bytes(input_path: &str, output_path: &str, data: &Vec<u8>, sort: bool) -> (r:
    Result<Vec<u8>, ConvertError>)
    ensures
        convert_post(input_path@, output_path@, data@, sort, r),
        r is Ok || r == Result::<Vec<u8>, ConvertError>::Err(ConvertError::UnsupportedFormat)
            || r == Result::<Vec<u8>, ConvertError>::Err(ConvertError::DecodeError) || r
            == Result::<Vec<u8>, ConvertError>::Err(ConvertError::EncodeError),
{
    let fin = match resolve_format(input_path) {
        Err(e) => {
            return Err(ConvertError::UnsupportedFormat);
        },
        Ok(f) => f,
    };
    let fout = match resolve_format(output_path) {
        Err(e) => {
            return Err(ConvertError::UnsupportedFormat);
        },
        Ok(f) => f,
    };
    let t = match read_table(data, fin) {
        Err(e) => {
            return Err(ConvertError::DecodeError);
        },
        Ok(t) => t,
    };
    let t2 = if sort {
        let s = sort_table(&t);
        proof {
            lemma_sort_table_wf(t@);
        }
        s
    } else {
        t
    };
    write_table(&t2, fout)
}

} // verus!
