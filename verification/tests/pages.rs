use strawboat::boolean::{compress_boolean, decompress_boolean};
use strawboat::codec::Codec;
use strawboat::error::NativeError;
use strawboat::integer::{compress_integer, decompress_integer, WriteOptions};
use strawboat::page::{BooleanPage, PrimKind, PrimitivePage};
use strawboat::primitive::{compress_double, read_primitive, write_primitive};
use strawboat::ratio::Ratio;

fn options(threshold: Option<(u64, u64)>, forbidden: Vec<Codec>) -> WriteOptions {
    WriteOptions {
        default_compression: Codec::Plain,
        default_compress_ratio: threshold.map(|(num, den)| Ratio { num, den }),
        max_page_size: Some(8192),
        forbidden_compressions: forbidden,
    }
}

fn page(kind: PrimKind, values: Vec<u64>, validity: Option<Vec<bool>>) -> PrimitivePage {
    PrimitivePage { kind, values, validity }
}

fn decode(buf: &[u8], length: usize, width: usize) -> (Vec<u64>, usize) {
    let mut out: Vec<u64> = Vec::new();
    let np = decompress_integer(buf, 0, length, width, &mut out).expect("frame should decode");
    (out, np)
}

#[test]
fn one_value_page_of_sevens() {
    // an i32 page of one repeated value picks the one-value codec
    let p = page(PrimKind::I32, vec![7, 7, 7, 7], None);
    let mut buf: Vec<u8> = Vec::new();
    compress_integer(&p, &options(Some((3, 2)), vec![]), &mut buf).unwrap();
    assert_eq!(buf[0], 12, "the one-value identifier");
    assert_eq!(&buf[1..5], &[4, 0, 0, 0], "compressed length four");
    assert_eq!(&buf[5..9], &[16, 0, 0, 0], "plain length sixteen");
    assert_eq!(&buf[9..], &[7, 0, 0, 0], "the single value");
    let (out, np) = decode(&buf, 4, 4);
    assert_eq!(np, buf.len());
    assert_eq!(out, vec![7, 7, 7, 7]);
}

#[test]
fn validity_page_precedes_values() {
    // a nullable page writes its validity bitmap first, and present slots
    // round-trip exactly
    let p = page(
        PrimKind::I32,
        vec![1, 2, 3, 4, 5],
        Some(vec![true, false, true, true, true]),
    );
    let mut buf: Vec<u8> = Vec::new();
    write_primitive(&p, &options(Some((2, 1)), vec![]), &mut buf).unwrap();
    let mut vbits: Vec<bool> = Vec::new();
    let mid = decompress_boolean(&buf, 0, 5, &mut vbits).unwrap();
    assert_eq!(vbits, vec![true, false, true, true, true]);
    let mut out: Vec<u64> = Vec::new();
    let np = decompress_integer(&buf, mid, 5, 4, &mut out).unwrap();
    assert_eq!(np, buf.len());
    assert_eq!(out.len(), 5);
    for i in [0usize, 2, 3, 4] {
        assert_eq!(out[i], (i + 1) as u64, "present slots survive");
    }
}

#[test]
fn rle_page_of_runs() {
    let p = page(PrimKind::U32, vec![0, 0, 0, 1, 1, 2], None);
    let mut buf: Vec<u8> = Vec::new();
    compress_integer(&p, &options(Some((2, 1)), vec![]), &mut buf).unwrap();
    assert_eq!(buf[0], 10, "the run-length identifier");
    assert_eq!(
        &buf[9..],
        &[
            0, 0, 0, 0, 3, 0, 0, 0, // value 0, run 3
            1, 0, 0, 0, 2, 0, 0, 0, // value 1, run 2
            2, 0, 0, 0, 1, 0, 0, 0, // value 2, run 1
        ]
    );
    let (out, np) = decode(&buf, 6, 4);
    assert_eq!(np, buf.len());
    assert_eq!(out, vec![0, 0, 0, 1, 1, 2]);
}

#[test]
fn boolean_page_all_true() {
    let p = BooleanPage { values: vec![true; 8], validity: None };
    let mut buf: Vec<u8> = Vec::new();
    compress_boolean(&p, &mut buf, &options(Some((1, 2)), vec![])).unwrap();
    assert_eq!(buf[0], 12, "the one-value identifier");
    assert_eq!(&buf[5..9], &[1, 0, 0, 0], "plain length is one bitmap byte");
    assert_eq!(&buf[9..], &[1], "payload is the single true byte");
    let mut out: Vec<bool> = Vec::new();
    let np = decompress_boolean(&buf, 0, 8, &mut out).unwrap();
    assert_eq!(np, buf.len());
    assert_eq!(out, vec![true; 8]);
}

#[test]
fn forbidden_codecs_stay_out() {
    // with the dictionary and run-length codecs banned, a constant i64
    // page still finds the one-value codec
    let p = page(PrimKind::I64, vec![5, 5, 5, 5, 5], None);
    let mut buf: Vec<u8> = Vec::new();
    compress_integer(
        &p,
        &options(Some((3, 1)), vec![Codec::Dict, Codec::Rle]),
        &mut buf,
    )
    .unwrap();
    assert_eq!(buf[0], 12, "the one-value identifier, never a banned one");
    let (out, _) = decode(&buf, 5, 8);
    assert_eq!(out, vec![5, 5, 5, 5, 5]);
}

#[test]
fn ascending_page_picks_a_delta_family_codec() {
    let values: Vec<u64> = (0..1024u64).collect();
    let p = page(PrimKind::U32, values.clone(), None);
    let mut buf: Vec<u8> = Vec::new();
    compress_integer(&p, &options(Some((3, 2)), vec![]), &mut buf).unwrap();
    assert!(
        buf[0] == 15 || buf[0] == 16,
        "delta or delta-bit-packing, found {}",
        buf[0]
    );
    let (out, np) = decode(&buf, 1024, 4);
    assert_eq!(np, buf.len());
    assert_eq!(out, values);
}

#[test]
fn empty_page_round_trips() {
    let p = page(PrimKind::U16, vec![], None);
    let mut buf: Vec<u8> = Vec::new();
    compress_integer(&p, &options(None, vec![]), &mut buf).unwrap();
    assert_eq!(buf.len(), 9, "an empty plain page is just the header");
    let (out, np) = decode(&buf, 0, 2);
    assert_eq!(np, 9);
    assert!(out.is_empty());
}

#[test]
fn unknown_codec_is_rejected() {
    let buf = vec![99u8, 0, 0, 0, 0, 0, 0, 0, 0];
    let mut out: Vec<u64> = Vec::new();
    assert_eq!(
        decompress_integer(&buf, 0, 0, 4, &mut out),
        Err(NativeError::UnknownCodec)
    );
}

#[test]
fn truncated_header_is_rejected() {
    let buf = vec![0u8, 1, 2];
    let mut out: Vec<u64> = Vec::new();
    assert_eq!(
        decompress_integer(&buf, 0, 0, 4, &mut out),
        Err(NativeError::Truncated)
    );
}

#[test]
fn truncated_payload_is_rejected() {
    // a plain frame whose declared payload exceeds the buffer
    let buf = vec![0u8, 8, 0, 0, 0, 8, 0, 0, 0, 1, 2];
    let mut out: Vec<u64> = Vec::new();
    assert_eq!(
        decompress_integer(&buf, 0, 2, 4, &mut out),
        Err(NativeError::Truncated)
    );
}

#[test]
fn zero_run_length_is_rejected() {
    // a run-length frame with run 0: value 7, run 0
    let mut buf = vec![10u8, 8, 0, 0, 0, 4, 0, 0, 0];
    buf.extend_from_slice(&[7, 0, 0, 0, 0, 0, 0, 0]);
    let mut out: Vec<u64> = Vec::new();
    assert_eq!(
        decompress_integer(&buf, 0, 1, 4, &mut out),
        Err(NativeError::InvalidPayload)
    );
}

#[test]
fn dictionary_page_restores_present_slots() {
    // 40 slots of three distinct values: well inside the dictionary gate
    let mut values: Vec<u64> = Vec::new();
    for i in 0..40u64 {
        values.push(i % 3 + 100);
    }
    let p = page(PrimKind::U32, values.clone(), None);
    let opts = options(Some((1, 1)), vec![]);
    let mut payload: Vec<u8> = Vec::new();
    strawboat::dict::Dict {}
        .compress(&p, &opts, &mut payload)
        .unwrap();
    let mut out: Vec<u64> = Vec::new();
    strawboat::dict::Dict {}
        .decompress(&payload, 0, payload.len(), 40, 4, &mut out)
        .unwrap();
    assert_eq!(out, values);
}

#[test]
fn bitpacked_block_round_trips() {
    let values: Vec<u64> = (0..128u64).map(|i| (i * 13) % 1000).collect();
    let p = page(PrimKind::U32, values.clone(), None);
    let mut payload: Vec<u8> = Vec::new();
    strawboat::bp::Bitpacking {}.compress(&p, &mut payload);
    let mut out: Vec<u64> = Vec::new();
    strawboat::bp::Bitpacking {}
        .decompress(&payload, 0, payload.len(), 128, &mut out)
        .unwrap();
    assert_eq!(out, values);
}

#[test]
fn delta_bitpacked_blocks_round_trip() {
    let values: Vec<u64> = (0..256u64).map(|i| i * 7 + 5).collect();
    let p = page(PrimKind::U32, values.clone(), None);
    let mut payload: Vec<u8> = Vec::new();
    strawboat::delta_bp::DeltaBitpacking {}.compress(&p, &mut payload);
    let mut out: Vec<u64> = Vec::new();
    strawboat::delta_bp::DeltaBitpacking {}
        .decompress(&payload, 0, payload.len(), 256, &mut out)
        .unwrap();
    assert_eq!(out, values);
}

#[test]
fn frequency_page_restores_every_slot() {
    // 19 of 20 slots hold the dominant value
    let mut values: Vec<u64> = vec![42; 20];
    values[7] = 9;
    let p = page(PrimKind::U16, values.clone(), None);
    let mut buf: Vec<u8> = Vec::new();
    compress_integer(&p, &options(Some((2, 1)), vec![Codec::Rle, Codec::Dict]), &mut buf)
        .unwrap();
    let (out, _) = decode(&buf, 20, 2);
    assert_eq!(out, values);
}

#[test]
fn delta_handles_descending_and_wrapping_values() {
    let values: Vec<u64> = vec![10, 7, 4, 1, 250, 3, 3, 200];
    let p = page(PrimKind::U8, values.clone(), None);
    let mut payload: Vec<u8> = Vec::new();
    strawboat::delta::Delta {}.compress(&p, &mut payload);
    let mut out: Vec<u64> = Vec::new();
    strawboat::delta::Delta {}
        .decompress(&payload, 0, payload.len(), 8, 1, &mut out)
        .unwrap();
    assert_eq!(out, values);
}

#[test]
fn concatenated_pages_decode_in_sequence() {
    let p1 = page(PrimKind::U32, vec![1, 1, 1, 1], None);
    let p2 = page(PrimKind::U32, vec![9, 8, 7], None);
    let opts = options(Some((2, 1)), vec![]);
    let mut buf: Vec<u8> = Vec::new();
    compress_integer(&p1, &opts, &mut buf).unwrap();
    let first_len = buf.len();
    compress_integer(&p2, &opts, &mut buf).unwrap();
    let mut out: Vec<u64> = Vec::new();
    let np1 = decompress_integer(&buf, 0, 4, 4, &mut out).unwrap();
    assert_eq!(np1, first_len, "parsing consumes exactly one frame");
    let np2 = decompress_integer(&buf, np1, 3, 4, &mut out).unwrap();
    assert_eq!(np2, buf.len());
    assert_eq!(out, vec![1, 1, 1, 1, 9, 8, 7]);
}

#[test]
fn float_page_is_bit_exact() {
    let floats = [1.5f64, -0.0, 3.25e300, 1.5, 1.5, 1.5, 1.5, 1.5];
    let values: Vec<u64> = floats.iter().map(|f| f.to_bits()).collect();
    let p = page(PrimKind::F64, values.clone(), None);
    let mut buf: Vec<u8> = Vec::new();
    compress_double(&p, &options(Some((3, 2)), vec![]), &mut buf).unwrap();
    let (out, _) = decode(&buf, 8, 8);
    assert_eq!(out, values, "bit patterns survive unchanged");
    assert_eq!(f64::from_bits(out[1]), -0.0);
    assert!(f64::from_bits(out[1]).is_sign_negative());
}

#[test]
fn signed_page_with_negative_values_round_trips() {
    let ints = [-3i32, -2, -1, 0, 1, 2, 3, 4];
    let values: Vec<u64> = ints.iter().map(|v| (*v as u32) as u64).collect();
    let p = page(PrimKind::I32, values.clone(), None);
    let mut buf: Vec<u8> = Vec::new();
    compress_integer(&p, &options(Some((3, 1)), vec![]), &mut buf).unwrap();
    let (out, _) = decode(&buf, 8, 4);
    let back: Vec<i32> = out.iter().map(|v| *v as u32 as i32).collect();
    assert_eq!(back, ints);
}

#[test]
fn read_primitive_reassembles_a_nullable_page() {
    let p = page(
        PrimKind::U16,
        vec![10, 20, 30],
        Some(vec![true, true, false]),
    );
    let mut buf: Vec<u8> = Vec::new();
    write_primitive(&p, &options(Some((2, 1)), vec![]), &mut buf).unwrap();
    let (back, np) = read_primitive(&buf, 0, 3, PrimKind::U16, true).unwrap();
    assert_eq!(np, buf.len());
    assert_eq!(back.validity, Some(vec![true, true, false]));
    assert_eq!(back.values[0], 10);
    assert_eq!(back.values[1], 20);
}

#[test]
fn codec_identifiers_are_stable() {
    let table = [
        (Codec::Plain, 0u8),
        (Codec::Lz4, 1),
        (Codec::Zstd, 2),
        (Codec::Snappy, 3),
        (Codec::Rle, 10),
        (Codec::Dict, 11),
        (Codec::OneValue, 12),
        (Codec::Freq, 13),
        (Codec::Bitpacking, 14),
        (Codec::Delta, 15),
        (Codec::DeltaBitpacking, 16),
    ];
    for (codec, code) in table {
        assert_eq!(codec.to_code(), code);
        assert_eq!(Codec::from_code(code), Ok(codec));
    }
    assert_eq!(Codec::from_code(4), Err(NativeError::UnknownCodec));
}

#[test]
fn bits_needed_matches_widths() {
    assert_eq!(strawboat::integer::get_bits_needed(0), 0);
    assert_eq!(strawboat::integer::get_bits_needed(1), 1);
    assert_eq!(strawboat::integer::get_bits_needed(255), 8);
    assert_eq!(strawboat::integer::get_bits_needed(256), 9);
    assert_eq!(strawboat::integer::get_bits_needed(u64::MAX), 64);
}

#[test]
fn no_threshold_means_the_default_codec() {
    let p = page(PrimKind::U32, vec![7, 7, 7, 7], None);
    let mut buf: Vec<u8> = Vec::new();
    compress_integer(&p, &options(None, vec![]), &mut buf).unwrap();
    assert_eq!(buf[0], 0, "without a threshold the generic default wins");
    let (out, _) = decode(&buf, 4, 4);
    assert_eq!(out, vec![7, 7, 7, 7]);
}

#[test]
fn selection_needs_a_strictly_better_ratio() {
    // one-value predicts ratio four on a four-slot page; a threshold of
    // four exactly is not beaten, so the default stays
    let p = page(PrimKind::U32, vec![3, 3, 3, 3], None);
    let mut buf: Vec<u8> = Vec::new();
    let others = vec![
        Codec::Delta,
        Codec::Freq,
        Codec::Dict,
        Codec::Rle,
        Codec::Bitpacking,
        Codec::DeltaBitpacking,
    ];
    compress_integer(&p, &options(Some((4, 1)), others), &mut buf).unwrap();
    assert_eq!(buf[0], 0, "a tie keeps the generic default");
}

#[test]
fn boolean_bitmap_is_the_generic_payload() {
    // without a threshold the packed bitmap goes out unchanged
    let bits = vec![true, false, true, false, true, true, false, false, true, true];
    let p = BooleanPage { values: bits.clone(), validity: None };
    let mut buf: Vec<u8> = Vec::new();
    compress_boolean(&p, &mut buf, &options(None, vec![])).unwrap();
    assert_eq!(buf[0], 0, "the generic identifier");
    assert_eq!(&buf[5..9], &[2, 0, 0, 0], "plain length is two bitmap bytes");
    assert_eq!(&buf[9..], &[0b0011_0101, 0b0000_0011], "bits packed low first");
    let mut out: Vec<bool> = Vec::new();
    let np = decompress_boolean(&buf, 0, 10, &mut out).unwrap();
    assert_eq!(np, buf.len());
    assert_eq!(out, bits);
}

#[test]
fn boolean_decoder_keeps_to_its_catalog() {
    // a delta frame is no boolean frame: its identifier is unknown here
    let buf = vec![15u8, 0, 0, 0, 0, 1, 0, 0, 0];
    let mut out: Vec<bool> = Vec::new();
    assert_eq!(
        decompress_boolean(&buf, 0, 0, &mut out),
        Err(NativeError::UnknownCodec)
    );
}

#[test]
fn one_value_stores_the_first_present_value() {
    // a leading null does not leak its storage pattern into the payload
    let p = page(
        PrimKind::U8,
        vec![7, 5, 5],
        Some(vec![false, true, true]),
    );
    let mut buf: Vec<u8> = Vec::new();
    compress_integer(&p, &options(Some((2, 1)), vec![]), &mut buf).unwrap();
    assert_eq!(buf[0], 12, "the one-value identifier");
    assert_eq!(&buf[9..], &[5], "the first present value, not slot zero");
    let (out, _) = decode(&buf, 3, 1);
    assert_eq!(out[1], 5);
    assert_eq!(out[2], 5);
}

#[test]
fn one_value_stores_zero_for_an_all_null_page() {
    let p = page(
        PrimKind::U8,
        vec![9, 9, 9, 9],
        Some(vec![false, false, false, false]),
    );
    let mut buf: Vec<u8> = Vec::new();
    compress_integer(&p, &options(Some((2, 1)), vec![]), &mut buf).unwrap();
    assert_eq!(buf[0], 12, "the one-value identifier");
    assert_eq!(&buf[9..], &[0], "an all-null page stores zero");
}

#[test]
fn plain_length_field_is_advisory() {
    // rewriting the plain-length field does not stop the decoder
    let p = page(PrimKind::I32, vec![7, 7, 7, 7], None);
    let mut buf: Vec<u8> = Vec::new();
    compress_integer(&p, &options(Some((3, 2)), vec![]), &mut buf).unwrap();
    buf[5] = 0xAA;
    buf[6] = 0xBB;
    buf[7] = 0xCC;
    buf[8] = 0x0D;
    let (out, np) = decode(&buf, 4, 4);
    assert_eq!(np, buf.len());
    assert_eq!(out, vec![7, 7, 7, 7]);
}

#[test]
fn dictionary_lists_values_in_first_occurrence_order() {
    // null leads: the zero pattern enters the still-empty dictionary, then
    // each present value is inserted on first sight, and the trailing null
    // re-emits the previous index
    let p = page(
        PrimKind::U32,
        vec![0, 9, 9, 5, 0],
        Some(vec![false, true, true, true, false]),
    );
    let opts = options(None, vec![]);
    let mut payload: Vec<u8> = Vec::new();
    let n = strawboat::dict::Dict {}
        .compress(&p, &opts, &mut payload)
        .unwrap();
    assert_eq!(n, payload.len());
    // inner plain frame of five u32 indices 0,1,1,2,2
    assert_eq!(&payload[0..9], &[0, 20, 0, 0, 0, 20, 0, 0, 0]);
    assert_eq!(
        &payload[9..29],
        &[0, 0, 0, 0, 1, 0, 0, 0, 1, 0, 0, 0, 2, 0, 0, 0, 2, 0, 0, 0]
    );
    // cardinality three, then 0, 9, 5 in first-occurrence order
    assert_eq!(&payload[29..33], &[3, 0, 0, 0]);
    assert_eq!(
        &payload[33..],
        &[0, 0, 0, 0, 9, 0, 0, 0, 5, 0, 0, 0]
    );
    let mut out: Vec<u64> = Vec::new();
    strawboat::dict::Dict {}
        .decompress(&payload, 0, payload.len(), 5, 4, &mut out)
        .unwrap();
    assert_eq!(out, vec![0, 9, 9, 5, 5]);
}
