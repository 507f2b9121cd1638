//! Whole-file pipelines: BWT, then MTF, then an entropy stage (the SSP
//! symbol codec, a range coder or Huffman coding), optionally after LZ77.
//!
//! SSP archives: `"SS5W"`, version 3, LZ77 flag, then (plain) the chunk size
//! (u32 LE) or (LZ77) the token byte length and token bytes, the sequence
//! length (one byte) and the sequence (u64 LE each), then the SSP archive.
//! Entropy-stage archives: `"SS5W"`, the stage's version, the BWT primary
//! index and the MTF length (u32 LE each), then the coded stream.
use crate::bwt::{
    bwt_chunked_decodable, bwt_chunked_inverse, bwt_chunked_ok, bwt_chunks, bwt_decode, bwt_decode_chunked,
    bwt_encode, bwt_encode_chunked, bwt_encode_iterative, bwt_inverse, bwt_iter, bwt_last, bwt_primary,
    chunk_count, pack_bwt, unpack_bwt,
};
use crate::bit_io::{uleb_bytes, uleb_complete, uleb_fits_at, uleb_span, uleb_value, read_uleb_at};
use crate::fse::{huff_coded_with, huff_decoded, huff_readable, huff_readable_check, huffman_decode, huffman_encode, present, single_symbol_bytes};
use crate::le::{le32_at, le32_bytes, le64_at, le64_bytes, push_u32_le, push_u64_le, read_u32_le, read_u64_le};
use crate::lz77::{bytes_to_tokens_checked, lz_decode, parsed_tokens, tokens_readable, tokens_stream_bits, Token};
use crate::mtf::{bwt_chunked_mtf_bytes, mtf_decode, mtf_decode_bwt_chunked, mtf_encode, mtf_encode_bwt_chunked, mtf_spec, unmtf_spec, slice_range};
use crate::range_coder::{
    coded_as, dec_model, enc_mix, enc_model, mix_decoded, model_count_ok, model_decoded, model_header,
    range_decode_bytes, range_decode_bytes_order1, range_decode_bytes_order12_mix, range_decode_bytes_order2,
    range_decode_bytes_order_mix, range_encode_bytes, range_encode_bytes_order1, range_encode_bytes_order12_mix,
    range_encode_bytes_order2, range_encode_bytes_order_mix, MAX_SYMBOLS,
};
use crate::ssp_codec::{encoded_from, MAX_S_LEN};
use crate::symbols::sums_fit;
use vstd::prelude::*;

verus! {

/// Magic of a pipeline archive.
pub const WRAPPER_MAGIC: [u8; 4] = [0x53, 0x53, 0x35, 0x57];

/// Version byte of SSP archives.
pub const WRAPPER_VERSION: u8 = 3;

/// Version bytes of the entropy-stage archives.
pub const WRAPPER_VERSION_RC: u8 = 4;

pub const WRAPPER_VERSION_RC_O1: u8 = 5;

pub const WRAPPER_VERSION_RC_O2: u8 = 6;

pub const WRAPPER_VERSION_RC_MIX: u8 = 7;

pub const WRAPPER_VERSION_RC_O12: u8 = 8;

pub const WRAPPER_VERSION_HUFFMAN: u8 = 17;

/// The pipeline magic as a sequence.
pub open spec fn wrapper_magic() -> Seq<u8> {
    seq![0x53u8, 0x53u8, 0x35u8, 0x57u8]
}

/// MTF of the packed BWT (primary, then last column) of `d`.
pub open spec fn bwt_mtf(d: Seq<u8>) -> Seq<u8> {
    mtf_spec(le32_bytes(bwt_primary(d)) + bwt_last(d))
}

/// Primary index of a packed BWT block (0 when shorter than 4 bytes).
pub open spec fn packed_primary(b: Seq<u8>) -> u32 {
    if b.len() < 4 {
        0
    } else {
        le32_at(b, 0)
    }
}

/// Last column of a packed BWT block (empty when shorter than 4 bytes).
pub open spec fn packed_last(b: Seq<u8>) -> Seq<u8> {
    if b.len() < 4 {
        Seq::empty()
    } else {
        b.subrange(4, b.len() as int)
    }
}

/// Whether the packed BWT block behind MTF indices `m` can be inverted: its
/// primary lies inside its last column (or the column has at most one byte).
pub open spec fn bwt_mtf_invertible(m: Seq<u8>) -> bool {
    let b = unmtf_spec(m);
    packed_last(b).len() <= 1 || packed_primary(b) < packed_last(b).len()
}

/// The bytes behind MTF indices `m` of a packed BWT block.
pub open spec fn bwt_mtf_inverse(m: Seq<u8>) -> Seq<u8> {
    let b = unmtf_spec(m);
    bwt_inverse(packed_primary(b), packed_last(b))
}

/// Header of an entropy-stage archive.
pub open spec fn stage_header(version: u8, primary: u32, mtf_len: nat) -> Seq<u8> {
    wrapper_magic() + seq![version] + le32_bytes(primary) + le32_bytes(mtf_len as u32)
}

/// `out` is what the entropy stage `kind` writes for `m`: 0 order-0 range
/// coding, 1 order-1, 2 order-2, 3 order-0/1 mix, 4 order-1/2 mix, 5 Huffman.
pub open spec fn stage_coded(kind: u8, m: Seq<u8>, out: Seq<u8>) -> bool {
    if kind == 0 {
        coded_as(out, uleb_bytes(m.len()), enc_model(0, m))
    } else if kind == 1 || kind == 2 {
        if m.len() == 0 {
            out == model_header(kind, 0)
        } else {
            coded_as(out, model_header(kind, m.len()), enc_model(kind as nat, m))
        }
    } else if kind == 3 || kind == 4 {
        if m.len() == 0 {
            out == model_header(kind, 0)
        } else {
            coded_as(out, model_header(kind, m.len()), enc_mix((kind - 3) as nat, m))
        }
    } else {
        &&& m.len() == 0 ==> out == Seq::<u8>::empty()
        &&& m.len() > 0 && present(m, 256).len() == 1 ==> out == single_symbol_bytes(present(m, 256)[0], m.len())
        &&& m.len() > 0 && present(m, 256).len() != 1 ==> exists|tab: Seq<(u32, u32)>| huff_coded_with(out, tab, m)
    }
}

/// Inputs the entropy stage `kind` decodes without exceeding its limits.
pub open spec fn stage_input_ok(kind: u8, d: Seq<u8>) -> bool {
    if kind == 0 {
        crate::bit_io::uleb_safe(d) && (uleb_complete(d) ==> uleb_value(d) <= MAX_SYMBOLS)
    } else if kind <= 4 {
        model_count_ok(d, kind)
    } else {
        huff_readable(d)
    }
}

/// What the entropy stage `kind` decodes from `d`.
pub open spec fn stage_decoded(kind: u8, d: Seq<u8>) -> Result<Seq<u8>, ()> {
    if kind == 0 {
        if d.len() == 0 {
            Ok(Seq::empty())
        } else if !uleb_complete(d) || (uleb_value(d) > 0 && uleb_span(d) == d.len()) {
            Err(())
        } else {
            Ok(dec_model(0, d.subrange(uleb_span(d) as int, d.len() as int), uleb_value(d)).0)
        }
    } else if kind == 1 || kind == 2 {
        model_decoded(d, kind, kind as nat)
    } else if kind == 3 || kind == 4 {
        mix_decoded(d, kind, (kind - 3) as nat)
    } else {
        huff_decoded(d)
    }
}

/// Version byte of the entropy stage `kind`.
pub open spec fn stage_version(kind: u8) -> u8 {
    if kind == 0 {
        WRAPPER_VERSION_RC
    } else if kind == 1 {
        WRAPPER_VERSION_RC_O1
    } else if kind == 2 {
        WRAPPER_VERSION_RC_O2
    } else if kind == 3 {
        WRAPPER_VERSION_RC_MIX
    } else if kind == 4 {
        WRAPPER_VERSION_RC_O12
    } else {
        WRAPPER_VERSION_HUFFMAN
    }
}

/// What decoding an entropy-stage archive `a` of stage `kind` gives, when it
/// succeeds: the stage's output checked against the recorded MTF length and
/// primary, then MTF and BWT undone.
pub open spec fn stage_archive_ok(kind: u8, a: Seq<u8>) -> bool {
    let rest = a.subrange(13, a.len() as int);
    let m = stage_decoded(kind, rest)->Ok_0;
    &&& a.len() >= 13
    &&& a.subrange(0, 4) == wrapper_magic()
    &&& a[4] == stage_version(kind)
    &&& stage_input_ok(kind, rest)
    &&& stage_decoded(kind, rest) is Ok
    &&& m.len() == le32_at(a, 9)
    &&& packed_primary(unmtf_spec(m)) == le32_at(a, 5)
    &&& bwt_mtf_invertible(m)
}

/// BWT of `data` packed with its primary, then MTF.
fn bwt_mtf_stage(data: &[u8]) -> (r: (u32, Vec<u8>))
    ensures
        r.0 == bwt_primary(data@),
        r.1@ == bwt_mtf(data@),
        r.1@.len() == data@.len() + 4,
{
    let (primary, last) = bwt_encode(data);
    let packed = pack_bwt(primary, &last);
    let m = mtf_encode(&packed);
    proof {
        crate::mtf::law_mtf_roundtrip(packed@);
    }
    (primary, m)
}

/// The entropy stage `kind` over `m`.
fn encode_stage(kind: u8, m: &[u8]) -> (out: Vec<u8>)
    requires
        m@.len() <= MAX_SYMBOLS,
    ensures
        stage_coded(kind, m@, out@),
{
    if kind == 0 {
        range_encode_bytes(m)
    } else if kind == 1 {
        range_encode_bytes_order1(m)
    } else if kind == 2 {
        range_encode_bytes_order2(m)
    } else if kind == 3 {
        range_encode_bytes_order_mix(m)
    } else if kind == 4 {
        range_encode_bytes_order12_mix(m)
    } else {
        huffman_encode(m)
    }
}

/// The entropy decoder `kind` over `d`; `Err` also where `d` exceeds its
/// limits.
fn decode_stage(kind: u8, d: &[u8]) -> (r: Result<Vec<u8>, &'static str>)
    ensures
        !stage_input_ok(kind, d@) ==> r is Err,
        stage_input_ok(kind, d@) ==> (r is Ok <==> stage_decoded(kind, d@) is Ok),
        r is Ok ==> r->Ok_0@ == stage_decoded(kind, d@)->Ok_0,
{
    if kind == 0 {
        assert(d@.subrange(0, d@.len() as int) =~= d@);
        if !uleb_fits_at(d, 0) {
            return Err("Range decode: count too long");
        }
        let (v, _pos, done) = read_uleb_at(d, 0);
        if done && v > MAX_SYMBOLS {
            return Err("Range decode: count too large");
        }
        proof {
            crate::bit_io::lemma_uleb_span_bound(d@);
        }
        range_decode_bytes(d)
    } else if kind <= 4 {
        if d.len() >= 5 && d[0] == kind && read_u32_le(d, 1) as u64 > MAX_SYMBOLS {
            return Err("Range decode: count too large");
        }
        if kind == 1 {
            range_decode_bytes_order1(d)
        } else if kind == 2 {
            range_decode_bytes_order2(d)
        } else if kind == 3 {
            range_decode_bytes_order_mix(d)
        } else {
            range_decode_bytes_order12_mix(d)
        }
    } else {
        if !huff_readable_check(d) {
            return Err("Huffman: malformed stream");
        }
        huffman_decode(d)
    }
}

/// Entropy-stage archive of `data` for stage `kind`.
fn stage_encode(data: &[u8], kind: u8, version: u8) -> (out: Vec<u8>)
    requires
        data@.len() + 4 <= MAX_SYMBOLS,
    ensures
        data@.len() == 0 ==> out@.len() == 0,
        data@.len() > 0 ==> out@.len() >= 13 && out@.subrange(0, 13) == stage_header(
            version,
            bwt_primary(data@),
            data@.len() + 4,
        ) && stage_coded(kind, bwt_mtf(data@), out@.subrange(13, out@.len() as int)),
{
    if data.len() == 0 {
        return Vec::new();
    }
    let (primary, m) = bwt_mtf_stage(data);
    let coded = encode_stage(kind, m.as_slice());
    let mut out: Vec<u8> = Vec::new();
    out.push(WRAPPER_MAGIC[0]);
    out.push(WRAPPER_MAGIC[1]);
    out.push(WRAPPER_MAGIC[2]);
    out.push(WRAPPER_MAGIC[3]);
    out.push(version);
    push_u32_le(&mut out, primary);
    push_u32_le(&mut out, m.len() as u32);
    let ghost head = out@;
    out.extend_from_slice(coded.as_slice());
    proof {
        assert(head =~= stage_header(version, primary, m@.len()));
        assert(out@.subrange(0, 13) =~= head);
        assert(out@.subrange(13, out@.len() as int) =~= coded@);
    }
    out
}

/// MTF and BWT undone, checked against the recorded MTF length and primary.
pub fn undo_bwt_mtf(m: &Vec<u8>, mtf_len: u32, primary: u32) -> (r: Result<Vec<u8>, &'static str>)
    ensures
        m@.len() != mtf_len ==> r == Err::<Vec<u8>, &'static str>("MTF length mismatch"),
        m@.len() == mtf_len && packed_primary(unmtf_spec(m@)) != primary ==> r == Err::<Vec<u8>, &'static str>(
            "BWT primary index mismatch",
        ),
        m@.len() == mtf_len && packed_primary(unmtf_spec(m@)) == primary && !bwt_mtf_invertible(m@) ==> r
            == Err::<Vec<u8>, &'static str>("BWT primary index out of range"),
        m@.len() == mtf_len && packed_primary(unmtf_spec(m@)) == primary && bwt_mtf_invertible(m@) ==> r is Ok
            && r->Ok_0@ == bwt_mtf_inverse(m@),
{
    if m.len() as u64 != mtf_len as u64 {
        return Err("MTF length mismatch");
    }
    let b = mtf_decode(m.as_slice());
    let (p, last) = unpack_bwt(b.as_slice());
    if p != primary {
        return Err("BWT primary index mismatch");
    }
    if !(last.len() <= 1 || (p as usize) < last.len()) {
        return Err("BWT primary index out of range");
    }
    Ok(bwt_decode(p, last))
}

/// Entropy-stage archive framing: `[MAGIC][version][primary(4)][mtf_len(4)]`
/// then the coded stream.
pub fn wrap_archive(version: u8, primary: u32, mtf_len: u32, coded: &[u8]) -> (out: Vec<u8>)
    ensures
        out@ == stage_header(version, primary, mtf_len as nat) + coded@,
{
    let mut out: Vec<u8> = Vec::new();
    out.push(WRAPPER_MAGIC[0]);
    out.push(WRAPPER_MAGIC[1]);
    out.push(WRAPPER_MAGIC[2]);
    out.push(WRAPPER_MAGIC[3]);
    out.push(version);
    push_u32_le(&mut out, primary);
    push_u32_le(&mut out, mtf_len);
    let ghost head = out@;
    out.extend_from_slice(coded);
    assert(head =~= stage_header(version, primary, mtf_len as nat));
    out
}

/// Read the framing of an entropy-stage archive of `version`: its primary,
/// its recorded MTF length and the coded stream after the 13-byte header;
/// `Err` on another magic, then `version_err` on another version.
pub fn unwrap_archive(archive: &[u8], version: u8, version_err: &'static str) -> (r: Result<
    (u32, u32, Vec<u8>),
    &'static str,
>)
    requires
        archive@.len() >= 13,
    ensures
        archive@.subrange(0, 4) != wrapper_magic() ==> r == Err::<(u32, u32, Vec<u8>), &'static str>(
            "Invalid wrapper magic",
        ),
        archive@.subrange(0, 4) == wrapper_magic() && archive@[4] != version ==> r == Err::<
            (u32, u32, Vec<u8>),
            &'static str,
        >(version_err),
        archive@.subrange(0, 4) == wrapper_magic() && archive@[4] == version ==> r is Ok && r->Ok_0.0 == le32_at(
            archive@,
            5,
        ) && r->Ok_0.1 == le32_at(archive@, 9) && r->Ok_0.2@ == archive@.subrange(13, archive@.len() as int),
{
    if archive[0] != WRAPPER_MAGIC[0] || archive[1] != WRAPPER_MAGIC[1] || archive[2] != WRAPPER_MAGIC[2]
        || archive[3] != WRAPPER_MAGIC[3] {
        proof {
            if archive@.subrange(0, 4) == wrapper_magic() {
                assert(archive@[0] == archive@.subrange(0, 4)[0]);
                assert(archive@[1] == archive@.subrange(0, 4)[1]);
                assert(archive@[2] == archive@.subrange(0, 4)[2]);
                assert(archive@[3] == archive@.subrange(0, 4)[3]);
            }
        }
        return Err("Invalid wrapper magic");
    }
    assert(archive@.subrange(0, 4) =~= wrapper_magic());
    if archive[4] != version {
        return Err(version_err);
    }
    let primary = read_u32_le(archive, 5);
    let mtf_len = read_u32_le(archive, 9);
    let rest = vstd::slice::slice_to_vec(slice_range(archive, 13, archive.len()));
    Ok((primary, mtf_len, rest))
}

/// Decode an entropy-stage archive of stage `kind`.
fn stage_decode(archive: &[u8], kind: u8, version: u8, version_err: &'static str) -> (r: Result<
    Vec<u8>,
    &'static str,
>)
    requires
        stage_len_ok(archive@, version),
        version == stage_version(kind),
    ensures
        archive@.len() == 0 ==> r is Ok && r->Ok_0@.len() == 0,
        archive@.len() >= 4 && archive@.subrange(0, 4) != wrapper_magic() ==> r == Err::<
            Vec<u8>,
            &'static str,
        >("Invalid wrapper magic"),
        archive@.len() >= 5 && archive@.subrange(0, 4) == wrapper_magic() && archive@[4] != version ==> r
            == Err::<Vec<u8>, &'static str>(version_err),
        archive@.len() >= 13 ==> (r is Ok <==> stage_archive_ok(kind, archive@)),
        archive@.len() >= 13 && r is Ok ==> r->Ok_0@ == bwt_mtf_inverse(
            stage_decoded(kind, archive@.subrange(13, archive@.len() as int))->Ok_0,
        ),
{
    if archive.len() == 0 {
        return Ok(Vec::new());
    }
    if archive[0] != WRAPPER_MAGIC[0] || archive[1] != WRAPPER_MAGIC[1] || archive[2] != WRAPPER_MAGIC[2]
        || archive[3] != WRAPPER_MAGIC[3] {
        proof {
            if archive@.subrange(0, 4) == wrapper_magic() {
                assert(archive@[0] == archive@.subrange(0, 4)[0]);
                assert(archive@[1] == archive@.subrange(0, 4)[1]);
                assert(archive@[2] == archive@.subrange(0, 4)[2]);
                assert(archive@[3] == archive@.subrange(0, 4)[3]);
            }
        }
        return Err("Invalid wrapper magic");
    }
    assert(archive@.subrange(0, 4) =~= wrapper_magic());
    if archive[4] != version {
        return Err(version_err);
    }
    let primary = read_u32_le(archive, 5);
    let mtf_len = read_u32_le(archive, 9);
    let rest = slice_range(archive, 13, archive.len());
    let m = decode_stage(kind, rest)?;
    undo_bwt_mtf(&m, mtf_len, primary)
}

/// `out` is the entropy-stage archive of `d` for stage `kind`: empty for
/// empty data, else the header (version, BWT primary, MTF length) and the
/// coded MTF of the packed BWT.
pub open spec fn stage_encoded(kind: u8, d: Seq<u8>, out: Seq<u8>) -> bool {
    &&& d.len() == 0 ==> out.len() == 0
    &&& d.len() > 0 ==> out.len() >= 13 && out.subrange(0, 13) == stage_header(
        stage_version(kind),
        bwt_primary(d),
        d.len() + 4,
    ) && stage_coded(kind, bwt_mtf(d), out.subrange(13, out.len() as int))
}

/// Archives an entropy-stage decoder reads: empty, long enough for the
/// header, or long enough to show a wrong magic or version.
pub open spec fn stage_len_ok(a: Seq<u8>, version: u8) -> bool {
    a.len() == 0 || a.len() >= 13 || (a.len() >= 4 && (a.subrange(0, 4) != wrapper_magic() || (a.len() >= 5
        && a[4] != version)))
}

/// What decoding the entropy-stage archive `a` of stage `kind` returns:
/// empty for empty input, the magic and version errors, success exactly
/// when the stage decodes within its limits and the recorded MTF length and
/// primary match, and then the bytes behind the decoded MTF indices.
pub open spec fn stage_decode_ok(kind: u8, a: Seq<u8>, r: Result<Vec<u8>, &'static str>, version_err: &'static str) -> bool {
    &&& a.len() == 0 ==> r is Ok && r->Ok_0@.len() == 0
    &&& a.len() >= 4 && a.subrange(0, 4) != wrapper_magic() ==> r == Err::<Vec<u8>, &'static str>(
        "Invalid wrapper magic",
    )
    &&& a.len() >= 5 && a.subrange(0, 4) == wrapper_magic() && a[4] != stage_version(kind) ==> r == Err::<
        Vec<u8>,
        &'static str,
    >(version_err)
    &&& a.len() >= 13 ==> (r is Ok <==> stage_archive_ok(kind, a))
    &&& a.len() >= 13 && r is Ok ==> r->Ok_0@ == bwt_mtf_inverse(stage_decoded(kind, a.subrange(13, a.len() as int))->Ok_0)
}

/// BWT, MTF and adaptive order-0 range coding.
pub fn ssp5_encode_with_range_coder(data: &[u8]) -> (out: Vec<u8>)
    requires
        data@.len() + 4 <= MAX_SYMBOLS,
    ensures
        stage_encoded(0, data@, out@),
{
    stage_encode(data, 0, WRAPPER_VERSION_RC)
}

/// Decode `ssp5_encode_with_range_coder` output.
pub fn ssp5_decode_with_range_coder(archive: &[u8]) -> (r: Result<Vec<u8>, &'static str>)
    requires
        stage_len_ok(archive@, stage_version(0)),
    ensures
        stage_decode_ok(0, archive@, r, "Invalid wrapper version for range coder"),
{
    stage_decode(archive, 0, WRAPPER_VERSION_RC, "Invalid wrapper version for range coder")
}

/// BWT, MTF and adaptive order-1 range coding.
pub fn ssp5_encode_with_range_coder_o1(data: &[u8]) -> (out: Vec<u8>)
    requires
        data@.len() + 4 <= MAX_SYMBOLS,
    ensures
        stage_encoded(1, data@, out@),
{
    stage_encode(data, 1, WRAPPER_VERSION_RC_O1)
}

/// Decode `ssp5_encode_with_range_coder_o1` output.
pub fn ssp5_decode_with_range_coder_o1(archive: &[u8]) -> (r: Result<Vec<u8>, &'static str>)
    requires
        stage_len_ok(archive@, stage_version(1)),
    ensures
        stage_decode_ok(1, archive@, r, "Invalid wrapper version for order-1 range coder"),
{
    stage_decode(archive, 1, WRAPPER_VERSION_RC_O1, "Invalid wrapper version for order-1 range coder")
}

/// BWT, MTF and adaptive order-2 range coding.
pub fn ssp5_encode_with_range_coder_o2(data: &[u8]) -> (out: Vec<u8>)
    requires
        data@.len() + 4 <= MAX_SYMBOLS,
    ensures
        stage_encoded(2, data@, out@),
{
    stage_encode(data, 2, WRAPPER_VERSION_RC_O2)
}

/// Decode `ssp5_encode_with_range_coder_o2` output.
pub fn ssp5_decode_with_range_coder_o2(archive: &[u8]) -> (r: Result<Vec<u8>, &'static str>)
    requires
        stage_len_ok(archive@, stage_version(2)),
    ensures
        stage_decode_ok(2, archive@, r, "Invalid wrapper version for order-2 range coder"),
{
    stage_decode(archive, 2, WRAPPER_VERSION_RC_O2, "Invalid wrapper version for order-2 range coder")
}

/// BWT, MTF and order-0/order-1 mixing range coding.
pub fn ssp5_encode_with_range_coder_mix(data: &[u8]) -> (out: Vec<u8>)
    requires
        data@.len() + 4 <= MAX_SYMBOLS,
    ensures
        stage_encoded(3, data@, out@),
{
    stage_encode(data, 3, WRAPPER_VERSION_RC_MIX)
}

/// Decode `ssp5_encode_with_range_coder_mix` output.
pub fn ssp5_decode_with_range_coder_mix(archive: &[u8]) -> (r: Result<Vec<u8>, &'static str>)
    requires
        stage_len_ok(archive@, stage_version(3)),
    ensures
        stage_decode_ok(3, archive@, r, "Invalid wrapper version for order-mix range coder"),
{
    stage_decode(archive, 3, WRAPPER_VERSION_RC_MIX, "Invalid wrapper version for order-mix range coder")
}

/// BWT, MTF and order-1/order-2 mixing range coding.
pub fn ssp5_encode_with_range_coder_o12(data: &[u8]) -> (out: Vec<u8>)
    requires
        data@.len() + 4 <= MAX_SYMBOLS,
    ensures
        stage_encoded(4, data@, out@),
{
    stage_encode(data, 4, WRAPPER_VERSION_RC_O12)
}

/// Decode `ssp5_encode_with_range_coder_o12` output.
pub fn ssp5_decode_with_range_coder_o12(archive: &[u8]) -> (r: Result<Vec<u8>, &'static str>)
    requires
        stage_len_ok(archive@, stage_version(4)),
    ensures
        stage_decode_ok(4, archive@, r, "Invalid wrapper version for order-1+2 range coder"),
{
    stage_decode(archive, 4, WRAPPER_VERSION_RC_O12, "Invalid wrapper version for order-1+2 range coder")
}

/// BWT, MTF and Huffman coding.
pub fn ssp5_encode_with_huffman(data: &[u8]) -> (out: Vec<u8>)
    requires
        data@.len() + 4 <= MAX_SYMBOLS,
    ensures
        stage_encoded(5, data@, out@),
{
    stage_encode(data, 5, WRAPPER_VERSION_HUFFMAN)
}

/// Decode `ssp5_encode_with_huffman` output.
pub fn ssp5_decode_with_huffman(archive: &[u8]) -> (r: Result<Vec<u8>, &'static str>)
    requires
        stage_len_ok(archive@, stage_version(5)),
    ensures
        stage_decode_ok(5, archive@, r, "Invalid wrapper version for Huffman pipeline"),
{
    stage_decode(archive, 5, WRAPPER_VERSION_HUFFMAN, "Invalid wrapper version for Huffman pipeline")
}


// ───────────────────────────── SSP pipelines ─────────────────────────────

/// Bytes of a sequence of 64-bit numbers, little-endian each.
pub open spec fn u64s_bytes(s: Seq<u64>) -> Seq<u8>
    decreases s.len(),
{
    if s.len() == 0 {
        Seq::empty()
    } else {
        u64s_bytes(s.drop_last()) + le64_bytes(s.last())
    }
}

/// BWT stage of the SSP pipeline: chunked BWT when a chunk size is set and
/// the data is longer, `passes` iterative passes when more than one, else a
/// single pass; the primary packed in front.
pub open spec fn options_bwt(d: Seq<u8>, cs: nat, passes: nat) -> Seq<u8> {
    if cs > 0 && d.len() > cs {
        le32_bytes(chunk_count(d.len(), cs) as u32) + bwt_chunks(d, cs)
    } else if passes > 1 {
        le32_bytes(bwt_iter(d, passes).0) + bwt_iter(d, passes).1
    } else {
        le32_bytes(bwt_primary(d)) + bwt_last(d)
    }
}

/// The stream handed to the SSP codec fits its 32-bit length field: the data
/// behind the 4-byte BWT index without chunking, and at most nine bytes per
/// data byte with it.
pub open spec fn options_fit(n: nat, cs: nat) -> bool {
    if cs == 0 {
        n + 12 <= u32::MAX
    } else {
        9 * n + 16 <= u32::MAX
    }
}

/// MTF stage of the SSP pipeline: chunk by chunk when the BWT was chunked
/// (a chunk size is set and the data is longer), else over the whole stream.
pub open spec fn options_mtf(d: Seq<u8>, cs: nat, passes: nat) -> Seq<u8> {
    let bp = options_bwt(d, cs, passes);
    if cs > 0 && d.len() > cs {
        bwt_chunked_mtf_bytes(bp)
    } else {
        mtf_spec(bp)
    }
}

/// `tail` is the SSP archive of `m` over `s` with block size `bb` and delta
/// `delta`.
pub open spec fn ssp_tail_ok(tail: Seq<u8>, m: Seq<u8>, bb: nat, delta: bool, s: Seq<u64>) -> bool {
    crate::ssp_codec::ssp_encoded(tail, m, bb, delta, s)
}

/// Header of a plain SSP pipeline archive.
pub open spec fn plain_header(cs: nat, s: Seq<u64>) -> Seq<u8> {
    wrapper_magic() + seq![WRAPPER_VERSION, 0u8] + le32_bytes(cs as u32) + seq![s.len() as u8] + u64s_bytes(s)
}

/// `out` is a plain SSP pipeline archive of `d` (no chunking, one pass, no delta).
pub open spec fn plain_archive_ok(out: Seq<u8>, d: Seq<u8>, s: Seq<u64>, bb: nat) -> bool {
    let h = plain_header(0, s);
    &&& out.len() >= h.len()
    &&& out.subrange(0, h.len() as int) == h
    &&& ssp_tail_ok(out.subrange(h.len() as int, out.len() as int), bwt_mtf(d), bb, false, s)
}

/// `out` is the LZ77 SSP pipeline archive of `d` for tokens `tokens`
/// serialized as `lz`.
pub open spec fn lz77_archive_ok(out: Seq<u8>, d: Seq<u8>, s: Seq<u64>, bb: nat, tokens: Seq<Token>, lz: Seq<u8>) -> bool {
    let h = lz77_header(lz, s);
    &&& tokens.len() <= crate::lz77::MAX_TOKENS
    &&& lz.len() + 12 <= u32::MAX
    &&& lz_decode(tokens) == d
    &&& crate::bit_io::bytes_bits(lz) == crate::bit_io::pad_bits(tokens_stream_bits(tokens))
    &&& out.len() >= h.len()
    &&& out.subrange(0, h.len() as int) == h
    &&& ssp_tail_ok(out.subrange(h.len() as int, out.len() as int), bwt_mtf(lz), bb, false, s)
}

proof fn lemma_plain_prefix(out: Seq<u8>, d: Seq<u8>, s: Seq<u64>, bb: nat)
    requires
        plain_archive_ok(out, d, s, bb),
    ensures
        out.len() >= 6,
        out.subrange(0, 4) == wrapper_magic(),
        out[4] == WRAPPER_VERSION,
        out[5] == 0,
{
    let h = plain_header(0, s);
    assert(h.len() >= 6);
    assert(out.subrange(0, 4) =~= h.subrange(0, 4));
    assert(h.subrange(0, 4) =~= wrapper_magic());
    assert(out[4] == out.subrange(0, h.len() as int)[4]);
    assert(out[5] == out.subrange(0, h.len() as int)[5]);
}

/// `out` is what `ssp5_encode_with_lz77` writes for `d`: the LZ77 archive of
/// some tokens of `d` (flag byte 1), or else the plain archive of `d`.
pub open spec fn lz77_or_plain(out: Seq<u8>, d: Seq<u8>, s: Seq<u64>, bb: nat) -> bool {
    &&& out.len() >= 6 && out.subrange(0, 4) == wrapper_magic() && out[4] == WRAPPER_VERSION
    &&& out[5] == 1 ==> exists|tokens: Seq<Token>, lz: Seq<u8>| #[trigger] lz77_archive_ok(out, d, s, bb, tokens, lz)
    &&& out[5] != 1 ==> out[5] == 0 && plain_archive_ok(out, d, s, bb)
}

/// Header of an LZ77 SSP pipeline archive.
pub open spec fn lz77_header(lz: Seq<u8>, s: Seq<u64>) -> Seq<u8> {
    wrapper_magic() + seq![WRAPPER_VERSION, 1u8] + le32_bytes(lz.len() as u32) + lz + seq![s.len() as u8]
        + u64s_bytes(s)
}

proof fn lemma_bwt_chunks_len(d: Seq<u8>, cs: nat)
    requires
        cs > 0,
    ensures
        bwt_chunks(d, cs).len() <= 9 * d.len(),
    decreases d.len(),
{
    if d.len() > 0 {
        let n = if cs < d.len() { cs } else { d.len() };
        lemma_bwt_chunks_len(d.subrange(n as int, d.len() as int), cs);
    }
}

proof fn lemma_bwt_chunks_mtf_len(d: Seq<u8>, count: nat)
    ensures
        crate::mtf::bwt_chunks_mtf(d, count).len() <= d.len(),
    decreases count,
{
    if count > 0 && d.len() >= 8 {
        let l = le32_at(d, 0) as int;
        if 8 + l <= d.len() {
            crate::mtf::law_mtf_roundtrip(d.subrange(4, 8 + l));
            lemma_bwt_chunks_mtf_len(d.subrange(8 + l, d.len() as int), (count - 1) as nat);
        }
    }
}

proof fn lemma_bwt_iter_len(d: Seq<u8>, k: nat)
    ensures
        bwt_iter(d, k).1.len() == d.len(),
    decreases k,
{
    if k > 0 {
        lemma_bwt_iter_len(d, (k - 1) as nat);
    }
}

proof fn lemma_options_len(d: Seq<u8>, cs: nat, passes: nat)
    ensures
        options_bwt(d, cs, passes).len() <= 4 + 9 * d.len(),
        options_mtf(d, cs, passes).len() <= 8 + 9 * d.len(),
        cs == 0 ==> options_mtf(d, cs, passes).len() == 4 + d.len(),
{
    if cs > 0 && d.len() > cs {
        lemma_bwt_chunks_len(d, cs);
    } else if passes > 1 {
        lemma_bwt_iter_len(d, passes);
    }
    let bp = options_bwt(d, cs, passes);
    crate::mtf::law_mtf_roundtrip(bp);
    if bp.len() >= 4 {
        lemma_bwt_chunks_mtf_len(bp.subrange(4, bp.len() as int), le32_at(bp, 0) as nat);
    }
}

pub fn push_u64s(out: &mut Vec<u8>, s: &[u64])
    ensures
        final(out)@ == old(out)@ + u64s_bytes(s@),
{
    let ghost start = old(out)@;
    let mut i: usize = 0;
    assert(s@.subrange(0, 0) =~= Seq::<u64>::empty());
    while i < s.len()
        invariant
            i <= s@.len(),
            out@ == start + u64s_bytes(s@.subrange(0, i as int)),
        decreases s@.len() - i,
    {
        push_u64_le(out, s[i]);
        proof {
            assert(s@.subrange(0, i + 1).drop_last() =~= s@.subrange(0, i as int));
        }
        i = i + 1;
        assert(out@ =~= start + u64s_bytes(s@.subrange(0, i as int)));
    }
    assert(s@.subrange(0, s@.len() as int) =~= s@);
}

/// SSP stage: the SSP archive of `m`.
fn ssp_stage(m: &[u8], s: &[u64], block_bits: usize, delta: bool) -> (out: Vec<u8>)
    requires
        8 <= block_bits <= 63,
        m@.len() <= u32::MAX - 8,
        s@.len() < MAX_S_LEN,
        sums_fit(s@),
    ensures
        ssp_tail_ok(out@, m@, block_bits as nat, delta, s@),
{
    crate::ssp_codec::encode(m, s, block_bits, delta)
}

/// BWT, MTF and SSP coding with options: a chunk size (0 for none) for a
/// chunked BWT and per-chunk MTF, a number of BWT passes, and
/// subtraction-delta between blocks.
pub fn ssp5_encode_with_options(
    data: &[u8],
    s: &[u64],
    block_bits: usize,
    chunk_size: usize,
    bwt_passes: usize,
    delta: bool,
) -> (out: Vec<u8>)
    requires
        8 <= block_bits <= 63,
        options_fit(data@.len(), chunk_size as nat),
        s@.len() < MAX_S_LEN,
        sums_fit(s@),
    ensures
        ({
            let h = plain_header(chunk_size as nat, s@);
            &&& out@.len() >= h.len()
            &&& out@.subrange(0, h.len() as int) == h
            &&& ssp_tail_ok(
                out@.subrange(h.len() as int, out@.len() as int),
                options_mtf(data@, chunk_size as nat, bwt_passes as nat),
                block_bits as nat,
                delta,
                s@,
            )
        }),
{
    let bwt_packed: Vec<u8> = if chunk_size > 0 && data.len() > chunk_size {
        bwt_encode_chunked(data, chunk_size)
    } else if bwt_passes > 1 {
        let (primary, last) = bwt_encode_iterative(data, bwt_passes);
        pack_bwt(primary, &last)
    } else {
        let (primary, last) = bwt_encode(data);
        pack_bwt(primary, &last)
    };
    assert(bwt_packed@ =~= options_bwt(data@, chunk_size as nat, bwt_passes as nat));
    let mtf_data = if chunk_size > 0 && data.len() > chunk_size {
        mtf_encode_bwt_chunked(bwt_packed.as_slice(), chunk_size)
    } else {
        mtf_encode(bwt_packed.as_slice())
    };
    proof {
        lemma_options_len(data@, chunk_size as nat, bwt_passes as nat);
    }
    let ssp = ssp_stage(mtf_data.as_slice(), s, block_bits, delta);
    let mut out: Vec<u8> = Vec::new();
    out.push(WRAPPER_MAGIC[0]);
    out.push(WRAPPER_MAGIC[1]);
    out.push(WRAPPER_MAGIC[2]);
    out.push(WRAPPER_MAGIC[3]);
    out.push(WRAPPER_VERSION);
    out.push(0);
    push_u32_le(&mut out, chunk_size as u32);
    out.push(s.len() as u8);
    push_u64s(&mut out, s);
    let ghost h = out@;
    assert(h =~= plain_header(chunk_size as nat, s@));
    out.extend_from_slice(ssp.as_slice());
    assert(out@.subrange(0, h.len() as int) =~= h);
    assert(out@.subrange(h.len() as int, out@.len() as int) =~= ssp@);
    out
}

/// BWT, MTF and SSP coding, without chunking or delta.
pub fn ssp5_encode(data: &[u8], s: &[u64], block_bits: usize) -> (out: Vec<u8>)
    requires
        8 <= block_bits <= 63,
        data@.len() + 12 <= u32::MAX,
        s@.len() < MAX_S_LEN,
        sums_fit(s@),
    ensures
        plain_archive_ok(out@, data@, s@, block_bits as nat),
{
    ssp5_encode_with_options(data, s, block_bits, 0, 1, false)
}

/// LZ77, then BWT, MTF and SSP coding of the serialized tokens; the token
/// bytes are kept in the header too.  Falls back to `ssp5_encode` when there
/// are more than `MAX_TOKENS` tokens or their bytes exceed the SSP codec's
/// 4 GiB limit.
#[verifier::spinoff_prover]
#[verifier::rlimit(60)]
pub fn ssp5_encode_with_lz77(data: &[u8], s: &[u64], block_bits: usize) -> (out: Vec<u8>)
    requires
        8 <= block_bits <= 63,
        data@.len() + 12 <= u32::MAX,
        s@.len() < MAX_S_LEN,
        sums_fit(s@),
    ensures
        lz77_or_plain(out@, data@, s@, block_bits as nat),
{
    let tokens = crate::lz77::encode(data);
    if tokens.len() > crate::lz77::MAX_TOKENS as usize {
        let plain = ssp5_encode(data, s, block_bits);
        proof {
            lemma_plain_prefix(plain@, data@, s@, block_bits as nat);
        }
        return plain;
    }
    let lz = crate::lz77::tokens_to_bytes(tokens.as_slice());
    if lz.len() > u32::MAX as usize - 12 {
        let plain = ssp5_encode(data, s, block_bits);
        proof {
            lemma_plain_prefix(plain@, data@, s@, block_bits as nat);
        }
        return plain;
    }
    let (primary, last) = bwt_encode(lz.as_slice());
    let packed = pack_bwt(primary, &last);
    let m = mtf_encode(packed.as_slice());
    proof {
        crate::mtf::law_mtf_roundtrip(packed@);
    }
    let ssp = ssp_stage(m.as_slice(), s, block_bits, false);
    let mut out: Vec<u8> = Vec::new();
    out.push(WRAPPER_MAGIC[0]);
    out.push(WRAPPER_MAGIC[1]);
    out.push(WRAPPER_MAGIC[2]);
    out.push(WRAPPER_MAGIC[3]);
    out.push(WRAPPER_VERSION);
    out.push(1);
    push_u32_le(&mut out, lz.len() as u32);
    out.extend_from_slice(lz.as_slice());
    out.push(s.len() as u8);
    push_u64s(&mut out, s);
    let ghost h = out@;
    assert(h =~= lz77_header(lz@, s@));
    out.extend_from_slice(ssp.as_slice());
    proof {
        assert(out@.subrange(0, h.len() as int) =~= h);
        assert(out@.subrange(h.len() as int, out@.len() as int) =~= ssp@);
        assert(out@.subrange(0, 4) =~= wrapper_magic());
        assert(lz77_archive_ok(out@, data@, s@, block_bits as nat, tokens@, lz@));
        assert(out@[5] == 1);
    }
    out
}

/// The smaller of `ssp5_encode` and `ssp5_encode_with_lz77` (the plain one
/// on a tie).
pub fn ssp5_encode_auto(data: &[u8], s: &[u64], block_bits: usize) -> (out: Vec<u8>)
    requires
        8 <= block_bits <= 63,
        data@.len() + 12 <= u32::MAX,
        s@.len() < MAX_S_LEN,
        sums_fit(s@),
    ensures
        exists|plain: Seq<u8>, lz: Seq<u8>|
            #![trigger plain_archive_ok(plain, data@, s@, block_bits as nat), lz77_or_plain(lz, data@, s@, block_bits as nat)]
            plain_archive_ok(plain, data@, s@, block_bits as nat) && lz77_or_plain(lz, data@, s@, block_bits as nat)
                && out@ == (if lz.len() < plain.len() { lz } else { plain }),
{
    let plain = ssp5_encode(data, s, block_bits);
    let lz = ssp5_encode_with_lz77(data, s, block_bits);
    assert(plain_archive_ok(plain@, data@, s@, block_bits as nat));
    assert(lz77_or_plain(lz@, data@, s@, block_bits as nat));
    if lz.len() < plain.len() {
        lz
    } else {
        plain
    }
}


// ───────────────────────────── SSP pipeline decoding ─────────────────────────────

/// `n` little-endian 64-bit numbers of `a` from `start`.
pub open spec fn u64s_at(a: Seq<u8>, start: int, n: nat) -> Seq<u64> {
    Seq::new(n, |i: int| le64_at(a, start + 8 * i))
}

/// The MTF output `m` of the plain pipeline with chunk size `cs` comes from
/// a chunked BWT: unchunked output is at most 4 bytes longer than a chunk,
/// chunked output at least 20.
pub open spec fn plain_chunked(m: Seq<u8>, cs: nat) -> bool {
    cs > 0 && m.len() > cs + 4
}

/// Packed BWT stream behind the MTF output of the plain pipeline: chunk by
/// chunk when the chunk size is set and the output is longer.
pub open spec fn plain_unmtf(m: Seq<u8>, cs: nat) -> Seq<u8> {
    if plain_chunked(m, cs) {
        if m.len() == 0 {
            Seq::empty()
        } else {
            let ch = crate::mtf::mtf_bwt_chunks(m);
            le32_bytes(ch.len() as u32) + crate::mtf::bwt_chunks_bytes(ch)
        }
    } else {
        unmtf_spec(m)
    }
}

/// Bytes behind the MTF output `m` of the plain pipeline with chunk size `cs`.
pub open spec fn plain_unstage(m: Seq<u8>, cs: nat) -> Seq<u8> {
    let bp = plain_unmtf(m, cs);
    if plain_chunked(m, cs) {
        bwt_chunked_inverse(bp)
    } else {
        bwt_inverse(packed_primary(bp), packed_last(bp))
    }
}

/// Bytes behind the MTF output `m` of the LZ77 pipeline.
pub open spec fn lz_unstage(m: Seq<u8>) -> Seq<u8> {
    lz_decode(parsed_tokens(bwt_mtf_inverse(m))->Some_0)
}

/// Parts of an SSP pipeline archive `a`: whether it is plain (not LZ77),
/// its sequence, its SSP archive and its chunk size.
pub open spec fn ssp5_parts(a: Seq<u8>) -> (bool, Seq<u64>, Seq<u8>, nat) {
    let version = a[4];
    let plain = a[5] == 0 || version < 2;
    let sp = if !plain { 10 + le32_at(a, 6) } else if version >= 3 { 10int } else { 6int };
    let n = a[sp] as nat;
    (
        plain,
        u64s_at(a, sp + 1, n),
        a.subrange(sp + 1 + 8 * n, a.len() as int),
        if version >= 3 { le32_at(a, 6) as nat } else { 0 },
    )
}

/// `out` is what the SSP pipeline archive `a` decodes to: its SSP archive
/// decodes (over its sequence) to some `m`, and `out` is the bytes behind
/// `m` for the archive's kind (plain with its chunk size, or LZ77).
pub open spec fn ssp5_decoded_as(a: Seq<u8>, out: Seq<u8>) -> bool {
    exists|m: Seq<u8>|
        #[trigger] crate::ssp_codec::ssp_decoded_as(ssp5_parts(a).2, ssp5_parts(a).1, m) && out == (if ssp5_parts(
            a,
        ).0 {
            plain_unstage(m, ssp5_parts(a).3)
        } else {
            lz_unstage(m)
        })
}

/// The pipeline header of `a` is complete: the LZ77 length field and the
/// sequence fit inside the archive.
pub open spec fn ssp5_head_ok(a: Seq<u8>) -> bool {
    let plain = a[5] == 0 || a[4] < 2;
    let sp = if !plain { 10 + le32_at(a, 6) } else if a[4] >= 3 { 10int } else { 6int };
    &&& !plain ==> a.len() >= 10 && le32_at(a, 6) <= a.len() - 10
    &&& sp < a.len()
    &&& 8 * a[sp] <= a.len() - (sp + 1)
}

/// Bytes behind the SSP output `m` of pipeline archive `a`, as the decoder
/// computes them: empty where a BWT block or the token stream is malformed.
pub open spec fn ssp5_finish(a: Seq<u8>, m: Seq<u8>) -> Seq<u8> {
    let parts = ssp5_parts(a);
    if parts.0 {
        let cs = parts.3;
        let bp = plain_unmtf(m, cs);
        if plain_chunked(m, cs) {
            if bwt_chunked_decodable(bp) { bwt_chunked_inverse(bp) } else { Seq::empty() }
        } else if packed_last(bp).len() <= 1 || packed_primary(bp) < packed_last(bp).len() {
            bwt_inverse(packed_primary(bp), packed_last(bp))
        } else {
            Seq::empty()
        }
    } else if !bwt_mtf_invertible(m) {
        Seq::empty()
    } else if tokens_readable(bwt_mtf_inverse(m)) {
        lz_unstage(m)
    } else {
        Seq::empty()
    }
}

pub fn read_u64s(a: &[u8], start: usize, n: usize) -> (v: Vec<u64>)
    requires
        start + 8 * n <= a@.len(),
    ensures
        v@ == u64s_at(a@, start as int, n as nat),
{
    let mut v: Vec<u64> = Vec::new();
    let mut i: usize = 0;
    let al = a.len();
    while i < n
        invariant
            start + 8 * n <= a@.len(),
            al == a@.len(),
            i <= n,
            v@ == u64s_at(a@, start as int, i as nat),
        decreases n - i,
    {
        v.push(read_u64_le(a, start + 8 * i));
        i = i + 1;
        assert(v@ =~= u64s_at(a@, start as int, i as nat));
    }
    v
}

/// Decode an SSP pipeline archive (plain or LZ77).  An archive that does
/// not decode gives empty output.
pub fn ssp5_decode(archive: &[u8]) -> (out: Vec<u8>)
    requires
        archive@.len() >= 6,
        archive@.subrange(0, 4) == wrapper_magic(),
    ensures
        !ssp5_head_ok(archive@) ==> out@ == Seq::<u8>::empty(),
        ({
            let parts = ssp5_parts(archive@);
            ssp5_head_ok(archive@) && !crate::ssp_codec::header_valid(parts.2) ==> out@ == Seq::<u8>::empty()
        }),
        ({
            let parts = ssp5_parts(archive@);
            let part = parts.2;
            ssp5_head_ok(archive@) && crate::ssp_codec::header_valid(part) && part.len() < 0x1000_0000_0000_0000
                && crate::ssp_codec::bitpacked_flags(part[5]) ==> out@ == (if crate::ssp_codec::header_tail(
                part,
                parts.1,
            ) is Some {
                ssp5_finish(archive@, crate::ssp_codec::bitpacked_decoded(part, parts.1))
            } else {
                Seq::<u8>::empty()
            })
        }),
        out@.len() > 0 ==> ssp5_decoded_as(archive@, out@),
        out@.len() > 0 ==> exists|m: Seq<u8>|
            #[trigger] crate::ssp_codec::ssp_decoded_as(ssp5_parts(archive@).2, ssp5_parts(archive@).1, m) && out@
                == ssp5_finish(archive@, m),
{
    let alen = archive.len();
    let version = archive[4];
    let lz_flag = archive[5];
    let plain = lz_flag == 0 || version < 2;
    let s_len_pos: usize = if !plain {
        if alen < 10 {
            return Vec::new();
        }
        let ll = read_u32_le(archive, 6) as usize;
        if ll > alen - 10 {
            return Vec::new();
        }
        10 + ll
    } else if version >= 3 {
        10
    } else {
        6
    };
    if s_len_pos >= alen {
        return Vec::new();
    }
    let n = archive[s_len_pos] as usize;
    let s_start = s_len_pos + 1;
    if 8 * n > alen - s_start {
        return Vec::new();
    }
    let s_vec = read_u64s(archive, s_start, n);
    let s_end = s_start + 8 * n;
    let ssp_data = slice_range(archive, s_end, alen);
    let m = match crate::ssp_codec::decode(ssp_data, s_vec.as_slice()) {
        Ok(m) => m,
        Err(_) => {
            return Vec::new();
        },
    };
    let ghost gm = m@;
    let out: Vec<u8> = if plain {
        let cs: usize = if version >= 3 {
            if alen < 10 {
                return Vec::new();
            }
            read_u32_le(archive, 6) as usize
        } else {
            0
        };
        let chunked = cs > 0 && m.len() > 4 && m.len() - 4 > cs;
        let bp = if chunked {
            mtf_decode_bwt_chunked(m.as_slice())
        } else {
            mtf_decode(m.as_slice())
        };
        assert(bp@ == plain_unmtf(gm, cs as nat));
        let r = if chunked {
            if !bwt_chunked_ok(bp.as_slice()) {
                return Vec::new();
            }
            bwt_decode_chunked(bp.as_slice())
        } else {
            let (p, last) = unpack_bwt(bp.as_slice());
            if !(last.len() <= 1 || (p as usize) < last.len()) {
                return Vec::new();
            }
            bwt_decode(p, last)
        };
        assert(r@ == plain_unstage(gm, cs as nat));
        assert(cs as nat == (if version >= 3 { le32_at(archive@, 6) as nat } else { 0 }));
        r
    } else {
        let b = mtf_decode(m.as_slice());
        let (p, last) = unpack_bwt(b.as_slice());
        if !(last.len() <= 1 || (p as usize) < last.len()) {
            return Vec::new();
        }
        let lz = bwt_decode(p, last);
        assert(lz@ == bwt_mtf_inverse(gm));
        let tokens = match bytes_to_tokens_checked(lz.as_slice()) {
            Some(t) => t,
            None => {
                return Vec::new();
            },
        };
        let r = crate::lz77::decode(tokens.as_slice());
        assert(r@ == lz_unstage(gm));
        r
    };
    proof {
        let cs = if version >= 3 { le32_at(archive@, 6) as nat } else { 0 };
        let sp = s_len_pos as int;
        assert(sp == (if !plain { 10 + le32_at(archive@, 6) } else if version >= 3 { 10int } else { 6int }));
        assert(ssp_data@ =~= archive@.subrange(sp + 1 + 8 * (n as nat), archive@.len() as int));
        assert(s_vec@ == u64s_at(archive@, sp + 1, n as nat));
        assert(crate::ssp_codec::ssp_decoded_as(
            archive@.subrange(sp + 1 + 8 * (n as nat), archive@.len() as int),
            u64s_at(archive@, sp + 1, n as nat),
            gm,
        ));
        assert(out@ == (if plain { plain_unstage(gm, cs) } else { lz_unstage(gm) }));
        let parts = ssp5_parts(archive@);
        assert(parts.2 =~= archive@.subrange(sp + 1 + 8 * (n as nat), archive@.len() as int));
        assert(parts.1 == s_vec@);
        assert(parts.0 == plain);
        assert(parts.3 == cs);
        assert(crate::ssp_codec::ssp_decoded_as(parts.2, parts.1, gm));
        assert(ssp5_decoded_as(archive@, out@));
    }
    out
}


// ───────────────────────────── run-length coding of MTF output ─────────────────────────────

/// Escape byte of the MTF run-length code.
pub const RLE_ESCAPE: u8 = 0xFE;

/// Length of the run of equal bytes at `i`, counting from `r`, capped at 255.
pub open spec fn run_at(d: Seq<u8>, i: int, r: nat) -> nat
    decreases 255 - r,
{
    if r < 255 && i + r < d.len() && d[i + r] == d[i] {
        run_at(d, i, r + 1)
    } else {
        r
    }
}

/// Run-length code of `d` from `i`: runs of three or more equal bytes (at
/// most 255, not the escape byte) as `[ESC, byte, run - 3]`, the escape byte
/// as `[ESC, ESC]`, other bytes as they are.
pub open spec fn rle_spec(d: Seq<u8>, i: int) -> Seq<u8>
    decreases d.len() - i,
{
    if i < 0 || i >= d.len() {
        Seq::empty()
    } else {
        let b = d[i];
        let r = run_at(d, i, 1);
        if r >= 3 && b != RLE_ESCAPE {
            proof {
                lemma_run_at(d, i, 1);
            }
            seq![RLE_ESCAPE, b, (r - 3) as u8] + rle_spec(d, i + r)
        } else if b == RLE_ESCAPE {
            seq![RLE_ESCAPE, RLE_ESCAPE] + rle_spec(d, i + 1)
        } else {
            seq![b] + rle_spec(d, i + 1)
        }
    }
}

/// Decoding of a run-length code onto `out`, stopping once `orig` bytes are
/// out; a run cut short ends the decoding.
pub open spec fn unrle(e: Seq<u8>, out: Seq<u8>, orig: nat) -> Seq<u8>
    decreases e.len(),
{
    if e.len() == 0 || out.len() >= orig {
        out
    } else if e[0] == RLE_ESCAPE && e.len() > 1 {
        if e[1] == RLE_ESCAPE {
            unrle(e.subrange(2, e.len() as int), out.push(RLE_ESCAPE), orig)
        } else if e.len() > 2 {
            unrle(e.subrange(3, e.len() as int), out + Seq::new((e[2] + 3) as nat, |t: int| e[1]), orig)
        } else {
            out
        }
    } else {
        unrle(e.subrange(1, e.len() as int), out.push(e[0]), orig)
    }
}

pub proof fn lemma_run_at(d: Seq<u8>, i: int, r: nat)
    requires
        0 <= i < d.len(),
        1 <= r <= 255,
        i + r <= d.len(),
        forall|t: int| 0 <= t < r ==> #[trigger] d[i + t] == d[i],
    ensures
        r <= run_at(d, i, r) <= 255,
        i + run_at(d, i, r) <= d.len(),
        forall|t: int| 0 <= t < run_at(d, i, r) ==> #[trigger] d[i + t] == d[i],
    decreases 255 - r,
{
    if r < 255 && i + r < d.len() && d[i + r] == d[i] {
        assert forall|t: int| 0 <= t < r + 1 implies #[trigger] d[i + t] == d[i] by {
            if t < r {
                assert(d[i + t] == d[i]);
            }
        }
        lemma_run_at(d, i, r + 1);
    }
}

/// The run-length code of `d`, and the length of `d`.
pub fn apply_rle(data: &[u8]) -> (r: (Vec<u8>, u32))
    requires
        data@.len() <= u32::MAX,
    ensures
        r.0@ == rle_spec(data@, 0),
        r.1 == data@.len(),
{
    let n = data.len();
    let mut out: Vec<u8> = Vec::new();
    let mut i: usize = 0;
    while i < n
        invariant
            n == data@.len(),
            i <= n,
            out@ + rle_spec(data@, i as int) == rle_spec(data@, 0),
        decreases n - i,
    {
        let b = data[i];
        let mut run: usize = 1;
        while i + run < n && data[i + run] == b && run < 255
            invariant
                n == data@.len(),
                i < n,
                1 <= run <= 255,
                i + run <= n,
                b == data@[i as int],
                run_at(data@, i as int, 1) == run_at(data@, i as int, run as nat),
            decreases 255 - run,
        {
            run = run + 1;
        }
        assert(run == run_at(data@, i as int, 1));
        let ghost before = out@;
        if run >= 3 && b != RLE_ESCAPE {
            out.push(RLE_ESCAPE);
            out.push(b);
            out.push((run - 3) as u8);
            assert(out@ =~= before + seq![RLE_ESCAPE, b, (run - 3) as u8]);
            i = i + run;
        } else if b == RLE_ESCAPE {
            out.push(RLE_ESCAPE);
            out.push(RLE_ESCAPE);
            assert(out@ =~= before + seq![RLE_ESCAPE, RLE_ESCAPE]);
            i = i + 1;
        } else {
            out.push(b);
            assert(out@ =~= before + seq![b]);
            i = i + 1;
        }
        assert(out@ + rle_spec(data@, i as int) =~= rle_spec(data@, 0));
    }
    assert(rle_spec(data@, n as int) =~= Seq::<u8>::empty());
    assert(out@ =~= rle_spec(data@, 0));
    (out, n as u32)
}

/// Decode a run-length code until `orig_len` bytes are out (a run cut short
/// at the end stops the decoding).
pub fn reverse_rle(data: &[u8], orig_len: u32) -> (out: Vec<u8>)
    ensures
        out@ == unrle(data@, Seq::empty(), orig_len as nat),
{
    let n = data.len();
    let mut out: Vec<u8> = Vec::new();
    let mut i: usize = 0;
    assert(data@.subrange(0, n as int) =~= data@);
    while i < n && (out.len() as u64) < orig_len as u64
        invariant
            n == data@.len(),
            i <= n,
            unrle(data@.subrange(i as int, n as int), out@, orig_len as nat) == unrle(
                data@,
                Seq::empty(),
                orig_len as nat,
            ),
        decreases n - i,
    {
        let ghost e = data@.subrange(i as int, n as int);
        let b = data[i];
        if b == RLE_ESCAPE && i + 1 < n {
            let next = data[i + 1];
            if next == RLE_ESCAPE {
                out.push(RLE_ESCAPE);
                assert(e.subrange(2, e.len() as int) =~= data@.subrange(i + 2, n as int));
                i = i + 2;
            } else if i + 2 < n {
                let count = data[i + 2] as u64 + 3;
                let ghost start = out@;
                let mut c: u64 = 0;
                while c < count
                    invariant
                        c <= count,
                        out@ == start + Seq::new(c as nat, |t: int| next),
                    decreases count - c,
                {
                    out.push(next);
                    c = c + 1;
                    assert(out@ =~= start + Seq::new(c as nat, |t: int| next));
                }
                assert(out@ =~= start + Seq::new((e[2] + 3) as nat, |t: int| e[1]));
                assert(e.subrange(3, e.len() as int) =~= data@.subrange(i + 3, n as int));
                i = i + 3;
            } else {
                return out;
            }
        } else {
            out.push(b);
            assert(e.subrange(1, e.len() as int) =~= data@.subrange(i + 1, n as int));
            i = i + 1;
        }
    }
    proof {
        if i >= n {
            assert(data@.subrange(i as int, n as int).len() == 0);
        }
    }
    out
}

proof fn lemma_unrle_rle(d: Seq<u8>, i: int)
    requires
        0 <= i <= d.len(),
    ensures
        unrle(rle_spec(d, i), d.subrange(0, i), d.len()) == d,
    decreases d.len() - i,
{
    if i == d.len() {
        assert(d.subrange(0, i) =~= d);
    } else {
        let b = d[i];
        let r = run_at(d, i, 1);
        lemma_run_at(d, i, 1);
        let out = d.subrange(0, i);
        if r >= 3 && b != RLE_ESCAPE {
            let e = rle_spec(d, i);
            let rest = rle_spec(d, i + r);
            assert(e == seq![RLE_ESCAPE, b, (r - 3) as u8] + rest);
            assert(e.subrange(3, e.len() as int) =~= rest);
            assert(e[1] == b);
            assert(e[2] == (r - 3) as u8);
            assert((e[2] + 3) as nat == r);
            let runs = Seq::new((e[2] + 3) as nat, |t: int| e[1]);
            let whole = out + runs;
            assert(whole =~= d.subrange(0, i + r)) by {
                assert forall|k: int| 0 <= k < i + r implies #[trigger] whole[k] == d.subrange(0, i + r)[k] by {
                    if k >= i {
                        assert(d[i + (k - i)] == d[i]);
                    }
                }
            }
            lemma_unrle_rle(d, i + r);
        } else if b == RLE_ESCAPE {
            let e = rle_spec(d, i);
            let rest = rle_spec(d, i + 1);
            assert(e.subrange(2, e.len() as int) =~= rest);
            assert(out.push(RLE_ESCAPE) =~= d.subrange(0, i + 1));
            lemma_unrle_rle(d, i + 1);
        } else {
            let e = rle_spec(d, i);
            let rest = rle_spec(d, i + 1);
            assert(e.subrange(1, e.len() as int) =~= rest);
            assert(out.push(b) =~= d.subrange(0, i + 1));
            lemma_unrle_rle(d, i + 1);
        }
    }
}

/// Run-length round trip: decoding the run-length code of any data, up to
/// its length, gives the data back.
pub proof fn law_rle_roundtrip(d: Seq<u8>)
    ensures
        unrle(rle_spec(d, 0), Seq::empty(), d.len()) == d,
{
    assert(d.subrange(0, 0) =~= Seq::<u8>::empty());
    lemma_unrle_rle(d, 0);
}

// ───────────────────────────── entropy-stage round trip ─────────────────────────────

/// The range-coded stages decode what they coded, within their limits.
proof fn lemma_stage_coded_decodes(kind: u8, m: Seq<u8>, rest: Seq<u8>)
    requires
        kind <= 4,
        m.len() <= MAX_SYMBOLS,
        stage_coded(kind, m, rest),
    ensures
        stage_input_ok(kind, rest),
        stage_decoded(kind, rest) == Ok::<Seq<u8>, ()>(m),
{
    if kind == 0 {
        crate::range_coder::law_range_bytes_roundtrip(m, rest);
        if rest.len() == 0 {
            assert(uleb_bytes(m.len()).len() >= 1) by {
                crate::bit_io::lemma_uleb_len(m.len());
            }
        }
    } else if kind == 1 || kind == 2 {
        crate::range_coder::law_model_stream_roundtrip(kind as nat, kind, m, rest);
    } else {
        crate::range_coder::law_mix_stream_roundtrip((kind - 3) as nat, kind, m, rest);
    }
}

/// The header fields of an entropy-stage archive read back.
proof fn lemma_stage_header_fields(version: u8, primary: u32, n: nat, a: Seq<u8>)
    requires
        n <= u32::MAX,
        a.len() >= 13,
        a.subrange(0, 13) == stage_header(version, primary, n),
    ensures
        a.subrange(0, 4) == wrapper_magic(),
        a[4] == version,
        le32_at(a, 5) == primary,
        le32_at(a, 9) == n,
{
    let h = stage_header(version, primary, n);
    let pre = wrapper_magic() + seq![version];
    crate::le::lemma_le32_roundtrip(primary, pre, le32_bytes(n as u32));
    crate::le::lemma_le32_roundtrip(n as u32, pre + le32_bytes(primary), Seq::<u8>::empty());
    assert(h =~= pre + le32_bytes(primary) + le32_bytes(n as u32));
    assert(h =~= pre + le32_bytes(primary) + le32_bytes(n as u32) + Seq::<u8>::empty());
    assert(a.subrange(0, 4) =~= h.subrange(0, 4));
    assert(a[4] == h[4]);
    assert(a[5] == h[5] && a[6] == h[6] && a[7] == h[7] && a[8] == h[8]);
    assert(a[9] == h[9] && a[10] == h[10] && a[11] == h[11] && a[12] == h[12]);
}

/// Entropy-stage round trip for the range-coded stages (0 to 4): the archive
/// written for non-empty `d` passes every check of its decoder, and decoding
/// gives `d` back.
pub proof fn law_stage_roundtrip(kind: u8, d: Seq<u8>, a: Seq<u8>)
    requires
        kind <= 4,
        0 < d.len(),
        d.len() + 4 <= MAX_SYMBOLS,
        stage_encoded(kind, d, a),
    ensures
        stage_archive_ok(kind, a),
        bwt_mtf_inverse(stage_decoded(kind, a.subrange(13, a.len() as int))->Ok_0) == d,
{
    let x = le32_bytes(bwt_primary(d)) + bwt_last(d);
    let m = bwt_mtf(d);
    let rest = a.subrange(13, a.len() as int);
    assert(unmtf_spec(m) == x && m.len() == d.len() + 4) by {
        crate::mtf::law_mtf_roundtrip(x);
        crate::bwt::lemma_primary_bound(d);
    }
    assert(bwt_primary(d) < d.len() && bwt_inverse(bwt_primary(d), bwt_last(d)) == d) by {
        crate::bwt::lemma_primary_bound(d);
        crate::bwt::law_bwt_roundtrip(d);
    }
    lemma_stage_coded_decodes(kind, m, rest);
    lemma_stage_header_fields(stage_version(kind), bwt_primary(d), d.len() + 4, a);
    assert(packed_primary(x) == bwt_primary(d) && packed_last(x) == bwt_last(d)) by {
        crate::le::lemma_le32_roundtrip(bwt_primary(d), Seq::<u8>::empty(), bwt_last(d));
        assert(Seq::<u8>::empty() + le32_bytes(bwt_primary(d)) + bwt_last(d) =~= x);
        assert(x.subrange(4, x.len() as int) =~= bwt_last(d));
    }
}

// ───────────────────────────── pipeline round trip ─────────────────────────────

proof fn lemma_u64s_read_back(pre: Seq<u8>, s: Seq<u64>, post: Seq<u8>)
    ensures
        u64s_bytes(s).len() == 8 * s.len(),
        u64s_at(pre + u64s_bytes(s) + post, pre.len() as int, s.len()) == s,
    decreases s.len(),
{
    if s.len() > 0 {
        let init = s.drop_last();
        let x = s.last();
        lemma_u64s_read_back(pre, init, le64_bytes(x) + post);
        crate::le::lemma_le64_roundtrip(x, pre + u64s_bytes(init), post);
        assert(pre + u64s_bytes(s) + post =~= pre + u64s_bytes(init) + (le64_bytes(x) + post));
        assert(pre + u64s_bytes(s) + post =~= (pre + u64s_bytes(init)) + le64_bytes(x) + post);
        let a = pre + u64s_bytes(s) + post;
        assert(u64s_at(a, pre.len() as int, s.len()) =~= s) by {
            assert forall|i: int| 0 <= i < s.len() implies u64s_at(a, pre.len() as int, s.len())[i] == s[i] by {
                if i < init.len() {
                    assert(u64s_at(a, pre.len() as int, init.len())[i] == init[i]);
                }
            }
        }
    } else {
        assert(u64s_at(pre + u64s_bytes(s) + post, pre.len() as int, s.len()) =~= s);
    }
}

/// Plain pipeline archives that `ssp5_decode` inverts: written for 1 to 251
/// bytes (so the MTF stream, four bytes longer, is bit-packed) with a
/// sequence of at most 255 numbers whose super-symbols read back exactly,
/// and blocks of one to three bytes.
pub open spec fn plain_invertible(out: Seq<u8>, d: Seq<u8>, s: Seq<u64>, bb: nat) -> bool {
    &&& plain_archive_ok(out, d, s, bb)
    &&& 1 <= d.len() < 252
    &&& s.len() <= 255
    &&& 8 <= bb < 32 && bb % 8 == 0
    &&& crate::ssp_codec::packed_syms_exact(bb, s)
    &&& out.len() < 0x1000_0000_0000_0000
}

/// SSP pipeline round trip for plain archives of short inputs: the archive
/// passes every check of `ssp5_decode`, its SSP part decodes bit-packed, and
/// the bytes behind it are the data; so `ssp5_decode` gives the data back.
#[verifier::rlimit(80)]
#[verifier::spinoff_prover]
pub proof fn law_ssp5_plain_roundtrip(out: Seq<u8>, d: Seq<u8>, s: Seq<u64>, bb: nat)
    requires
        plain_invertible(out, d, s, bb),
    ensures
        ssp5_head_ok(out),
        ssp5_parts(out).1 == s,
        crate::ssp_codec::header_valid(ssp5_parts(out).2),
        ssp5_parts(out).2.len() < 0x1000_0000_0000_0000,
        crate::ssp_codec::bitpacked_flags(ssp5_parts(out).2[5]),
        crate::ssp_codec::header_tail(ssp5_parts(out).2, s) is Some,
        ssp5_finish(out, crate::ssp_codec::bitpacked_decoded(ssp5_parts(out).2, s)) == d,
{
    let h = plain_header(0, s);
    let n = s.len();
    let p0 = wrapper_magic() + seq![WRAPPER_VERSION, 0u8] + le32_bytes(0u32) + seq![s.len() as u8];
    let rest = out.subrange(h.len() as int, out.len() as int);
    lemma_u64s_read_back(p0, s, rest);
    assert(h =~= p0 + u64s_bytes(s));
    assert(out =~= h + rest);
    assert(out =~= p0 + u64s_bytes(s) + rest);
    assert(out[4] == WRAPPER_VERSION && out[5] == 0 && out[10] == s.len() as u8);
    crate::le::lemma_le32_roundtrip(0u32, wrapper_magic() + seq![WRAPPER_VERSION, 0u8], seq![s.len() as u8] + u64s_bytes(s) + rest);
    assert(out =~= (wrapper_magic() + seq![WRAPPER_VERSION, 0u8]) + le32_bytes(0u32) + (seq![s.len() as u8]
        + u64s_bytes(s) + rest));
    assert(le32_at(out, 6) == 0);
    assert(u64s_at(out, 11, n) == s);
    let parts = ssp5_parts(out);
    assert(parts.2 =~= rest);
    let m = bwt_mtf(d);
    let x = le32_bytes(bwt_primary(d)) + bwt_last(d);
    crate::bwt::lemma_primary_bound(d);
    crate::mtf::law_mtf_roundtrip(x);
    crate::ssp_codec::law_ssp_short_roundtrip(rest, m, s, bb, false);
    crate::bwt::law_bwt_roundtrip(d);
    assert(packed_primary(x) == bwt_primary(d) && packed_last(x) == bwt_last(d)) by {
        crate::le::lemma_le32_roundtrip(bwt_primary(d), Seq::<u8>::empty(), bwt_last(d));
        assert(Seq::<u8>::empty() + le32_bytes(bwt_primary(d)) + bwt_last(d) =~= x);
        assert(x.subrange(4, x.len() as int) =~= bwt_last(d));
    }
    assert(plain_unmtf(m, 0) == x);
}

/// The BWT and MTF stages of the plain pipeline undo themselves for every
/// chunk size: the decoder reads the MTF output as chunked exactly when the
/// encoder chunked the BWT, and the bytes behind it are the data.
#[verifier::spinoff_prover]
#[verifier::rlimit(40)]
pub proof fn law_plain_stages_roundtrip(d: Seq<u8>, cs: nat)
    requires
        d.len() + 4 <= u32::MAX,
        cs > 0 ==> crate::bwt::chunk_count(d.len(), cs) <= 1_000_000,
    ensures
        ({
            let m = options_mtf(d, cs, 1);
            let bp = plain_unmtf(m, cs);
            &&& plain_chunked(m, cs) == (cs > 0 && d.len() > cs)
            &&& plain_chunked(m, cs) ==> bwt_chunked_decodable(bp) && bwt_chunked_inverse(bp) == d
            &&& !plain_chunked(m, cs) ==> (packed_last(bp).len() <= 1 || packed_primary(bp) < packed_last(bp).len())
                && bwt_inverse(packed_primary(bp), packed_last(bp)) == d
        }),
{
    let m = options_mtf(d, cs, 1);
    if cs > 0 && d.len() > cs {
        let k = crate::bwt::chunk_count(d.len(), cs);
        crate::bwt::law_bwt_chunked_mtf_roundtrip(d, cs);
        crate::bwt::law_bwt_chunked_roundtrip(d, cs);
        assert(k >= 1) by {
            assert(crate::bwt::chunk_count(d.len(), cs) == (d.len() / cs + if d.len() % cs != 0 { 1nat } else {
                0nat
            }) as nat);
            assert(d.len() / cs >= 1) by (nonlinear_arith)
                requires
                    d.len() > cs,
                    cs > 0,
            ;
        }
        assert(m.len() > cs + 4);
    } else {
        let x = le32_bytes(bwt_primary(d)) + bwt_last(d);
        crate::mtf::law_mtf_roundtrip(x);
        crate::bwt::law_bwt_roundtrip(d);
        if d.len() >= 1 {
            crate::bwt::lemma_primary_bound(d);
        }
        assert(bwt_last(d).len() == d.len());
        assert(m == mtf_spec(x));
        assert(!plain_chunked(m, cs));
        assert(packed_primary(x) == bwt_primary(d) && packed_last(x) == bwt_last(d)) by {
            crate::le::lemma_le32_roundtrip(bwt_primary(d), Seq::<u8>::empty(), bwt_last(d));
            assert(Seq::<u8>::empty() + le32_bytes(bwt_primary(d)) + bwt_last(d) =~= x);
            assert(x.subrange(4, x.len() as int) =~= bwt_last(d));
        }
    }
}

/// Plain pipeline archives written with a chunk size `cs` (one BWT pass)
/// that `ssp5_decode` inverts: the MTF stream is short enough (under 256
/// bytes) for a bit-packed SSP part, the sequence has at most 255 numbers
/// whose super-symbols read back exactly, and blocks have one to three bytes.
pub open spec fn options_invertible(out: Seq<u8>, d: Seq<u8>, s: Seq<u64>, bb: nat, cs: nat, delta: bool) -> bool {
    let h = plain_header(cs, s);
    &&& out.len() >= h.len()
    &&& out.subrange(0, h.len() as int) == h
    &&& ssp_tail_ok(out.subrange(h.len() as int, out.len() as int), options_mtf(d, cs, 1), bb, delta, s)
    &&& 1 <= d.len() < 256
    &&& options_mtf(d, cs, 1).len() < 256
    &&& cs <= u32::MAX
    &&& s.len() <= 255
    &&& 8 <= bb < 32 && bb % 8 == 0
    &&& crate::ssp_codec::packed_syms_exact(bb, s)
    &&& out.len() < 0x1000_0000_0000_0000
}

/// SSP pipeline round trip for plain archives written with any chunk size
/// and either delta setting, for short inputs: the archive passes every check
/// of `ssp5_decode`, its SSP part decodes bit-packed, and the bytes behind it
/// are the data.
#[verifier::rlimit(80)]
#[verifier::spinoff_prover]
pub proof fn law_ssp5_options_roundtrip(out: Seq<u8>, d: Seq<u8>, s: Seq<u64>, bb: nat, cs: nat, delta: bool)
    requires
        options_invertible(out, d, s, bb, cs, delta),
    ensures
        ssp5_head_ok(out),
        ssp5_parts(out).1 == s,
        crate::ssp_codec::header_valid(ssp5_parts(out).2),
        ssp5_parts(out).2.len() < 0x1000_0000_0000_0000,
        crate::ssp_codec::bitpacked_flags(ssp5_parts(out).2[5]),
        crate::ssp_codec::header_tail(ssp5_parts(out).2, s) is Some,
        ssp5_finish(out, crate::ssp_codec::bitpacked_decoded(ssp5_parts(out).2, s)) == d,
{
    let h = plain_header(cs, s);
    let n = s.len();
    let p0 = wrapper_magic() + seq![WRAPPER_VERSION, 0u8] + le32_bytes(cs as u32) + seq![s.len() as u8];
    let rest = out.subrange(h.len() as int, out.len() as int);
    lemma_u64s_read_back(p0, s, rest);
    assert(h =~= p0 + u64s_bytes(s));
    assert(out =~= h + rest);
    assert(out =~= p0 + u64s_bytes(s) + rest);
    assert(out[4] == WRAPPER_VERSION && out[5] == 0 && out[10] == s.len() as u8);
    crate::le::lemma_le32_roundtrip(cs as u32, wrapper_magic() + seq![WRAPPER_VERSION, 0u8], seq![s.len() as u8] + u64s_bytes(s) + rest);
    assert(out =~= (wrapper_magic() + seq![WRAPPER_VERSION, 0u8]) + le32_bytes(cs as u32) + (seq![s.len() as u8]
        + u64s_bytes(s) + rest));
    assert(le32_at(out, 6) == cs);
    assert(u64s_at(out, 11, n) == s);
    let parts = ssp5_parts(out);
    assert(parts.2 =~= rest);
    let m = options_mtf(d, cs, 1);
    lemma_options_mtf_nonempty(d, cs);
    crate::ssp_codec::law_ssp_short_roundtrip(rest, m, s, bb, delta);
    law_plain_stages_roundtrip(d, cs);
}

proof fn lemma_options_mtf_nonempty(d: Seq<u8>, cs: nat)
    requires
        1 <= d.len() < 256,
    ensures
        options_mtf(d, cs, 1).len() >= 1,
        cs > 0 ==> crate::bwt::chunk_count(d.len(), cs) <= 1_000_000,
{
    if cs > 0 {
        crate::bwt::lemma_chunk_count_pub(d.len(), cs);
    }
    if cs > 0 && d.len() > cs {
        crate::bwt::law_bwt_chunked_mtf_roundtrip(d, cs);
    } else {
        let x = le32_bytes(bwt_primary(d)) + bwt_last(d);
        crate::mtf::law_mtf_roundtrip(x);
    }
}

/// LZ77 pipeline archives that `ssp5_decode` inverts: the token bytes are
/// short enough (under 252 bytes) for a bit-packed SSP part, the sequence
/// has at most 255 numbers whose super-symbols read back exactly, and blocks
/// have one to three bytes.
pub open spec fn lz_invertible(out: Seq<u8>, d: Seq<u8>, s: Seq<u64>, bb: nat, tokens: Seq<Token>, lz: Seq<u8>) -> bool {
    &&& lz77_archive_ok(out, d, s, bb, tokens, lz)
    &&& lz.len() < 252
    &&& s.len() <= 255
    &&& 8 <= bb < 32 && bb % 8 == 0
    &&& crate::ssp_codec::packed_syms_exact(bb, s)
    &&& out.len() < 0x1000_0000_0000_0000
}

/// SSP pipeline round trip for LZ77 archives with short token bytes: the
/// archive passes every check of `ssp5_decode`, its SSP part decodes
/// bit-packed, and the bytes behind it are the data.
#[verifier::rlimit(80)]
#[verifier::spinoff_prover]
pub proof fn law_ssp5_lz77_roundtrip(out: Seq<u8>, d: Seq<u8>, s: Seq<u64>, bb: nat, tokens: Seq<Token>, lz: Seq<u8>)
    requires
        lz_invertible(out, d, s, bb, tokens, lz),
    ensures
        ssp5_head_ok(out),
        ssp5_parts(out).1 == s,
        crate::ssp_codec::header_valid(ssp5_parts(out).2),
        ssp5_parts(out).2.len() < 0x1000_0000_0000_0000,
        crate::ssp_codec::bitpacked_flags(ssp5_parts(out).2[5]),
        crate::ssp_codec::header_tail(ssp5_parts(out).2, s) is Some,
        ssp5_finish(out, crate::ssp_codec::bitpacked_decoded(ssp5_parts(out).2, s)) == d,
{
    let h = lz77_header(lz, s);
    let n = s.len();
    let pa = wrapper_magic() + seq![WRAPPER_VERSION, 1u8];
    let p0 = pa + le32_bytes(lz.len() as u32) + lz + seq![s.len() as u8];
    let rest = out.subrange(h.len() as int, out.len() as int);
    lemma_u64s_read_back(p0, s, rest);
    assert(h =~= p0 + u64s_bytes(s));
    assert(out =~= h + rest);
    assert(out =~= p0 + u64s_bytes(s) + rest);
    assert(out[4] == WRAPPER_VERSION && out[5] == 1);
    crate::le::lemma_le32_roundtrip(lz.len() as u32, pa, lz + seq![s.len() as u8] + u64s_bytes(s) + rest);
    assert(out =~= pa + le32_bytes(lz.len() as u32) + (lz + seq![s.len() as u8] + u64s_bytes(s) + rest));
    assert(le32_at(out, 6) == lz.len());
    let sp: int = 10 + lz.len() as int;
    assert(out[sp as int] == s.len() as u8);
    assert(u64s_at(out, sp + 1, n) == s);
    let parts = ssp5_parts(out);
    assert(parts.2 =~= rest);
    // the token bytes are nonempty: they start with the stream header
    assert(tokens_stream_bits(tokens).len() >= 24);
    assert(crate::bit_io::bytes_bits(lz).len() == lz.len() * 8);
    assert(lz.len() >= 1);
    let m = bwt_mtf(lz);
    let x = le32_bytes(bwt_primary(lz)) + bwt_last(lz);
    crate::bwt::lemma_primary_bound(lz);
    crate::mtf::law_mtf_roundtrip(x);
    crate::ssp_codec::law_ssp_short_roundtrip(rest, m, s, bb, false);
    crate::bwt::law_bwt_roundtrip(lz);
    assert(packed_primary(x) == bwt_primary(lz) && packed_last(x) == bwt_last(lz)) by {
        crate::le::lemma_le32_roundtrip(bwt_primary(lz), Seq::<u8>::empty(), bwt_last(lz));
        assert(Seq::<u8>::empty() + le32_bytes(bwt_primary(lz)) + bwt_last(lz) =~= x);
        assert(x.subrange(4, x.len() as int) =~= bwt_last(lz));
    }
    assert(bwt_mtf_inverse(m) == lz);
    crate::lz77::law_tokens_roundtrip(tokens, lz);
}

} // verus!
