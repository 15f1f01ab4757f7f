//! The binary layout codec: locating and decoding the trailer at the end of
//! a produced binary's bytes, and appending a manifest and trailer when one
//! is packaged.

use vstd::bytes::{
    lemma_auto_spec_u64_to_from_le_bytes, spec_u64_from_le_bytes, spec_u64_to_le_bytes,
    u64_from_le_bytes, u64_to_le_bytes,
};
use vstd::prelude::*;
use vstd::slice::slice_subrange;

use crate::{magic_seq, CodecError, Manifest, ManifestView, Section, Trailer};

verus! {

/// The byte image of a trailer: its magic bytes, then the four `u64`
/// fields little-endian, in the fixed order runtime.pos, runtime.len,
/// manifest.pos, manifest.len.
pub open spec fn trailer_image(t: Trailer) -> Seq<u8> {
    t.magic@ + spec_u64_to_le_bytes(t.runtime.pos) + spec_u64_to_le_bytes(t.runtime.len)
        + spec_u64_to_le_bytes(t.manifest.pos) + spec_u64_to_le_bytes(t.manifest.len)
}

/// True when `s` is long enough to end in a trailer whose magic matches.
pub open spec fn has_magic(s: Seq<u8>) -> bool {
    &&& s.len() >= 40
    &&& s.subrange(s.len() - 40, s.len() - 32) == magic_seq()
}

/// The `u64` stored little-endian in field `k` (0 to 3) of the trailer
/// region at the end of `s`.
pub open spec fn trailer_field(s: Seq<u8>, k: int) -> u64 {
    spec_u64_from_le_bytes(s.subrange(s.len() - 32 + 8 * k, s.len() - 24 + 8 * k))
}

/// True when `t` holds exactly what the trailer region at the end of `s`
/// stores.
pub open spec fn is_trailer_of(t: Trailer, s: Seq<u8>) -> bool {
    &&& t.magic@ == magic_seq()
    &&& t.runtime.pos == trailer_field(s, 0)
    &&& t.runtime.len == trailer_field(s, 1)
    &&& t.manifest.pos == trailer_field(s, 2)
    &&& t.manifest.len == trailer_field(s, 3)
}

/// Reads the `u64` stored little-endian at byte offset `pos` of `data`.
pub fn read_u64(data: &[u8], pos: usize) -> (r: u64)
    requires
        pos + 8 <= data@.len(),
    ensures
        r == spec_u64_from_le_bytes(data@.subrange(pos as int, pos as int + 8)),
{
    // Binding the length shows the verifier that `pos + 8` fits in usize.
    let n: usize = data.len();
    let s = slice_subrange(data, pos, pos + 8);
    u64_from_le_bytes(s)
}

/// Decodes the trailer stored in the last 40 bytes of `data`. Fails with
/// [`CodecError::Format`] exactly when `data` is shorter than a trailer or
/// the magic constant does not match; otherwise returns the stored fields.
pub fn read_trailer(data: &[u8]) -> (r: Result<Trailer, CodecError>)
    ensures
        match r {
            Ok(t) => has_magic(data@) && is_trailer_of(t, data@),
            Err(e) => e == CodecError::Format && !has_magic(data@),
        },
{
    if data.len() < 40 {
        return Err(CodecError::Format);
    }
    let base = data.len() - 40;
    let m0 = *vstd::slice::slice_index_get(data, base);
    let m1 = *vstd::slice::slice_index_get(data, base + 1);
    let m2 = *vstd::slice::slice_index_get(data, base + 2);
    let m3 = *vstd::slice::slice_index_get(data, base + 3);
    let m4 = *vstd::slice::slice_index_get(data, base + 4);
    let m5 = *vstd::slice::slice_index_get(data, base + 5);
    let m6 = *vstd::slice::slice_index_get(data, base + 6);
    let m7 = *vstd::slice::slice_index_get(data, base + 7);
    let magic: [u8; 8] = [m0, m1, m2, m3, m4, m5, m6, m7];
    let matches = m0 == 0x6b && m1 == 0x31 && m2 == 0x63 && m3 == 0x6b && m4 == 0x30 && m5
        == 0x66 && m6 == 0x66 && m7 == 0x21;
    proof {
        let region = data@.subrange(base as int, base as int + 8);
        assert(region.len() == 8);
        assert(region[0] == m0 && region[1] == m1 && region[2] == m2 && region[3] == m3
            && region[4] == m4 && region[5] == m5 && region[6] == m6 && region[7] == m7);
        if matches {
            assert(region =~= magic_seq());
        } else {
            assert(region != magic_seq());
        }
    }
    if !matches {
        return Err(CodecError::Format);
    }
    let runtime_pos = read_u64(data, base + 8);
    let runtime_len = read_u64(data, base + 16);
    let manifest_pos = read_u64(data, base + 24);
    let manifest_len = read_u64(data, base + 32);
    proof {
        assert(magic@ =~= magic_seq());
    }
    Ok(
        Trailer {
            magic,
            runtime: Section { pos: runtime_pos, len: runtime_len },
            manifest: Section { pos: manifest_pos, len: manifest_len },
        },
    )
}

/// Appends the byte image of `trailer` to `data`.
pub fn write_trailer(data: &mut Vec<u8>, trailer: &Trailer)
    ensures
        final(data)@ == old(data)@ + trailer_image(*trailer),
{
    proof {
        lemma_auto_spec_u64_to_from_le_bytes();
    }
    let ghost start = data@;
    for i in 0..8
        invariant
            data@ == start + trailer.magic@.subrange(0, i as int),
    {
        data.push(trailer.magic[i]);
        proof {
            assert(start + trailer.magic@.subrange(0, i as int) + seq![trailer.magic@[i as int]]
                =~= start + trailer.magic@.subrange(0, i as int + 1));
        }
    }
    proof {
        assert(trailer.magic@.subrange(0, 8) =~= trailer.magic@);
    }
    let rp = u64_to_le_bytes(trailer.runtime.pos);
    data.extend_from_slice(rp.as_slice());
    let rl = u64_to_le_bytes(trailer.runtime.len);
    data.extend_from_slice(rl.as_slice());
    let mp = u64_to_le_bytes(trailer.manifest.pos);
    data.extend_from_slice(mp.as_slice());
    let ml = u64_to_le_bytes(trailer.manifest.len);
    data.extend_from_slice(ml.as_slice());
    proof {
        assert(data@ =~= old(data)@ + trailer_image(*trailer));
    }
}

/// The magic constant as a value.
fn magic_exec() -> (r: [u8; 8])
    ensures
        r@ == magic_seq(),
{
    let r: [u8; 8] = [0x6b, 0x31, 0x63, 0x6b, 0x30, 0x66, 0x66, 0x21];
    proof {
        assert(r@ =~= magic_seq());
    }
    r
}

/// The byte image of a whole produced file: the runtime stub prefix, the
/// manifest document, and the trailer recording where each part lies.
pub open spec fn file_image(prefix: Seq<u8>, m: ManifestView) -> Seq<u8> {
    prefix + crate::json::manifest_image(m) + magic_seq() + spec_u64_to_le_bytes(0u64)
        + spec_u64_to_le_bytes(prefix.len() as u64) + spec_u64_to_le_bytes(prefix.len() as u64)
        + spec_u64_to_le_bytes(crate::json::manifest_image(m).len() as u64)
}

/// Serializes `manifest` and appends it and a trailer to `data`, which
/// already holds the runtime stub bytes. Afterward `data` is a complete
/// produced binary whose trailer records the old length as the manifest
/// offset and the serialized size as the manifest length.
pub fn write_manifest(data: &mut Vec<u8>, manifest: &Manifest)
    ensures
        final(data)@ == file_image(old(data)@, manifest@),
{
    let w_len = data.len();
    let raw = crate::json::encode_manifest(manifest);
    let trailer = Trailer {
        magic: magic_exec(),
        runtime: Section { pos: 0, len: w_len as u64 },
        manifest: Section { pos: w_len as u64, len: raw.len() as u64 },
    };
    data.extend_from_slice(raw.as_slice());
    write_trailer(data, &trailer);
    proof {
        assert(data@ =~= file_image(old(data)@, manifest@));
    }
}

/// True when the manifest section named by the trailer at the end of `s`
/// lies within `s`.
pub open spec fn region_in_bounds(s: Seq<u8>) -> bool {
    trailer_field(s, 2) + trailer_field(s, 3) <= s.len()
}

/// The manifest region that the trailer at the end of `s` points at.
pub open spec fn manifest_region(s: Seq<u8>) -> Seq<u8> {
    s.subrange(trailer_field(s, 2) as int, trailer_field(s, 2) + trailer_field(s, 3))
}

/// Reads a produced binary's own bytes back into its manifest. Fails with
/// [`CodecError::Format`] exactly when the trailer is missing or its magic
/// does not match, with [`CodecError::Bounds`] exactly when the trailer's
/// manifest section lies outside the file, and with [`CodecError::Decode`]
/// exactly when the region does not hold a well-formed manifest document.
pub fn read_manifest(data: &[u8]) -> (r: Result<Manifest, CodecError>)
    ensures
        match r {
            Ok(m) => has_magic(data@) && region_in_bounds(data@) && crate::json::parsed_manifest(
                manifest_region(data@),
            ) == Some(m@) && m@.wf(),
            Err(e) => match e {
                CodecError::Format => !has_magic(data@),
                CodecError::Bounds => has_magic(data@) && !region_in_bounds(data@),
                CodecError::Decode => has_magic(data@) && region_in_bounds(data@)
                    && crate::json::parsed_manifest(manifest_region(data@)) is None,
            },
        },
{
    let t = match read_trailer(data) {
        Ok(t) => t,
        Err(e) => {
            return Err(e);
        },
    };
    let n = data.len();
    if !(t.manifest.pos <= n as u64 && t.manifest.len <= n as u64 - t.manifest.pos) {
        return Err(CodecError::Bounds);
    }
    let pos = t.manifest.pos as usize;
    let len = t.manifest.len as usize;
    let region = slice_subrange(data, pos, pos + len);
    proof {
        assert(region@ == manifest_region(data@));
    }
    match crate::json::decode_manifest(region) {
        Some(m) => Ok(m),
        None => Err(CodecError::Decode),
    }
}

/// Law: offset consistency. In the file the codec writes, the trailer's
/// magic matches, runtime.pos is 0, runtime.len and manifest.pos both equal
/// the prefix length, manifest.len is the serialized manifest's length, and
/// the manifest region ends exactly where the 40-byte trailer begins.
pub proof fn lemma_offset_consistency(prefix: Seq<u8>, m: ManifestView)
    requires
        prefix.len() + crate::json::manifest_image(m).len() + 40 <= u64::MAX,
    ensures
        file_image(prefix, m).len() == prefix.len() + crate::json::manifest_image(m).len() + 40,
        has_magic(file_image(prefix, m)),
        trailer_field(file_image(prefix, m), 0) == 0,
        trailer_field(file_image(prefix, m), 1) == prefix.len(),
        trailer_field(file_image(prefix, m), 2) == prefix.len(),
        trailer_field(file_image(prefix, m), 3) == crate::json::manifest_image(m).len(),
        trailer_field(file_image(prefix, m), 2) + trailer_field(file_image(prefix, m), 3)
            == file_image(prefix, m).len() - 40,
{
    lemma_auto_spec_u64_to_from_le_bytes();
    let s = file_image(prefix, m);
    let img = crate::json::manifest_image(m);
    let f0 = spec_u64_to_le_bytes(0u64);
    let f1 = spec_u64_to_le_bytes(prefix.len() as u64);
    let f3 = spec_u64_to_le_bytes(img.len() as u64);
    assert(s.len() == prefix.len() + img.len() + 40);
    let base = s.len() - 40;
    assert(s.subrange(base, base + 8) =~= magic_seq());
    assert(s.subrange(base + 8, base + 16) =~= f0);
    assert(s.subrange(base + 16, base + 24) =~= f1);
    assert(s.subrange(base + 24, base + 32) =~= f1);
    assert(s.subrange(base + 32, base + 40) =~= f3);
    assert(trailer_field(s, 0) == spec_u64_from_le_bytes(f0));
    assert(trailer_field(s, 1) == spec_u64_from_le_bytes(f1));
    assert(trailer_field(s, 2) == spec_u64_from_le_bytes(f1));
    assert(trailer_field(s, 3) == spec_u64_from_le_bytes(f3));
}

/// Law: packaging round trip. Whatever runtime stub bytes stand before it,
/// the file the codec writes decodes back: its trailer is accepted, the
/// manifest region it names holds exactly the emitted manifest document,
/// and deserializing that region yields the manifest that was written.
pub proof fn lemma_package_round_trip(prefix: Seq<u8>, m: ManifestView)
    requires
        m.wf(),
        prefix.len() + crate::json::manifest_image(m).len() + 40 <= u64::MAX,
    ensures
        has_magic(file_image(prefix, m)),
        region_in_bounds(file_image(prefix, m)),
        manifest_region(file_image(prefix, m)) == crate::json::manifest_image(m),
        crate::json::parsed_manifest(manifest_region(file_image(prefix, m))) == Some(m),
{
    lemma_offset_consistency(prefix, m);
    let s = file_image(prefix, m);
    let img = crate::json::manifest_image(m);
    assert(manifest_region(s) =~= img);
    crate::json::lemma_manifest_round_trip(m);
}

} // verus!
