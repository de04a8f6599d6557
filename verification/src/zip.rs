//! CRC-32 and the stored (uncompressed) ZIP archive that holds a DOCX
//! package.

use vstd::prelude::*;
use vstd::utf8::encode_utf8;

use crate::text::append_bytes;

verus! {

/// One step of the reflected CRC-32 (polynomial `0xEDB88320`) over one bit.
pub open spec fn crc_shift(c: u32) -> u32 {
    if c & 1 == 1 {
        (c >> 1) ^ 0xedb8_8320u32
    } else {
        c >> 1
    }
}

/// `k` steps of `crc_shift`.
pub open spec fn crc_shifts(c: u32, k: nat) -> u32
    decreases k,
{
    if k == 0 {
        c
    } else {
        crc_shift(crc_shifts(c, (k - 1) as nat))
    }
}

/// The CRC register after taking in one more byte.
pub open spec fn crc_byte(c: u32, b: u8) -> u32 {
    crc_shifts(c ^ (b as u32), 8)
}

/// The CRC register after taking in `data`, starting from all ones.
pub open spec fn crc_register(data: Seq<u8>) -> u32
    decreases data.len(),
{
    if data.len() == 0 {
        0xffff_ffffu32
    } else {
        crc_byte(crc_register(data.drop_last()), data.last())
    }
}

/// The CRC-32 of `data` (as ZIP and PNG use it): the final register, inverted.
pub open spec fn crc32_of(data: Seq<u8>) -> u32 {
    !crc_register(data)
}

/// The CRC-32 of `data`.
pub fn crc32(data: &[u8]) -> (crc: u32)
    ensures
        crc == crc32_of(data@),
{
    let mut crc: u32 = 0xffff_ffff;
    let mut i: usize = 0;
    assert(data@.take(0) =~= Seq::<u8>::empty());
    while i < data.len()
        invariant
            i <= data.len(),
            crc == crc_register(data@.take(i as int)),
        decreases data.len() - i,
    {
        let ghost start = crc ^ (data[i as int] as u32);
        crc = crc ^ (data[i] as u32);
        let mut k: u32 = 0;
        while k < 8
            invariant
                k <= 8,
                crc == crc_shifts(start, k as nat),
            decreases 8 - k,
        {
            let ghost before = crc;
            let low = crc & 1;
            assert(low == 0 || low == 1) by (bit_vector)
                requires
                    low == before & 1,
            ;
            let mask = 0u32.wrapping_sub(low);
            assert(mask == if low == 1 {
                0xffff_ffffu32
            } else {
                0u32
            });
            crc = (crc >> 1) ^ (0xedb8_8320u32 & mask);
            assert(crc == crc_shift(before)) by (bit_vector)
                requires
                    crc == (before >> 1) ^ (0xedb8_8320u32 & mask),
                    low == before & 1,
                    mask == if low == 1 {
                        0xffff_ffffu32
                    } else {
                        0u32
                    },
            ;
            k = k + 1;
        }
        assert(data@.take(i + 1).drop_last() =~= data@.take(i as int));
        i = i + 1;
    }
    assert(data@.take(data.len() as int) =~= data@);
    !crc
}

/// The bytes of `a` and `b` combined by exclusive or, position by position.
pub open spec fn xor_bytes(a: Seq<u8>, b: Seq<u8>) -> Seq<u8> {
    Seq::new(a.len(), |i: int| a[i] ^ b[i])
}

/// `n` zero bytes.
pub open spec fn zero_bytes(n: nat) -> Seq<u8> {
    Seq::new(n, |i: int| 0u8)
}

proof fn lemma_crc_shift_xor(x: u32, y: u32, z: u32)
    ensures
        crc_shift(x) ^ crc_shift(y) ^ crc_shift(z) == crc_shift(x ^ y ^ z),
{
    assert(crc_shift(x) ^ crc_shift(y) ^ crc_shift(z) == crc_shift(x ^ y ^ z)) by (bit_vector);
}

proof fn lemma_crc_shifts_xor(x: u32, y: u32, z: u32, k: nat)
    ensures
        crc_shifts(x, k) ^ crc_shifts(y, k) ^ crc_shifts(z, k) == crc_shifts(x ^ y ^ z, k),
    decreases k,
{
    if k > 0 {
        lemma_crc_shifts_xor(x, y, z, (k - 1) as nat);
        lemma_crc_shift_xor(
            crc_shifts(x, (k - 1) as nat),
            crc_shifts(y, (k - 1) as nat),
            crc_shifts(z, (k - 1) as nat),
        );
    }
}

proof fn lemma_crc_register_xor(a: Seq<u8>, b: Seq<u8>)
    requires
        a.len() == b.len(),
    ensures
        crc_register(xor_bytes(a, b)) == crc_register(a) ^ crc_register(b) ^ crc_register(
            zero_bytes(a.len()),
        ),
    decreases a.len(),
{
    let x = xor_bytes(a, b);
    let z = zero_bytes(a.len());
    if a.len() == 0 {
        let f: u32 = 0xffff_ffffu32;
        assert(f ^ f ^ f == f) by (bit_vector);
    } else {
        let n = (a.len() - 1) as nat;
        lemma_crc_register_xor(a.drop_last(), b.drop_last());
        assert(x.drop_last() =~= xor_bytes(a.drop_last(), b.drop_last()));
        assert(z.drop_last() =~= zero_bytes(n));
        let ra = crc_register(a.drop_last());
        let rb = crc_register(b.drop_last());
        let rz = crc_register(z.drop_last());
        let p = a.last();
        let q = b.last();
        assert(x.last() == p ^ q);
        assert(z.last() == 0u8);
        let zero: u8 = 0;
        lemma_crc_shifts_xor(ra ^ (p as u32), rb ^ (q as u32), rz ^ (zero as u32), 8);
        assert((ra ^ (p as u32)) ^ (rb ^ (q as u32)) ^ (rz ^ (zero as u32)) == (ra ^ rb ^ rz) ^ ((p ^ q) as u32))
            by (bit_vector)
            requires
                zero == 0,
        ;
    }
}

/// CRC-32 is affine under exclusive or: for texts of one length, the CRC
/// of their exclusive or is the exclusive or of their CRCs and that of
/// as many zero bytes.
pub proof fn law_crc32_xor(a: Seq<u8>, b: Seq<u8>)
    requires
        a.len() == b.len(),
    ensures
        crc32_of(xor_bytes(a, b)) == crc32_of(a) ^ crc32_of(b) ^ crc32_of(zero_bytes(a.len())),
{
    lemma_crc_register_xor(a, b);
    let x = crc_register(a);
    let y = crc_register(b);
    let z = crc_register(zero_bytes(a.len()));
    assert(!(x ^ y ^ z) == !x ^ !y ^ !z) by (bit_vector);
}

/// The two little-endian bytes of `x`.
pub open spec fn le16(x: u16) -> Seq<u8> {
    seq![(x & 0xff) as u8, ((x >> 8) & 0xff) as u8]
}

/// The four little-endian bytes of `x`.
pub open spec fn le32(x: u32) -> Seq<u8> {
    seq![(x & 0xff) as u8, ((x >> 8) & 0xff) as u8, ((x >> 16) & 0xff) as u8, ((x >> 24) & 0xff) as u8]
}

fn push16(out: &mut Vec<u8>, x: u16)
    ensures
        final(out)@ == old(out)@ + le16(x),
{
    out.push((x & 0xff) as u8);
    out.push(((x >> 8) & 0xff) as u8);
    assert(out@ =~= old(out)@ + le16(x));
}

fn push32(out: &mut Vec<u8>, x: u32)
    ensures
        final(out)@ == old(out)@ + le32(x),
{
    out.push((x & 0xff) as u8);
    out.push(((x >> 8) & 0xff) as u8);
    out.push(((x >> 16) & 0xff) as u8);
    out.push(((x >> 24) & 0xff) as u8);
    assert(out@ =~= old(out)@ + le32(x));
}

/// The fixed part of a local file header: version 2.0 needed, no flags,
/// method 0 (stored), zero time and date, the CRC, both sizes and the name
/// length, no extra field.
pub open spec fn local_header(name: Seq<u8>, data: Seq<u8>) -> Seq<u8> {
    le32(0x04034b50) + le16(20) + le16(0) + le16(0) + le16(0) + le16(0) + le32(crc32_of(data)) + le32(
        data.len() as u32,
    ) + le32(data.len() as u32) + le16(name.len() as u16) + le16(0)
}

/// The fixed part of a central directory record for an entry whose local
/// header starts at `offset`.
pub open spec fn central_header(name: Seq<u8>, data: Seq<u8>, offset: u32) -> Seq<u8> {
    le32(0x02014b50) + le16(20) + le16(20) + le16(0) + le16(0) + le16(0) + le16(0) + le32(crc32_of(data))
        + le32(data.len() as u32) + le32(data.len() as u32) + le16(name.len() as u16) + le16(0) + le16(0)
        + le16(0) + le16(0) + le32(0) + le32(offset)
}

/// The local part of the archive: each entry's header, name and data.
pub open spec fn zip_local(entries: Seq<(Seq<u8>, Seq<u8>)>) -> Seq<u8>
    decreases entries.len(),
{
    if entries.len() == 0 {
        seq![]
    } else {
        let e = entries.last();
        zip_local(entries.drop_last()) + local_header(e.0, e.1) + e.0 + e.1
    }
}

/// The central directory: each entry's record and name.
pub open spec fn zip_central(entries: Seq<(Seq<u8>, Seq<u8>)>) -> Seq<u8>
    decreases entries.len(),
{
    if entries.len() == 0 {
        seq![]
    } else {
        let e = entries.last();
        zip_central(entries.drop_last()) + central_header(
            e.0,
            e.1,
            zip_local(entries.drop_last()).len() as u32,
        ) + e.0
    }
}

/// A stored ZIP archive of the given (name, data) entries, in order: the
/// local entries, the central directory and the end record. Sizes, counts
/// and offsets are cut to their field widths as `as` casts cut them.
pub open spec fn zip_archive(entries: Seq<(Seq<u8>, Seq<u8>)>) -> Seq<u8> {
    let local = zip_local(entries);
    let central = zip_central(entries);
    local + central + le32(0x06054b50) + le16(0) + le16(0) + le16(entries.len() as u16) + le16(
        entries.len() as u16,
    ) + le32(central.len() as u32) + le32(local.len() as u32) + le16(0)
}

/// The entries as (UTF-8 name, data) pairs.
pub open spec fn entry_bytes(entries: Seq<(&str, &[u8])>) -> Seq<(Seq<u8>, Seq<u8>)> {
    entries.map_values(|e: (&str, &[u8])| (encode_utf8(e.0@), e.1@))
}

fn local_record_bytes(name: &[u8], data: &[u8], crc: u32) -> (r: Vec<u8>)
    requires
        crc == crc32_of(data@),
    ensures
        r@ == local_header(name@, data@) + name@ + data@,
{
    let mut r: Vec<u8> = Vec::new();
    push32(&mut r, 0x04034b50);
    push16(&mut r, 20);
    push16(&mut r, 0);
    push16(&mut r, 0);
    push16(&mut r, 0);
    push16(&mut r, 0);
    push32(&mut r, crc);
    push32(&mut r, data.len() as u32);
    push32(&mut r, data.len() as u32);
    push16(&mut r, name.len() as u16);
    push16(&mut r, 0);
    assert(r@ =~= local_header(name@, data@));
    append_bytes(&mut r, name);
    append_bytes(&mut r, data);
    r
}

fn central_record_bytes(name: &[u8], data: &[u8], crc: u32, offset: u32) -> (r: Vec<u8>)
    requires
        crc == crc32_of(data@),
    ensures
        r@ == central_header(name@, data@, offset) + name@,
{
    let mut r: Vec<u8> = Vec::new();
    push32(&mut r, 0x02014b50);
    push16(&mut r, 20);
    push16(&mut r, 20);
    push16(&mut r, 0);
    push16(&mut r, 0);
    push16(&mut r, 0);
    push16(&mut r, 0);
    push32(&mut r, crc);
    push32(&mut r, data.len() as u32);
    push32(&mut r, data.len() as u32);
    push16(&mut r, name.len() as u16);
    push16(&mut r, 0);
    push16(&mut r, 0);
    push16(&mut r, 0);
    push16(&mut r, 0);
    push32(&mut r, 0);
    push32(&mut r, offset);
    assert(r@ =~= central_header(name@, data@, offset));
    append_bytes(&mut r, name);
    r
}

/// The bytes of a stored ZIP archive of the given entries.
pub fn write_store_zip(entries: &[(&str, &[u8])]) -> (out: Vec<u8>)
    ensures
        out@ == zip_archive(entry_bytes(entries@)),
{
    let ghost es = entry_bytes(entries@);
    let mut output: Vec<u8> = Vec::new();
    let mut central: Vec<u8> = Vec::new();
    let mut i: usize = 0;
    assert(es.take(0) =~= Seq::<(Seq<u8>, Seq<u8>)>::empty());
    while i < entries.len()
        invariant
            i <= entries.len(),
            es == entry_bytes(entries@),
            output@ == zip_local(es.take(i as int)),
            central@ == zip_central(es.take(i as int)),
        decreases entries.len() - i,
    {
        let (name, data) = entries[i];
        let name_bytes = name.as_bytes();
        let crc = crc32(data);
        let offset = output.len() as u32;
        let ghost local_before = output@;
        let ghost central_before = central@;
        let local = local_record_bytes(name_bytes, data, crc);
        append_bytes(&mut output, local.as_slice());
        let record = central_record_bytes(name_bytes, data, crc, offset);
        append_bytes(&mut central, record.as_slice());
        assert(output@ =~= local_before + local_header(name_bytes@, data@) + name_bytes@ + data@);
        assert(central@ =~= central_before + central_header(name_bytes@, data@, offset) + name_bytes@);
        assert(es.take(i + 1).drop_last() =~= es.take(i as int));
        assert(es.take(i + 1).last() == (name_bytes@, data@));
        i = i + 1;
    }
    assert(es.take(entries.len() as int) =~= es);
    let central_offset = output.len() as u32;
    let central_size = central.len() as u32;
    append_bytes(&mut output, central.as_slice());
    push32(&mut output, 0x06054b50);
    push16(&mut output, 0);
    push16(&mut output, 0);
    push16(&mut output, entries.len() as u16);
    push16(&mut output, entries.len() as u16);
    push32(&mut output, central_size);
    push32(&mut output, central_offset);
    push16(&mut output, 0);
    assert(output@ =~= zip_archive(es));
    output
}


/// The local record of an entry: header, name and data.
pub open spec fn local_record(e: (Seq<u8>, Seq<u8>)) -> Seq<u8> {
    local_header(e.0, e.1) + e.0 + e.1
}

proof fn lemma_local_split(es: Seq<(Seq<u8>, Seq<u8>)>, k: int)
    requires
        0 <= k < es.len(),
    ensures
        zip_local(es.take(k)).len() + local_record(es[k]).len() <= zip_local(es).len(),
        zip_local(es).subrange(
            zip_local(es.take(k)).len() as int,
            (zip_local(es.take(k)).len() + local_record(es[k]).len()) as int,
        ) == local_record(es[k]),
    decreases es.len(),
{
    let n = es.len() - 1;
    let prev = es.drop_last();
    assert(es.take(n) =~= prev);
    let a = zip_local(prev);
    let b = local_record(es.last());
    assert(zip_local(es) =~= a + b);
    if k < n {
        lemma_local_split(prev, k);
        assert(prev.take(k) =~= es.take(k));
        assert(prev[k] == es[k]);
        let lo = zip_local(es.take(k)).len() as int;
        let hi = lo + local_record(es[k]).len();
        assert((a + b).subrange(lo, hi) =~= a.subrange(lo, hi));
    } else {
        assert((a + b).subrange(a.len() as int, (a.len() + b.len()) as int) =~= b);
    }
}

/// Each entry's local record (header, name, data) stands in the archive at
/// the offset that its central directory record stores (the length of the
/// records before it).
pub proof fn law_zip_entry_at_offset(es: Seq<(Seq<u8>, Seq<u8>)>, k: int)
    requires
        0 <= k < es.len(),
    ensures
        zip_local(es.take(k)).len() + local_record(es[k]).len() <= zip_archive(es).len(),
        zip_archive(es).subrange(
            zip_local(es.take(k)).len() as int,
            (zip_local(es.take(k)).len() + local_record(es[k]).len()) as int,
        ) == local_record(es[k]),
{
    lemma_local_split(es, k);
    let local = zip_local(es);
    let rest = zip_central(es) + le32(0x06054b50) + le16(0) + le16(0) + le16(es.len() as u16) + le16(
        es.len() as u16,
    ) + le32(zip_central(es).len() as u32) + le32(local.len() as u32) + le16(0);
    assert(zip_archive(es) =~= local + rest);
    let lo = zip_local(es.take(k)).len() as int;
    let hi = lo + local_record(es[k]).len();
    assert((local + rest).subrange(lo, hi) =~= local.subrange(lo, hi));
}

/// An archive with entries starts with the local header signature `PK\x03\x04`.
pub proof fn law_zip_signature(es: Seq<(Seq<u8>, Seq<u8>)>)
    requires
        es.len() > 0,
    ensures
        zip_archive(es).subrange(0, 4) == seq![0x50u8, 0x4bu8, 0x03u8, 0x04u8],
{
    law_zip_entry_at_offset(es, 0);
    assert(es.take(0) =~= Seq::<(Seq<u8>, Seq<u8>)>::empty());
    let sig: u32 = 0x04034b50;
    assert((sig & 0xff) as u8 == 0x50u8 && ((sig >> 8) & 0xff) as u8 == 0x4bu8 && ((sig >> 16) & 0xff) as u8
        == 0x03u8 && ((sig >> 24) & 0xff) as u8 == 0x04u8) by (bit_vector)
        requires
            sig == 0x04034b50u32,
    ;
    let r = local_record(es[0]);
    assert(r.subrange(0, 4) =~= le32(sig));
    assert(zip_archive(es).subrange(0, 4) =~= zip_archive(es).subrange(0, r.len() as int).subrange(0, 4));
}

} // verus!
