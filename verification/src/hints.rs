//! Hints-file parsing: header, offset table, and bitmap records.
//!
//! A hints file starts with a 4-byte magic, a 1-byte version and a
//! little-endian `stop_height`, followed by exactly `stop_height`
//! `(height, offset)` pairs that map a block height to the byte offset of
//! its record. A record is a little-endian `num_bits` count followed by
//! `ceil(num_bits / 8)` bitmap bytes; bit `p` set means position `p` is
//! present. Decoding a record yields the strictly increasing index list the
//! Elias-Fano codec consumes.

use vstd::prelude::*;
use crate::bits::{bit_at, get_bit, le32_at, le64_at, read_u32_le, read_u64_le, lemma_ceil8};
use crate::ef::strictly_sorted;
use crate::EfError;

verus! {

/// The four magic bytes and the one supported version are in place.
pub open spec fn header_ok(data: Seq<u8>) -> bool {
    &&& data.len() >= 9
    &&& data[0] == 0x55u8
    &&& data[1] == 0x54u8
    &&& data[2] == 0x58u8
    &&& data[3] == 0x4fu8
    &&& data[4] == 0x00u8
}

/// The height bound stored in the header.
pub open spec fn spec_stop_height(data: Seq<u8>) -> nat {
    le32_at(data, 5)
}

/// The file is long enough to hold its whole offset table.
pub open spec fn table_complete(data: Seq<u8>) -> bool {
    data.len() >= 9 + 12 * spec_stop_height(data)
}

/// The `k`-th `(height, offset)` pair of the offset table.
pub open spec fn spec_entry(data: Seq<u8>, k: int) -> (u32, u64) {
    (le32_at(data, 9 + 12 * k) as u32, le64_at(data, 13 + 12 * k) as u64)
}

/// The offset stored for `height`: that of the last pair carrying it, as an
/// insertion-ordered map would resolve duplicate keys.
pub open spec fn spec_lookup(entries: Seq<(u32, u64)>, height: u32) -> Option<u64>
    decreases entries.len(),
{
    if entries.len() == 0 {
        None
    } else if entries.last().0 == height {
        Some(entries.last().1)
    } else {
        spec_lookup(entries.drop_last(), height)
    }
}

/// In-memory offset map of a hints file: the header's height bound and the
/// `(height, offset)` table, built eagerly from the leading bytes of the
/// file. Records are fetched separately, against whichever byte store the
/// offsets point into.
pub struct BitmapHints {
    stop_height: u32,
    entries: Vec<(u32, u64)>,
}

impl BitmapHints {
    /// The offset table as parsed.
    pub closed spec fn entries(self) -> Seq<(u32, u64)> {
        self.entries@
    }

    /// The height bound as parsed.
    pub closed spec fn spec_stop_height(self) -> u32 {
        self.stop_height
    }

    /// One pair per height up to the bound.
    pub closed spec fn wf(self) -> bool {
        self.entries@.len() == self.stop_height as int
    }

    /// Parse the header and offset table from the leading bytes of a hints
    /// file. Fails with a [`EfError::FormatError`] on bad magic, an
    /// unsupported version, or a table cut short.
    pub fn from_bytes(data: &[u8]) -> (r: Result<BitmapHints, EfError>)
        ensures
            match r {
                Ok(h) => {
                    &&& h.wf()
                    &&& header_ok(data@)
                    &&& table_complete(data@)
                    &&& h.spec_stop_height() == spec_stop_height(data@)
                    &&& h.entries().len() == spec_stop_height(data@)
                    &&& forall|k: int|
                        0 <= k < h.entries().len() ==> #[trigger] h.entries()[k] == spec_entry(
                            data@,
                            k,
                        )
                },
                Err(e) => {
                    &&& e == EfError::FormatError
                    &&& !(header_ok(data@) && table_complete(data@))
                },
            },
    {
        let stop_height = match check_header(data) {
            Ok(s) => s,
            Err(e) => {
                return Err(e);
            },
        };
        let mut entries: Vec<(u32, u64)> = Vec::new();
        let mut k: u32 = 0;
        while k < stop_height
            invariant
                header_ok(data@),
                table_complete(data@),
                stop_height == spec_stop_height(data@),
                k <= stop_height,
                entries@.len() == k as int,
                forall|j: int|
                    0 <= j < k as int ==> #[trigger] entries@[j] == spec_entry(data@, j),
            decreases stop_height - k,
        {
            proof {
                vstd::slice::axiom_spec_len(data);
                assert(12 * (k as int) + 12 <= 12 * spec_stop_height(data@)) by (nonlinear_arith)
                    requires (k as int) < spec_stop_height(data@);
            }
            let base = 9 + 12 * (k as usize);
            let height = read_u32_le(data, base);
            let offset = read_u64_le(data, base + 4);
            entries.push((height, offset));
            k = k + 1;
        }
        Ok(BitmapHints { stop_height, entries })
    }

    /// The stop height of the hint file.
    pub fn stop_height(&self) -> (r: u32)
        ensures
            r == self.spec_stop_height(),
    {
        self.stop_height
    }

    /// The record offset stored for `height`, or a [`EfError::RangeError`]
    /// when the table holds no pair for it.
    pub fn offset_for(&self, height: u32) -> (r: Result<u64, EfError>)
        ensures
            match r {
                Ok(off) => spec_lookup(self.entries(), height) == Some(off),
                Err(e) => e == EfError::RangeError && spec_lookup(self.entries(), height)
                    is None,
            },
    {
        let mut found: Option<u64> = None;
        let mut i: usize = 0;
        proof {
            assert(self.entries@.take(0) =~= Seq::<(u32, u64)>::empty());
        }
        while i < self.entries.len()
            invariant
                i <= self.entries@.len(),
                found == spec_lookup(self.entries@.take(i as int), height),
            decreases self.entries@.len() - i,
        {
            let e = self.entries[i];
            proof {
                let t = self.entries@.take(i as int + 1);
                assert(t.drop_last() =~= self.entries@.take(i as int));
                assert(t.last() == self.entries@[i as int]);
            }
            if e.0 == height {
                found = Some(e.1);
            }
            i = i + 1;
        }
        proof {
            assert(self.entries@.take(self.entries@.len() as int) =~= self.entries@);
        }
        match found {
            Some(off) => Ok(off),
            None => Err(EfError::RangeError),
        }
    }

    /// Fetch and decode the record for `height` out of the byte store
    /// `data`: look the offset up, read `num_bits` there, then collect the
    /// set bit positions of the bitmap in ascending order. Absent heights
    /// are a [`EfError::RangeError`]; reads past the end of the store are a
    /// [`EfError::IoError`]; a count too large for 16-bit positions is a
    /// [`EfError::FormatError`].
    pub fn get_indexes(&self, data: &[u8], height: u32) -> (r: Result<Vec<u16>, EfError>)
        ensures
            match spec_lookup(self.entries(), height) {
                Option::None => r == Err::<Vec<u16>, EfError>(EfError::RangeError),
                Option::Some(off) => {
                    if off + 4 > data@.len() {
                        r == Err::<Vec<u16>, EfError>(EfError::IoError)
                    } else {
                        let nb = le32_at(data@, off as int);
                        if nb > 0x10000 {
                            r == Err::<Vec<u16>, EfError>(EfError::FormatError)
                        } else if off + 4 + ((nb + 7) / 8) > data@.len() {
                            r == Err::<Vec<u16>, EfError>(EfError::IoError)
                        } else {
                            match r {
                                Ok(v) => {
                                    &&& strictly_sorted(v@)
                                    &&& forall|p: u16|
                                        (#[trigger] v@.contains(p)) <==> ((p as nat) < nb
                                            && bit_at(
                                            data@.subrange(
                                                off + 4,
                                                off + 4 + ((nb + 7) / 8) as int,
                                            ),
                                            p as int,
                                        ))
                                },
                                Err(_) => false,
                            }
                        }
                    }
                },
            },
    {
        let off = match self.offset_for(height) {
            Ok(off) => off,
            Err(e) => {
                return Err(e);
            },
        };
        let len64 = data.len() as u64;
        if off > len64 || len64 - off < 4 {
            return Err(EfError::IoError);
        }
        let off_us = off as usize;
        let num_bits = read_u32_le(data, off_us);
        if num_bits > 0x10000 {
            return Err(EfError::FormatError);
        }
        let byte_len = ((num_bits + 7) / 8) as usize;
        if data.len() - (off_us + 4) < byte_len {
            return Err(EfError::IoError);
        }
        let bitmap = vstd::slice::slice_subrange(data, off_us + 4, off_us + 4 + byte_len);
        Ok(decode_bitmap(num_bits, bitmap))
    }
}

/// Check the magic, the version, and that the offset table is whole;
/// return the stop height.
fn check_header(data: &[u8]) -> (r: Result<u32, EfError>)
    ensures
        match r {
            Ok(s) => header_ok(data@) && table_complete(data@) && s == spec_stop_height(data@),
            Err(e) => e == EfError::FormatError && !(header_ok(data@) && table_complete(data@)),
        },
{
    if data.len() < 9 {
        return Err(EfError::FormatError);
    }
    if data[0] != 0x55 || data[1] != 0x54 || data[2] != 0x58 || data[3] != 0x4f {
        return Err(EfError::FormatError);
    }
    if data[4] != 0x00 {
        return Err(EfError::FormatError);
    }
    let stop_height = read_u32_le(data, 5);
    proof {
        vstd::slice::axiom_spec_len(data);
    }
    if (data.len() as u64) < 9 + 12 * (stop_height as u64) {
        return Err(EfError::FormatError);
    }
    Ok(stop_height)
}

/// Positions of the set bits of `bitmap` among `0 .. num_bits`, ascending.
pub fn decode_bitmap(num_bits: u32, bitmap: &[u8]) -> (r: Vec<u16>)
    requires
        num_bits <= 0x10000,
        bitmap@.len() == ((num_bits + 7) / 8) as int,
    ensures
        strictly_sorted(r@),
        forall|p: u16|
            (#[trigger] r@.contains(p)) <==> ((p as nat) < num_bits && bit_at(bitmap@, p as int)),
{
    let mut out: Vec<u16> = Vec::new();
    let mut bit_pos: u32 = 0;
    proof {
        lemma_ceil8(num_bits as int);
    }
    while bit_pos < num_bits
        invariant
            num_bits <= 0x10000,
            bitmap@.len() == ((num_bits + 7) / 8) as int,
            num_bits <= 8 * bitmap@.len(),
            bit_pos <= num_bits,
            forall|k: int|
                0 <= k < out@.len() ==> (#[trigger] out@[k]) < bit_pos && bit_at(
                    bitmap@,
                    out@[k] as int,
                ),
            forall|k: int, l: int| 0 <= k < l < out@.len() ==> out@[k] < out@[l],
            forall|p: u16|
                (p as int) < bit_pos && bit_at(bitmap@, p as int) ==> #[trigger] out@.contains(p),
        decreases num_bits - bit_pos,
    {
        let ghost old_out = out@;
        if get_bit(bitmap, bit_pos as u64) {
            out.push(bit_pos as u16);
            proof {
                assert(out@[out@.len() - 1] == bit_pos as u16);
                assert forall|p: u16|
                    (p as int) < bit_pos + 1 && bit_at(bitmap@, p as int) implies #[trigger] out@
                    .contains(p) by {
                    if (p as int) < bit_pos {
                        assert(old_out.contains(p));
                        let k = choose|k: int| 0 <= k < old_out.len() && old_out[k] == p;
                        assert(out@ == old_out.push(bit_pos as u16));
                        assert(out@[k] == old_out[k]);
                        assert(out@[k] == p);
                    } else {
                        assert(out@[out@.len() - 1] == p);
                    }
                }
            }
        } else {
            proof {
                assert forall|p: u16|
                    (p as int) < bit_pos + 1 && bit_at(bitmap@, p as int) implies #[trigger] out@
                    .contains(p) by {
                    if (p as int) < bit_pos {
                    } else {
                        assert(p as int == bit_pos as int);
                        assert(!bit_at(bitmap@, p as int));
                    }
                }
            }
        }
        bit_pos = bit_pos + 1;
    }
    proof {
        assert forall|p: u16| (#[trigger] out@.contains(p)) implies ((p as nat) < num_bits
            && bit_at(bitmap@, p as int)) by {
            if out@.contains(p) {
                let k = choose|k: int| 0 <= k < out@.len() && out@[k] == p;
            }
        }
    }
    out
}

} // verus!
