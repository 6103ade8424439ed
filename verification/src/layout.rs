//! Binary layout of a block's data region.
//!
//! Entries are laid out back to back; each entry is
//! `key_len:u16(BE) | key | value_len:u16(BE) | value`.  A separate offset
//! table records, per entry, the byte offset in the data region at which the
//! entry begins.  This module defines the layout as spec functions — both the
//! encoding direction and the parsing direction — and proves that the two
//! agree.

use vstd::prelude::*;

verus! {

/// The two big-endian bytes of a 16-bit length field.
pub open spec fn be16(n: int) -> Seq<u8> {
    seq![(n / 256) as u8, (n % 256) as u8]
}

/// The encoding of a single key/value entry.
pub open spec fn encode_entry(k: Seq<u8>, v: Seq<u8>) -> Seq<u8> {
    be16(k.len() as int) + k + be16(v.len() as int) + v
}

/// The data region obtained by encoding `es` back to back.
pub open spec fn encode_entries(es: Seq<(Seq<u8>, Seq<u8>)>) -> Seq<u8>
    decreases es.len(),
{
    if es.len() == 0 {
        Seq::empty()
    } else {
        encode_entries(es.drop_last()) + encode_entry(es.last().0, es.last().1)
    }
}

/// The offset table that goes with `encode_entries(es)`: entry `i` begins
/// where the encodings of the entries before it end.
pub open spec fn offsets_of(es: Seq<(Seq<u8>, Seq<u8>)>) -> Seq<u16>
    decreases es.len(),
{
    if es.len() == 0 {
        Seq::empty()
    } else {
        offsets_of(es.drop_last()).push(encode_entries(es.drop_last()).len() as u16)
    }
}

/// The 16-bit big-endian integer stored at byte position `i`.
pub open spec fn u16_at(data: Seq<u8>, i: int) -> int {
    (data[i] as int) * 256 + (data[i + 1] as int)
}

/// Key length of the entry beginning at offset `o`.
pub open spec fn key_len_at(data: Seq<u8>, o: int) -> int {
    u16_at(data, o)
}

/// Value length of the entry beginning at offset `o`.
pub open spec fn val_len_at(data: Seq<u8>, o: int) -> int {
    u16_at(data, o + 2 + key_len_at(data, o))
}

/// Key bytes of the entry beginning at offset `o`.
pub open spec fn key_at(data: Seq<u8>, o: int) -> Seq<u8> {
    data.subrange(o + 2, o + 2 + key_len_at(data, o))
}

/// Value bytes of the entry beginning at offset `o`.
pub open spec fn val_at(data: Seq<u8>, o: int) -> Seq<u8> {
    data.subrange(
        o + 4 + key_len_at(data, o),
        o + 4 + key_len_at(data, o) + val_len_at(data, o),
    )
}

/// One past the last byte of the entry beginning at offset `o`.
pub open spec fn entry_end(data: Seq<u8>, o: int) -> int {
    o + 4 + key_len_at(data, o) + val_len_at(data, o)
}

/// The offset table describes `data` as a back-to-back sequence of entries:
/// entry 0 starts at byte 0, each entry starts where the previous one ends,
/// the last entry ends exactly at the end of `data`, and no entry has an
/// empty key.
pub open spec fn encoding_wf(data: Seq<u8>, offsets: Seq<u16>) -> bool {
    &&& (offsets.len() == 0 ==> data.len() == 0)
    &&& (offsets.len() > 0 ==> offsets[0] == 0)
    &&& (forall|i: int|
        1 <= i < offsets.len() ==> (#[trigger] offsets[i]) as int == entry_end(
            data,
            offsets[i - 1] as int,
        ))
    &&& (offsets.len() > 0 ==> entry_end(data, offsets[offsets.len() - 1] as int) == data.len())
    &&& (forall|i: int|
        0 <= i < offsets.len() ==> #[trigger] entry_end(data, offsets[i] as int) <= data.len())
    &&& (forall|i: int|
        0 <= i < offsets.len() ==> #[trigger] key_len_at(data, offsets[i] as int) >= 1)
}

/// The key/value pairs recovered by parsing `data` at each recorded offset.
pub open spec fn entries_of(data: Seq<u8>, offsets: Seq<u16>) -> Seq<(Seq<u8>, Seq<u8>)> {
    Seq::new(
        offsets.len(),
        |i: int| (key_at(data, offsets[i] as int), val_at(data, offsets[i] as int)),
    )
}

/// The big-endian bytes of a 16-bit value store that value.
pub proof fn lemma_be16_value(n: int)
    requires
        0 <= n <= 0xFFFF,
    ensures
        be16(n).len() == 2,
        (be16(n)[0] as int) * 256 + (be16(n)[1] as int) == n,
{
    vstd::arithmetic::div_mod::lemma_fundamental_div_mod(n, 256);
    vstd::arithmetic::div_mod::lemma_div_pos_is_pos(n, 256);
    vstd::arithmetic::div_mod::lemma_div_is_ordered(n, 0xFFFF, 256);
    vstd::arithmetic::div_mod::lemma_mod_bound(n, 256);
}

/// Extending the data region does not disturb how an entry that lies wholly
/// inside the old region parses.
pub proof fn lemma_parse_stable(d1: Seq<u8>, d2: Seq<u8>, o: int)
    requires
        0 <= o,
        entry_end(d1, o) <= d1.len(),
        d1.len() <= d2.len(),
        forall|i: int| 0 <= i < d1.len() ==> d1[i] == d2[i],
    ensures
        key_len_at(d2, o) == key_len_at(d1, o),
        val_len_at(d2, o) == val_len_at(d1, o),
        entry_end(d2, o) == entry_end(d1, o),
        key_at(d2, o) == key_at(d1, o),
        val_at(d2, o) == val_at(d1, o),
{
    assert(key_len_at(d2, o) == key_len_at(d1, o));
    assert(val_len_at(d2, o) == val_len_at(d1, o));
    assert(key_at(d2, o) =~= key_at(d1, o));
    assert(val_at(d2, o) =~= val_at(d1, o));
}

/// Appending the encoding of `(k, v)` to any data region puts an entry at the
/// old end of the region that parses back to exactly `(k, v)`.
pub proof fn lemma_encoded_entry_parses(d: Seq<u8>, k: Seq<u8>, v: Seq<u8>)
    requires
        1 <= k.len() <= 0xFFFF,
        v.len() <= 0xFFFF,
    ensures
        ({
            let d2 = d + encode_entry(k, v);
            let o = d.len() as int;
            &&& d2.len() == d.len() + 4 + k.len() + v.len()
            &&& key_len_at(d2, o) == k.len()
            &&& val_len_at(d2, o) == v.len()
            &&& key_at(d2, o) == k
            &&& val_at(d2, o) == v
            &&& entry_end(d2, o) == d2.len()
        }),
{
    let d2 = d + encode_entry(k, v);
    let o = d.len() as int;
    let e = encode_entry(k, v);
    lemma_be16_value(k.len() as int);
    lemma_be16_value(v.len() as int);
    assert(e.len() == 4 + k.len() + v.len());
    assert forall|i: int| 0 <= i < e.len() implies d2[o + i] == e[i] by {}
    assert(e[0] == be16(k.len() as int)[0]);
    assert(e[1] == be16(k.len() as int)[1]);
    assert(key_len_at(d2, o) == k.len());
    assert forall|j: int| 0 <= j < k.len() implies e[2 + j] == k[j] by {}
    assert(key_at(d2, o) =~= k);
    let kl = k.len() as int;
    assert(e[2 + kl] == be16(v.len() as int)[0]);
    assert(e[3 + kl] == be16(v.len() as int)[1]);
    assert(val_len_at(d2, o) == v.len());
    assert forall|j: int| 0 <= j < v.len() implies e[4 + kl + j] == v[j] by {}
    assert(val_at(d2, o) =~= v);
}

/// Appending one encoded entry to a well-described data region, and its
/// starting offset to the offset table, leaves a well-described region whose
/// parsed entries are the old ones followed by `(k, v)`.
pub proof fn lemma_append_entry(d0: Seq<u8>, offs0: Seq<u16>, k: Seq<u8>, v: Seq<u8>)
    requires
        encoding_wf(d0, offs0),
        1 <= k.len() <= 0xFFFF,
        v.len() <= 0xFFFF,
        d0.len() + 4 + k.len() + v.len() <= 0xFFFF,
    ensures
        ({
            let d2 = d0 + encode_entry(k, v);
            let offs2 = offs0.push(d0.len() as u16);
            &&& d2.len() == d0.len() + 4 + k.len() + v.len()
            &&& encoding_wf(d2, offs2)
            &&& entries_of(d2, offs2) == entries_of(d0, offs0).push((k, v))
        }),
{
    let d2 = d0 + encode_entry(k, v);
    let offs2 = offs0.push(d0.len() as u16);
    let off = d0.len() as u16;
    lemma_encoded_entry_parses(d0, k, v);
    assert(off as int == d0.len());
    assert forall|i: int| 0 <= i < offs0.len() implies {
        &&& entry_end(d2, offs0[i] as int) == entry_end(d0, offs0[i] as int)
        &&& key_len_at(d2, offs0[i] as int) == key_len_at(d0, offs0[i] as int)
        &&& key_at(d2, offs0[i] as int) == key_at(d0, offs0[i] as int)
        &&& val_at(d2, offs0[i] as int) == val_at(d0, offs0[i] as int)
    } by {
        assert(entry_end(d0, offs0[i] as int) <= d0.len());
        lemma_parse_stable(d0, d2, offs0[i] as int);
    }
    assert(offs2.len() > 0 && offs2[offs2.len() - 1] == off);
    assert(forall|i: int| 0 <= i < offs0.len() ==> offs2[i] == offs0[i]);
    assert(offs2[0] == 0) by {
        if offs0.len() == 0 {
            assert(d0.len() == 0);
        } else {
            assert(offs0[0] == 0);
        }
    }
    assert forall|i: int|
        1 <= i < offs2.len() implies (#[trigger] offs2[i]) as int == entry_end(
        d2,
        offs2[i - 1] as int,
    ) by {
        if i < offs0.len() {
            assert(offs0[i] as int == entry_end(d0, offs0[i - 1] as int));
        } else {
            assert(i == offs0.len());
            assert(entry_end(d0, offs0[i - 1] as int) == d0.len());
        }
    }
    assert(entry_end(d2, offs2[offs2.len() - 1] as int) == d2.len());
    assert forall|i: int|
        0 <= i < offs2.len() implies #[trigger] entry_end(d2, offs2[i] as int) <= d2.len()
        && key_len_at(d2, offs2[i] as int) >= 1 by {
        if i < offs0.len() {
            assert(entry_end(d0, offs0[i] as int) <= d0.len());
            assert(key_len_at(d0, offs0[i] as int) >= 1);
        }
    }
    assert(encoding_wf(d2, offs2));
    let es0 = entries_of(d0, offs0);
    let es2 = entries_of(d2, offs2);
    assert forall|i: int| 0 <= i < es2.len() implies es2[i] == es0.push((k, v))[i] by {
        if i < offs0.len() {
            assert(es2[i] == (key_at(d2, offs0[i] as int), val_at(d2, offs0[i] as int)));
        } else {
            assert(es2[i] == (key_at(d2, d0.len() as int), val_at(d2, d0.len() as int)));
        }
    }
    assert(es2 =~= es0.push((k, v)));
}

/// Executable read of the 16-bit big-endian integer at byte position `o`.
pub fn read_u16_at(data: &Vec<u8>, o: usize) -> (r: u16)
    requires
        o + 2 <= data@.len(),
    ensures
        r as int == u16_at(data@, o as int),
{
    let n = data.len();
    proof {
        assert(o + 2 <= n);
    }
    let hi = data[o];
    let lo = data[o + 1];
    (hi as u16) * 256 + (lo as u16)
}

} // verus!
