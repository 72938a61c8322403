//! The archive byte format.
//!
//! An archive is a four-byte magic header (`0x41 0x56 0x44 0x00`)
//! followed by one fixed-length 258-byte record per stored block: a
//! two-byte big-endian block index, then the 256-byte payload verbatim.
//! There is no trailer, no length prefix and no padding, so a valid
//! archive is exactly `4 + 258 * n` bytes long.

use vstd::arithmetic::div_mod::{
    lemma_fundamental_div_mod, lemma_mod_multiples_basic, lemma_small_mod, lemma_sub_mod_noop,
};
use vstd::prelude::*;

use crate::model::payloads_sized;

verus! {

/// The four magic header bytes: "AVD" and a reserved version byte 0.
pub open spec fn spec_magic() -> Seq<u8> {
    seq![0x41u8, 0x56u8, 0x44u8, 0x00u8]
}

/// One encoded record: the index in big-endian order, then the payload.
pub open spec fn spec_record(e: (u16, Seq<u8>)) -> Seq<u8> {
    seq![(e.0 / 256) as u8, (e.0 % 256) as u8] + e.1
}

/// The data segment of an archive: one record per entry, in store order.
pub open spec fn spec_records(s: Seq<(u16, Seq<u8>)>) -> Seq<u8>
    decreases s.len(),
{
    if s.len() == 0 {
        Seq::empty()
    } else {
        spec_record(s[0]) + spec_records(s.drop_first())
    }
}

/// A whole archive: the magic header, then the data segment.
pub open spec fn spec_serialize(s: Seq<(u16, Seq<u8>)>) -> Seq<u8> {
    spec_magic() + spec_records(s)
}

/// Whether `a` begins with the four magic header bytes.
pub open spec fn header_ok(a: Seq<u8>) -> bool {
    a.len() >= 4 && a[0] == 0x41 && a[1] == 0x56 && a[2] == 0x44 && a[3] == 0x00
}

/// Whether the bytes after the header are a whole number of records.
pub open spec fn data_aligned(a: Seq<u8>) -> bool {
    (a.len() - 4) % 258 == 0
}

/// The header byte a decoder observed at position `i`: the byte itself,
/// or the sentinel 0 where the input ends before it.
pub open spec fn observed_byte(a: Seq<u8>, i: int) -> u8 {
    if i < a.len() {
        a[i]
    } else {
        0
    }
}

/// One decoded record: the first two bytes as a big-endian index, the
/// remaining 256 bytes as the payload.
pub open spec fn spec_parse_record(r: Seq<u8>) -> (u16, Seq<u8>) {
    (((r[0] as int) * 256 + (r[1] as int)) as u16, r.subrange(2, 258))
}

/// The entries decoded from a data segment: consecutive 258-byte records
/// in file order.
pub open spec fn spec_parse(data: Seq<u8>) -> Seq<(u16, Seq<u8>)>
    decreases data.len(),
{
    if data.len() < 258 {
        Seq::empty()
    } else {
        seq![spec_parse_record(data.subrange(0, 258))] + spec_parse(data.skip(258))
    }
}

/// The data segment is exactly 258 bytes per entry.
pub proof fn lemma_records_len(s: Seq<(u16, Seq<u8>)>)
    requires
        payloads_sized(s),
    ensures
        spec_records(s).len() == 258 * s.len(),
    decreases s.len(),
{
    if s.len() != 0 {
        let t = s.drop_first();
        assert(s[0].1.len() == 256);
        assert forall|i: int| 0 <= i < t.len() implies (#[trigger] t[i]).1.len() == 256 by {
            assert(t[i] == s[i + 1]);
        }
        lemma_records_len(t);
    }
}

/// Encoding one more entry appends one more record.
pub proof fn lemma_records_push(s: Seq<(u16, Seq<u8>)>, e: (u16, Seq<u8>))
    ensures
        spec_records(s.push(e)) == spec_records(s) + spec_record(e),
    decreases s.len(),
{
    if s.len() == 0 {
        let p = s.push(e);
        assert(p[0] == e);
        assert(p.drop_first() =~= Seq::<(u16, Seq<u8>)>::empty());
        assert(spec_records(p) == spec_record(e) + spec_records(p.drop_first()));
        assert(spec_records(Seq::<(u16, Seq<u8>)>::empty()) == Seq::<u8>::empty());
        assert(spec_records(p) == spec_record(e) + Seq::<u8>::empty());
        assert(spec_record(e) + Seq::<u8>::empty() =~= Seq::<u8>::empty() + spec_record(e));
        assert(spec_records(s) == Seq::<u8>::empty());
    } else {
        assert(s.push(e)[0] == s[0]);
        assert(s.push(e).drop_first() =~= s.drop_first().push(e));
        lemma_records_push(s.drop_first(), e);
        assert(spec_records(s.push(e)) == spec_record(s[0]) + (spec_records(s.drop_first())
            + spec_record(e)));
        assert(spec_record(s[0]) + (spec_records(s.drop_first()) + spec_record(e)) =~= (
        spec_record(s[0]) + spec_records(s.drop_first())) + spec_record(e));
    }
}

/// Decoding an encoded record restores the entry exactly.
pub proof fn lemma_parse_record_of_record(e: (u16, Seq<u8>))
    requires
        e.1.len() == 256,
    ensures
        spec_record(e).len() == 258,
        spec_parse_record(spec_record(e)) == e,
{
    let r = spec_record(e);
    lemma_fundamental_div_mod(e.0 as int, 256);
    assert(e.0 / 256 < 256);
    assert(r[0] == (e.0 / 256) as u8);
    assert(r[1] == (e.0 % 256) as u8);
    assert((r[0] as int) * 256 + (r[1] as int) == e.0 as int);
    assert(r.subrange(2, 258) =~= e.1);
}

/// Round trip of the data segment: decoding an encoded block sequence
/// restores it exactly.
pub proof fn lemma_parse_of_records(s: Seq<(u16, Seq<u8>)>)
    requires
        payloads_sized(s),
    ensures
        spec_parse(spec_records(s)) == s,
    decreases s.len(),
{
    if s.len() == 0 {
        assert(spec_parse(spec_records(s)) =~= s);
    } else {
        let t = s.drop_first();
        assert(s[0].1.len() == 256);
        assert forall|i: int| 0 <= i < t.len() implies (#[trigger] t[i]).1.len() == 256 by {
            assert(t[i] == s[i + 1]);
        }
        lemma_parse_record_of_record(s[0]);
        let r = spec_record(s[0]);
        let rest = spec_records(t);
        assert(spec_records(s) == r + rest);
        assert((r + rest).len() >= 258);
        assert((r + rest).subrange(0, 258) =~= r);
        assert((r + rest).skip(258) =~= rest);
        lemma_parse_of_records(t);
        assert(spec_parse(spec_records(s)) == seq![s[0]] + t);
        assert(seq![s[0]] + t =~= s);
    }
}

/// Round trip of a whole archive: encoding any block sequence with
/// 256-byte payloads yields an archive that passes the header and
/// alignment checks and decodes to the same sequence — so a drive
/// serialized and deserialized keeps exactly its mapping from index to
/// payload.
pub proof fn lemma_round_trip(s: Seq<(u16, Seq<u8>)>)
    requires
        payloads_sized(s),
    ensures
        header_ok(spec_serialize(s)),
        data_aligned(spec_serialize(s)),
        spec_parse(spec_serialize(s).skip(4)) == s,
{
    lemma_records_len(s);
    let a = spec_serialize(s);
    assert(a[0] == 0x41 && a[1] == 0x56 && a[2] == 0x44 && a[3] == 0x00);
    assert(a.len() - 4 == 258 * s.len());
    lemma_mod_multiples_basic(s.len() as int, 258);
    assert(a.skip(4) =~= spec_records(s));
    lemma_parse_of_records(s);
}

/// A data segment that is whole records and shorter than one record is
/// empty: used to show a decode loop consumed its whole input.
pub proof fn lemma_aligned_remainder_zero(a: int, b: int)
    requires
        0 <= a <= b,
        a % 258 == 0,
        b % 258 == 0,
        b - a < 258,
    ensures
        a == b,
{
    lemma_sub_mod_noop(b, a, 258);
    lemma_small_mod((b - a) as nat, 258);
}

} // verus!
