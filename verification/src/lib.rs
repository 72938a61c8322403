//! An emulated 16MB block-based storage device: 65536 addressable blocks
//! of 256 bytes each, held sparsely in memory. Only blocks that were
//! explicitly written are stored; all others are implicitly zero.
//!
//! The drive round-trips through a compact archive byte format; reading
//! and writing archive files is left to the host around this library.

use vstd::prelude::*;

pub mod format;
pub mod model;

use crate::format::{
    data_aligned, header_ok, lemma_aligned_remainder_zero, lemma_records_len, lemma_records_push,
    lemma_round_trip, observed_byte, spec_magic, spec_parse, spec_parse_record, spec_record,
    spec_records, spec_serialize,
};
use crate::model::{
    first_at, lemma_first_at, lemma_first_at_position, lemma_set_find, lemma_swap_adjacent,
    payloads_sized, sorted_by_idx, spec_find, spec_set, swap_adjacent, unique_indices,
};

verus! {

/// Why decoding an archive failed. Host I/O failures are reported by the
/// host code that reads and writes archive files, not by this library.
#[derive(Clone, Copy, Debug, PartialEq, Eq)]
pub enum AvdError {
    /// The input did not begin with the four magic header bytes, or was
    /// shorter than four bytes. Carries the four observed header bytes,
    /// with the sentinel 0 standing in for bytes past the end of a short
    /// input.
    BadHeader(u8, u8, u8, u8),
    /// The input begins with the magic header but the bytes after it are
    /// not a whole number of 258-byte records.
    MalformedArchive,
}

/// One addressable 256-byte unit of storage, identified by a 16-bit index.
#[derive(Debug, PartialEq)]
struct Block {
    idx: u16,
    data: [u8; 256],
}

/// The AVC2 Virtual Drive: a sparse, block-addressable 16MB storage device.
///
/// Its abstract state is a sequence of `(index, payload)` entries in
/// insertion order; see [`crate::model`].
#[derive(Debug, PartialEq)]
pub struct Avd {
    blocks: Vec<Block>,
}

/// The abstract entries of a block sequence: its `(index, payload)` pairs.
spec fn pairs_of(bs: Seq<Block>) -> Seq<(u16, Seq<u8>)> {
    bs.map_values(|b: Block| (b.idx, b.data@))
}

impl View for Avd {
    type V = Seq<(u16, Seq<u8>)>;

    closed spec fn view(&self) -> Seq<(u16, Seq<u8>)> {
        pairs_of(self.blocks@)
    }
}

impl Avd {
    /// The store's invariant: no two stored blocks share an index.
    pub open spec fn wf(&self) -> bool {
        unique_indices(self@)
    }

    /// Every stored payload is exactly 256 bytes; this holds of every
    /// drive by construction.
    pub proof fn lemma_payloads_sized(&self)
        ensures
            payloads_sized(self@),
    {
        assert forall|i: int| 0 <= i < self@.len() implies (#[trigger] self@[i]).1.len() == 256 by {
            assert(self@[i] == (self.blocks@[i].idx, self.blocks@[i].data@));
        }
    }

    /// Round trip for a whole drive: its archive bytes pass the decoder's
    /// header and alignment checks and decode to exactly the drive's block
    /// sequence — the same mapping from index to payload.
    pub proof fn lemma_archive_round_trip(&self)
        ensures
            header_ok(spec_serialize(self@)),
            data_aligned(spec_serialize(self@)),
            spec_parse(spec_serialize(self@).skip(4)) == self@,
    {
        self.lemma_payloads_sized();
        lemma_round_trip(self@);
    }

    /// Create a new, blank AVD: it stores no blocks, so every index reads
    /// back as absent.
    pub fn new() -> (d: Avd)
        ensures
            d@ == Seq::<(u16, Seq<u8>)>::empty(),
            d.wf(),
            forall|i: u16| spec_find(d@, i) is None,
    {
        let d = Avd { blocks: Vec::new() };
        proof {
            assert(d@ =~= Seq::<(u16, Seq<u8>)>::empty());
        }
        d
    }

    /// Position of the first stored block with index `idx`, if any.
    fn find_pos(&self, idx: u16) -> (r: Option<usize>)
        ensures
            match r {
                Some(i) => i == first_at(self@, idx) && i < self@.len(),
                None => first_at(self@, idx) == self@.len(),
            },
    {
        let n = self.blocks.len();
        let mut i: usize = 0;
        while i < n
            invariant
                0 <= i <= n,
                n == self.blocks.len(),
                self@.len() == self.blocks@.len(),
                forall|k: int| 0 <= k < self@.len() ==> #[trigger] self@[k] == (
                self.blocks@[k].idx,
                self.blocks@[k].data@,
                ),
                forall|k: int| 0 <= k < i ==> self.blocks@[k].idx != idx,
            decreases n - i,
        {
            if self.blocks[i].idx == idx {
                proof {
                    lemma_first_at_position(self@, idx, i as int);
                }
                return Some(i);
            }
            i = i + 1;
        }
        proof {
            lemma_first_at_position(self@, idx, self@.len() as int);
        }
        None
    }

    /// Get a block from the drive: the payload stored under `idx`, or
    /// `None` for a block that was never set (implicitly all zero).
    pub fn get_block(&self, idx: u16) -> (r: Option<[u8; 256]>)
        ensures
            r is Some <==> spec_find(self@, idx) is Some,
            r matches Some(d) ==> spec_find(self@, idx) == Some(d@),
    {
        proof {
            lemma_first_at(self@, idx);
        }
        match self.find_pos(idx) {
            Some(i) => Some(self.blocks[i].data),
            None => None,
        }
    }

    /// Set a block inside the drive: overwrite the payload stored under
    /// `idx` in place, or append a new block if the index was absent.
    pub fn set_block(&mut self, idx: u16, data: &[u8; 256])
        ensures
            final(self)@ == spec_set(old(self)@, idx, data@),
            spec_find(final(self)@, idx) == Some(data@),
            forall|j: u16| j != idx ==> spec_find(final(self)@, j) == spec_find(old(self)@, j),
            final(self)@.len() == old(self)@.len() + (
            if spec_find(old(self)@, idx) is Some {
                0int
            } else {
                1int
            }),
            old(self).wf() ==> final(self).wf(),
    {
        proof {
            lemma_first_at(self@, idx);
            lemma_set_find(self@, idx, data@);
        }
        match self.find_pos(idx) {
            Some(i) => {
                self.blocks[i] = Block { idx, data: *data };
                proof {
                    assert(self@ =~= spec_set(old(self)@, idx, data@));
                }
            },
            None => {
                self.blocks.push(Block { idx, data: *data });
                proof {
                    assert(self@ =~= spec_set(old(self)@, idx, data@));
                }
            },
        }
    }

    /// "Defrag" the in-memory representation of the drive's blocks:
    /// reorder them by ascending index, stably. The reordering changes no
    /// observable lookup: every subsequent `get_block` returns what it
    /// returned before.
    pub fn sort(&mut self)
        ensures
            sorted_by_idx(final(self)@),
            final(self)@.len() == old(self)@.len(),
            final(self)@.to_multiset() == old(self)@.to_multiset(),
            forall|q: u16| spec_find(final(self)@, q) == spec_find(old(self)@, q),
            old(self).wf() ==> final(self).wf(),
    {
        let ghost orig = self@;
        let n = self.blocks.len();
        if n <= 1 {
            return ;
        }
        let mut i: usize = 1;
        while i < n
            invariant
                1 <= i <= n,
                n == self.blocks.len(),
                self@.len() == n,
                forall|k: int| 0 <= k < self@.len() ==> #[trigger] self@[k] == (
                self.blocks@[k].idx,
                self.blocks@[k].data@,
                ),
                self@.to_multiset() == orig.to_multiset(),
                forall|q: u16| spec_find(self@, q) == spec_find(orig, q),
                unique_indices(orig) ==> unique_indices(self@),
                forall|p: int, q: int| 0 <= p <= q < i ==> self@[p].0 <= self@[q].0,
            decreases n - i,
        {
            let mut j: usize = i;
            while j > 0 && self.blocks[j - 1].idx > self.blocks[j].idx
                invariant
                    0 <= j <= i < n,
                    n == self.blocks.len(),
                    self@.len() == n,
                    forall|k: int| 0 <= k < self@.len() ==> #[trigger] self@[k] == (
                    self.blocks@[k].idx,
                    self.blocks@[k].data@,
                    ),
                    self@.to_multiset() == orig.to_multiset(),
                    forall|q: u16| spec_find(self@, q) == spec_find(orig, q),
                    unique_indices(orig) ==> unique_indices(self@),
                    forall|p: int, q: int|
                        0 <= p < q <= i && q != j ==> self@[p].0 <= self@[q].0,
                decreases j,
            {
                let ghost b0 = self.blocks@;
                let ghost s0 = self@;
                let ghost jj = j as int;
                let moved = self.blocks.remove(j);
                self.blocks.insert(j - 1, moved);
                proof {
                    b0.remove_ensures(jj);
                    b0.remove(jj).insert_ensures(jj - 1, b0[jj]);
                    assert(self.blocks@ == b0.remove(jj).insert(jj - 1, b0[jj]));
                    assert forall|k: int| 0 <= k < b0.len() implies self.blocks@[k] == (
                    if k == jj - 1 {
                        b0[jj]
                    } else if k == jj {
                        b0[jj - 1]
                    } else {
                        b0[k]
                    }) by {
                        if k > jj {
                            assert(self.blocks@[k] == b0.remove(jj)[k - 1]);
                            assert(b0.remove(jj)[k - 1] == b0[k]);
                        } else if k == jj {
                            assert(self.blocks@[k] == b0.remove(jj)[jj - 1]);
                            assert(b0.remove(jj)[jj - 1] == b0[jj - 1]);
                        }
                    }
                    assert(self@ =~= swap_adjacent(s0, jj)) by {
                        assert forall|k: int| 0 <= k < s0.len() implies self@[k] == swap_adjacent(
                            s0,
                            jj,
                        )[k] by {
                            assert(self@[k] == (self.blocks@[k].idx, self.blocks@[k].data@));
                            assert(s0[k] == (b0[k].idx, b0[k].data@));
                            assert(s0[jj] == (b0[jj].idx, b0[jj].data@));
                            assert(s0[jj - 1] == (b0[jj - 1].idx, b0[jj - 1].data@));
                        }
                    }
                    assert(s0[jj - 1].0 == b0[jj - 1].idx);
                    assert(s0[jj].0 == b0[jj].idx);
                    lemma_swap_adjacent(s0, jj);
                    assert forall|p: int, q: int|
                        0 <= p < q <= i && q != jj - 1 implies self@[p].0 <= self@[q].0 by {
                        if q == jj {
                            assert(self@[q] == s0[jj - 1]);
                            if p == jj - 1 {
                                assert(self@[p] == s0[jj]);
                            } else {
                                assert(self@[p] == s0[p]);
                                assert(s0[p].0 <= s0[jj - 1].0);
                            }
                        } else if q > jj {
                            assert(self@[q] == s0[q]);
                            if p == jj - 1 {
                                assert(self@[p] == s0[jj]);
                                assert(s0[jj].0 <= s0[q].0);
                            } else if p == jj {
                                assert(self@[p] == s0[jj - 1]);
                                assert(s0[jj - 1].0 <= s0[q].0);
                            } else {
                                assert(self@[p] == s0[p]);
                                assert(s0[p].0 <= s0[q].0);
                            }
                        } else {
                            assert(self@[p] == s0[p]);
                            assert(self@[q] == s0[q]);
                            assert(s0[p].0 <= s0[q].0);
                        }
                    }
                }
                j = j - 1;
            }
            proof {
                assert forall|p: int, q: int| 0 <= p <= q <= i implies self@[p].0
                    <= self@[q].0 by {
                    if p < q && q == j as int {
                        assert(self@[j as int - 1].0 <= self@[j as int].0);
                        if p < j as int - 1 {
                            assert(self@[p].0 <= self@[j as int - 1].0);
                        }
                    }
                }
            }
            i = i + 1;
        }
    }

    /// Encode the drive as archive bytes: the magic header, then one
    /// 258-byte record per stored block, in the drive's current in-memory
    /// order.
    pub fn save_archive(&self) -> (r: Vec<u8>)
        ensures
            r@ == spec_serialize(self@),
            r@.len() == 4 + 258 * self@.len(),
    {
        proof {
            self.lemma_payloads_sized();
            lemma_records_len(self@);
        }
        let mut ret: Vec<u8> = Vec::new();
        ret.push(0x41);
        ret.push(0x56);
        ret.push(0x44);
        ret.push(0x00);
        proof {
            assert(self@.take(0) =~= Seq::<(u16, Seq<u8>)>::empty());
            assert(ret@ =~= spec_magic() + spec_records(self@.take(0)));
        }
        let n = self.blocks.len();
        let mut i: usize = 0;
        while i < n
            invariant
                0 <= i <= n,
                n == self.blocks.len(),
                self@.len() == n,
                forall|k: int| 0 <= k < self@.len() ==> #[trigger] self@[k] == (
                self.blocks@[k].idx,
                self.blocks@[k].data@,
                ),
                ret@ == spec_magic() + spec_records(self@.take(i as int)),
            decreases n - i,
        {
            let idx = self.blocks[i].idx;
            ret.push((idx / 256) as u8);
            ret.push((idx % 256) as u8);
            let ghost before = ret@;
            let mut k: usize = 0;
            while k < 256
                invariant
                    0 <= k <= 256,
                    i < n,
                    n == self.blocks.len(),
                    ret@ == before + self.blocks@[i as int].data@.take(k as int),
                decreases 256 - k,
            {
                let byte = self.blocks[i].data[k];
                ret.push(byte);
                proof {
                    assert(ret@ =~= before + self.blocks@[i as int].data@.take(k as int + 1));
                }
                k = k + 1;
            }
            proof {
                let e = self@[i as int];
                assert(self.blocks@[i as int].data@.take(256) =~= e.1);
                assert(ret@ =~= (spec_magic() + spec_records(self@.take(i as int)))
                    + spec_record(e));
                lemma_records_push(self@.take(i as int), e);
                assert(self@.take(i as int + 1) =~= self@.take(i as int).push(e));
                assert(ret@ =~= spec_magic() + spec_records(self@.take(i as int + 1)));
            }
            i = i + 1;
        }
        proof {
            assert(self@.take(n as int) =~= self@);
        }
        ret
    }

    /// Decode archive bytes into a new drive whose block sequence is
    /// exactly the records of the archive, in file order. Fails with
    /// `BadHeader` when the input does not begin with the magic header
    /// (or is shorter than four bytes), and with `MalformedArchive` when
    /// the bytes after the header are not a whole number of records; no
    /// input makes it panic. Duplicate indices in the records are kept
    /// as they appear.
    pub fn load_archive(archive: &[u8]) -> (r: Result<Avd, AvdError>)
        ensures
            r is Ok <==> header_ok(archive@) && data_aligned(archive@),
            r matches Ok(d) ==> d@ == spec_parse(archive@.skip(4)),
            r matches Err(e) ==> (match e {
                AvdError::BadHeader(b0, b1, b2, b3) => !header_ok(archive@) && b0 == observed_byte(
                    archive@,
                    0,
                ) && b1 == observed_byte(archive@, 1) && b2 == observed_byte(archive@, 2) && b3
                    == observed_byte(archive@, 3),
                AvdError::MalformedArchive => header_ok(archive@) && !data_aligned(archive@),
            }),
    {
        let n = archive.len();
        if n < 4 {
            let b0 = if n > 0 {
                archive[0]
            } else {
                0
            };
            let b1 = if n > 1 {
                archive[1]
            } else {
                0
            };
            let b2 = if n > 2 {
                archive[2]
            } else {
                0
            };
            return Err(AvdError::BadHeader(b0, b1, b2, 0));
        }
        if !(archive[0] == 0x41 && archive[1] == 0x56 && archive[2] == 0x44 && archive[3] == 0x00) {
            return Err(AvdError::BadHeader(archive[0], archive[1], archive[2], archive[3]));
        }
        if (n - 4) % 258 != 0 {
            return Err(AvdError::MalformedArchive);
        }
        let mut blocks: Vec<Block> = Vec::new();
        let mut off: usize = 4;
        while n - off >= 258
            invariant
                4 <= off <= n,
                n == archive@.len(),
                (off - 4) % 258 == 0,
                (n - 4) % 258 == 0,
                pairs_of(blocks@) + spec_parse(
                    archive@.skip(off as int),
                ) == spec_parse(archive@.skip(4)),
            decreases n - off,
        {
            let ghost offi = off as int;
            let idx: u16 = (archive[off] as u16) * 256 + (archive[off + 1] as u16);
            let mut data = [0u8; 256];
            let mut k: usize = 0;
            while k < 256
                invariant
                    0 <= k <= 256,
                    off + 258 <= n,
                    off + 258 <= usize::MAX,
                    n == archive@.len(),
                    forall|t: int| 0 <= t < k ==> data@[t] == archive@[off + 2 + t],
                decreases 256 - k,
            {
                data[k] = archive[off + 2 + k];
                k = k + 1;
            }
            let ghost prev = pairs_of(blocks@);
            blocks.push(Block { idx, data });
            proof {
                let rec = archive@.skip(offi).subrange(0, 258);
                assert(rec =~= archive@.subrange(offi, offi + 258));
                assert(rec[0] == archive@[offi]);
                assert(rec[1] == archive@[offi + 1]);
                assert(data@ =~= rec.subrange(2, 258));
                assert(spec_parse_record(rec) == (idx, data@));
                assert(archive@.skip(offi).len() >= 258);
                assert(archive@.skip(offi).skip(258) =~= archive@.skip(offi + 258));
                assert(spec_parse(archive@.skip(offi)) == seq![(idx, data@)] + spec_parse(
                    archive@.skip(offi + 258),
                ));
                assert(pairs_of(blocks@) =~= prev.push(
                    (idx, data@),
                ));
                assert(prev.push((idx, data@)) + spec_parse(archive@.skip(offi + 258)) =~= prev + (
                seq![(idx, data@)] + spec_parse(archive@.skip(offi + 258))));
            }
            off = off + 258;
        }
        proof {
            lemma_aligned_remainder_zero(off - 4, n - 4);
            assert(off == n);
            assert(archive@.skip(off as int).len() == 0);
            assert(spec_parse(archive@.skip(off as int)) =~= Seq::<(u16, Seq<u8>)>::empty());
            assert(pairs_of(blocks@) + spec_parse(
                archive@.skip(off as int),
            ) =~= pairs_of(blocks@));
        }
        let d = Avd { blocks };
        proof {
            assert(d@ =~= pairs_of(d.blocks@));
        }
        Ok(d)
    }
}

} // verus!
