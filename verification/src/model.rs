//! Mathematical model of the sparse block store.
//!
//! A drive is modelled as a sequence of `(index, payload)` entries, in
//! insertion order. Lookup takes the first entry with a matching index;
//! the store's own invariant (`unique_indices`) guarantees that at most
//! one entry matches for any drive built through `set_block`.

use vstd::prelude::*;

verus! {

/// Number of bytes in one block payload.
pub const BLOCK_SIZE: usize = 256;

/// Position of the first entry of `s` whose index is `idx`, or `s.len()`
/// if no entry matches.
pub open spec fn first_at(s: Seq<(u16, Seq<u8>)>, idx: u16) -> int
    decreases s.len(),
{
    if s.len() == 0 {
        0
    } else if s[0].0 == idx {
        0
    } else {
        1 + first_at(s.drop_first(), idx)
    }
}

/// The payload stored under `idx`: the payload of the first matching
/// entry, or `None` if no entry matches (an implicitly all-zero block).
pub open spec fn spec_find(s: Seq<(u16, Seq<u8>)>, idx: u16) -> Option<Seq<u8>> {
    if first_at(s, idx) < s.len() {
        Some(s[first_at(s, idx)].1)
    } else {
        None
    }
}

/// The store after writing `data` under `idx`: the first matching entry
/// is overwritten in place, or a new entry is appended at the end.
pub open spec fn spec_set(s: Seq<(u16, Seq<u8>)>, idx: u16, data: Seq<u8>) -> Seq<(u16, Seq<u8>)> {
    if first_at(s, idx) < s.len() {
        s.update(first_at(s, idx), (idx, data))
    } else {
        s.push((idx, data))
    }
}

/// No two entries share an index.
pub open spec fn unique_indices(s: Seq<(u16, Seq<u8>)>) -> bool {
    forall|i: int, j: int| 0 <= i < j < s.len() ==> s[i].0 != s[j].0
}

/// Every payload is exactly `BLOCK_SIZE` bytes.
pub open spec fn payloads_sized(s: Seq<(u16, Seq<u8>)>) -> bool {
    forall|i: int| 0 <= i < s.len() ==> (#[trigger] s[i]).1.len() == BLOCK_SIZE
}

/// Entries are ordered by ascending index.
pub open spec fn sorted_by_idx(s: Seq<(u16, Seq<u8>)>) -> bool {
    forall|i: int, j: int| 0 <= i <= j < s.len() ==> s[i].0 <= s[j].0
}

/// `first_at` is a position within `0 ..= s.len()`; when it is a real
/// position it holds a matching entry, and nothing before it matches.
pub proof fn lemma_first_at(s: Seq<(u16, Seq<u8>)>, idx: u16)
    ensures
        0 <= first_at(s, idx) <= s.len(),
        first_at(s, idx) < s.len() ==> s[first_at(s, idx)].0 == idx,
        forall|k: int| 0 <= k < first_at(s, idx) ==> s[k].0 != idx,
    decreases s.len(),
{
    if s.len() != 0 && s[0].0 != idx {
        lemma_first_at(s.drop_first(), idx);
        assert forall|k: int| 0 <= k < first_at(s, idx) implies s[k].0 != idx by {
            if k > 0 {
                assert(s.drop_first()[k - 1] == s[k]);
            }
        }
    }
}

/// A position with a matching entry and no match before it is exactly
/// `first_at`; with `i == s.len()` this says that no entry matches at all.
pub proof fn lemma_first_at_position(s: Seq<(u16, Seq<u8>)>, idx: u16, i: int)
    requires
        0 <= i <= s.len(),
        forall|k: int| 0 <= k < i ==> s[k].0 != idx,
        i < s.len() ==> s[i].0 == idx,
    ensures
        first_at(s, idx) == i,
    decreases s.len(),
{
    if s.len() == 0 {
    } else if s[0].0 == idx {
        assert(i == 0);
    } else {
        assert(s[0].0 != idx);
        assert(i > 0);
        let t = s.drop_first();
        assert forall|k: int| 0 <= k < i - 1 implies t[k].0 != idx by {
            assert(t[k] == s[k + 1]);
        }
        assert(i - 1 < t.len() ==> t[i - 1].0 == idx) by {
            if i - 1 < t.len() {
                assert(t[i - 1] == s[i]);
            }
        }
        lemma_first_at_position(t, idx, i - 1);
    }
}

/// `first_at` depends only on the indices of the entries, not on their
/// payloads.
pub proof fn lemma_first_at_same_indices(s1: Seq<(u16, Seq<u8>)>, s2: Seq<(u16, Seq<u8>)>, idx: u16)
    requires
        s1.len() == s2.len(),
        forall|k: int| 0 <= k < s1.len() ==> s1[k].0 == s2[k].0,
    ensures
        first_at(s1, idx) == first_at(s2, idx),
    decreases s1.len(),
{
    if s1.len() != 0 {
        assert(s1[0].0 == s2[0].0);
        if s1[0].0 != idx {
            let t1 = s1.drop_first();
            let t2 = s2.drop_first();
            assert forall|k: int| 0 <= k < t1.len() implies t1[k].0 == t2[k].0 by {
                assert(t1[k] == s1[k + 1]);
                assert(t2[k] == s2[k + 1]);
            }
            lemma_first_at_same_indices(t1, t2, idx);
        }
    }
}

/// What one write does to the store: the written index now holds the new
/// payload, every other index is untouched, the entry count grows exactly
/// when the index was absent, and the store's invariants are preserved.
pub proof fn lemma_set_find(s: Seq<(u16, Seq<u8>)>, idx: u16, data: Seq<u8>)
    ensures
        spec_find(spec_set(s, idx, data), idx) == Some(data),
        forall|j: u16| j != idx ==> spec_find(spec_set(s, idx, data), j) == spec_find(s, j),
        spec_set(s, idx, data).len() == s.len() + (
        if spec_find(s, idx) is Some {
            0int
        } else {
            1int
        }),
        unique_indices(s) ==> unique_indices(spec_set(s, idx, data)),
        payloads_sized(s) && data.len() == BLOCK_SIZE ==> payloads_sized(spec_set(s, idx, data)),
{
    lemma_first_at(s, idx);
    let p = first_at(s, idx);
    let s2 = spec_set(s, idx, data);
    if p < s.len() {
        assert(s2 == s.update(p, (idx, data)));
        assert forall|k: int| 0 <= k < s.len() implies s[k].0 == s2[k].0 by {}
        assert forall|j: u16| #[trigger] first_at(s2, j) == first_at(s, j) by {
            lemma_first_at_same_indices(s, s2, j);
        }
        assert(spec_find(s2, idx) == Some(data));
        assert forall|j: u16| j != idx implies spec_find(s2, j) == spec_find(s, j) by {
            lemma_first_at(s, j);
            let q = first_at(s, j);
            if q < s.len() {
                assert(s[q].0 == j);
                assert(q != p);
                assert(s2[q] == s[q]);
            }
        }
        assert(unique_indices(s) ==> unique_indices(s2)) by {
            if unique_indices(s) {
                assert forall|i: int, j: int| 0 <= i < j < s2.len() implies s2[i].0 != s2[j].0 by {
                    assert(s2[i].0 == s[i].0);
                    assert(s2[j].0 == s[j].0);
                }
            }
        }
        assert(payloads_sized(s) && data.len() == BLOCK_SIZE ==> payloads_sized(s2)) by {
            if payloads_sized(s) && data.len() == BLOCK_SIZE {
                assert forall|i: int| 0 <= i < s2.len() implies (#[trigger] s2[i]).1.len()
                    == BLOCK_SIZE by {
                    if i != p {
                        assert(s2[i] == s[i]);
                    }
                }
            }
        }
    } else {
        assert(s2 == s.push((idx, data)));
        assert(spec_find(s, idx) is None);
        assert forall|k: int| 0 <= k < s.len() implies s[k].0 != idx by {}
        lemma_first_at_position(s2, idx, s.len() as int);
        assert(spec_find(s2, idx) == Some(data));
        assert forall|j: u16| j != idx implies spec_find(s2, j) == spec_find(s, j) by {
            lemma_first_at(s, j);
            let q = first_at(s, j);
            if q < s.len() {
                assert(s2[q] == s[q]);
                lemma_first_at_position(s2, j, q);
            } else {
                assert forall|k: int| 0 <= k < s2.len() implies s2[k].0 != j by {
                    if k < s.len() {
                        assert(s2[k] == s[k]);
                    }
                }
                lemma_first_at_position(s2, j, s2.len() as int);
            }
        }
        assert(unique_indices(s) ==> unique_indices(s2)) by {
            if unique_indices(s) {
                assert forall|i: int, j: int| 0 <= i < j < s2.len() implies s2[i].0 != s2[j].0 by {
                    if j < s.len() {
                        assert(s2[i] == s[i]);
                        assert(s2[j] == s[j]);
                    } else {
                        assert(s2[i] == s[i]);
                        assert(s2[j].0 == idx);
                    }
                }
            }
        }
        assert(payloads_sized(s) && data.len() == BLOCK_SIZE ==> payloads_sized(s2)) by {
            if payloads_sized(s) && data.len() == BLOCK_SIZE {
                assert forall|i: int| 0 <= i < s2.len() implies (#[trigger] s2[i]).1.len()
                    == BLOCK_SIZE by {
                    if i < s.len() {
                        assert(s2[i] == s[i]);
                    }
                }
            }
        }
    }
}

/// Overwrite idempotence: writing the same payload twice at one index is
/// the same store as writing it once; in particular the entry count does
/// not grow on the second write.
pub proof fn lemma_set_idempotent(s: Seq<(u16, Seq<u8>)>, idx: u16, data: Seq<u8>)
    ensures
        spec_set(spec_set(s, idx, data), idx, data) == spec_set(s, idx, data),
        spec_find(spec_set(s, idx, data), idx) == Some(data),
        spec_set(spec_set(s, idx, data), idx, data).len() == spec_set(s, idx, data).len(),
{
    lemma_set_find(s, idx, data);
    let s1 = spec_set(s, idx, data);
    lemma_first_at(s1, idx);
    let p1 = first_at(s1, idx);
    assert(p1 < s1.len());
    assert(s1[p1].1 == data);
    assert(s1[p1] == (idx, data));
    assert(spec_set(s1, idx, data) == s1.update(p1, (idx, data)));
    assert(s1.update(p1, (idx, data)) =~= s1);
}

/// Under the store's invariant, a lookup succeeds on exactly the entries
/// the store holds: the sequence behaves as an unordered mapping from
/// index to payload, whatever order its entries stand in.
pub proof fn lemma_find_is_membership(s: Seq<(u16, Seq<u8>)>, idx: u16, d: Seq<u8>)
    requires
        unique_indices(s),
    ensures
        spec_find(s, idx) == Some(d) <==> s.contains((idx, d)),
{
    lemma_first_at(s, idx);
    let p = first_at(s, idx);
    if spec_find(s, idx) == Some(d) {
        assert(s[p] == (idx, d));
        assert(s.contains((idx, d)));
    }
    if s.contains((idx, d)) {
        let w = choose|w: int| 0 <= w < s.len() && s[w] == (idx, d);
        assert(s[w].0 == idx);
        assert(p <= w);
        assert(p < s.len());
        assert(s[p].0 == s[w].0);
        assert(p == w);
    }
}

/// The store with the entries at `j - 1` and `j` exchanged.
pub open spec fn swap_adjacent(s: Seq<(u16, Seq<u8>)>, j: int) -> Seq<(u16, Seq<u8>)> {
    s.update(j - 1, s[j]).update(j, s[j - 1])
}

/// Exchanging two adjacent entries with different indices changes no
/// lookup result, keeps the indices unique, and keeps the same entries.
pub proof fn lemma_swap_adjacent(s: Seq<(u16, Seq<u8>)>, j: int)
    requires
        1 <= j < s.len(),
        s[j - 1].0 != s[j].0,
    ensures
        swap_adjacent(s, j).len() == s.len(),
        forall|q: u16| #[trigger] spec_find(swap_adjacent(s, j), q) == spec_find(s, q),
        unique_indices(s) ==> unique_indices(swap_adjacent(s, j)),
        payloads_sized(s) ==> payloads_sized(swap_adjacent(s, j)),
        swap_adjacent(s, j).to_multiset() == s.to_multiset(),
{
    let t = swap_adjacent(s, j);
    assert(t[j - 1] == s[j]);
    assert(t[j] == s[j - 1]);
    assert forall|q: u16| #[trigger] spec_find(t, q) == spec_find(s, q) by {
        lemma_first_at(s, q);
        let p = first_at(s, q);
        if p == s.len() {
            assert forall|k: int| 0 <= k < t.len() implies t[k].0 != q by {
                if k != j - 1 && k != j {
                    assert(t[k] == s[k]);
                }
            }
            lemma_first_at_position(t, q, s.len() as int);
        } else if p == j - 1 {
            assert(s[j - 1].0 == q);
            assert forall|k: int| 0 <= k < j implies t[k].0 != q by {
                if k < j - 1 {
                    assert(t[k] == s[k]);
                }
            }
            lemma_first_at_position(t, q, j);
        } else if p == j {
            assert(s[j].0 == q);
            assert forall|k: int| 0 <= k < j - 1 implies t[k].0 != q by {
                assert(t[k] == s[k]);
            }
            lemma_first_at_position(t, q, j - 1);
        } else {
            assert(t[p] == s[p]);
            assert forall|k: int| 0 <= k < p implies t[k].0 != q by {
                if k != j - 1 && k != j {
                    assert(t[k] == s[k]);
                }
            }
            lemma_first_at_position(t, q, p);
        }
    }
    assert(unique_indices(s) ==> unique_indices(t)) by {
        if unique_indices(s) {
            assert forall|a: int, b: int| 0 <= a < b < t.len() implies t[a].0 != t[b].0 by {
                let a0: int = if a == j - 1 {
                    j
                } else if a == j {
                    j - 1
                } else {
                    a
                };
                let b0: int = if b == j - 1 {
                    j
                } else if b == j {
                    j - 1
                } else {
                    b
                };
                assert(t[a] == s[a0]);
                assert(t[b] == s[b0]);
                assert(a0 != b0);
            }
        }
    }
    assert(payloads_sized(s) ==> payloads_sized(t)) by {
        if payloads_sized(s) {
            assert forall|i: int| 0 <= i < t.len() implies (#[trigger] t[i]).1.len()
                == BLOCK_SIZE by {
                if i != j - 1 && i != j {
                    assert(t[i] == s[i]);
                }
            }
        }
    }
    assert(t.to_multiset() == s.to_multiset()) by {
        broadcast use vstd::seq_lib::group_to_multiset_ensures;
        broadcast use vstd::multiset::group_multiset_axioms;

        let s1 = s.update(j - 1, s[j]);
        assert(s1.to_multiset() == s.to_multiset().insert(s[j]).remove(s[j - 1]));
        assert(s1[j] == s[j]);
        assert(t.to_multiset() == s1.to_multiset().insert(s[j - 1]).remove(s[j]));
        assert(s.contains(s[j - 1]));
        assert(s.to_multiset().count(s[j - 1]) > 0);
        assert(s[j - 1] != s[j]);
        assert forall|e: (u16, Seq<u8>)| t.to_multiset().count(e)
            == s.to_multiset().count(e) by {}
        assert(t.to_multiset() =~= s.to_multiset());
    }
}

/// Last write wins: after two writes to one index, a lookup of that index
/// returns the payload of the second write.
pub proof fn lemma_last_write_wins(s: Seq<(u16, Seq<u8>)>, idx: u16, a: Seq<u8>, b: Seq<u8>)
    ensures
        spec_find(spec_set(spec_set(s, idx, a), idx, b), idx) == Some(b),
{
    lemma_set_find(spec_set(s, idx, a), idx, b);
}

} // verus!
