//! The memory collection: ordered records, each with an embedding row.
//!
//! A collection owns the ordered sequence of `(value, description)` records
//! together with a parallel matrix of embedding rows, one row of the
//! configured dimensionality per record.  Insertion rejects rows of the
//! wrong length with `DimensionMismatch`; retrieval ranks the records
//! against externally computed per-row similarity scores.

use vstd::prelude::*;
use vstd::math::min;

use crate::error::StoreError;
use crate::rank::{is_first_max, is_ranking, lemma_the_top, rank_indices, the_ranking, the_top};
use crate::score::{no_nan, score_key, score_lt};

verus! {

/// A stored record: the text to recall, and the description whose embedding
/// is used for retrieval.
#[derive(Debug)]
pub struct Memory {
    pub value: String,
    pub description: String,
}

/// The mathematical content of a `Memory`: its two texts.
pub ghost struct MemoryView {
    pub value: Seq<char>,
    pub description: Seq<char>,
}

impl View for Memory {
    type V = MemoryView;

    open spec fn view(&self) -> MemoryView {
        MemoryView { value: self.value@, description: self.description@ }
    }
}

/// A retrieval result: a record's texts paired with the bit pattern of its
/// similarity score.  Never persisted.
#[derive(Debug)]
pub struct ScoredMemory {
    pub value: String,
    pub description: String,
    pub score_bits: u32,
}

/// The mathematical content of a `ScoredMemory`.
pub ghost struct ScoredMemoryView {
    pub value: Seq<char>,
    pub description: Seq<char>,
    pub score_bits: u32,
}

impl View for ScoredMemory {
    type V = ScoredMemoryView;

    open spec fn view(&self) -> ScoredMemoryView {
        ScoredMemoryView {
            value: self.value@,
            description: self.description@,
            score_bits: self.score_bits,
        }
    }
}

/// The scored view of record `m` under score pattern `s`.
pub open spec fn scored_view(m: MemoryView, s: u32) -> ScoredMemoryView {
    ScoredMemoryView { value: m.value, description: m.description, score_bits: s }
}

impl Memory {
    /// Pair this record's texts with a similarity score pattern.
    pub fn into_scored(self, score_bits: u32) -> (r: ScoredMemory)
        ensures
            r@ == scored_view(self@, score_bits),
    {
        ScoredMemory { value: self.value, description: self.description, score_bits }
    }
}

/// The mathematical content of a collection: the configured dimensionality,
/// the records in insertion order, and one embedding row per record.
pub ghost struct CollectionView {
    pub dim: nat,
    pub records: Seq<MemoryView>,
    pub rows: Seq<Seq<u32>>,
}

/// Well-formedness: one embedding row per record, every row of the
/// configured dimensionality.
pub open spec fn wf_view(v: CollectionView) -> bool {
    &&& v.rows.len() == v.records.len()
    &&& forall|i: int| 0 <= i < v.rows.len() ==> (#[trigger] v.rows[i]).len() == v.dim
}

/// The full in-memory state of the store for one backing file.
#[derive(Debug)]
pub struct MemoryCollection {
    dim: usize,
    memories: Vec<Memory>,
    embeddings: Vec<Vec<u32>>,
}

impl View for MemoryCollection {
    type V = CollectionView;

    closed spec fn view(&self) -> CollectionView {
        CollectionView {
            dim: self.dim as nat,
            records: self.memories@.map_values(|m: Memory| m@),
            rows: self.embeddings@.map_values(|r: Vec<u32>| r@),
        }
    }
}

impl MemoryCollection {
    pub open spec fn wf(&self) -> bool {
        wf_view(self@)
    }

    /// An empty collection configured for dimensionality `dim`.
    pub fn new(dim: usize) -> (r: MemoryCollection)
        ensures
            r.wf(),
            r@.dim == dim,
            r@.records.len() == 0,
            r@.rows.len() == 0,
    {
        let r = MemoryCollection { dim, memories: Vec::new(), embeddings: Vec::new() };
        proof {
            assert(r@.records =~= Seq::<MemoryView>::empty());
            assert(r@.rows =~= Seq::<Seq<u32>>::empty());
        }
        r
    }

    /// The number of stored records.
    pub fn len(&self) -> (r: usize)
        ensures
            r == self@.records.len(),
    {
        self.memories.len()
    }

    /// The configured embedding dimensionality.
    pub fn dim(&self) -> (r: usize)
        ensures
            r == self@.dim,
    {
        self.dim
    }

    /// Whether the collection holds no records.
    pub fn is_empty(&self) -> (r: bool)
        ensures
            r == (self@.records.len() == 0),
    {
        self.memories.len() == 0
    }

    /// The record at position `i` in insertion order.
    pub fn memory_at(&self, i: usize) -> (r: &Memory)
        requires
            i < self@.records.len(),
        ensures
            r@ == self@.records[i as int],
    {
        &self.memories[i]
    }

    /// The embedding rows, one per record, in insertion order.
    pub fn embeddings(&self) -> (r: &Vec<Vec<u32>>)
        ensures
            r@.map_values(|row: Vec<u32>| row@) == self@.rows,
    {
        &self.embeddings
    }

    /// Append a record and its embedding row.
    ///
    /// A row whose length differs from the configured dimensionality is
    /// rejected with `DimensionMismatch` and the collection is left
    /// unchanged; otherwise the record and the row are appended at the end.
    pub fn insert(&mut self, value: String, description: String, embedding: Vec<u32>) -> (r: Result<
        (),
        StoreError,
    >)
        requires
            old(self).wf(),
        ensures
            final(self).wf(),
            embedding@.len() == old(self)@.dim ==> {
                &&& r is Ok
                &&& final(self)@.dim == old(self)@.dim
                &&& final(self)@.records == old(self)@.records.push(
                    MemoryView { value: value@, description: description@ },
                )
                &&& final(self)@.rows == old(self)@.rows.push(embedding@)
            },
            embedding@.len() != old(self)@.dim ==> {
                &&& r == Err::<(), StoreError>(
                    StoreError::DimensionMismatch {
                        expected: (old(self)@.dim) as usize,
                        actual: embedding@.len() as usize,
                    },
                )
                &&& *final(self) == *old(self)
            },
    {
        if embedding.len() != self.dim {
            return Err(StoreError::DimensionMismatch {
                expected: self.dim,
                actual: embedding.len(),
            });
        }
        let ghost pre = self@;
        let m = Memory { value, description };
        let ghost mv = m@;
        self.memories.push(m);
        self.embeddings.push(embedding);
        proof {
            assert(self@.records =~= pre.records.push(mv));
            assert(self@.rows =~= pre.rows.push(embedding@));
        }
        Ok(())
    }

    /// Check a query embedding against the configured dimensionality.
    ///
    /// The adapter contract demands that a query vector of the wrong length
    /// is rejected with `DimensionMismatch` before any ranking happens.
    pub fn validate_query(&self, embedding: &Vec<u32>) -> (r: Result<(), StoreError>)
        ensures
            r is Ok <==> embedding@.len() == self@.dim,
            r is Err ==> r == Err::<(), StoreError>(
                StoreError::DimensionMismatch {
                    expected: (self@.dim) as usize,
                    actual: embedding@.len() as usize,
                },
            ),
    {
        if embedding.len() != self.dim {
            Err(StoreError::DimensionMismatch { expected: self.dim, actual: embedding.len() })
        } else {
            Ok(())
        }
    }

    /// Retrieve the single highest-scoring record, given one similarity
    /// score per record.
    ///
    /// An empty collection yields `None`, never an error.  Otherwise the
    /// result is the record of the first maximum in storage order, paired
    /// with its score pattern.
    pub fn get_scored(&self, scores: &Vec<u32>) -> (r: Option<ScoredMemory>)
        requires
            self.wf(),
            scores@.len() == self@.records.len(),
            no_nan(scores@),
        ensures
            r is Some <==> self@.records.len() > 0,
            r is Some ==> {
                &&& is_first_max(scores@, the_top(scores@))
                &&& r.unwrap()@ == scored_view(
                    self@.records[the_top(scores@)],
                    scores@[the_top(scores@)],
                )
            },
    {
        let n = self.memories.len();
        if n == 0 {
            None
        } else {
            let mut best: usize = 0;
            let mut i: usize = 1;
            while i < n
                invariant
                    n == scores@.len(),
                    best < i <= n,
                    forall|j: int|
                        0 <= j < i ==> score_key(#[trigger] scores@[j]) <= score_key(
                            scores@[best as int],
                        ),
                    forall|j: int|
                        0 <= j < best ==> score_key(#[trigger] scores@[j]) < score_key(
                            scores@[best as int],
                        ),
                decreases n - i,
            {
                if score_lt(scores[best], scores[i]) {
                    best = i;
                }
                i += 1;
            }
            proof {
                assert(is_first_max(scores@, best as int));
                lemma_the_top(scores@, best as int);
            }
            let m = &self.memories[best];
            Some(
                ScoredMemory {
                    value: m.value.clone(),
                    description: m.description.clone(),
                    score_bits: scores[best],
                },
            )
        }
    }

    /// List at most `count` records, highest score first, ties in storage
    /// order, each paired with its score pattern.
    ///
    /// An empty collection, or `count == 0`, yields an empty sequence,
    /// never an error; a `count` beyond the collection size yields the
    /// whole collection.
    pub fn list_scored(&self, scores: &Vec<u32>, count: usize) -> (r: Vec<ScoredMemory>)
        requires
            self.wf(),
            scores@.len() == self@.records.len(),
            no_nan(scores@),
        ensures
            is_ranking(scores@, the_ranking(scores@)),
            r@.map_values(|sm: ScoredMemory| sm@) == ranked_results(self@, scores@).take(
                min(count as int, self@.records.len() as int),
            ),
    {
        let order = rank_indices(scores);
        let n = self.memories.len();
        let m = if count < n {
            count
        } else {
            n
        };
        let mut out: Vec<ScoredMemory> = Vec::new();
        let mut t: usize = 0;
        while t < m
            invariant
                t <= m,
                m == min(count as int, n as int),
                n == scores@.len(),
                n == self@.records.len(),
                order@ == the_ranking(scores@),
                is_ranking(scores@, order@),
                out@.map_values(|sm: ScoredMemory| sm@) == ranked_results(self@, scores@).take(
                    t as int,
                ),
            decreases m - t,
        {
            let idx = order[t];
            let mem = &self.memories[idx];
            let sb = scores[idx];
            let ghost out_pre = out@;
            let sm = ScoredMemory {
                value: mem.value.clone(),
                description: mem.description.clone(),
                score_bits: sb,
            };
            proof {
                assert(mem@ == self@.records[idx as int]);
                assert(sm@ == scored_view(self@.records[idx as int], scores@[idx as int]));
            }
            out.push(sm);
            proof {
                let rr = ranked_results(self@, scores@);
                assert(out@ == out_pre.push(sm));
                assert(out_pre.map_values(|sm: ScoredMemory| sm@).len() == out_pre.len());
                assert(out_pre.len() == t);
                assert forall|k: int| 0 <= k < t + 1 implies out@.map_values(
                    |sm: ScoredMemory| sm@,
                )[k] == #[trigger] rr.take(t + 1)[k] by {
                    if k < t {
                        assert(out@[k] == out_pre[k]);
                        assert(out_pre.map_values(|sm: ScoredMemory| sm@)[k] == rr.take(
                            t as int,
                        )[k]);
                    } else {
                        assert(out@[k] == sm);
                        assert(rr[t as int] == scored_view(
                            self@.records[order@[t as int] as int],
                            scores@[order@[t as int] as int],
                        ));
                    }
                }
                assert(out@.map_values(|sm: ScoredMemory| sm@) =~= rr.take(t + 1));
            }
            t += 1;
        }
        out
    }
}

/// The sequence of all scored results of a collection under `scores`, in
/// rank order: descending score, ties in storage order.
pub open spec fn ranked_results(v: CollectionView, scores: Seq<u32>) -> Seq<ScoredMemoryView> {
    Seq::new(
        the_ranking(scores).len() as nat,
        |t: int|
            scored_view(
                v.records[the_ranking(scores)[t] as int],
                scores[the_ranking(scores)[t] as int],
            ),
    )
}

/// Truncation law: with the same collection and the same scores, listing at
/// most `c1` results yields a prefix of listing at most `c2` results, for
/// `c1 <= c2`, both capped at the collection size.
pub proof fn lemma_truncation_law(v: CollectionView, scores: Seq<u32>, c1: int, c2: int)
    requires
        0 <= c1 <= c2,
        is_ranking(scores, the_ranking(scores)),
    ensures
        ranked_results(v, scores).take(min(c1, scores.len() as int)).is_prefix_of(
            ranked_results(v, scores).take(min(c2, scores.len() as int)),
        ),
{
    let full = ranked_results(v, scores);
    let m1 = min(c1, scores.len() as int);
    let m2 = min(c2, scores.len() as int);
    assert(full.len() == scores.len());
    assert(full.take(m1) =~= full.take(m2).subrange(0, m1));
}

} // verus!
