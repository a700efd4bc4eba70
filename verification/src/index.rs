//! The in-memory index of embedded entries.
//!
//! Entries hang flat under an implicit root (id 0, no embedding, no label),
//! which is never a match itself. An embedding is kept as the bits of its
//! components; the index compares lengths and scores, never components.

use vstd::prelude::*;
use crate::ranking::{
    in_range,
    keys,
    lemma_ranking_lists_matches_best_first,
    outranks,
    positions,
    rank,
    ranking,
    retained,
};
use crate::cosine::{lemma_settled_score_is_a_cosine, settle, settled_score};
use crate::similarity::{Similarity, ONE_KEY};
use crate::snapshot::{is_snapshot_of, loaded, node_view, snapshot_entries, SnapshotNode};

verus! {

/// Why the index refused an operation.
#[derive(Clone, Copy, Debug, PartialEq, Eq, Structural)]
pub enum IndexError {
    /// The vector's length differs from that of the stored embeddings.
    DimensionMismatch,
    /// The last id that fits has been handed out.
    IdsExhausted,
    /// There is not exactly one score for each entry.
    ScoreCountMismatch,
    /// The snapshot is not the image of any index.
    MalformedSnapshot,
}

/// What an entry holds, as mathematical values.
pub struct EntryView {
    pub id: u64,
    pub embedding: Seq<u64>,
    pub label: Seq<char>,
    pub tally: u32,
}

/// One indexed entry.
#[derive(Debug, PartialEq, Eq)]
pub struct IndexEntry {
    id: u64,
    embedding: Vec<u64>,
    label: String,
    tally: u32,
}

impl View for IndexEntry {
    type V = EntryView;

    closed spec fn view(&self) -> EntryView {
        EntryView {
            id: self.id,
            embedding: self.embedding@,
            label: self.label@,
            tally: self.tally,
        }
    }
}

impl IndexEntry {
    /// The entry's id.
    pub fn id(&self) -> (id: u64)
        ensures
            id == self@.id,
    {
        self.id
    }

    /// The bits of the embedding's components.
    pub fn embedding(&self) -> (embedding: &Vec<u64>)
        ensures
            embedding@ == self@.embedding,
    {
        &self.embedding
    }

    /// The entry's label.
    pub fn label(&self) -> (label: &str)
        ensures
            label@ == self@.label,
    {
        self.label.as_str()
    }

    /// How often the entry has matched a search.
    pub fn tally(&self) -> (tally: u32)
        ensures
            tally == self@.tally,
    {
        self.tally
    }
}

/// The entries of an index are well formed when ids start above the root's,
/// grow strictly with the position, and all embeddings have one length.
pub open spec fn well_formed(entries: Seq<EntryView>) -> bool {
    &&& forall|i: int| 0 <= i < entries.len() ==> (#[trigger] entries[i]).id >= 1
    &&& forall|i: int, j: int|
        0 <= i < j < entries.len() ==> (#[trigger] entries[i]).id < (#[trigger] entries[j]).id
    &&& forall|i: int, j: int|
        0 <= i < entries.len() && 0 <= j < entries.len() ==> (#[trigger] entries[i]).embedding.len()
            == (#[trigger] entries[j]).embedding.len()
}

/// Whether a vector of `len` components fits the stored embeddings. An empty
/// index holds no embedding to differ from, so it accepts every length.
pub open spec fn accepts_dimension(entries: Seq<EntryView>, len: nat) -> bool {
    entries.len() > 0 ==> entries[0].embedding.len() == len
}

/// The id that the next added entry gets.
pub open spec fn next_id(entries: Seq<EntryView>) -> int {
    if entries.len() == 0 {
        1
    } else {
        entries.last().id + 1
    }
}

/// The scores that a search goes by, entry by entry.
pub open spec fn settled(entries: Seq<EntryView>, query: Seq<u64>, scores: Seq<int>) -> Seq<int> {
    Seq::new(scores.len(), |i: int| settled_score(entries[i].embedding, query, scores[i]))
}

/// One search result as it is handed out: score, label, tally.
pub type Hit = (Similarity, String, u32);

/// A search result as mathematical values: the score's key, the label, the tally.
pub type HitView = (int, Seq<char>, u32);

/// The mathematical values of a sequence of results.
pub open spec fn hits_view(hits: Seq<Hit>) -> Seq<HitView> {
    hits.map_values(|h: Hit| (h.0@, h.1@, h.2))
}

/// A tally after one more match; it stops at the largest value.
pub open spec fn bump(tally: u32) -> u32 {
    if tally < u32::MAX {
        (tally + 1) as u32
    } else {
        tally
    }
}

/// The entries after a search: each entry that passes the threshold has its
/// tally raised by one, whether or not the result has room for it.
pub open spec fn reinforced(entries: Seq<EntryView>, scores: Seq<int>, min_sim: int) -> Seq<
    EntryView,
> {
    Seq::new(
        entries.len(),
        |i: int|
            if retained(scores, min_sim, i) {
                EntryView { tally: bump(entries[i].tally), ..entries[i] }
            } else {
                entries[i]
            },
    )
}

/// The entries while a search is counting, with the first `n` looked at.
spec fn reinforced_first(
    entries: Seq<EntryView>,
    scores: Seq<int>,
    min_sim: int,
    n: int,
) -> Seq<EntryView> {
    Seq::new(
        entries.len(),
        |i: int|
            if i < n && retained(scores, min_sim, i) {
                EntryView { tally: bump(entries[i].tally), ..entries[i] }
            } else {
                entries[i]
            },
    )
}

/// The number of results: all matches, or as many as `max_results` allows.
pub open spec fn shown(matches: nat, max_results: nat) -> nat {
    if matches <= max_results {
        matches
    } else {
        max_results
    }
}

/// What a search returns: for the best `max_results` matches, in ranking
/// order, the score, the label and the tally after this search.
pub open spec fn search_hits(
    entries: Seq<EntryView>,
    scores: Seq<int>,
    min_sim: int,
    max_results: nat,
) -> Seq<HitView> {
    let after = reinforced(entries, scores, min_sim);
    let order = ranking(scores, min_sim);
    order.take(shown(order.len(), max_results) as int).map_values(
        |i: int| (scores[i], after[i].label, after[i].tally),
    )
}

/// The mathematical values of a sequence of entries.
pub open spec fn views(entries: Seq<IndexEntry>) -> Seq<EntryView> {
    entries.map_values(|e: IndexEntry| e@)
}

/// Counting matches changes tallies only, so it keeps the entries well formed.
pub proof fn lemma_reinforced_well_formed(entries: Seq<EntryView>, scores: Seq<int>, min_sim: int)
    requires
        well_formed(entries),
    ensures
        well_formed(reinforced(entries, scores, min_sim)),
        reinforced(entries, scores, min_sim).len() == entries.len(),
        forall|i: int|
            0 <= i < entries.len() ==> {
                let after = #[trigger] reinforced(entries, scores, min_sim)[i];
                &&& after.id == entries[i].id
                &&& after.embedding == entries[i].embedding
                &&& after.label == entries[i].label
                &&& after.tally >= entries[i].tally
            },
{
    let after = reinforced(entries, scores, min_sim);
    assert forall|i: int| 0 <= i < after.len() implies (#[trigger] after[i]).id >= 1 by {
        assert(entries[i].id >= 1);
    }
    assert forall|i: int, j: int| 0 <= i < j < after.len() implies (#[trigger] after[i]).id < (
    #[trigger] after[j]).id by {
        assert(entries[i].id < entries[j].id);
    }
    assert forall|i: int, j: int| 0 <= i < after.len() && 0 <= j < after.len() implies (
    #[trigger] after[i]).embedding.len() == (#[trigger] after[j]).embedding.len() by {
        assert(entries[i].embedding.len() == entries[j].embedding.len());
    }
}

/// What a search hands out obeys its limits and its order: at most
/// `max_results` results, none with a score under `min_sim`, scores falling
/// along the list, and of two results with one score the entry with the
/// smaller id first.
pub proof fn lemma_search_results_are_ranked(
    entries: Seq<EntryView>,
    scores: Seq<int>,
    min_sim: int,
    max_results: nat,
)
    requires
        well_formed(entries),
        scores.len() == entries.len(),
    ensures
        ({
            let hits = search_hits(entries, scores, min_sim, max_results);
            let order = ranking(scores, min_sim);
            &&& hits.len() <= max_results
            &&& hits.len() <= order.len() <= entries.len()
            &&& forall|k: int| 0 <= k < hits.len() ==> (#[trigger] hits[k]).0 >= min_sim
            &&& forall|k: int, l: int|
                0 <= k < l < hits.len() ==> (#[trigger] hits[k]).0 >= (#[trigger] hits[l]).0
            &&& forall|k: int, l: int|
                0 <= k < l < hits.len() && hits[k].0 == hits[l].0 ==> entries[#[trigger] order[k]].id
                    < entries[#[trigger] order[l]].id
            &&& forall|k: int|
                0 <= k < hits.len() ==> {
                    let at = #[trigger] order[k];
                    &&& 0 <= at < entries.len()
                    &&& hits[k].0 == scores[at]
                    &&& hits[k].1 == entries[at].label
                    &&& hits[k].2 == bump(entries[at].tally)
                }
        }),
{
    let hits = search_hits(entries, scores, min_sim, max_results);
    let order = ranking(scores, min_sim);
    lemma_ranking_lists_matches_best_first(scores, min_sim);
    assert forall|k: int| 0 <= k < hits.len() implies {
        let at = #[trigger] order[k];
        &&& 0 <= at < entries.len()
        &&& hits[k].0 == scores[at]
        &&& hits[k].0 >= min_sim
        &&& hits[k].1 == entries[at].label
        &&& hits[k].2 == bump(entries[at].tally)
    } by {
        assert(retained(scores, min_sim, order[k]));
    }
    assert forall|k: int, l: int| 0 <= k < l < hits.len() implies (#[trigger] hits[k]).0 >= (
    #[trigger] hits[l]).0 by {
        assert(outranks(scores, order[k], order[l]));
    }
    assert forall|k: int, l: int|
        0 <= k < l < hits.len() && hits[k].0 == hits[l].0 implies entries[#[trigger] order[k]].id
            < entries[#[trigger] order[l]].id by {
        assert(outranks(scores, order[k], order[l]));
        assert(retained(scores, min_sim, order[k]));
        assert(retained(scores, min_sim, order[l]));
    }
}

/// A copy of a vector of bit patterns.
fn copy_of(source: &Vec<u64>) -> (copy: Vec<u64>)
    ensures
        copy@ == source@,
{
    let mut copy: Vec<u64> = Vec::new();
    let mut i: usize = 0;
    while i < source.len()
        invariant
            i <= source@.len(),
            copy@ == source@.take(i as int),
        decreases source@.len() - i,
    {
        copy.push(source[i]);
        assert(copy@ =~= source@.take(i + 1));
        i += 1;
    }
    assert(source@.take(source@.len() as int) =~= source@);
    copy
}

/// The index: its entries in the order in which they were added.
#[derive(Debug, PartialEq, Eq)]
pub struct VectorIndex {
    entries: Vec<IndexEntry>,
}

impl View for VectorIndex {
    type V = Seq<EntryView>;

    closed spec fn view(&self) -> Seq<EntryView> {
        views(self.entries@)
    }
}

impl VectorIndex {
    /// What holds of every index: its entries are well formed.
    #[verifier::type_invariant]
    pub open spec fn inv(self) -> bool {
        well_formed(self@)
    }

    /// An index with no entries.
    pub fn new() -> (index: VectorIndex)
        ensures
            index@ == Seq::<EntryView>::empty(),
    {
        let index = VectorIndex { entries: Vec::new() };
        assert(index@ =~= Seq::<EntryView>::empty());
        index
    }

    /// The number of entries.
    pub fn len(&self) -> (n: usize)
        ensures
            n == self@.len(),
    {
        self.entries.len()
    }

    /// The entries, in the order in which they were added.
    pub fn entries(&self) -> (entries: &Vec<IndexEntry>)
        ensures
            views(entries@) == self@,
            well_formed(self@),
    {
        proof {
            use_type_invariant(self);
        }
        &self.entries
    }

    /// The length that every stored embedding has; none while nothing is stored.
    pub fn dimension(&self) -> (dimension: Option<usize>)
        ensures
            match dimension {
                Some(len) => self@.len() > 0 && self@[0].embedding.len() == len,
                None => self@.len() == 0,
            },
    {
        if self.entries.len() > 0 {
            assert(self@[0] == self.entries@[0]@);
            Some(self.entries[0].embedding.len())
        } else {
            None
        }
    }

    /// Adds an entry with a fresh id and tally 0, after all others. The id is
    /// greater than every id in the index; no other entry changes.
    ///
    /// Fails, leaving the index as it was, when the embedding's length differs
    /// from that of the stored ones, or else when no id is left.
    pub fn add(&mut self, embedding: Vec<u64>, label: String) -> (result: Result<u64, IndexError>)
        ensures
            well_formed(old(self)@),
            well_formed(final(self)@),
            match result {
                Ok(id) => {
                    &&& accepts_dimension(old(self)@, embedding@.len())
                    &&& id == next_id(old(self)@)
                    &&& final(self)@ == old(self)@.push(
                        EntryView { id, embedding: embedding@, label: label@, tally: 0 },
                    )
                },
                Err(e) => {
                    &&& final(self)@ == old(self)@
                    &&& e == if !accepts_dimension(old(self)@, embedding@.len()) {
                        IndexError::DimensionMismatch
                    } else {
                        IndexError::IdsExhausted
                    }
                    &&& !accepts_dimension(old(self)@, embedding@.len()) || next_id(old(self)@)
                        > u64::MAX
                },
            },
            forall|i: int|
                0 <= i < old(self)@.len() ==> (#[trigger] final(self)@[i]).tally == old(self)@[i].tally,
            result matches Ok(id) ==> forall|i: int|
                0 <= i < old(self)@.len() ==> (#[trigger] old(self)@[i]).id < id,
    {
        proof {
            use_type_invariant(&*self);
        }
        let n: usize = self.entries.len();
        let mut id: u64 = 1;
        if n > 0 {
            assert(self@[0] == self.entries@[0]@);
            assert(self@[n - 1] == self.entries@[n - 1]@);
            if self.entries[0].embedding.len() != embedding.len() {
                return Err(IndexError::DimensionMismatch);
            }
            let last: u64 = self.entries[n - 1].id;
            if last == u64::MAX {
                return Err(IndexError::IdsExhausted);
            }
            id = last + 1;
        }
        let ghost before = self@;
        let ghost entry = EntryView { id, embedding: embedding@, label: label@, tally: 0 };
        let mut entries: Vec<IndexEntry> = Vec::new();
        core::mem::swap(&mut self.entries, &mut entries);
        entries.push(IndexEntry { id, embedding, label, tally: 0 });
        assert(views(entries@) =~= before.push(entry));
        core::mem::swap(&mut self.entries, &mut entries);
        Ok(id)
    }

    /// The scores that a search goes by.
    fn settle(&self, query: &Vec<u64>, scores: &Vec<Similarity>) -> (settled_scores: Vec<Similarity>)
        requires
            scores@.len() == self@.len(),
        ensures
            settled_scores@.len() == scores@.len(),
            keys(settled_scores@) == settled(self@, query@, keys(scores@)),
    {
        let ghost wanted = settled(self@, query@, keys(scores@));
        let n: usize = self.entries.len();
        let mut settled_scores: Vec<Similarity> = Vec::new();
        let mut i: usize = 0;
        assert(keys(settled_scores@) =~= wanted.take(0));
        while i < n
            invariant
                i <= n,
                n == self.entries@.len(),
                n == scores@.len(),
                wanted == settled(self@, query@, keys(scores@)),
                settled_scores@.len() == i,
                keys(settled_scores@) == wanted.take(i as int),
            decreases n - i,
        {
            assert(self@[i as int] == self.entries@[i as int]@);
            assert(keys(scores@)[i as int] == scores@[i as int]@);
            let score: Similarity = settle(&self.entries[i].embedding, query, scores[i]);
            let ghost sofar = keys(settled_scores@);
            settled_scores.push(score);
            proof {
                assert(score@ == wanted[i as int]);
                assert forall|j: int| 0 <= j < i + 1 implies keys(settled_scores@)[j]
                    == wanted.take(i + 1)[j] by {
                    if j < i {
                        assert(sofar[j] == wanted.take(i as int)[j]);
                    }
                }
                assert(keys(settled_scores@) =~= wanted.take(i + 1));
            }
            i += 1;
        }
        assert(wanted.take(n as int) =~= wanted);
        settled_scores
    }

    /// Ranks the entries by their scores against a query and counts the matches.
    ///
    /// `scores` holds, for each entry in order, its cosine similarity to
    /// `query` as the caller computed it. The search goes by the settled
    /// scores: 0 where the query or the entry has magnitude zero, 1 where
    /// the entry's embedding is the query, and elsewhere the score handed in,
    /// brought into the range from -1 to 1. The entries whose score is at
    /// least `min_sim` are the matches. Each match has its tally raised by
    /// one. The result lists the best `max_results` matches, best first, each
    /// with the tally it has after the search.
    ///
    /// Fails, leaving the index as it was, when the query's length differs
    /// from that of the stored embeddings, or else when the number of scores
    /// is not the number of entries.
    pub fn search(
        &mut self,
        min_sim: Similarity,
        max_results: usize,
        query: &Vec<u64>,
        scores: &Vec<Similarity>,
    ) -> (result: Result<Vec<Hit>, IndexError>)
        ensures
            well_formed(old(self)@),
            well_formed(final(self)@),
            match result {
                Ok(hits) => {
                    &&& accepts_dimension(old(self)@, query@.len())
                    &&& scores@.len() == old(self)@.len()
                    &&& final(self)@ == reinforced(
                        old(self)@,
                        settled(old(self)@, query@, keys(scores@)),
                        min_sim@,
                    )
                    &&& hits_view(hits@) == search_hits(
                        old(self)@,
                        settled(old(self)@, query@, keys(scores@)),
                        min_sim@,
                        max_results as nat,
                    )
                },
                Err(e) => {
                    &&& final(self)@ == old(self)@
                    &&& e == if !accepts_dimension(old(self)@, query@.len()) {
                        IndexError::DimensionMismatch
                    } else {
                        IndexError::ScoreCountMismatch
                    }
                    &&& !accepts_dimension(old(self)@, query@.len()) || scores@.len() != old(
                        self,
                    )@.len()
                },
            },
            final(self)@.len() == old(self)@.len(),
            forall|i: int|
                0 <= i < old(self)@.len() ==> (#[trigger] final(self)@[i]).tally >= old(self)@[i].tally,
            result matches Ok(hits) ==> {
                &&& hits@.len() <= max_results
                &&& forall|k: int| 0 <= k < hits@.len() ==> -ONE_KEY <= (#[trigger] hits@[k]).0@ <= ONE_KEY
                &&& forall|k: int| 0 <= k < hits@.len() ==> (#[trigger] hits@[k]).0@ >= min_sim@
                &&& forall|k: int, l: int|
                    0 <= k < l < hits@.len() ==> (#[trigger] hits@[k]).0@ >= (#[trigger] hits@[l]).0@
            },
            old(self)@.len() == 0 && scores@.len() == 0 ==> (result matches Ok(hits) && hits@.len()
                == 0),
    {
        proof {
            use_type_invariant(&*self);
        }
        let n: usize = self.entries.len();
        if n > 0 {
            assert(self@[0] == self.entries@[0]@);
            if self.entries[0].embedding.len() != query.len() {
                return Err(IndexError::DimensionMismatch);
            }
        }
        if scores.len() != n {
            return Err(IndexError::ScoreCountMismatch);
        }
        let ghost before = self@;
        let ghost ks = settled(before, query@, keys(scores@));
        let ghost scores_in = scores;
        let scores: Vec<Similarity> = self.settle(query, scores);
        let scores: &Vec<Similarity> = &scores;
        let order: Vec<usize> = rank(scores, min_sim);
        let mut entries: Vec<IndexEntry> = Vec::new();
        core::mem::swap(&mut self.entries, &mut entries);
        let mut i: usize = 0;
        assert(views(entries@) =~= reinforced_first(before, ks, min_sim@, 0));
        while i < n
            invariant
                i <= n,
                n == scores@.len(),
                n == before.len(),
                n == entries@.len(),
                ks == keys(scores@),
                views(entries@) == reinforced_first(before, ks, min_sim@, i as int),
            decreases n - i,
        {
            let ghost prev = entries@;
            if scores[i].at_least(&min_sim) {
                assert(views(entries@)[i as int] == entries@[i as int]@);
                let tally: u32 = entries[i].tally;
                if tally < u32::MAX {
                    entries[i].tally = tally + 1;
                }
            }
            proof {
                assert(ks[i as int] == scores@[i as int]@);
                let target = reinforced_first(before, ks, min_sim@, i + 1);
                assert forall|j: int| 0 <= j < n implies views(entries@)[j] == target[j] by {
                    assert(views(prev)[j] == prev[j]@);
                    assert(views(entries@)[j] == entries@[j]@);
                    if j != i {
                        assert(entries@[j] == prev[j]);
                    }
                }
                assert(views(entries@) =~= target);
            }
            i += 1;
        }
        let ghost after = reinforced(before, ks, min_sim@);
        proof {
            assert(reinforced_first(before, ks, min_sim@, n as int) =~= after);
            lemma_reinforced_well_formed(before, ks, min_sim@);
        }
        core::mem::swap(&mut self.entries, &mut entries);
        let shown: usize = if order.len() <= max_results {
            order.len()
        } else {
            max_results
        };
        let ghost wanted = search_hits(before, ks, min_sim@, max_results as nat);
        let mut hits: Vec<Hit> = Vec::new();
        let mut k: usize = 0;
        assert(hits_view(hits@) =~= wanted.take(0));
        while k < shown
            invariant
                k <= shown,
                shown <= order@.len(),
                shown == wanted.len(),
                n == scores@.len(),
                n == self.entries@.len(),
                ks == keys(scores@),
                self@ == reinforced(before, ks, min_sim@),
                positions(order@) == ranking(ks, min_sim@),
                wanted == search_hits(before, ks, min_sim@, max_results as nat),
                in_range(order@, n as nat),
                hits_view(hits@) == wanted.take(k as int),
            decreases shown - k,
        {
            let at: usize = order[k];
            assert(positions(order@)[k as int] == at as int);
            assert(self@[at as int] == self.entries@[at as int]@);
            assert(ks[at as int] == scores@[at as int]@);
            let hit: Hit = (scores[at], self.entries[at].label.clone(), self.entries[at].tally);
            hits.push(hit);
            proof {
                let ranked = ranking(ks, min_sim@);
                assert(ranked.take(shown as int)[k as int] == at as int);
                assert(wanted[k as int] == (ks[at as int], self@[at as int].label, self@[at as int].tally));
                assert(hits_view(hits@) =~= wanted.take(k as int).push(wanted[k as int]));
                assert(wanted.take(k + 1) =~= wanted.take(k as int).push(wanted[k as int]));
            }
            k += 1;
        }
        proof {
            lemma_search_results_are_ranked(before, ks, min_sim@, max_results as nat);
            assert(wanted.take(shown as int) =~= wanted);
            assert forall|k: int| 0 <= k < hits@.len() implies (#[trigger] hits@[k]).0@
                == wanted[k].0 && -ONE_KEY <= wanted[k].0 <= ONE_KEY by {
                assert(hits_view(hits@)[k] == wanted[k]);
                let at = ranking(ks, min_sim@)[k];
                assert(wanted[k].0 == ks[at]);
                lemma_settled_score_is_a_cosine(before[at].embedding, query@, keys(scores_in@)[at]);
            }
        }
        Ok(hits)
    }

    /// The snapshot of this index: the root with one node for each entry.
    pub fn snapshot(&self) -> (root: SnapshotNode)
        ensures
            well_formed(self@),
            is_snapshot_of(root, self@),
            root.tally == 0,
    {
        proof {
            use_type_invariant(self);
        }
        let n: usize = self.entries.len();
        let mut children: Vec<SnapshotNode> = Vec::new();
        let mut i: usize = 0;
        while i < n
            invariant
                i <= n,
                n == self.entries@.len(),
                children@.len() == i,
                forall|j: int|
                    0 <= j < i ==> (#[trigger] children@[j]).children@.len() == 0 && node_view(
                        children@[j],
                    ) == self.entries@[j]@,
            decreases n - i,
        {
            let entry: &IndexEntry = &self.entries[i];
            let node = SnapshotNode {
                id: entry.id,
                embedding: copy_of(&entry.embedding),
                label: entry.label.clone(),
                tally: entry.tally,
                children: Vec::new(),
            };
            children.push(node);
            i += 1;
        }
        let root = SnapshotNode {
            id: 0,
            embedding: Vec::new(),
            label: String::new(),
            tally: 0,
            children,
        };
        assert(snapshot_entries(root) =~= self@);
        root
    }

    /// Rebuilds the index that a snapshot was taken of.
    ///
    /// Fails when the snapshot is not the image of an index: a root that is
    /// not the bare root, nodes nested deeper than one level, ids that do not
    /// grow from 1 on, or embeddings of different lengths.
    pub fn load(root: &SnapshotNode) -> (result: Result<VectorIndex, IndexError>)
        ensures
            match result {
                Ok(index) => loaded(*root) == Some(index@),
                Err(e) => loaded(*root).is_none() && e == IndexError::MalformedSnapshot,
            },
    {
        if root.id != 0 || root.embedding.len() != 0 || !root.label.as_str().is_empty() {
            return Err(IndexError::MalformedSnapshot);
        }
        let ghost listed = snapshot_entries(*root);
        let n: usize = root.children.len();
        let mut entries: Vec<IndexEntry> = Vec::new();
        let mut last: u64 = 0;
        let mut i: usize = 0;
        while i < n
            invariant
                i <= n,
                n == root.children@.len(),
                listed == snapshot_entries(*root),
                listed.len() == n,
                entries@.len() == i,
                i == 0 ==> last == 0,
                views(entries@) == listed.take(i as int),
                well_formed(listed.take(i as int)),
                i > 0 ==> last == listed[i - 1].id,
                forall|j: int|
                    0 <= j < i ==> (#[trigger] root.children@[j]).children@.len() == 0,
            decreases n - i,
        {
            let child: &SnapshotNode = &root.children[i];
            assert(listed[i as int] == node_view(*child));
            let first_len: usize = if i > 0 {
                assert(views(entries@)[0] == entries@[0]@);
                entries[0].embedding.len()
            } else {
                child.embedding.len()
            };
            if child.children.len() != 0 || child.id <= last || child.embedding.len()
                != first_len {
                proof {
                    if well_formed(listed) {
                        if i > 0 {
                            assert(listed[i - 1].id < listed[i as int].id);
                            assert(listed[0].embedding.len() == listed[i as int].embedding.len());
                            assert(listed.take(i as int)[0] == listed[0]);
                        } else {
                            assert(listed[0].id >= 1);
                        }
                        assert(root.children@[i as int].children@.len() != 0);
                    }
                }
                return Err(IndexError::MalformedSnapshot);
            }
            let entry = IndexEntry {
                id: child.id,
                embedding: copy_of(&child.embedding),
                label: child.label.clone(),
                tally: child.tally,
            };
            proof {
                let grown = listed.take(i + 1);
                let ghost shorter = listed.take(i as int);
                assert(grown =~= shorter.push(listed[i as int]));
                assert(entry@ == listed[i as int]);
                assert forall|j: int| 0 <= j < grown.len() implies (#[trigger] grown[j]).id
                    >= 1 by {
                    if j < i {
                        assert(shorter[j].id >= 1);
                    }
                }
                assert forall|j: int, k: int| 0 <= j < k < grown.len() implies (
                #[trigger] grown[j]).id < (#[trigger] grown[k]).id by {
                    if k < i {
                        assert(shorter[j].id < shorter[k].id);
                    } else if j < i - 1 {
                        assert(shorter[j].id < shorter[i - 1].id);
                    } else {
                        assert(shorter[j] == listed[i - 1]);
                    }
                }
                assert forall|j: int, k: int|
                    0 <= j < grown.len() && 0 <= k < grown.len() implies (
                #[trigger] grown[j]).embedding.len() == (#[trigger] grown[k]).embedding.len() by {
                    if i > 0 {
                        assert(shorter[0] == listed[0]);
                        if j < i {
                            assert(shorter[j].embedding.len() == shorter[0].embedding.len());
                        }
                        if k < i {
                            assert(shorter[k].embedding.len() == shorter[0].embedding.len());
                        }
                    }
                }
            }
            last = child.id;
            entries.push(entry);
            assert(views(entries@) =~= listed.take(i + 1));
            i += 1;
        }
        assert(listed.take(n as int) =~= listed);
        Ok(VectorIndex { entries })
    }

    /// The index to start with: the one of the snapshot, if there is a
    /// snapshot and it is valid, and else an empty one.
    pub fn load_or_new(snapshot: Option<&SnapshotNode>) -> (index: VectorIndex)
        ensures
            well_formed(index@),
            index@ == match snapshot {
                Some(root) if loaded(*root).is_some() => loaded(*root).unwrap(),
                _ => Seq::<EntryView>::empty(),
            },
    {
        match snapshot {
            Some(root) => match VectorIndex::load(root) {
                Ok(index) => index,
                Err(_) => VectorIndex::new(),
            },
            None => VectorIndex::new(),
        }
    }
}

} // verus!
