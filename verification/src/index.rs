use vstd::prelude::*;

use crate::corpus::MarkdownFile;

verus! {

/// Largest magnitude a fixed-point embedding component may have. The
/// embedding capability's unit-scale floating components are carried as
/// integers scaled by this factor, so similarity ranking is exact.
pub const MAX_COMPONENT: i64 = 1_000_000;

/// Largest dimensionality an embedding vector may have; keeps every dot
/// product well inside the `i64` range.
pub const MAX_DIM: usize = 8192;

pub open spec fn component_ok(x: i64) -> bool {
    -MAX_COMPONENT <= x <= MAX_COMPONENT
}

pub open spec fn vector_ok(v: Seq<i64>) -> bool {
    v.len() <= MAX_DIM && forall|t: int| 0 <= t < v.len() ==> component_ok(#[trigger] v[t])
}

/// The similarity metric: the dot product of the first `t` component pairs.
pub open spec fn dot_prefix(a: Seq<i64>, b: Seq<i64>, t: int) -> int
    decreases t,
{
    if t <= 0 {
        0
    } else {
        dot_prefix(a, b, t - 1) + a[t - 1] * b[t - 1]
    }
}

/// Dot product of two vectors of equal dimensionality.
pub open spec fn dot(a: Seq<i64>, b: Seq<i64>) -> int {
    dot_prefix(a, b, a.len() as int)
}

spec fn max_sq() -> int {
    (MAX_COMPONENT as int) * (MAX_COMPONENT as int)
}

proof fn lemma_mul_bound(x: int, y: int, m: int)
    by (nonlinear_arith)
    requires
        -m <= x <= m,
        -m <= y <= m,
    ensures
        -(m * m) <= x * y <= m * m,
{
}

proof fn lemma_dot_prefix_bound(a: Seq<i64>, b: Seq<i64>, t: int)
    requires
        0 <= t <= a.len(),
        t <= b.len(),
        forall|u: int| 0 <= u < a.len() ==> component_ok(#[trigger] a[u]),
        forall|u: int| 0 <= u < b.len() ==> component_ok(#[trigger] b[u]),
    ensures
        -(t * max_sq()) <= dot_prefix(a, b, t) <= t * max_sq(),
    decreases t,
{
    if t > 0 {
        lemma_dot_prefix_bound(a, b, t - 1);
        lemma_mul_bound(a[t - 1] as int, b[t - 1] as int, MAX_COMPONENT as int);
        assert((t - 1) * max_sq() + max_sq() == t * max_sq()) by (nonlinear_arith);
    }
}

/// Exact fixed-point similarity between two vectors.
pub fn dot_product(a: &Vec<i64>, b: &Vec<i64>) -> (s: i64)
    requires
        a@.len() == b@.len(),
        vector_ok(a@),
        vector_ok(b@),
    ensures
        s as int == dot(a@, b@),
{
    let n = a.len();
    let mut acc: i64 = 0;
    let mut t: usize = 0;
    while t < n
        invariant
            t <= n,
            n == a@.len(),
            a@.len() == b@.len(),
            vector_ok(a@),
            vector_ok(b@),
            acc as int == dot_prefix(a@, b@, t as int),
        decreases n - t,
    {
        proof {
            lemma_dot_prefix_bound(a@, b@, t as int);
            lemma_dot_prefix_bound(a@, b@, t + 1);
            lemma_mul_bound(a@[t as int] as int, b@[t as int] as int, MAX_COMPONENT as int);
        }
        acc = acc + a[t] * b[t];
        t = t + 1;
    }
    acc
}

/// True when every component of `v` is in range and `v` is not too long.
pub fn check_vector(v: &Vec<i64>) -> (b: bool)
    ensures
        b == vector_ok(v@),
{
    if v.len() > MAX_DIM {
        return false;
    }
    let mut t: usize = 0;
    while t < v.len()
        invariant
            t <= v@.len(),
            v@.len() <= MAX_DIM,
            forall|u: int| 0 <= u < t ==> component_ok(#[trigger] v@[u]),
        decreases v@.len() - t,
    {
        let x = v[t];
        if x < -MAX_COMPONENT || x > MAX_COMPONENT {
            return false;
        }
        t = t + 1;
    }
    true
}

/// One corpus record together with its fixed-point embedding vector,
/// created once during index construction and immutable afterward.
#[derive(Debug)]
pub struct EmbeddedDocument {
    pub record: MarkdownFile,
    pub vector: Vec<i64>,
}

/// Why an index could not be built. An empty corpus is a configuration
/// error, not silently tolerated; the other two reject vectors the embedding
/// conversion should never produce.
#[derive(Debug, Clone, Copy, PartialEq, Eq)]
pub enum IndexError {
    EmptyCorpus,
    MismatchedDimension,
    ComponentOutOfRange,
}

/// All vectors share the dimensionality of the first one.
pub open spec fn dims_match(docs: Seq<EmbeddedDocument>) -> bool {
    forall|t: int|
        0 <= t < docs.len() ==> (#[trigger] docs[t].vector)@.len() == docs[0].vector@.len()
}

pub open spec fn vectors_ok(docs: Seq<EmbeddedDocument>) -> bool {
    forall|t: int| 0 <= t < docs.len() ==> vector_ok((#[trigger] docs[t].vector)@)
}

/// One retrieval hit: the position of a document in the ingested corpus and
/// its similarity score against the query.
#[derive(Debug, Clone, Copy)]
pub struct RankedDoc {
    pub doc_index: usize,
    pub score: i64,
}

/// The retrieval order: higher similarity first; on equal similarity, the
/// document ingested earlier first. A strict total order over distinct
/// document positions.
pub open spec fn pair_before(a: RankedDoc, b: RankedDoc) -> bool {
    a.score > b.score || (a.score == b.score && a.doc_index < b.doc_index)
}

pub open spec fn contains_index(r: Seq<RankedDoc>, j: int) -> bool {
    exists|t: int| 0 <= t < r.len() && (#[trigger] r[t]).doc_index == j
}

fn ranked_before(a: &RankedDoc, b: &RankedDoc) -> (r: bool)
    ensures
        r == pair_before(*a, *b),
{
    a.score > b.score || (a.score == b.score && a.doc_index < b.doc_index)
}

/// An immutable collection of embedded documents supporting nearest-neighbor
/// retrieval. Built once per audit run, then shared read-only.
#[derive(Debug)]
pub struct SemanticIndex {
    docs: Vec<EmbeddedDocument>,
    dim: usize,
}

impl SemanticIndex {
    /// The ingested documents, in ingestion order.
    pub closed spec fn spec_docs(self) -> Seq<EmbeddedDocument> {
        self.docs@
    }

    /// The shared dimensionality of every vector in the index.
    pub closed spec fn spec_dim(self) -> int {
        self.dim as int
    }

    pub open spec fn wf(self) -> bool {
        &&& self.spec_docs().len() > 0
        &&& self.spec_dim() <= MAX_DIM
        &&& forall|t: int|
            0 <= t < self.spec_docs().len() ==> (#[trigger] self.spec_docs()[t].vector)@.len()
                == self.spec_dim() && vector_ok(self.spec_docs()[t].vector@)
    }

    /// A query vector the index can rank: the index's dimensionality, every
    /// component in range.
    pub open spec fn spec_query_ok(self, q: Seq<i64>) -> bool {
        q.len() == self.spec_dim() && forall|t: int|
            0 <= t < q.len() ==> component_ok(#[trigger] q[t])
    }

    /// The similarity of document `i` to the query `q`.
    pub open spec fn sim(self, q: Seq<i64>, i: int) -> int {
        dot(q, self.spec_docs()[i].vector@)
    }

    /// Retrieval order over document positions under query `q`.
    pub open spec fn index_before(self, q: Seq<i64>, i: int, j: int) -> bool {
        self.sim(q, i) > self.sim(q, j) || (self.sim(q, i) == self.sim(q, j) && i < j)
    }

    /// Builds the index over a corpus of embedded documents. Fails on an
    /// empty corpus, on vectors of differing dimensionality, and on vectors
    /// that are too long or have components out of range; otherwise the
    /// index holds exactly the given documents, in order.
    pub fn build(docs: Vec<EmbeddedDocument>) -> (r: Result<SemanticIndex, IndexError>)
        ensures
            match r {
                Ok(ix) => {
                    &&& ix.wf()
                    &&& ix.spec_docs() == docs@
                    &&& ix.spec_dim() == docs@[0].vector@.len()
                    &&& docs@.len() > 0
                    &&& dims_match(docs@)
                    &&& vectors_ok(docs@)
                },
                Err(e) => {
                    &&& (e == IndexError::EmptyCorpus <==> docs@.len() == 0)
                    &&& (e == IndexError::MismatchedDimension <==> docs@.len() > 0 && !dims_match(
                        docs@,
                    ))
                    &&& (e == IndexError::ComponentOutOfRange <==> docs@.len() > 0 && dims_match(
                        docs@,
                    ) && !vectors_ok(docs@))
                },
            },
    {
        if docs.len() == 0 {
            return Err(IndexError::EmptyCorpus);
        }
        let n = docs.len();
        let dim = docs[0].vector.len();
        let mut t: usize = 0;
        while t < n
            invariant
                t <= n,
                n == docs@.len(),
                n > 0,
                dim == docs@[0].vector@.len(),
                forall|u: int| 0 <= u < t ==> (#[trigger] docs@[u].vector)@.len() == dim,
            decreases n - t,
        {
            if docs[t].vector.len() != dim {
                assert(!dims_match(docs@));
                return Err(IndexError::MismatchedDimension);
            }
            t = t + 1;
        }
        assert(dims_match(docs@));
        let mut t: usize = 0;
        while t < n
            invariant
                t <= n,
                n == docs@.len(),
                n > 0,
                dim == docs@[0].vector@.len(),
                dims_match(docs@),
                forall|u: int| 0 <= u < t ==> vector_ok((#[trigger] docs@[u].vector)@),
            decreases n - t,
        {
            if !check_vector(&docs[t].vector) {
                assert(!vectors_ok(docs@));
                return Err(IndexError::ComponentOutOfRange);
            }
            t = t + 1;
        }
        assert(vectors_ok(docs@));
        assert(dim <= MAX_DIM) by {
            assert(vector_ok(docs@[0].vector@));
        }
        Ok(SemanticIndex { docs, dim })
    }

    pub fn corpus_size(&self) -> (n: usize)
        ensures
            n as int == self.spec_docs().len(),
    {
        self.docs.len()
    }

    pub fn dimension(&self) -> (d: usize)
        ensures
            d as int == self.spec_dim(),
    {
        self.dim
    }

    pub fn document(&self, i: usize) -> (d: &EmbeddedDocument)
        requires
            i < self.spec_docs().len(),
        ensures
            *d == self.spec_docs()[i as int],
    {
        &self.docs[i]
    }

    /// True when `q` can be used as a query against this index.
    pub fn query_ok(&self, q: &Vec<i64>) -> (b: bool)
        requires
            self.wf(),
        ensures
            b == self.spec_query_ok(q@),
    {
        if q.len() != self.dim {
            return false;
        }
        check_vector(q)
    }

    /// The up-to-`k` documents most similar to the query, highest similarity
    /// first, ties broken by ingestion order. When `k` is at least the
    /// corpus size, every document is returned exactly once, fully ranked;
    /// a document left out is ranked below every document returned.
    pub fn top_k(&self, query: &Vec<i64>, k: usize) -> (r: Vec<RankedDoc>)
        requires
            self.wf(),
            self.spec_query_ok(query@),
            k >= 1,
        ensures
            r@.len() == if k < self.spec_docs().len() {
                k as int
            } else {
                self.spec_docs().len() as int
            },
            forall|t: int|
                0 <= t < r@.len() ==> (#[trigger] r@[t]).doc_index < self.spec_docs().len()
                    && r@[t].score as int == self.sim(query@, r@[t].doc_index as int),
            forall|t1: int, t2: int| 0 <= t1 < t2 < r@.len() ==> pair_before(r@[t1], r@[t2]),
            forall|t1: int, t2: int|
                0 <= t1 < t2 < r@.len() ==> (#[trigger] r@[t1]).doc_index
                    != (#[trigger] r@[t2]).doc_index,
            forall|t: int, j: int|
                #![trigger r@[t], contains_index(r@, j)]
                0 <= t < r@.len() && 0 <= j < self.spec_docs().len() && !contains_index(r@, j)
                    ==> self.index_before(query@, r@[t].doc_index as int, j),
            k >= self.spec_docs().len() ==> forall|j: int|
                0 <= j < self.spec_docs().len() ==> contains_index(r@, j),
    {
        let n = self.docs.len();
        let mut all: Vec<RankedDoc> = Vec::new();
        let mut i: usize = 0;
        while i < n
            invariant
                i <= n,
                n == self.spec_docs().len(),
                self.wf(),
                self.spec_query_ok(query@),
                all@.len() == i,
                forall|t: int|
                    0 <= t < i ==> (#[trigger] all@[t]).doc_index == t && all@[t].score as int
                        == self.sim(query@, t),
            decreases n - i,
        {
            let s = dot_product(query, &self.docs[i].vector);
            all.push(RankedDoc { doc_index: i, score: s });
            i = i + 1;
        }
        let mut sorted: Vec<RankedDoc> = Vec::new();
        let mut i: usize = 0;
        while i < n
            invariant
                i <= n,
                n == self.spec_docs().len(),
                self.wf(),
                self.spec_query_ok(query@),
                all@.len() == n,
                forall|t: int|
                    0 <= t < n ==> (#[trigger] all@[t]).doc_index == t && all@[t].score as int
                        == self.sim(query@, t),
                sorted@.len() == i,
                forall|t: int|
                    0 <= t < i ==> (#[trigger] sorted@[t]).doc_index < i && sorted@[t].score as int
                        == self.sim(query@, sorted@[t].doc_index as int),
                forall|j: int| 0 <= j < i ==> contains_index(sorted@, j),
                forall|t1: int, t2: int| 0 <= t1 < t2 < i ==> pair_before(sorted@[t1], sorted@[t2]),
            decreases n - i,
        {
            let e = all[i];
            let ghost prev = sorted@;
            let mut p: usize = 0;
            while p < sorted.len() && ranked_before(&sorted[p], &e)
                invariant
                    p <= sorted@.len(),
                    sorted@.len() == i,
                    e == all@[i as int],
                    forall|t: int| 0 <= t < p ==> pair_before(#[trigger] sorted@[t], e),
                decreases sorted@.len() - p,
            {
                p = p + 1;
            }
            assert(p < sorted@.len() ==> pair_before(e, sorted@[p as int])) by {
                if p < sorted@.len() {
                    assert(sorted@[p as int].doc_index < i);
                    assert(e.doc_index == i);
                }
            }
            sorted.insert(p, e);
            proof {
                assert forall|t: int| 0 <= t < p implies sorted@[t] == prev[t] by {
                    assert(sorted@ == prev.insert(p as int, e));
                }
                assert(sorted@[p as int] == e);
                assert forall|t: int| p < t < sorted@.len() implies sorted@[t] == prev[t - 1] by {
                    assert(sorted@ == prev.insert(p as int, e));
                }
                assert forall|t1: int, t2: int| 0 <= t1 < t2 < i + 1 implies pair_before(
                    sorted@[t1],
                    sorted@[t2],
                ) by {
                    if t2 < p {
                        assert(sorted@[t1] == prev[t1]);
                        assert(sorted@[t2] == prev[t2]);
                    } else if t2 == p {
                        assert(sorted@[t1] == prev[t1]);
                        assert(pair_before(prev[t1], e));
                    } else {
                        assert(sorted@[t2] == prev[t2 - 1]);
                        if t1 < p {
                            assert(sorted@[t1] == prev[t1]);
                            if p < prev.len() && t2 - 1 > p {
                                assert(pair_before(prev[p as int], prev[t2 - 1]));
                            }
                        } else if t1 == p {
                            if t2 - 1 > p {
                                assert(pair_before(prev[p as int], prev[t2 - 1]));
                            }
                        } else {
                            assert(sorted@[t1] == prev[t1 - 1]);
                        }
                    }
                }
                assert forall|j: int| 0 <= j < i + 1 implies contains_index(sorted@, j) by {
                    if j == i {
                        assert(sorted@[p as int].doc_index == j);
                    } else {
                        assert(contains_index(prev, j));
                        let t = choose|t: int|
                            0 <= t < prev.len() && (#[trigger] prev[t]).doc_index == j;
                        if t < p {
                            assert(sorted@[t].doc_index == j);
                        } else {
                            assert(sorted@[t + 1] == prev[t]);
                            assert(sorted@[t + 1].doc_index == j);
                        }
                    }
                }
            }
            i = i + 1;
        }
        let kk = if k < n {
            k
        } else {
            n
        };
        let ghost full = sorted@;
        sorted.truncate(kk);
        assert(sorted@ == full.subrange(0, kk as int));
        proof {
            if k >= n {
                assert(sorted@ =~= full);
            }
            assert forall|t: int, j: int|
                #![trigger sorted@[t], contains_index(sorted@, j)]
                0 <= t < sorted@.len() && 0 <= j < n && !contains_index(sorted@, j) implies self
                .index_before(query@, sorted@[t].doc_index as int, j) by {
                assert(contains_index(full, j));
                let tj = choose|tj: int| 0 <= tj < full.len() && (#[trigger] full[tj]).doc_index
                    == j;
                assert(tj >= kk) by {
                    if tj < kk {
                        assert(sorted@[tj] == full[tj]);
                        assert(sorted@[tj].doc_index == j);
                        assert(contains_index(sorted@, j));
                    }
                }
                assert(pair_before(full[t], full[tj]));
                assert(full[t] == sorted@[t]);
                assert(full[tj].score as int == self.sim(query@, j));
            }
            assert forall|t1: int, t2: int|
                0 <= t1 < t2 < sorted@.len() implies sorted@[t1].doc_index
                != sorted@[t2].doc_index by {
                assert(pair_before(sorted@[t1], sorted@[t2]));
                assert(sorted@[t1].score as int == self.sim(query@, sorted@[t1].doc_index as int));
                assert(sorted@[t2].score as int == self.sim(query@, sorted@[t2].doc_index as int));
            }
        }
        sorted
    }

    /// The grounding context for a retrieval result: the text of each
    /// retrieved document, in rank order, each followed by a line break.
    pub open spec fn context_upto(self, ranked: Seq<RankedDoc>, t: int) -> Seq<char>
        decreases t,
    {
        if t <= 0 {
            Seq::empty()
        } else {
            self.context_upto(ranked, t - 1) + self.spec_docs()[ranked[t
                - 1].doc_index as int].record.content@ + seq!['\n']
        }
    }

    /// Concatenates the text of the retrieved documents as grounding
    /// context for a classification prompt.
    pub fn grounding_context(&self, ranked: &Vec<RankedDoc>) -> (ctx: String)
        requires
            self.wf(),
            forall|t: int|
                0 <= t < ranked@.len() ==> (#[trigger] ranked@[t]).doc_index
                    < self.spec_docs().len(),
        ensures
            ctx@ == self.context_upto(ranked@, ranked@.len() as int),
    {
        let mut ctx = String::new();
        let mut t: usize = 0;
        while t < ranked.len()
            invariant
                t <= ranked@.len(),
                self.wf(),
                forall|u: int|
                    0 <= u < ranked@.len() ==> (#[trigger] ranked@[u]).doc_index
                        < self.spec_docs().len(),
                ctx@ == self.context_upto(ranked@, t as int),
            decreases ranked@.len() - t,
        {
            let i = ranked[t].doc_index;
            ctx.append(self.docs[i].record.content.as_str());
            ctx.append("\n");
            proof {
                reveal_strlit("\n");
                assert("\n"@ =~= seq!['\n']);
            }
            t = t + 1;
        }
        ctx
    }
}

} // verus!
