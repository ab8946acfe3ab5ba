//! The approximate nearest-neighbour index: an interface, and an
//! implementation over hnsw_rs's `Hnsw` graph with cosine distance.
use vstd::prelude::*;
use vstd::multiset::Multiset;
use crate::types::CacheError;
use hnsw_rs::hnsw::Hnsw;
use hnsw_rs::anndists::dist::distances::DistCosine;

verus! {

/// A point as the index sees it: a vector and its id.
pub type PointView = (Seq<i16>, usize);

/// Some point of `s` has id `id`.
pub open spec fn holds_id(s: Seq<PointView>, id: usize) -> bool {
    exists|j: int| 0 <= j < s.len() && #[trigger] s[j].1 == id
}

/// An index of `(vector, id)` points answering k-nearest-neighbour queries.
///
/// `points` is the log of every point inserted since the last `init_index`,
/// in order of insertion; `resize` keeps it.
pub trait ANNIndex {
    spec fn points(&self) -> Seq<PointView>;

    spec fn dimension(&self) -> nat;

    spec fn max_elements(&self) -> nat;

    spec fn wf(&self) -> bool;

    /// Empties the index and sizes it for `max_elements` points of `dimension`.
    fn init_index(&mut self, max_elements: usize, dimension: usize)
        ensures
            final(self).wf(),
            final(self).points() == Seq::<PointView>::empty(),
            final(self).dimension() == dimension,
            final(self).max_elements() == max_elements,
    ;

    /// Adds a point; a vector of the wrong length is refused.
    fn add_pt(&mut self, point: Vec<i16>, id: usize) -> (r: Result<(), CacheError>)
        requires
            old(self).wf(),
        ensures
            final(self).wf(),
            final(self).dimension() == old(self).dimension(),
            final(self).max_elements() == old(self).max_elements(),
            point.len() != old(self).dimension() ==> r == Err::<(), CacheError>(
                CacheError::DimensionMismatch { expected: old(self).dimension() as usize, found: point.len() },
            ) && final(self).points() == old(self).points(),
            point.len() == old(self).dimension() ==> r is Ok && final(self).points() == old(
                self,
            ).points().push((point@, id)),
    ;

    /// The number of points in the index.
    fn get_curr_ct(&self) -> (r: usize)
        requires
            self.wf(),
        ensures
            r == self.points().len(),
    ;

    /// The number of points the index is sized for.
    fn get_max_elements(&self) -> (r: usize)
        requires
            self.wf(),
        ensures
            r == self.max_elements(),
    ;

    /// Rebuilds the index for `new_size` points, keeping every point.
    fn resize(&mut self, new_size: usize)
        requires
            old(self).wf(),
            new_size >= old(self).points().len(),
        ensures
            final(self).wf(),
            final(self).points() == old(self).points(),
            final(self).dimension() == old(self).dimension(),
            final(self).max_elements() == new_size,
    ;

    /// Ids of at most `k` points near `query`, nearest first.
    fn search_knn(&self, query: &[i16], k: usize) -> (r: Vec<usize>)
        requires
            self.wf(),
            query.len() == self.dimension(),
        ensures
            r.len() <= k,
            self.points().len() > 0 && k > 0 ==> r.len() > 0,
            forall|i: int| 0 <= i < r.len() ==> holds_id(self.points(), #[trigger] r[i]),
    ;
}

/// An `Hnsw` graph over `i32` points with cosine distance.
#[verifier::external_body]
pub struct HnswGraph {
    hnsw: Hnsw<'static, i32, DistCosine>,
}

/// The points held by an `HnswGraph`, each as it was handed to `graph_insert`.
pub uninterp spec fn graph_points(g: HnswGraph) -> Multiset<PointView>;

/// Relies on `Hnsw::new`: a new graph holds no point. Connections per
/// layer stay at 16, within the 256 that `Hnsw::new` accepts.
#[verifier::external_body]
fn graph_new(max_elements: usize) -> (g: HnswGraph)
    ensures
        graph_points(g) == Multiset::<PointView>::empty(),
{
    HnswGraph { hnsw: Hnsw::new(16, max_elements, 16, 16, DistCosine) }
}

/// Relies on `Hnsw::insert`: the graph keeps a copy of the point and its id.
/// Cosine distance asserts equal lengths, so every point has one length;
/// components widened from 16 bits keep its `i32` products from overflowing.
#[verifier::external_body]
fn graph_insert(g: &mut HnswGraph, point: &[i16], id: usize)
    requires
        forall|p: PointView| graph_points(*old(g)).contains(p) ==> p.0.len() == point.len(),
    ensures
        graph_points(*final(g)) == graph_points(*old(g)).insert((point@, id)),
{
    let v: Vec<i32> = point.iter().map(|x| *x as i32).collect();
    g.hnsw.insert((&v, id));
}

/// Relies on `Hnsw::get_nb_point`: the number of points inserted.
#[verifier::external_body]
fn graph_count(g: &HnswGraph) -> (r: usize)
    ensures
        r == graph_points(*g).len(),
{
    g.hnsw.get_nb_point()
}

/// Relies on `Hnsw::search`: at most `k` results, each the id of a point in
/// the graph; the lowest-layer search keeps its entry point, so a graph with
/// points gives at least one result for `k > 0`. Cosine distance asserts equal lengths, so the query has the
/// length of every point.
#[verifier::external_body]
fn graph_search(g: &HnswGraph, query: &[i16], k: usize, ef: usize) -> (r: Vec<usize>)
    requires
        forall|p: PointView| graph_points(*g).contains(p) ==> p.0.len() == query.len(),
    ensures
        r.len() <= k,
        graph_points(*g).len() > 0 && k > 0 ==> r.len() > 0,
        forall|i: int|
            0 <= i < r.len() ==> exists|p: PointView|
                #[trigger] graph_points(*g).contains(p) && p.1 == #[trigger] r[i],
{
    let q: Vec<i32> = query.iter().map(|x| *x as i32).collect();
    g.hnsw.search(&q, k, ef).into_iter().map(|n| n.d_id).collect()
}

/// The view of a log of points.
pub open spec fn points_view(v: Seq<(Vec<i16>, usize)>) -> Seq<PointView> {
    v.map_values(|p: (Vec<i16>, usize)| (p.0@, p.1))
}

/// An `ANNIndex` over an `Hnsw` graph, with its own log of the points, from
/// which `resize` rebuilds the graph.
pub struct HnswAnnIndex {
    graph: HnswGraph,
    dimension: usize,
    max_elements: usize,
    points: Vec<(Vec<i16>, usize)>,
}

impl HnswAnnIndex {
    /// An empty index for `max_elements` points of `dimension`.
    pub fn new(max_elements: usize, dimension: usize) -> (r: Self)
        ensures
            r.wf(),
            r.points() == Seq::<PointView>::empty(),
            r.dimension() == dimension,
            r.max_elements() == max_elements,
    {
        let r = HnswAnnIndex { graph: graph_new(max_elements), dimension, max_elements, points: Vec::new() };
        proof {
            assert(points_view(r.points@) =~= Seq::<PointView>::empty());
            lemma_empty_multiset(points_view(r.points@));
        }
        r
    }
}

/// Each point of `s` has length `n`.
pub open spec fn all_of_length(s: Seq<PointView>, n: nat) -> bool {
    forall|i: int| 0 <= i < s.len() ==> (#[trigger] s[i]).0.len() == n
}

proof fn lemma_multiset_lengths(s: Seq<PointView>, n: nat)
    requires
        all_of_length(s, n),
    ensures
        forall|p: PointView| s.to_multiset().contains(p) ==> p.0.len() == n,
{
    assert forall|p: PointView| s.to_multiset().contains(p) implies p.0.len() == n by {
        s.to_multiset_ensures();
        let i = choose|i: int| 0 <= i < s.len() && s[i] == p;
        assert(s[i].0.len() == n);
    }
}

proof fn lemma_empty_multiset(s: Seq<PointView>)
    requires
        s.len() == 0,
    ensures
        s.to_multiset() == Multiset::<PointView>::empty(),
{
    s.to_multiset_ensures();
    vstd::multiset::lemma_multiset_empty_len(s.to_multiset());
}

proof fn lemma_multiset_ids(s: Seq<PointView>, p: PointView)
    requires
        s.to_multiset().contains(p),
    ensures
        holds_id(s, p.1),
{
    s.to_multiset_ensures();
    let i = choose|i: int| 0 <= i < s.len() && s[i] == p;
    assert(s[i].1 == p.1);
}

impl ANNIndex for HnswAnnIndex {
    closed spec fn points(&self) -> Seq<PointView> {
        points_view(self.points@)
    }

    closed spec fn dimension(&self) -> nat {
        self.dimension as nat
    }

    closed spec fn max_elements(&self) -> nat {
        self.max_elements as nat
    }

    closed spec fn wf(&self) -> bool {
        &&& graph_points(self.graph) == self.points().to_multiset()
        &&& all_of_length(self.points(), self.dimension as nat)
    }

    fn init_index(&mut self, max_elements: usize, dimension: usize) {
        self.graph = graph_new(max_elements);
        self.dimension = dimension;
        self.max_elements = max_elements;
        self.points = Vec::new();
        proof {
            assert(points_view(self.points@) =~= Seq::<PointView>::empty());
            lemma_empty_multiset(points_view(self.points@));
        }
    }

    fn add_pt(&mut self, point: Vec<i16>, id: usize) -> (r: Result<(), CacheError>) {
        if point.len() != self.dimension {
            return Err(CacheError::DimensionMismatch { expected: self.dimension, found: point.len() });
        }
        proof {
            lemma_multiset_lengths(self.points(), self.dimension as nat);
        }
        graph_insert(&mut self.graph, point.as_slice(), id);
        let ghost old_points = self.points();
        self.points.push((point, id));
        proof {
            assert(self.points() =~= old_points.push((point@, id)));
            old_points.to_multiset_ensures();
        }
        Ok(())
    }

    fn get_curr_ct(&self) -> (r: usize) {
        proof {
            self.points().to_multiset_ensures();
        }
        graph_count(&self.graph)
    }

    fn get_max_elements(&self) -> (r: usize) {
        self.max_elements
    }

    fn resize(&mut self, new_size: usize) {
        let mut graph = graph_new(new_size);
        let mut i: usize = 0;
        proof {
            assert(self.points().take(0) =~= Seq::<PointView>::empty());
            lemma_empty_multiset(self.points().take(0));
        }
        while i < self.points.len()
            invariant
                i <= self.points.len(),
                self.wf(),
                graph_points(graph) == self.points().take(i as int).to_multiset(),
            decreases self.points.len() - i,
        {
            proof {
                let pre = self.points().take(i as int);
                assert(all_of_length(pre, self.dimension as nat));
                lemma_multiset_lengths(pre, self.dimension as nat);
                assert(self.points()[i as int].0.len() == self.dimension);
            }
            graph_insert(&mut graph, self.points[i].0.as_slice(), self.points[i].1);
            proof {
                let pre = self.points().take(i as int);
                assert(self.points().take(i + 1) =~= pre.push(self.points()[i as int]));
                pre.to_multiset_ensures();
            }
            i = i + 1;
        }
        proof {
            assert(self.points().take(self.points.len() as int) =~= self.points());
        }
        self.graph = graph;
        self.max_elements = new_size;
    }

    fn search_knn(&self, query: &[i16], k: usize) -> (r: Vec<usize>) {
        proof {
            lemma_multiset_lengths(self.points(), self.dimension as nat);
        }
        proof {
            self.points().to_multiset_ensures();
        }
        let ef: usize = if k <= usize::MAX - 2 { k + 2 } else { k };
        let r = graph_search(&self.graph, query, k, ef);
        proof {
            assert forall|i: int| 0 <= i < r.len() implies holds_id(self.points(), #[trigger] r[i]) by {
                let p = choose|p: PointView| #[trigger] graph_points(self.graph).contains(p) && p.1 == r[i];
                lemma_multiset_ids(self.points(), p);
            }
        }
        r
    }
}

} // verus!
