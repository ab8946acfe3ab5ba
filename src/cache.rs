//! The semantic cache engine: records go to the store and their embeddings
//! to the index; a search finds the nearest records.
use vstd::prelude::*;
use crate::ann_index::{ANNIndex, PointView, holds_id};
use crate::record::{decimal, decode_record, encode_record, id_field, parse_record};
use crate::cache_client::{CacheClient, Hashes, hash_at, lists_hash, field_read};
use crate::types::{CacheError, EmbeddingData, RecordView};
use crate::utils::get_unix_seconds;

verus! {

/// Points the index is first sized for.
pub const DEFAULT_INITIAL_CAPACITY: usize = 1000;

/// Points added to the index's size each time it fills.
pub const DEFAULT_GROWTH_STEP: usize = 1000;

/// The point that a record puts in the index.
pub open spec fn record_point(r: RecordView) -> PointView {
    (r.2, r.0)
}

/// Some field of `h` holds a record whose point is `p`.
pub open spec fn stored_point(h: Map<Seq<char>, Seq<char>>, p: PointView) -> bool {
    exists|f: Seq<char>|
        #[trigger] h.contains_key(f) && parse_record(h[f]) is Some && record_point(
            parse_record(h[f])->Some_0,
        ) == p
}

/// The index holds exactly the points of the records stored in `h`.
pub open spec fn rebuilt_from(points: Seq<PointView>, h: Map<Seq<char>, Seq<char>>) -> bool {
    forall|p: PointView| points.contains(p) <==> stored_point(h, p)
}

/// Field `decimal(id)` of `h` holds the record of `id`, `query`,
/// `embedding` and `response`, at whatever time it was made.
pub open spec fn holds_record(
    h: Map<Seq<char>, Seq<char>>,
    id: usize,
    query: Seq<char>,
    embedding: Seq<i16>,
    response: Seq<char>,
) -> bool {
    &&& h.contains_key(decimal(id))
    &&& parse_record(h[decimal(id)]) matches Some(rec) && rec.0 == id && rec.1 == query && rec.2
        == embedding && rec.3 == response
}

/// Every id in `points` is below `bound`.
pub open spec fn ids_below(points: Seq<PointView>, bound: nat) -> bool {
    forall|j: int| 0 <= j < points.len() ==> (#[trigger] points[j]).1 < bound
}

/// The views of a sequence of records.
pub open spec fn records_view(v: Seq<EmbeddingData>) -> Seq<RecordView> {
    v.map_values(|d: EmbeddingData| d@)
}

/// Some field of `h` holds record `r`.
pub open spec fn record_stored(h: Map<Seq<char>, Seq<char>>, r: RecordView) -> bool {
    exists|f: Seq<char>| #[trigger] h.contains_key(f) && parse_record(h[f]) == Some(r)
}

/// `v` holds the records stored in `h`: each is stored there, and each
/// field of `h` that reads as a record is among them.
pub open spec fn lists_records(v: Seq<RecordView>, h: Map<Seq<char>, Seq<char>>) -> bool {
    &&& forall|m: int| 0 <= m < v.len() ==> record_stored(h, #[trigger] v[m])
    &&& forall|f: Seq<char>|
        #[trigger] h.contains_key(f) && parse_record(h[f]) is Some ==> v.contains(
            parse_record(h[f])->Some_0,
        )
}

/// Record `rec` stands in `h` under the id of some point of `points`.
pub open spec fn found_in_store(h: Map<Seq<char>, Seq<char>>, points: Seq<PointView>, rec: RecordView) -> bool {
    exists|id: usize|
        holds_id(points, id) && #[trigger] h.contains_key(decimal(id)) && parse_record(h[decimal(id)]) == Some(rec)
}

/// The records read from `values`, in order, with absent ones left out.
pub open spec fn parsed_records(values: Seq<Option<String>>) -> Seq<RecordView>
    decreases values.len(),
{
    if values.len() == 0 {
        Seq::empty()
    } else {
        let rest = parsed_records(values.drop_last());
        match values.last() {
            Some(t) => rest.push(parse_record(t@)->Some_0),
            None => rest,
        }
    }
}

/// Every present value reads as a record.
pub open spec fn all_readable(values: Seq<Option<String>>) -> bool {
    forall|i: int| 0 <= i < values.len() ==> match #[trigger] values[i] {
        Some(t) => parse_record(t@) is Some,
        None => true,
    }
}

/// The records that `h` holds for `ids`, in order, with absent ones left out.
pub open spec fn fetched(h: Map<Seq<char>, Seq<char>>, ids: Seq<usize>) -> Seq<RecordView>
    decreases ids.len(),
{
    if ids.len() == 0 {
        Seq::empty()
    } else {
        let rest = fetched(h, ids.drop_last());
        if h.contains_key(decimal(ids.last())) {
            rest.push(parse_record(h[decimal(ids.last())])->Some_0)
        } else {
            rest
        }
    }
}

/// Every field of `h` for one of `ids` reads as a record.
pub open spec fn ids_readable(h: Map<Seq<char>, Seq<char>>, ids: Seq<usize>) -> bool {
    forall|i: int|
        0 <= i < ids.len() && h.contains_key(decimal(#[trigger] ids[i])) ==> parse_record(h[decimal(ids[i])]) is Some
}

/// `ids` is an answer the index may give to a search for `k` points: at
/// most `k`, at least one when there are points and `k > 0`, each an id of
/// a point.
pub open spec fn search_answer(points: Seq<PointView>, k: nat, ids: Seq<usize>) -> bool {
    &&& ids.len() <= k
    &&& ids.len() <= points.len()
    &&& points.len() > 0 && k > 0 ==> ids.len() > 0
    &&& forall|i: int| 0 <= i < ids.len() ==> holds_id(points, #[trigger] ids[i])
}

proof fn lemma_fetched(h: Map<Seq<char>, Seq<char>>, ids: Seq<usize>, values: Seq<Option<String>>)
    requires
        ids.len() == values.len(),
        forall|i: int| 0 <= i < ids.len() ==> field_read(h, decimal(ids[i]), #[trigger] values[i]),
    ensures
        parsed_records(values) == fetched(h, ids),
        all_readable(values) <==> ids_readable(h, ids),
        ids.len() > 0 && h.contains_key(decimal(ids[0])) ==> fetched(h, ids).len() > 0,
    decreases ids.len(),
{
    if ids.len() > 0 {
        let n = ids.len() - 1;
        lemma_fetched(h, ids.drop_last(), values.drop_last());
        assert(field_read(h, decimal(ids[n]), values[n]));
        if all_readable(values) {
            assert forall|i: int|
                0 <= i < ids.len() && h.contains_key(decimal(#[trigger] ids[i])) implies parse_record(h[decimal(ids[i])]) is Some by {
                assert(field_read(h, decimal(ids[i]), values[i]));
            }
        }
        if ids_readable(h, ids) {
            assert forall|i: int| 0 <= i < values.len() implies match #[trigger] values[i] {
                Some(t) => parse_record(t@) is Some,
                None => true,
            } by {
                assert(field_read(h, decimal(ids[i]), values[i]));
            }
        }
        if !all_readable(values) {
            let i = choose|i: int| 0 <= i < values.len() && !match #[trigger] values[i] {
                Some(t) => parse_record(t@) is Some,
                None => true,
            };
            assert(field_read(h, decimal(ids[i]), values[i]));
        }
        if ids.len() > 0 && h.contains_key(decimal(ids[0])) {
            lemma_fetched_nonempty(h, ids);
        }
    }
}

proof fn lemma_fetched_found(h: Map<Seq<char>, Seq<char>>, points: Seq<PointView>, ids: Seq<usize>)
    requires
        forall|i: int| 0 <= i < ids.len() ==> holds_id(points, #[trigger] ids[i]),
        ids_readable(h, ids),
    ensures
        fetched(h, ids).len() <= ids.len(),
        forall|m: int| 0 <= m < fetched(h, ids).len() ==> found_in_store(h, points, #[trigger] fetched(h, ids)[m]),
    decreases ids.len(),
{
    if ids.len() > 0 {
        let n = ids.len() - 1;
        let pre = ids.drop_last();
        assert forall|i: int| 0 <= i < pre.len() implies holds_id(points, #[trigger] pre[i]) by {
            assert(pre[i] == ids[i]);
        }
        assert forall|i: int| 0 <= i < pre.len() && h.contains_key(decimal(#[trigger] pre[i])) implies parse_record(h[decimal(pre[i])]) is Some by {
            assert(pre[i] == ids[i]);
        }
        lemma_fetched_found(h, points, pre);
        let f = fetched(h, ids);
        let rest = fetched(h, pre);
        assert forall|m: int| 0 <= m < f.len() implies found_in_store(h, points, #[trigger] f[m]) by {
            if m < rest.len() {
                assert(f[m] == rest[m]);
            } else {
                assert(holds_id(points, ids[n]));
                assert(h.contains_key(decimal(ids[n])));
            }
        }
    }
}

proof fn lemma_fetched_nonempty(h: Map<Seq<char>, Seq<char>>, ids: Seq<usize>)
    requires
        ids.len() > 0,
        h.contains_key(decimal(ids[0])),
    ensures
        fetched(h, ids).len() > 0,
    decreases ids.len(),
{
    if ids.len() > 1 {
        lemma_fetched_nonempty(h, ids.drop_last());
    }
}

/// Reads the records out of what the store returned for a list of fields:
/// absent fields are left out, and a present value that does not read as a
/// record fails the whole read.
pub fn collect_records(values: Vec<Option<String>>) -> (r: Result<Vec<EmbeddingData>, CacheError>)
    ensures
        r is Ok <==> all_readable(values@),
        r is Err ==> r == Err::<Vec<EmbeddingData>, CacheError>(CacheError::Encoding),
        r matches Ok(v) ==> records_view(v@) == parsed_records(values@),
{
    let mut out: Vec<EmbeddingData> = Vec::new();
    let mut i: usize = 0;
    while i < values.len()
        invariant
            i <= values.len(),
            all_readable(values@.take(i as int)),
            records_view(out@) == parsed_records(values@.take(i as int)),
        decreases values.len() - i,
    {
        let ghost pre = values@.take(i as int);
        proof {
            assert(values@.take(i + 1).drop_last() =~= pre);
            assert(values@.take(i + 1).last() == values@[i as int]);
        }
        match &values[i] {
            Some(json) => {
                match decode_record(json.as_str()) {
                    Ok(d) => {
                        let ghost before = records_view(out@);
                        out.push(d);
                        proof {
                            assert(records_view(out@) =~= before.push(d@));
                        }
                    },
                    Err(_) => {
                        proof {
                            assert(!match values@[i as int] {
                                Some(t) => parse_record(t@) is Some,
                                None => true,
                            });
                        }
                        return Err(CacheError::Encoding);
                    },
                }
            },
            None => {},
        }
        proof {
            assert forall|j: int| 0 <= j < i + 1 implies match #[trigger] values@.take(i + 1)[j] {
                Some(t) => parse_record(t@) is Some,
                None => true,
            } by {
                if j < i {
                    assert(values@.take(i + 1)[j] == pre[j]);
                }
            }
        }
        i = i + 1;
    }
    proof {
        assert(values@.take(values.len() as int) =~= values@);
    }
    Ok(out)
}

/// The index's size after an insert into an index of `count` points sized
/// for `capacity`: it grows by `step` when the count is past the size.
pub open spec fn grown_capacity(count: nat, capacity: nat, step: nat) -> nat {
    if count > capacity {
        if count + step <= usize::MAX {
            count + step
        } else {
            usize::MAX as nat
        }
    } else {
        capacity
    }
}

/// What a rebuild from records `rr` leaves: one point per record, the last
/// record's first; an index sized for the records, or for one point when
/// there are none; and a next id past every id among them, or the old next
/// id when there are none.
pub open spec fn rebuild_outcome(
    rr: Seq<RecordView>,
    old_next: nat,
    next: nat,
    points: Seq<PointView>,
    capacity: nat,
) -> bool {
    &&& points.len() == rr.len()
    &&& forall|j: int| 0 <= j < rr.len() ==> #[trigger] points[j] == record_point(rr[rr.len() - 1 - j])
    &&& capacity == if rr.len() == 0 {
        1
    } else {
        rr.len()
    }
    &&& next == if rr.len() == 0 || old_next > max_id_from(rr, 0) {
        old_next
    } else {
        max_id_from(rr, 0) + 1
    }
}

/// The largest id among `s[i..]`; 0 when there is none.
pub open spec fn max_id_from(s: Seq<RecordView>, i: int) -> nat
    decreases s.len() - i,
{
    if i < 0 || i >= s.len() {
        0
    } else {
        let rest = max_id_from(s, i + 1);
        if s[i].0 as nat > rest {
            s[i].0 as nat
        } else {
            rest
        }
    }
}

proof fn lemma_max_id_at_least(s: Seq<RecordView>, i: int, m: int)
    requires
        0 <= i <= m < s.len(),
    ensures
        s[m].0 <= max_id_from(s, i),
    decreases m - i,
{
    if i < m {
        lemma_max_id_at_least(s, i + 1, m);
    }
}

proof fn lemma_max_id_bound(s: Seq<RecordView>, i: int, b: nat)
    requires
        0 <= i <= s.len(),
        b > 0,
        forall|m: int| i <= m < s.len() ==> (#[trigger] s[m]).0 < b,
    ensures
        max_id_from(s, i) < b,
    decreases s.len() - i,
{
    if i < s.len() {
        lemma_max_id_bound(s, i + 1, b);
    }
}

/// The records that the values of `pairs` read as, in order, with values
/// that do not read as a record left out.
pub open spec fn readable_records(pairs: Seq<(String, String)>) -> Seq<RecordView>
    decreases pairs.len(),
{
    if pairs.len() == 0 {
        Seq::empty()
    } else {
        let rest = readable_records(pairs.drop_last());
        match parse_record(pairs.last().1@) {
            Some(rec) => rest.push(rec),
            None => rest,
        }
    }
}

/// The value of some pair of `pairs` reads as record `rec`.
pub open spec fn read_from_some_pair(pairs: Seq<(String, String)>, rec: RecordView) -> bool {
    exists|j: int| 0 <= j < pairs.len() && parse_record((#[trigger] pairs[j]).1@) == Some(rec)
}

/// The records that the values of `pairs` read as, in order; values that do
/// not read as a record are left out.
pub fn records_from_pairs(pairs: &Vec<(String, String)>) -> (r: Vec<EmbeddingData>)
    ensures
        records_view(r@) == readable_records(pairs@),
        forall|m: int| 0 <= m < r.len() ==> read_from_some_pair(pairs@, #[trigger] records_view(r@)[m]),
        forall|j: int|
            0 <= j < pairs.len() && parse_record((#[trigger] pairs@[j]).1@) is Some ==> records_view(r@).contains(
                parse_record(pairs@[j].1@)->Some_0,
            ),
{
    let mut out: Vec<EmbeddingData> = Vec::new();
    let mut i: usize = 0;
    while i < pairs.len()
        invariant
            i <= pairs.len(),
            records_view(out@) == readable_records(pairs@.take(i as int)),
            forall|m: int| 0 <= m < out.len() ==> read_from_some_pair(pairs@, #[trigger] records_view(out@)[m]),
            forall|j: int|
                0 <= j < i && parse_record((#[trigger] pairs@[j]).1@) is Some ==> records_view(out@).contains(
                    parse_record(pairs@[j].1@)->Some_0,
                ),
        decreases pairs.len() - i,
    {
        let ghost before = records_view(out@);
        proof {
            assert(pairs@.take(i + 1).drop_last() =~= pairs@.take(i as int));
            assert(pairs@.take(i + 1).last() == pairs@[i as int]);
        }
        match decode_record(pairs[i].1.as_str()) {
            Ok(d) => {
                out.push(d);
                proof {
                    assert(records_view(out@) =~= before.push(d@));
                    assert forall|m: int| 0 <= m < out.len() implies read_from_some_pair(pairs@, #[trigger] records_view(out@)[m]) by {
                        if m < before.len() {
                            assert(records_view(out@)[m] == before[m]);
                        } else {
                            assert(parse_record(pairs@[i as int].1@) == Some(d@));
                        }
                    }
                    assert forall|j: int|
                        0 <= j < i + 1 && parse_record((#[trigger] pairs@[j]).1@) is Some implies records_view(
                            out@,
                        ).contains(parse_record(pairs@[j].1@)->Some_0) by {
                        if j < i {
                            let m = choose|m: int| 0 <= m < before.len() && before[m] == parse_record(pairs@[j].1@)->Some_0;
                            assert(records_view(out@)[m] == before[m]);
                        } else {
                            assert(records_view(out@)[before.len() as int] == d@);
                        }
                    }
                }
            },
            Err(_) => {},
        }
        i = i + 1;
    }
    proof {
        assert(pairs@.take(pairs.len() as int) =~= pairs@);
    }
    out
}

/// A semantic cache over a record store `C` and an index `I`.
pub struct Cache<C: CacheClient, I: ANNIndex> {
    client: C,
    ann_index: I,
    embedding_size: usize,
    index_initialized: bool,
    current_id: usize,
    cache_ttl: i64,
    redis_key: String,
    initial_capacity: usize,
    growth_step: usize,
}

impl<C: CacheClient, I: ANNIndex> Cache<C, I> {
    /// What the record store holds.
    pub closed spec fn hashes(&self) -> Hashes {
        self.client.hashes()
    }

    /// The points in the index.
    pub closed spec fn index_points(&self) -> Seq<PointView> {
        self.ann_index.points()
    }

    /// The id the next record gets.
    pub closed spec fn next_id(&self) -> nat {
        self.current_id as nat
    }

    /// Whether the index has been built.
    pub closed spec fn initialized(&self) -> bool {
        self.index_initialized
    }

    /// The length of every embedding.
    pub closed spec fn dimension(&self) -> nat {
        self.embedding_size as nat
    }

    /// The store key that holds this cache's records.
    pub closed spec fn key(&self) -> Seq<char> {
        self.redis_key@
    }

    /// The expiry last set on each key of the store.
    pub closed spec fn expiries(&self) -> Map<Seq<char>, int> {
        self.client.expiries()
    }

    /// Seconds before the records expire; 0 for never.
    pub closed spec fn ttl(&self) -> int {
        self.cache_ttl as int
    }

    /// The number of points the index is sized for.
    pub closed spec fn index_capacity(&self) -> nat {
        self.ann_index.max_elements()
    }

    /// The index's starting size and its growth step.
    pub closed spec fn capacity_policy(&self) -> (nat, nat) {
        (self.initial_capacity as nat, self.growth_step as nat)
    }

    pub closed spec fn wf(&self) -> bool {
        &&& self.index_initialized ==> {
            &&& self.ann_index.wf()
            &&& self.ann_index.dimension() == self.embedding_size
            &&& ids_below(self.ann_index.points(), self.current_id as nat)
        }
        &&& self.initial_capacity >= 1
        &&& self.cache_ttl >= 0
    }

    /// This cache's settings are those of `other`.
    pub open spec fn same_settings(&self, other: &Self) -> bool {
        &&& self.dimension() == other.dimension()
        &&& self.key() == other.key()
        &&& self.ttl() == other.ttl()
        &&& self.capacity_policy() == other.capacity_policy()
    }

    /// A cache over `client` and `ann_index`, keeping its records under
    /// `redis_key`, for embeddings of `embedding_size`. Records expire
    /// `cache_ttl` seconds after the last write; 0 keeps them.
    pub fn new(client: C, ann_index: I, redis_key: String, embedding_size: usize, cache_ttl: i64) -> (r: Self)
        requires
            cache_ttl >= 0,
        ensures
            r.wf(),
            !r.initialized(),
            r.next_id() == 0,
            r.hashes() == client.hashes(),
            r.expiries() == client.expiries(),
            r.key() == redis_key@,
            r.dimension() == embedding_size,
            r.ttl() == cache_ttl,
            r.capacity_policy() == (DEFAULT_INITIAL_CAPACITY as nat, DEFAULT_GROWTH_STEP as nat),
    {
        Cache {
            client,
            ann_index,
            embedding_size,
            index_initialized: false,
            current_id: 0,
            cache_ttl,
            redis_key,
            initial_capacity: DEFAULT_INITIAL_CAPACITY,
            growth_step: DEFAULT_GROWTH_STEP,
        }
    }

    /// Stores a record of `query`, its `embedding` and its `response` under
    /// the next id, then adds the embedding to the index, building the index
    /// first if need be and growing it when it is full.
    pub fn store_embedding(&mut self, query: String, embedding: Vec<i16>, response: String) -> (r: Result<(), CacheError>)
        requires
            old(self).wf(),
        ensures
            final(self).wf(),
            final(self).same_settings(old(self)),
            embedding.len() != old(self).dimension() ==> r == Err::<(), CacheError>(
                CacheError::DimensionMismatch { expected: old(self).dimension() as usize, found: embedding.len() },
            ) && *final(self) == *old(self),
            embedding.len() == old(self).dimension() && old(self).next_id() == usize::MAX ==> r
                == Err::<(), CacheError>(CacheError::InvalidState) && *final(self) == *old(self),
            r is Err ==> final(self).initialized() == old(self).initialized(),
            r is Err ==> final(self).index_points() == old(self).index_points(),
            r is Err ==> final(self).index_capacity() == old(self).index_capacity(),
            final(self).initialized() ==> ids_below(final(self).index_points(), final(self).next_id()),
            old(self).initialized() ==> final(self).index_capacity() >= old(self).index_capacity(),
            r is Ok ==> final(self).index_capacity() == (if old(self).initialized() {
                grown_capacity(old(self).index_points().len(), old(self).index_capacity(), old(self).capacity_policy().1)
            } else {
                grown_capacity(0, old(self).capacity_policy().0, old(self).capacity_policy().1)
            }),
            r is Ok ==> {
                &&& embedding.len() == old(self).dimension()
                &&& final(self).initialized()
                &&& final(self).next_id() == old(self).next_id() + 1
                &&& holds_record(
                    hash_at(final(self).hashes(), old(self).key()),
                    old(self).next_id() as usize,
                    query@,
                    embedding@,
                    response@,
                )
                &&& final(self).hashes() == old(self).hashes().insert(
                    old(self).key(),
                    hash_at(old(self).hashes(), old(self).key()).insert(
                        decimal(old(self).next_id() as usize),
                        hash_at(final(self).hashes(), old(self).key())[decimal(old(self).next_id() as usize)],
                    ),
                )
                &&& old(self).ttl() != 0 ==> final(self).expiries() == old(self).expiries().insert(
                    old(self).key(),
                    old(self).ttl(),
                )
                &&& old(self).ttl() == 0 ==> final(self).expiries() == old(self).expiries()
                &&& final(self).index_points() == (if old(self).initialized() {
                    old(self).index_points()
                } else {
                    Seq::<PointView>::empty()
                }).push((embedding@, old(self).next_id() as usize))
            },
    {
        if embedding.len() != self.embedding_size {
            return Err(CacheError::DimensionMismatch { expected: self.embedding_size, found: embedding.len() });
        }
        if self.current_id == usize::MAX {
            return Err(CacheError::InvalidState);
        }
        let id = self.current_id;
        let timestamp = get_unix_seconds();
        let data = EmbeddingData { id, query, embedding, response, timestamp };
        let text = match encode_record(&data) {
            Ok(t) => t,
            Err(_) => return Err(CacheError::Encoding),
        };
        let field = id_field(id);
        let ghost h0 = self.client.hashes();
        match self.client.h_set(self.redis_key.as_str(), field.as_str(), text.as_str()) {
            Ok(()) => {},
            Err(e) => return Err(e),
        }
        let ghost h1 = self.client.hashes();
        self.current_id = id + 1;
        if self.cache_ttl != 0 {
            match self.client.expire(self.redis_key.as_str(), self.cache_ttl) {
                Ok(()) => {},
                Err(e) => return Err(e),
            }
        }
        proof {
            assert(hash_at(h1, self.redis_key@) == hash_at(h0, self.redis_key@).insert(field@, text@));
            assert(holds_record(hash_at(self.client.hashes(), self.redis_key@), id, data.query@, data.embedding@, data.response@));
        }
        if !self.index_initialized {
            self.ann_index.init_index(self.initial_capacity, self.embedding_size);
            self.index_initialized = true;
        }
        let ghost before = self.ann_index.points();
        let count = self.ann_index.get_curr_ct();
        let max_elements = self.ann_index.get_max_elements();
        if count > max_elements {
            let new_size: usize = if count <= usize::MAX - self.growth_step {
                count + self.growth_step
            } else {
                usize::MAX
            };
            self.ann_index.resize(new_size);
        }
        let added = self.ann_index.add_pt(data.embedding, id);
        proof {
            assert(added is Ok);
            let pts = self.ann_index.points();
            assert forall|j: int| 0 <= j < pts.len() implies (#[trigger] pts[j]).1 < self.current_id by {
                if j < before.len() {
                    assert(pts[j] == before[j]);
                }
            }
        }
        Ok(())
    }

    /// Every record stored under this cache's key; fields that do not read
    /// as a record are left out.
    pub fn get_all_embeddings(&mut self) -> (r: Result<Vec<EmbeddingData>, CacheError>)
        requires
            old(self).wf(),
        ensures
            final(self).wf(),
            final(self).same_settings(old(self)),
            final(self).hashes() == old(self).hashes(),
            final(self).index_points() == old(self).index_points(),
            final(self).initialized() == old(self).initialized(),
            final(self).next_id() == old(self).next_id(),
            r matches Ok(v) ==> lists_records(records_view(v@), hash_at(old(self).hashes(), old(self).key())),
            r matches Ok(v) ==> exists|pairs: Seq<(String, String)>|
                lists_hash(pairs, hash_at(old(self).hashes(), old(self).key())) && records_view(v@)
                    == #[trigger] readable_records(pairs),
    {
        let pairs = match self.client.h_get_all(self.redis_key.as_str()) {
            Ok(p) => p,
            Err(e) => return Err(e),
        };
        let ghost h = hash_at(self.client.hashes(), self.redis_key@);
        let out = records_from_pairs(&pairs);
        proof {
            let v = records_view(out@);
            assert forall|m: int| 0 <= m < v.len() implies record_stored(h, #[trigger] v[m]) by {
                assert(read_from_some_pair(pairs@, v[m]));
                let j = choose|j: int| 0 <= j < pairs@.len() && parse_record((#[trigger] pairs@[j]).1@) == Some(v[m]);
                assert(h.contains_key(pairs@[j].0@));
            }
            assert forall|f: Seq<char>|
                #[trigger] h.contains_key(f) && parse_record(h[f]) is Some implies v.contains(parse_record(h[f])->Some_0) by {
                let j = choose|j: int| 0 <= j < pairs@.len() && (#[trigger] pairs@[j]).0@ == f;
                assert(h[pairs@[j].0@] == pairs@[j].1@);
            }
            assert(lists_hash(pairs@, h) && records_view(out@) == readable_records(pairs@));
        }
        Ok(out)
    }

    /// Builds the index from `records`, the last record's point first, and
    /// moves the next id past every id among them. An empty list gives an
    /// empty index sized for one point. A record of the wrong length, or one
    /// whose id leaves no next id, fails the rebuild.
    fn rebuild_from_records(&mut self, records: Vec<EmbeddingData>) -> (r: Result<(), CacheError>)
        requires
            old(self).wf(),
            !old(self).initialized(),
        ensures
            final(self).wf(),
            final(self).same_settings(old(self)),
            final(self).hashes() == old(self).hashes(),
            r is Ok <==> (forall|m: int|
                0 <= m < records.len() ==> (#[trigger] records@[m]).embedding.len() == old(self).dimension())
                && (forall|m: int| 0 <= m < records.len() ==> (#[trigger] records@[m]).id < usize::MAX),
            r is Ok ==> final(self).initialized(),
            r is Ok ==> rebuild_outcome(
                records_view(records@),
                old(self).next_id(),
                final(self).next_id(),
                final(self).index_points(),
                final(self).index_capacity(),
            ),
            r is Err ==> !final(self).initialized() && final(self).next_id() == old(self).next_id(),
    {
        let ghost orig = records@;
        let mut pending = records;
        let ghost all = records_view(pending@);
        let n = pending.len();
        if n == 0 {
            self.ann_index.init_index(1, self.embedding_size);
            self.index_initialized = true;
            return Ok(());
        }
        self.ann_index.init_index(n, self.embedding_size);
        let mut max_id: usize = 0;
        while pending.len() > 0
            invariant
                pending.len() <= n,
                n == all.len(),
                all == records_view(orig),
                orig == records@,
                records_view(pending@) == all.take(pending.len() as int),
                self.ann_index.wf(),
                self.ann_index.dimension() == self.embedding_size,
                self.ann_index.max_elements() == n,
                !self.index_initialized,
                self.initial_capacity >= 1,
                self.client.hashes() == old(self).client.hashes(),
                self.embedding_size == old(self).embedding_size,
                self.redis_key@ == old(self).redis_key@,
                self.cache_ttl == old(self).cache_ttl,
                self.cache_ttl >= 0,
                self.initial_capacity == old(self).initial_capacity,
                self.growth_step == old(self).growth_step,
                self.current_id == old(self).current_id,
                self.ann_index.points().len() == n - pending.len(),
                forall|j: int|
                    0 <= j < n - pending.len() ==> #[trigger] self.ann_index.points()[j] == record_point(
                        all[n - 1 - j],
                    ),
                forall|m: int| pending.len() <= m < n ==> (#[trigger] all[m]).2.len() == self.embedding_size,
                max_id == max_id_from(all, pending.len() as int),
            decreases pending.len(),
        {
            let ghost before = self.ann_index.points();
            let ghost len = pending.len();
            let d = match pending.pop() {
                Some(d) => d,
                None => return Err(CacheError::InvalidState),
            };
            proof {
                assert(records_view(pending@) =~= all.take(pending.len() as int));
                assert(all[len - 1] == d@) by {
                    assert(all.take(len as int)[len - 1] == all[len - 1]);
                }
            }
            if d.id > max_id {
                max_id = d.id;
            }
            let ghost pt = (d.embedding@, d.id);
            let ghost dlen = d.embedding.len();
            match self.ann_index.add_pt(d.embedding, d.id) {
                Ok(()) => {},
                Err(e) => {
                    proof {
                        assert(dlen != self.embedding_size);
                        assert(all[len - 1] == orig[len - 1]@);
                        assert(orig[len - 1].embedding.len() != old(self).dimension());
                        assert(0 <= len - 1 < orig.len());
                        assert(!(forall|m: int|
                            0 <= m < orig.len() ==> (#[trigger] orig[m]).embedding.len() == old(self).dimension()));
                    }
                    return Err(e);
                },
            }
            proof {
                let pts = self.ann_index.points();
                assert(pts == before.push(pt));
                assert forall|j: int| 0 <= j < n - pending.len() implies #[trigger] pts[j] == record_point(all[n - 1 - j]) by {
                    if j < before.len() {
                        assert(pts[j] == before[j]);
                    }
                }
            }
        }
        proof {
            assert(all =~= records_view(orig));
            assert forall|m: int| 0 <= m < n implies (#[trigger] orig[m]).embedding.len() == old(self).dimension() by {
                assert(all[m] == orig[m]@);
            }
        }
        if max_id == usize::MAX {
            proof {
                if forall|m: int| 0 <= m < n ==> (#[trigger] orig[m]).id < usize::MAX {
                    assert forall|m: int| 0 <= m < all.len() implies (#[trigger] all[m]).0 < usize::MAX by {
                        assert(all[m] == orig[m]@);
                    }
                    lemma_max_id_bound(all, 0, usize::MAX as nat);
                }
            }
            return Err(CacheError::InvalidState);
        }
        proof {
            assert forall|m: int| 0 <= m < n implies (#[trigger] orig[m]).id < usize::MAX by {
                assert(all[m] == orig[m]@);
                lemma_max_id_at_least(all, 0, m);
            }
        }
        if self.current_id <= max_id {
            self.current_id = max_id + 1;
        }
        self.index_initialized = true;
        proof {
            let pts = self.ann_index.points();
            assert forall|j: int| 0 <= j < pts.len() implies (#[trigger] pts[j]).1 < self.current_id by {
                lemma_max_id_at_least(all, 0, n - 1 - j);
            }
            assert forall|j: int| 0 <= j < n implies #[trigger] pts[j] == record_point(orig[n - 1 - j]@) by {
                assert(all[n - 1 - j] == orig[n - 1 - j]@);
            }
        }
        Ok(())
    }

    /// Builds the index from the records in the store, and moves the next id
    /// past every id among them.
    fn load_index(&mut self) -> (r: Result<(), CacheError>)
        requires
            old(self).wf(),
            !old(self).initialized(),
        ensures
            final(self).wf(),
            final(self).same_settings(old(self)),
            final(self).hashes() == old(self).hashes(),
            r is Ok ==> final(self).initialized(),
            r is Ok ==> rebuilt_from(final(self).index_points(), hash_at(old(self).hashes(), old(self).key())),
            r is Ok ==> final(self).next_id() >= old(self).next_id(),
            r is Ok ==> exists|pairs: Seq<(String, String)>|
                lists_hash(pairs, hash_at(old(self).hashes(), old(self).key())) && rebuild_outcome(
                    #[trigger] readable_records(pairs),
                    old(self).next_id(),
                    final(self).next_id(),
                    final(self).index_points(),
                    final(self).index_capacity(),
                ),
            r is Err ==> !final(self).initialized() && final(self).next_id() == old(self).next_id(),
    {
        let records = match self.get_all_embeddings() {
            Ok(v) => v,
            Err(e) => return Err(e),
        };
        let ghost h = hash_at(self.client.hashes(), self.redis_key@);
        let ghost all = records_view(records@);
        let ghost n = records.len() as int;
        let r = self.rebuild_from_records(records);
        proof {
            if r is Ok {
                let pts = self.index_points();
                assert forall|p: PointView| pts.contains(p) <==> stored_point(h, p) by {
                    if pts.contains(p) {
                        let j = choose|j: int| 0 <= j < pts.len() && pts[j] == p;
                        let m = n - 1 - j;
                        assert(pts[j] == record_point(all[m]));
                        assert(record_stored(h, all[m]));
                        let f = choose|f: Seq<char>| #[trigger] h.contains_key(f) && parse_record(h[f]) == Some(all[m]);
                        assert(h.contains_key(f) && parse_record(h[f]) is Some && record_point(parse_record(h[f])->Some_0) == p);
                    }
                    if stored_point(h, p) {
                        let f = choose|f: Seq<char>|
                            #[trigger] h.contains_key(f) && parse_record(h[f]) is Some && record_point(
                                parse_record(h[f])->Some_0,
                            ) == p;
                        assert(all.contains(parse_record(h[f])->Some_0));
                        let m = choose|m: int| 0 <= m < all.len() && all[m] == parse_record(h[f])->Some_0;
                        assert(pts[n - 1 - m] == record_point(all[m]));
                    }
                }
            }
        }
        r
    }

    /// The records nearest to `embedding`, at most `k` of them, nearest
    /// first. Builds the index from the store on first use. Ids that the
    /// store no longer holds are left out.
    pub fn semantic_search(&mut self, embedding: &[i16], k: usize) -> (r: Result<Vec<EmbeddingData>, CacheError>)
        requires
            old(self).wf(),
        ensures
            final(self).wf(),
            final(self).same_settings(old(self)),
            final(self).hashes() == old(self).hashes(),
            embedding.len() != old(self).dimension() ==> r == Err::<Vec<EmbeddingData>, CacheError>(
                CacheError::DimensionMismatch { expected: old(self).dimension() as usize, found: embedding.len() },
            ) && *final(self) == *old(self),
            old(self).initialized() ==> final(self).initialized() && final(self).index_points() == old(
                self,
            ).index_points() && final(self).next_id() == old(self).next_id(),
            r is Ok ==> final(self).initialized(),
            r is Ok && !old(self).initialized() ==> rebuilt_from(
                final(self).index_points(),
                hash_at(old(self).hashes(), old(self).key()),
            ),
            r is Ok && !old(self).initialized() ==> exists|pairs: Seq<(String, String)>|
                lists_hash(pairs, hash_at(old(self).hashes(), old(self).key())) && rebuild_outcome(
                    #[trigger] readable_records(pairs),
                    old(self).next_id(),
                    final(self).next_id(),
                    final(self).index_points(),
                    final(self).index_capacity(),
                ),
            final(self).initialized() ==> ids_below(final(self).index_points(), final(self).next_id()),
            r matches Ok(v) ==> exists|ids: Seq<usize>|
                search_answer(final(self).index_points(), k as nat, ids) && ids_readable(
                    hash_at(final(self).hashes(), final(self).key()),
                    ids,
                ) && records_view(v@) == #[trigger] fetched(hash_at(final(self).hashes(), final(self).key()), ids),
            r matches Ok(v) ==> v.len() <= k && v.len() <= final(self).index_points().len(),
            r matches Ok(v) ==> forall|i: int|
                0 <= i < v.len() ==> found_in_store(
                    hash_at(final(self).hashes(), final(self).key()),
                    final(self).index_points(),
                    #[trigger] v@[i]@,
                ),
            final(self).index_points().len() > 0 && k > 0 && (forall|id: usize|
                holds_id(final(self).index_points(), id) ==> #[trigger] hash_at(
                    final(self).hashes(),
                    final(self).key(),
                ).contains_key(decimal(id))) ==> (r matches Ok(v) ==> v.len() > 0),
            old(self).initialized() && embedding.len() == old(self).dimension() && (k == 0
                || old(self).index_points().len() == 0) ==> (r matches Ok(v) && v.len() == 0),
    {
        if embedding.len() != self.embedding_size {
            return Err(CacheError::DimensionMismatch { expected: self.embedding_size, found: embedding.len() });
        }
        if !self.index_initialized {
            match self.load_index() {
                Ok(()) => {},
                Err(e) => return Err(e),
            }
        }
        let count = self.ann_index.get_curr_ct();
        let adjusted_k: usize = if k < count { k } else { count };
        if adjusted_k == 0 {
            let r: Vec<EmbeddingData> = Vec::new();
            proof {
                let h = hash_at(self.client.hashes(), self.redis_key@);
                let none = Seq::<usize>::empty();
                assert(records_view(r@) =~= fetched(h, none));
                assert(search_answer(self.ann_index.points(), k as nat, none));
                assert(ids_readable(h, none));
            }
            return Ok(r);
        }
        let ids = self.ann_index.search_knn(embedding, adjusted_k);
        let mut fields: Vec<String> = Vec::new();
        let mut i: usize = 0;
        while i < ids.len()
            invariant
                i <= ids.len(),
                fields.len() == i,
                forall|j: int| 0 <= j < i ==> (#[trigger] fields@[j])@ == decimal(ids@[j]),
            decreases ids.len() - i,
        {
            fields.push(id_field(ids[i]));
            i = i + 1;
        }
        let ghost h = hash_at(self.client.hashes(), self.redis_key@);
        let values = match self.client.hm_get(self.redis_key.as_str(), fields.as_slice()) {
            Ok(v) => v,
            Err(e) => return Err(e),
        };
        proof {
            assert(fields@.len() == ids@.len());
            assert forall|j: int| 0 <= j < ids@.len() implies field_read(h, decimal(ids@[j]), #[trigger] values@[j]) by {
                assert(fields@[j]@ == decimal(ids@[j]));
            }
            lemma_fetched(h, ids@, values@);
        }
        let r = collect_records(values);
        proof {
            if r is Ok {
                let v = r->Ok_0;
                lemma_fetched_found(h, self.ann_index.points(), ids@);
                assert(search_answer(self.ann_index.points(), k as nat, ids@));
                assert(v@.len() == records_view(v@).len());
                assert forall|i: int| 0 <= i < v.len() implies found_in_store(h, self.ann_index.points(), #[trigger] v@[i]@) by {
                    assert(records_view(v@)[i] == v@[i]@);
                }
                assert(ids@.len() > 0);
                assert(holds_id(self.ann_index.points(), ids@[0]));
                if h.contains_key(decimal(ids@[0])) {
                    lemma_fetched_nonempty(h, ids@);
                }
                assert(records_view(v@) == fetched(h, ids@));
                assert(ids_readable(h, ids@));
                assert(h == hash_at(self.hashes(), self.key()));
                assert(self.index_points() == self.ann_index.points());
                assert(search_answer(self.index_points(), k as nat, ids@) && ids_readable(
                    hash_at(self.hashes(), self.key()),
                    ids@,
                ) && records_view(v@) == fetched(hash_at(self.hashes(), self.key()), ids@));
            }
        }
        r
    }

    /// Sets the index's starting size and the step it grows by when full.
    pub fn with_capacity_policy(self, initial_capacity: usize, growth_step: usize) -> (r: Self)
        requires
            self.wf(),
            initial_capacity >= 1,
        ensures
            r.wf(),
            r.capacity_policy() == (initial_capacity as nat, growth_step as nat),
            r.dimension() == self.dimension(),
            r.key() == self.key(),
            r.ttl() == self.ttl(),
            r.hashes() == self.hashes(),
            r.index_points() == self.index_points(),
            r.initialized() == self.initialized(),
            r.next_id() == self.next_id(),
    {
        Cache { initial_capacity, growth_step, ..self }
    }
}

/// Rebuilding is idempotent: two indexes rebuilt from the same stored
/// records hold the same points, whatever order the store listed them in.
pub proof fn lemma_rebuild_idempotent(first: Seq<PointView>, second: Seq<PointView>, h: Map<Seq<char>, Seq<char>>)
    requires
        rebuilt_from(first, h),
        rebuilt_from(second, h),
    ensures
        first.to_set() == second.to_set(),
{
    assert(first.to_set() =~= second.to_set());
}

/// A store under the next id overwrites no record: when every field of the
/// hash names an id below `next`, no field names `next` yet, and after the
/// store every field names an id below `next + 1`.
pub proof fn lemma_next_field_is_fresh(h: Map<Seq<char>, Seq<char>>, next: usize, value: Seq<char>)
    requires
        next < usize::MAX,
        forall|f: Seq<char>| #[trigger]
            h.contains_key(f) ==> exists|id: usize| id < next && #[trigger] decimal(id) == f,
    ensures
        !h.contains_key(decimal(next)),
        forall|f: Seq<char>| #[trigger]
            h.insert(decimal(next), value).contains_key(f) ==> exists|id: usize|
                id < next + 1 && #[trigger] decimal(id) == f,
{
    if h.contains_key(decimal(next)) {
        let id = choose|id: usize| id < next && #[trigger] decimal(id) == decimal(next);
        crate::record::lemma_decimal_injective(id as nat, next as nat);
    }
    assert forall|f: Seq<char>| #[trigger] h.insert(decimal(next), value).contains_key(f) implies exists|id: usize|
        id < next + 1 && #[trigger] decimal(id) == f by {
        if f == decimal(next) {
            assert(decimal(next) == f);
        } else {
            assert(h.contains_key(f));
        }
    }
}

} // verus!
