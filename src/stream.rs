use vstd::prelude::*;

verus! {

/// A position in space, in the integer units of the dataset's coordinates.
#[derive(Clone, Copy, Debug, PartialEq, Eq, Structural)]
pub struct Point3 {
    pub x: i64,
    pub y: i64,
    pub z: i64,
}

/// An axis-aligned box, corners included.
#[derive(Clone, Copy, Debug, PartialEq, Eq, Structural)]
pub struct Aabb {
    pub min: Point3,
    pub max: Point3,
}

pub open spec fn in_box(p: Point3, b: Aabb) -> bool {
    &&& b.min.x <= p.x <= b.max.x
    &&& b.min.y <= p.y <= b.max.y
    &&& b.min.z <= p.z <= b.max.z
}

impl Aabb {
    pub fn new(min: Point3, max: Point3) -> (r: Aabb)
        ensures
            r.min == min && r.max == max,
    {
        Aabb { min, max }
    }

    /// Whether `p` lies in the box, faces included.
    pub fn contains(&self, p: &Point3) -> (r: bool)
        ensures
            r == in_box(*p, *self),
    {
        self.min.x <= p.x && p.x <= self.max.x && self.min.y <= p.y && p.y <= self.max.y
            && self.min.z <= p.z && p.z <= self.max.z
    }
}

#[derive(Clone, Copy, Debug, PartialEq, Eq, Structural)]
pub struct Color {
    pub red: u8,
    pub green: u8,
    pub blue: u8,
}

/// One stored point with all of its attributes.
#[derive(Clone, Copy, Debug, PartialEq, Eq, Structural)]
pub struct PointRecord {
    pub position: Point3,
    pub color: Color,
    pub intensity: i32,
}

/// An attribute that a query may ask for besides the position.
#[derive(Clone, Copy, Debug, PartialEq, Eq, Structural)]
pub enum Attribute {
    Color,
    Intensity,
}

/// What to fetch: the attributes wanted and the box the points must lie in.
#[derive(Clone, Debug, PartialEq, Eq)]
pub struct PointQuery {
    pub attributes: Vec<Attribute>,
    pub location: Aabb,
}

pub open spec fn wants(q: PointQuery, a: Attribute) -> bool {
    q.attributes@.contains(a)
}

/// A group of points: positions plus one array per requested attribute,
/// each as long as `position` (an attribute not requested stays empty).
#[derive(Clone, Debug, PartialEq, Eq)]
pub struct PointsBatch {
    pub position: Vec<Point3>,
    pub color: Vec<Color>,
    pub intensity: Vec<i32>,
}

pub open spec fn positions_of(s: Seq<PointRecord>) -> Seq<Point3> {
    s.map_values(|p: PointRecord| p.position)
}

pub open spec fn colors_of(s: Seq<PointRecord>) -> Seq<Color> {
    s.map_values(|p: PointRecord| p.color)
}

pub open spec fn intensities_of(s: Seq<PointRecord>) -> Seq<i32> {
    s.map_values(|p: PointRecord| p.intensity)
}

/// Whether `b` holds exactly the points `s` with the attributes that `q` asks for.
pub open spec fn batch_holds(b: PointsBatch, s: Seq<PointRecord>, q: PointQuery) -> bool {
    &&& b.position@ == positions_of(s)
    &&& b.color@ == if wants(q, Attribute::Color) {
        colors_of(s)
    } else {
        Seq::empty()
    }
    &&& b.intensity@ == if wants(q, Attribute::Intensity) {
        intensities_of(s)
    } else {
        Seq::empty()
    }
}

/// The predicate that holds of the points inside `b`.
pub open spec fn inside(b: Aabb) -> spec_fn(PointRecord) -> bool {
    |p: PointRecord| in_box(p.position, b)
}

/// The points of `sources`, location after location, that lie in `b`.
pub open spec fn gathered(sources: Seq<Seq<PointRecord>>, b: Aabb) -> Seq<PointRecord>
    decreases sources.len(),
{
    if sources.len() == 0 {
        Seq::empty()
    } else {
        gathered(sources.drop_last(), b) + sources.last().filter(inside(b))
    }
}

/// The batches that `s` is cut into: `size` points each, the last one
/// possibly shorter.
pub open spec fn batches(s: Seq<PointRecord>, size: nat) -> Seq<Seq<PointRecord>>
    decreases s.len(),
{
    if s.len() == 0 || size == 0 {
        Seq::empty()
    } else if s.len() <= size {
        seq![s]
    } else {
        seq![s.take(size as int)] + batches(s.skip(size as int), size)
    }
}

/// The concatenation of a sequence of batches.
pub open spec fn flatten(bs: Seq<Seq<PointRecord>>) -> Seq<PointRecord>
    decreases bs.len(),
{
    if bs.len() == 0 {
        Seq::empty()
    } else {
        bs[0] + flatten(bs.skip(1))
    }
}

/// Batching loses, repeats and reorders nothing, and no batch is empty or
/// holds more than `size` points.
pub proof fn lemma_batches_partition(s: Seq<PointRecord>, size: nat)
    requires
        size >= 1,
    ensures
        flatten(batches(s, size)) == s,
        forall|k: int|
            0 <= k < batches(s, size).len() ==> 1 <= #[trigger] batches(s, size)[k].len() <= size,
    decreases s.len(),
{
    let bs = batches(s, size);
    if s.len() == 0 {
    } else if s.len() <= size {
        assert(bs == seq![s]);
        assert(bs.skip(1) =~= Seq::<Seq<PointRecord>>::empty());
        assert(flatten(bs.skip(1)) == Seq::<PointRecord>::empty());
        assert(flatten(bs) =~= s);
    } else {
        let rest = s.skip(size as int);
        lemma_batches_partition(rest, size);
        assert(bs.skip(1) =~= batches(rest, size));
        assert(s.take(size as int) + rest =~= s);
        assert forall|k: int| 0 <= k < bs.len() implies 1 <= #[trigger] bs[k].len() <= size by {
            if k > 0 {
                assert(bs[k] == batches(rest, size)[k - 1]);
            }
        }
    }
}

/// Keeps the points of `points` that lie in `b`, in order.
pub fn filter_points(points: &Vec<PointRecord>, b: &Aabb) -> (r: Vec<PointRecord>)
    ensures
        r@ == points@.filter(inside(*b)),
{
    let mut out: Vec<PointRecord> = Vec::new();
    let mut i: usize = 0;
    while i < points.len()
        invariant
            i <= points@.len(),
            out@ == points@.subrange(0, i as int).filter(inside(*b)),
        decreases points@.len() - i,
    {
        proof {
            reveal(Seq::filter);
            assert(points@.subrange(0, i + 1).drop_last() =~= points@.subrange(0, i as int));
        }
        let p = points[i];
        if b.contains(&p.position) {
            out.push(p);
        }
        i = i + 1;
    }
    proof {
        assert(points@.subrange(0, points@.len() as int) =~= points@);
    }
    out
}

/// Builds the batch of `points[lo..hi]` with the attributes that `q` asks for.
pub fn make_batch(points: &Vec<PointRecord>, lo: usize, hi: usize, q: &PointQuery) -> (r:
    PointsBatch)
    requires
        lo <= hi <= points@.len(),
    ensures
        batch_holds(r, points@.subrange(lo as int, hi as int), *q),
{
    let with_color = has_attribute(&q.attributes, Attribute::Color);
    let with_intensity = has_attribute(&q.attributes, Attribute::Intensity);
    let mut r = PointsBatch { position: Vec::new(), color: Vec::new(), intensity: Vec::new() };
    let mut i: usize = lo;
    proof {
        let e = points@.subrange(lo as int, lo as int);
        assert(positions_of(e) =~= Seq::<Point3>::empty());
        assert(colors_of(e) =~= Seq::<Color>::empty());
        assert(intensities_of(e) =~= Seq::<i32>::empty());
    }
    while i < hi
        invariant
            lo <= i <= hi <= points@.len(),
            with_color == wants(*q, Attribute::Color),
            with_intensity == wants(*q, Attribute::Intensity),
            batch_holds(r, points@.subrange(lo as int, i as int), *q),
        decreases hi - i,
    {
        let p = points[i];
        r.position.push(p.position);
        if with_color {
            r.color.push(p.color);
        }
        if with_intensity {
            r.intensity.push(p.intensity);
        }
        proof {
            let s = points@.subrange(lo as int, i + 1);
            assert(s =~= points@.subrange(lo as int, i as int).push(p));
            assert(r.position@ =~= positions_of(s));
            if with_color {
                assert(r.color@ =~= colors_of(s));
            }
            if with_intensity {
                assert(r.intensity@ =~= intensities_of(s));
            }
        }
        i = i + 1;
    }
    r
}

/// A copy of `q` asking for the same attributes in the same box.
fn copy_query(q: &PointQuery) -> (r: PointQuery)
    ensures
        r.attributes@ == q.attributes@,
        r.location == q.location,
{
    let mut attributes: Vec<Attribute> = Vec::new();
    let mut i: usize = 0;
    while i < q.attributes.len()
        invariant
            i <= q.attributes@.len(),
            attributes@ == q.attributes@.subrange(0, i as int),
        decreases q.attributes@.len() - i,
    {
        attributes.push(q.attributes[i]);
        assert(attributes@ =~= q.attributes@.subrange(0, i + 1));
        i = i + 1;
    }
    assert(attributes@ =~= q.attributes@);
    PointQuery { attributes, location: q.location }
}

fn has_attribute(attrs: &Vec<Attribute>, a: Attribute) -> (r: bool)
    ensures
        r == attrs@.contains(a),
{
    let mut i: usize = 0;
    while i < attrs.len()
        invariant
            i <= attrs@.len(),
            forall|j: int| 0 <= j < i ==> attrs@[j] != a,
        decreases attrs@.len() - i,
    {
        if attrs[i] == a {
            return true;
        }
        i = i + 1;
    }
    false
}

} // verus!

verus! {

/// Invalid settings for a streamer.
#[derive(Clone, Copy, Debug, PartialEq, Eq, Structural)]
pub enum ConfigError {
    NoLocations,
    ZeroThreads,
    ZeroBatchSize,
}

/// What a consumer answers after receiving a batch.
#[derive(Clone, Copy, Debug, PartialEq, Eq, Structural)]
pub enum Flow {
    Continue,
    Stop,
}

/// How a query ended without failure, with the number of batches delivered.
#[derive(Clone, Copy, Debug, PartialEq, Eq, Structural)]
pub enum Completion {
    /// Every matching point was delivered.
    Finished(usize),
    /// The consumer asked to stop.
    Stopped(usize),
}

/// A location could not be read; carries the reader's message.
#[derive(Clone, Debug, PartialEq, Eq)]
pub enum StreamError {
    Source(String),
}

/// The consumer of a query's batches.
pub trait BatchSink {
    /// The batches received so far, each with the answer given to it.
    spec fn log(&self) -> Seq<(PointsBatch, Flow)>;

    /// Receives one batch and answers whether the stream should go on.
    fn consume(&mut self, batch: PointsBatch) -> (r: Flow)
        ensures
            final(self).log() == old(self).log().push((batch, r)),
    ;
}

/// A consumer that keeps every batch it receives, with its answer, and
/// asks to stop once it holds at least `limit` points.
pub struct BatchCollector {
    limit: usize,
    count: usize,
    received: Vec<(PointsBatch, Flow)>,
}

impl BatchCollector {
    pub closed spec fn spec_limit(&self) -> nat {
        self.limit as nat
    }

    pub closed spec fn spec_count(&self) -> nat {
        self.count as nat
    }

    pub fn new(limit: usize) -> (r: BatchCollector)
        ensures
            r.log().len() == 0,
            r.spec_count() == 0,
            r.spec_limit() == limit,
    {
        BatchCollector { limit, count: 0, received: Vec::new() }
    }

    /// The batches received so far, each with the answer given to it.
    pub fn received(&self) -> (r: &Vec<(PointsBatch, Flow)>)
        ensures
            r@ == self.log(),
    {
        &self.received
    }

    /// The points received so far (saturating at `usize::MAX`).
    pub fn count(&self) -> (r: usize)
        ensures
            r == self.spec_count(),
    {
        self.count
    }
}

impl BatchSink for BatchCollector {
    closed spec fn log(&self) -> Seq<(PointsBatch, Flow)> {
        self.received@
    }

    fn consume(&mut self, batch: PointsBatch) -> (r: Flow) {
        self.count = self.count.saturating_add(batch.position.len());
        let flow = if self.count >= self.limit {
            Flow::Stop
        } else {
            Flow::Continue
        };
        self.received.push((batch, flow));
        flow
    }
}

/// Whether `d` is how a stream of the batches `bs` went so far: the first
/// `d.len()` of them in order, each built for `q`, and every answer but
/// possibly the last one `Continue`.
pub open spec fn delivered_in_order(
    d: Seq<(PointsBatch, Flow)>,
    bs: Seq<Seq<PointRecord>>,
    q: PointQuery,
) -> bool {
    &&& d.len() <= bs.len()
    &&& forall|i: int| 0 <= i < d.len() ==> batch_holds(#[trigger] d[i].0, bs[i], q)
    &&& forall|i: int| 0 <= i < d.len() - 1 ==> (#[trigger] d[i]).1 == Flow::Continue
}

/// The index of the first location that could not be read, if any.
pub open spec fn unreadable_at(sources: Seq<Result<Vec<PointRecord>, String>>) -> Option<nat>
    decreases sources.len(),
{
    if sources.len() == 0 {
        None
    } else {
        match unreadable_at(sources.drop_last()) {
            Some(i) => Some(i),
            None => if sources.last() is Err {
                Some((sources.len() - 1) as nat)
            } else {
                None
            },
        }
    }
}

/// The points in `b` of the locations before the first unreadable one, in
/// location order.
pub open spec fn readable_points(sources: Seq<Result<Vec<PointRecord>, String>>, b: Aabb) -> Seq<
    PointRecord,
>
    decreases sources.len(),
{
    if sources.len() == 0 {
        Seq::empty()
    } else {
        let before = readable_points(sources.drop_last(), b);
        if unreadable_at(sources.drop_last()) is Some {
            before
        } else {
            match sources.last() {
                Ok(v) => before + v@.filter(inside(b)),
                Err(_) => before,
            }
        }
    }
}

/// Hands out the batches of a fixed sequence of points, one at a time,
/// until the points run out or the stream is stopped.
pub struct BatchStream {
    points: Vec<PointRecord>,
    query: PointQuery,
    size: usize,
    pos: usize,
    stopped: bool,
}

impl BatchStream {
    /// The points not yet handed out.
    pub closed spec fn remaining(&self) -> Seq<PointRecord> {
        self.points@.skip(self.pos as int)
    }

    pub closed spec fn is_stopped(&self) -> bool {
        self.stopped
    }

    pub closed spec fn batch_size(&self) -> nat {
        self.size as nat
    }

    pub closed spec fn spec_query(&self) -> PointQuery {
        self.query
    }

    pub closed spec fn wf(&self) -> bool {
        self.size >= 1 && self.pos <= self.points@.len()
    }

    pub fn new(points: Vec<PointRecord>, query: PointQuery, size: usize) -> (r: BatchStream)
        requires
            size >= 1,
        ensures
            r.wf(),
            r.remaining() == points@,
            !r.is_stopped(),
            r.batch_size() == size,
            r.spec_query() == query,
    {
        let r = BatchStream { points, query, size, pos: 0, stopped: false };
        assert(r.points@.skip(0) =~= r.points@);
        r
    }

    /// The next batch: the first of `batches(remaining, size)`; none once
    /// stopped or exhausted.
    pub fn next_batch(&mut self) -> (r: Option<PointsBatch>)
        requires
            old(self).wf(),
        ensures
            final(self).wf(),
            final(self).is_stopped() == old(self).is_stopped(),
            final(self).batch_size() == old(self).batch_size(),
            final(self).spec_query() == old(self).spec_query(),
            old(self).is_stopped() || old(self).remaining().len() == 0 ==> r is None
                && final(self).remaining() == old(self).remaining(),
            !old(self).is_stopped() && old(self).remaining().len() > 0 ==> {
                let bs = batches(old(self).remaining(), old(self).batch_size());
                &&& r matches Some(b) && batch_holds(b, bs[0], old(self).spec_query())
                &&& batches(final(self).remaining(), old(self).batch_size()) == bs.skip(1)
            },
    {
        if self.stopped || self.pos == self.points.len() {
            return None;
        }
        let left = self.points.len() - self.pos;
        let n = if left < self.size {
            left
        } else {
            self.size
        };
        let b = make_batch(&self.points, self.pos, self.pos + n, &self.query);
        let ghost rem = self.remaining();
        self.pos = self.pos + n;
        proof {
            let size = self.size as nat;
            let bs = batches(rem, size);
            assert(self.points@.subrange(old(self).pos as int, self.pos as int) =~= rem.take(n as int));
            if rem.len() <= size {
                assert(rem.take(n as int) =~= rem);
                assert(self.remaining().len() == 0);
                assert(bs.skip(1) =~= Seq::<Seq<PointRecord>>::empty());
            } else {
                assert(self.remaining() =~= rem.skip(size as int));
                assert(bs.skip(1) =~= batches(rem.skip(size as int), size));
            }
        }
        Some(b)
    }

    /// Hands out no further batch.
    pub fn stop(&mut self)
        ensures
            final(self).is_stopped(),
            final(self).remaining() == old(self).remaining(),
            final(self).wf() == old(self).wf(),
            final(self).batch_size() == old(self).batch_size(),
            final(self).spec_query() == old(self).spec_query(),
    {
        self.stopped = true;
    }
}

/// A query engine over several locations, delivering matching points in
/// batches of at most `points_per_batch`.
pub struct ParallelBatchStreamer {
    locations: Vec<String>,
    num_threads: usize,
    points_per_batch: usize,
}

impl ParallelBatchStreamer {
    pub closed spec fn spec_locations(&self) -> Seq<String> {
        self.locations@
    }

    pub closed spec fn spec_num_threads(&self) -> nat {
        self.num_threads as nat
    }

    pub closed spec fn spec_points_per_batch(&self) -> nat {
        self.points_per_batch as nat
    }

    pub open spec fn wf(&self) -> bool {
        &&& self.spec_locations().len() >= 1
        &&& self.spec_num_threads() >= 1
        &&& self.spec_points_per_batch() >= 1
    }

    /// Checks the settings: at least one location, one thread and one point
    /// per batch, reported in that order.
    pub fn new(locations: Vec<String>, num_threads: usize, points_per_batch: usize) -> (r: Result<
        ParallelBatchStreamer,
        ConfigError,
    >)
        ensures
            locations@.len() == 0 <==> r == Err::<ParallelBatchStreamer, _>(ConfigError::NoLocations),
            locations@.len() > 0 && num_threads == 0 <==> r == Err::<ParallelBatchStreamer, _>(
                ConfigError::ZeroThreads,
            ),
            locations@.len() > 0 && num_threads > 0 && points_per_batch == 0 <==> r == Err::<
                ParallelBatchStreamer,
                _,
            >(ConfigError::ZeroBatchSize),
            r matches Ok(s) ==> {
                &&& s.wf()
                &&& s.spec_locations() == locations@
                &&& s.spec_num_threads() == num_threads
                &&& s.spec_points_per_batch() == points_per_batch
            },
    {
        if locations.len() == 0 {
            Err(ConfigError::NoLocations)
        } else if num_threads == 0 {
            Err(ConfigError::ZeroThreads)
        } else if points_per_batch == 0 {
            Err(ConfigError::ZeroBatchSize)
        } else {
            Ok(ParallelBatchStreamer { locations, num_threads, points_per_batch })
        }
    }

    pub fn locations(&self) -> (r: &Vec<String>)
        ensures
            r@ == self.spec_locations(),
    {
        &self.locations
    }

    pub fn num_threads(&self) -> (r: usize)
        ensures
            r == self.spec_num_threads(),
    {
        self.num_threads
    }

    pub fn points_per_batch(&self) -> (r: usize)
        ensures
            r == self.spec_points_per_batch(),
    {
        self.points_per_batch
    }

    /// The points in the query's box of the locations before the first
    /// unreadable one, and that location's message if there is one.
    pub fn gather(sources: &Vec<Result<Vec<PointRecord>, String>>, b: &Aabb) -> (r: (
        Vec<PointRecord>,
        Option<String>,
    ))
        ensures
            r.0@ == readable_points(sources@, *b),
            r.1 is Some <==> unreadable_at(sources@) is Some,
            r.1 matches Some(m) ==> sources@[unreadable_at(sources@)->Some_0 as int] == Err::<
                Vec<PointRecord>,
                String,
            >(m),
    {
        let mut all: Vec<PointRecord> = Vec::new();
        let mut failure: Option<String> = None;
        let mut i: usize = 0;
        while i < sources.len()
            invariant
                i <= sources@.len(),
                all@ == readable_points(sources@.take(i as int), *b),
                failure is Some <==> unreadable_at(sources@.take(i as int)) is Some,
                failure matches Some(m) ==> unreadable_at(sources@.take(i as int))->Some_0 < i
                    && sources@[unreadable_at(sources@.take(i as int))->Some_0 as int] == Err::<
                    Vec<PointRecord>,
                    String,
                >(m),
            decreases sources@.len() - i,
        {
            proof {
                assert(sources@.take(i + 1).drop_last() =~= sources@.take(i as int));
                assert(sources@.take(i + 1).last() == sources@[i as int]);
            }
            if failure.is_none() {
                match &sources[i] {
                    Ok(points) => {
                        let mut kept = filter_points(points, b);
                        all.append(&mut kept);
                    },
                    Err(m) => {
                        failure = Some(m.clone());
                    },
                }
            }
            i = i + 1;
        }
        proof {
            assert(sources@.take(sources@.len() as int) =~= sources@);
        }
        (all, failure)
    }

    /// Runs `query` over the data read from each location, in order, and
    /// hands the matching points to `sink` in batches of at most
    /// `points_per_batch`, until they run out or `sink` answers `Stop`.
    /// Locations after the first unreadable one are not read; once the
    /// batches from before it are delivered, that location's message is
    /// returned as an error unless `sink` stopped first.
    pub fn for_each_point_data<S: BatchSink>(
        &self,
        sources: &Vec<Result<Vec<PointRecord>, String>>,
        query: &PointQuery,
        sink: &mut S,
    ) -> (r: Result<Completion, StreamError>)
        requires
            self.wf(),
            sources@.len() == self.spec_locations().len(),
        ensures
            ({
                let bs = batches(readable_points(sources@, query.location), self.spec_points_per_batch());
                let before = old(sink).log();
                let after = final(sink).log();
                let d = after.skip(before.len() as int);
                let last_continues = d.len() == 0 || d.last().1 == Flow::Continue;
                &&& before.len() <= after.len()
                &&& after.take(before.len() as int) == before
                &&& delivered_in_order(d, bs, *query)
                &&& r matches Ok(Completion::Finished(n)) ==> n == d.len() && d.len() == bs.len()
                    && last_continues && unreadable_at(sources@) is None
                &&& r matches Ok(Completion::Stopped(n)) ==> n == d.len() && n >= 1 && d.last().1
                    == Flow::Stop
                &&& r matches Err(StreamError::Source(m)) ==> {
                    &&& d.len() == bs.len()
                    &&& last_continues
                    &&& unreadable_at(sources@) is Some
                    &&& sources@[unreadable_at(sources@)->Some_0 as int] == Err::<
                        Vec<PointRecord>,
                        String,
                    >(m)
                }
                &&& unreadable_at(sources@) is None ==> r is Ok
            }),
    {
        let (all, failure) = Self::gather(sources, &query.location);
        let ghost everything = all@;
        let n_all = all.len();
        let size = self.points_per_batch;
        let mut stream = BatchStream::new(all, copy_query(query), size);
        let ghost log0 = sink.log();
        let ghost bs = batches(everything, size as nat);
        let ghost total = batches(everything, size as nat).len();
        let mut delivered: usize = 0;
        proof {
            lemma_batches_partition(everything, size as nat);
            lemma_batches_len(everything, size as nat);
            assert(bs.skip(0) =~= bs);
            assert(log0.take(log0.len() as int) =~= log0);
            assert(log0.skip(log0.len() as int) =~= Seq::<(PointsBatch, Flow)>::empty());
        }
        loop
            invariant
                n_all == everything.len(),
                total <= everything.len(),
                everything == readable_points(sources@, query.location),
                size == self.spec_points_per_batch(),
                stream.wf(),
                !stream.is_stopped(),
                stream.batch_size() == size,
                size >= 1,
                delivered + batches(stream.remaining(), size as nat).len() == total,
                total == batches(everything, size as nat).len(),
                bs == batches(everything, size as nat),
                batches(stream.remaining(), size as nat) == bs.skip(delivered as int),
                stream.spec_query().attributes@ == query.attributes@,
                log0 == old(sink).log(),
                log0.len() <= sink.log().len(),
                sink.log().take(log0.len() as int) == log0,
                sink.log().len() == log0.len() + delivered,
                delivered_in_order(sink.log().skip(log0.len() as int), bs, *query),
                delivered == 0 || sink.log().last().1 == Flow::Continue,
            ensures
                delivered == total,
                log0.len() <= sink.log().len(),
                sink.log().take(log0.len() as int) == log0,
                sink.log().len() == log0.len() + delivered,
                delivered_in_order(sink.log().skip(log0.len() as int), bs, *query),
                delivered == 0 || sink.log().last().1 == Flow::Continue,
            decreases batches(stream.remaining(), size as nat).len(),
        {
            let ghost before = stream.remaining();
            proof {
                lemma_batches_empty(before, size as nat);
            }
            match stream.next_batch() {
                None => {
                    break;
                },
                Some(b) => {
                    assert(before.len() > 0);
                    assert(batches(before, size as nat).len() >= 1);
                    assert(delivered + 1 <= total);
                    let ghost prev_log = sink.log();
                    let ghost bi = b;
                    delivered = delivered + 1;
                    let answer = sink.consume(b);
                    proof {
                        let nl = sink.log();
                        let d = nl.skip(log0.len() as int);
                        let pd = prev_log.skip(log0.len() as int);
                        assert(d =~= pd.push((bi, answer)));
                        assert(nl.take(log0.len() as int) =~= prev_log.take(log0.len() as int));
                        assert(bs.skip(delivered - 1)[0] == bs[delivered - 1]);
                        assert(batches(stream.remaining(), size as nat) =~= bs.skip(delivered as int));
                        assert forall|i: int| 0 <= i < d.len() implies batch_holds(#[trigger] d[i].0, bs[i], *query) by {
                            if i < pd.len() {
                                assert(d[i] == pd[i]);
                            }
                        }
                        assert forall|i: int| 0 <= i < d.len() - 1 implies (#[trigger] d[i]).1 == Flow::Continue by {
                            assert(d[i] == pd[i]);
                            if i == pd.len() - 1 {
                                assert(pd[i] == prev_log.last());
                            }
                        }
                    }
                    if let Flow::Stop = answer {
                        proof {
                            assert(sink.log().skip(log0.len() as int).last() == sink.log().last());
                        }
                        return Ok(Completion::Stopped(delivered));
                    }
                },
            }
        }
        match failure {
            Some(m) => Err(StreamError::Source(m)),
            None => Ok(Completion::Finished(delivered)),
        }
    }
}

/// There are no more batches than points.
proof fn lemma_batches_len(s: Seq<PointRecord>, size: nat)
    requires
        size >= 1,
    ensures
        batches(s, size).len() <= s.len(),
    decreases s.len(),
{
    if s.len() > size {
        lemma_batches_len(s.skip(size as int), size);
    }
}

/// A sequence is cut into no batch exactly when it is empty.
proof fn lemma_batches_empty(s: Seq<PointRecord>, size: nat)
    requires
        size >= 1,
    ensures
        batches(s, size).len() == 0 <==> s.len() == 0,
{
    if s.len() > 0 && s.len() > size {
        assert(batches(s, size).len() >= 1);
    }
}

} // verus!
