//! The negative-selection model: detector generation by rejection
//! sampling, classification of points against the detector set, and batch
//! evaluation. Coordinates are fixed-point (`crate::fixed`), so every
//! threshold comparison is exact.

use vstd::prelude::*;

use crate::fixed::{
    bounds_valid, norm_ok, raw_ok, spec_normalize, within, normalize, Point, MAX_NORM, MAX_RAW,
    SCALE,
};
use crate::index::{index_wf, SpatialIndex};

verus! {

/// Attempts allowed between two detector acceptances before detector
/// generation gives up with `InsufficientCoverageError`.
pub const MAX_MISSES: u32 = 100_000;

/// The label a classified point receives: `Positive` resembles the self
/// population, `Negative` is flagged as non-self.
#[derive(Clone, Copy, PartialEq, Eq, Structural, Debug)]
pub enum Class {
    Positive,
    Negative,
}

/// Every failure a model operation can report.
#[derive(Clone, Copy, PartialEq, Eq, Structural, Debug)]
pub enum Error {
    /// A bound is out of range or has `max <= min` in the named dimension
    /// (0 or 1): normalization would be ill-defined.
    ConfigError { dim: usize },
    /// A point (at the named index of its input sequence) has a coordinate
    /// outside the representable range.
    InvalidPointError { index: usize },
    /// Batch evaluation was handed zero labeled points.
    EmptyInputError,
    /// Detector generation exceeded its attempt budget without reaching
    /// the target count.
    InsufficientCoverageError,
    /// A persisted model could not be decoded or failed validation.
    PersistenceError,
}

/// Dimension `d` of the bounds is usable: both edges in range and
/// `min < max` there.
pub open spec fn dim_ok(maximums: Point, minimums: Point, d: int) -> bool {
    if d == 0 {
        -MAX_RAW <= minimums.x <= MAX_RAW && -MAX_RAW <= maximums.x <= MAX_RAW
            && minimums.x < maximums.x
    } else {
        -MAX_RAW <= minimums.y <= MAX_RAW && -MAX_RAW <= maximums.y <= MAX_RAW
            && minimums.y < maximums.y
    }
}

/// The dimension named by a `ConfigError`: the first bad one.
pub open spec fn spec_bad_dim(maximums: Point, minimums: Point) -> usize {
    if !dim_ok(maximums, minimums, 0) {
        0usize
    } else {
        1usize
    }
}

/// A generated detector lies in the normalized unit square.
pub open spec fn in_unit_square(p: Point) -> bool {
    0 <= p.x <= SCALE && 0 <= p.y <= SCALE
}

/// Every point of the sequence is representable.
pub open spec fn all_raw_ok(s: Seq<Point>) -> bool {
    forall|i: int| 0 <= i < s.len() ==> raw_ok(#[trigger] s[i])
}

/// The negative-selection model: detector set, shared radius, the bounds
/// normalization uses, and the spatial index derived from the detectors.
pub struct Model {
    pub detectors: Vec<Point>,
    pub radius: i64,
    pub maximums: Point,
    pub minimums: Point,
    pub kdtree: SpatialIndex,
}

/// Everything the model's parameters are drawn from at fit time.
pub struct FitParams<'a> {
    pub positives: &'a Vec<Point>,
    pub radius: i64,
    pub maximums: Point,
    pub minimums: Point,
    pub no_detectors: usize,
}

impl Model {
    /// The model's invariant: detectors and radius in machine range, bounds
    /// representable, and the index holding exactly the detector sequence.
    /// A model whose index disagrees with its detectors is never handed to
    /// a caller.
    pub open spec fn wf(self) -> bool {
        &&& forall|i: int| 0 <= i < self.detectors@.len() ==> norm_ok(#[trigger] self.detectors@[i])
        &&& 0 <= self.radius <= MAX_NORM
        &&& raw_ok(self.maximums)
        &&& raw_ok(self.minimums)
        &&& self.kdtree@ == self.detectors@
    }

    /// What classification returns on a representable point when the
    /// bounds are valid: `Negative` exactly when some detector lies within
    /// the radius of the normalized point.
    pub open spec fn spec_eval(self, p: Point) -> Class {
        let n = spec_normalize(p, self.minimums, self.maximums);
        if exists|i: int|
            0 <= i < self.detectors@.len() && within(n, #[trigger] self.detectors@[i], self.radius as int) {
            Class::Negative
        } else {
            Class::Positive
        }
    }

    /// An empty model: no detectors, radius zero, zero bounds. Its bounds
    /// are not yet valid, so classification on it reports `ConfigError`
    /// until `fit` has run.
    pub fn new() -> (m: Model)
        ensures
            m.wf(),
            m.detectors@ == Seq::<Point>::empty(),
            m.radius == 0,
            m.maximums == (Point { x: 0, y: 0 }),
            m.minimums == (Point { x: 0, y: 0 }),
    {
        Model {
            detectors: Vec::new(),
            radius: 0,
            maximums: Point { x: 0, y: 0 },
            minimums: Point { x: 0, y: 0 },
            kdtree: SpatialIndex::new(),
        }
    }

    /// Rebuild the spatial index from the detector sequence. The index is
    /// always derived, never loaded: this runs at the end of `fit` and of
    /// `load`, so no caller ever sees a stale index.
    pub fn init_kdtree(&mut self) -> (res: Result<(), Error>)
        requires
            forall|i: int|
                0 <= i < old(self).detectors@.len() ==> norm_ok(#[trigger] old(self).detectors@[i]),
        ensures
            res == Ok::<(), Error>(()),
            final(self).kdtree@ == old(self).detectors@,
            final(self).detectors == old(self).detectors,
            final(self).radius == old(self).radius,
            final(self).maximums == old(self).maximums,
            final(self).minimums == old(self).minimums,
    {
        SpatialIndex::rebuild(&mut self.kdtree, &self.detectors);
        Ok(())
    }
}

/// Is the point representable as a raw input?
fn point_raw_ok(p: &Point) -> (r: bool)
    ensures
        r == raw_ok(*p),
{
    -MAX_RAW <= p.x && p.x <= MAX_RAW && -MAX_RAW <= p.y && p.y <= MAX_RAW
}

/// First unusable dimension of the bounds, or `None` when both are fine.
fn check_bounds(maximums: &Point, minimums: &Point) -> (r: Option<usize>)
    ensures
        r is None <==> bounds_valid(*maximums, *minimums),
        r matches Some(d) ==> d == spec_bad_dim(*maximums, *minimums),
{
    if !(-MAX_RAW <= minimums.x && minimums.x <= MAX_RAW && -MAX_RAW <= maximums.x
        && maximums.x <= MAX_RAW && minimums.x < maximums.x) {
        Some(0)
    } else if !(-MAX_RAW <= minimums.y && minimums.y <= MAX_RAW && -MAX_RAW <= maximums.y
        && maximums.y <= MAX_RAW && minimums.y < maximums.y) {
        Some(1)
    } else {
        None
    }
}

/// Relies on `rand::thread_rng` and `rand::Rng::gen_range`: a draw from
/// the non-empty inclusive range `0..=SCALE` lies in that range. Nothing
/// is assumed about which value comes back.
#[verifier::external_body]
fn random_unit_coord() -> (r: i64)
    ensures
        0 <= r <= SCALE,
{
    rand::Rng::gen_range(&mut rand::thread_rng(), 0..=SCALE)
}

/// A candidate detector drawn from the normalized unit square.
fn random_candidate() -> (p: Point)
    ensures
        in_unit_square(p),
        norm_ok(p),
{
    Point { x: random_unit_coord(), y: random_unit_coord() }
}

impl Model {
    /// Fit the model by negative selection: validate the configuration,
    /// normalize the self-samples, then accept uniformly drawn candidates
    /// that are strictly farther than `radius` from every normalized
    /// self-sample, until `no_detectors` stand. The whole state is
    /// replaced atomically on success and untouched on failure. Only the
    /// drawn candidates can exhaust the attempt budget, so on valid input
    /// where no draw decides the outcome — no detectors requested, or no
    /// self-samples to reject against — fitting always succeeds.
    pub fn fit(&mut self, params: &FitParams) -> (res: Result<(), Error>)
        requires
            0 <= params.radius <= MAX_NORM,
        ensures
            res is Err ==> *final(self) == *old(self),
            !bounds_valid(params.maximums, params.minimums) ==> res == Err::<(), Error>(
                Error::ConfigError { dim: spec_bad_dim(params.maximums, params.minimums) },
            ),
            bounds_valid(params.maximums, params.minimums) && !all_raw_ok(params.positives@)
                ==> (res matches Err(e) && e matches Error::InvalidPointError { index }
                    && index < params.positives@.len()
                    && !raw_ok(params.positives@[index as int])
                    && (forall|j: int| 0 <= j < index ==> raw_ok(#[trigger] params.positives@[j]))),
            bounds_valid(params.maximums, params.minimums) && all_raw_ok(params.positives@) ==> (
                res == Ok::<(), Error>(()) || res == Err::<(), Error>(
                    Error::InsufficientCoverageError,
                )),
            bounds_valid(params.maximums, params.minimums) && all_raw_ok(params.positives@) && (
            params.no_detectors == 0 || params.positives@.len() == 0) ==> res == Ok::<(), Error>(
                (),
            ),
            res is Ok ==> {
                &&& final(self).wf()
                &&& final(self).radius == params.radius
                &&& final(self).maximums == params.maximums
                &&& final(self).minimums == params.minimums
                &&& final(self).detectors@.len() == params.no_detectors
                &&& forall|i: int|
                    0 <= i < params.no_detectors ==> in_unit_square(
                        #[trigger] final(self).detectors@[i],
                    )
                &&& forall|i: int, j: int|
                    0 <= i < params.no_detectors && 0 <= j < params.positives@.len() ==> !within(
                        #[trigger] final(self).detectors@[i],
                        spec_normalize(#[trigger] params.positives@[j], params.minimums, params.maximums),
                        params.radius as int,
                    )
            },
    {
        if let Some(dim) = check_bounds(&params.maximums, &params.minimums) {
            return Err(Error::ConfigError { dim });
        }
        let mut i: usize = 0;
        while i < params.positives.len()
            invariant
                i <= params.positives@.len(),
                bounds_valid(params.maximums, params.minimums),
                forall|j: int| 0 <= j < i ==> raw_ok(#[trigger] params.positives@[j]),
            decreases params.positives@.len() - i,
        {
            if !point_raw_ok(&params.positives[i]) {
                return Err(Error::InvalidPointError { index: i });
            }
            i = i + 1;
        }
        let mut normalized: Vec<Point> = Vec::new();
        let mut i: usize = 0;
        while i < params.positives.len()
            invariant
                i <= params.positives@.len(),
                bounds_valid(params.maximums, params.minimums),
                all_raw_ok(params.positives@),
                normalized@.len() == i,
                forall|j: int|
                    0 <= j < i ==> #[trigger] normalized@[j] == spec_normalize(
                        params.positives@[j],
                        params.minimums,
                        params.maximums,
                    ),
                forall|j: int| 0 <= j < i ==> norm_ok(#[trigger] normalized@[j]),
            decreases params.positives@.len() - i,
        {
            normalized.push(normalize(&params.positives[i], &params.minimums, &params.maximums));
            i = i + 1;
        }
        let mut temp_kdtree = SpatialIndex::new();
        temp_kdtree.rebuild(&normalized);
        let mut detectors: Vec<Point> = Vec::new();
        let mut misses: u32 = 0;
        while detectors.len() < params.no_detectors
            invariant
                detectors@.len() <= params.no_detectors,
                misses < MAX_MISSES,
                bounds_valid(params.maximums, params.minimums),
                all_raw_ok(params.positives@),
                0 <= params.radius <= MAX_NORM,
                temp_kdtree@ == normalized@,
                index_wf(temp_kdtree),
                normalized@.len() == params.positives@.len(),
                forall|j: int|
                    0 <= j < params.positives@.len() ==> #[trigger] normalized@[j] == spec_normalize(
                        params.positives@[j],
                        params.minimums,
                        params.maximums,
                    ),
                forall|k: int| 0 <= k < detectors@.len() ==> in_unit_square(#[trigger] detectors@[k]),
                forall|k: int, j: int|
                    0 <= k < detectors@.len() && 0 <= j < params.positives@.len() ==> !within(
                        #[trigger] detectors@[k],
                        spec_normalize(#[trigger] params.positives@[j], params.minimums, params.maximums),
                        params.radius as int,
                    ),
            decreases params.no_detectors - detectors@.len(), MAX_MISSES - misses,
        {
            let candidate = random_candidate();
            if temp_kdtree.any_within(&candidate, params.radius) {
                misses = misses + 1;
                if misses == MAX_MISSES {
                    return Err(Error::InsufficientCoverageError);
                }
            } else {
                proof {
                    assert forall|j: int| 0 <= j < params.positives@.len() implies !within(
                        candidate,
                        spec_normalize(#[trigger] params.positives@[j], params.minimums, params.maximums),
                        params.radius as int,
                    ) by {
                        assert(temp_kdtree@[j] == spec_normalize(
                            params.positives@[j],
                            params.minimums,
                            params.maximums,
                        ));
                    }
                }
                detectors.push(candidate);
                misses = 0;
            }
        }
        self.maximums = params.maximums;
        self.minimums = params.minimums;
        self.radius = params.radius;
        self.detectors = detectors;
        match self.init_kdtree() {
            Ok(()) => Ok(()),
            Err(e) => Err(e),
        }
    }

    /// Classify one point: normalize it against the stored bounds and ask
    /// the index whether any detector lies within the radius (inclusive).
    /// `Negative` when one does, `Positive` otherwise; deterministic for a
    /// fixed model.
    pub fn eval(&self, point: &Point) -> (res: Result<Class, Error>)
        requires
            self.wf(),
        ensures
            !bounds_valid(self.maximums, self.minimums) ==> res == Err::<Class, Error>(
                Error::ConfigError { dim: spec_bad_dim(self.maximums, self.minimums) },
            ),
            bounds_valid(self.maximums, self.minimums) && !raw_ok(*point) ==> res == Err::<
                Class,
                Error,
            >(Error::InvalidPointError { index: 0 }),
            bounds_valid(self.maximums, self.minimums) && raw_ok(*point) ==> res == Ok::<
                Class,
                Error,
            >(self.spec_eval(*point)),
    {
        if let Some(dim) = check_bounds(&self.maximums, &self.minimums) {
            return Err(Error::ConfigError { dim });
        }
        if !point_raw_ok(point) {
            return Err(Error::InvalidPointError { index: 0 });
        }
        let normalized = normalize(point, &self.minimums, &self.maximums);
        if self.kdtree.any_within(&normalized, self.radius) {
            Ok(Class::Negative)
        } else {
            Ok(Class::Positive)
        }
    }
}

/// The outcome of batch evaluation: how many predictions matched their
/// label, out of how many. The accuracy is the exact fraction
/// `correct / total`; it is never formed by a division that could hide an
/// empty input.
#[derive(Clone, Copy, PartialEq, Eq, Structural, Debug)]
pub struct Accuracy {
    pub correct: usize,
    pub total: usize,
}

/// How many labeled points of the sequence the model classifies as their
/// label says.
pub open spec fn count_correct(m: Model, pts: Seq<(Point, Class)>) -> nat
    decreases pts.len(),
{
    if pts.len() == 0 {
        0
    } else {
        count_correct(m, pts.drop_last()) + if m.spec_eval(pts.last().0) == pts.last().1 {
            1nat
        } else {
            0nat
        }
    }
}

/// Every labeled point of the sequence is representable.
pub open spec fn all_labeled_raw_ok(s: Seq<(Point, Class)>) -> bool {
    forall|i: int| 0 <= i < s.len() ==> raw_ok(#[trigger] s[i].0)
}

impl Model {
    /// Evaluate the model on labeled points: classify each, count the
    /// matches, and return the exact fraction of correct predictions.
    /// Zero points is an error, never a silent zero.
    pub fn test(&self, points: &Vec<(Point, Class)>) -> (res: Result<Accuracy, Error>)
        requires
            self.wf(),
        ensures
            points@.len() == 0 ==> res == Err::<Accuracy, Error>(Error::EmptyInputError),
            points@.len() > 0 && !bounds_valid(self.maximums, self.minimums) ==> res == Err::<
                Accuracy,
                Error,
            >(Error::ConfigError { dim: spec_bad_dim(self.maximums, self.minimums) }),
            points@.len() > 0 && bounds_valid(self.maximums, self.minimums)
                && !all_labeled_raw_ok(points@) ==> (res matches Err(e)
                && e matches Error::InvalidPointError { index } && index < points@.len()
                && !raw_ok(points@[index as int].0)
                && (forall|j: int| 0 <= j < index ==> raw_ok(#[trigger] points@[j].0))),
            points@.len() > 0 && bounds_valid(self.maximums, self.minimums) && all_labeled_raw_ok(
                points@,
            ) ==> (res matches Ok(acc) && acc.total == points@.len() && acc.correct
                == count_correct(*self, points@) && acc.correct <= acc.total),
    {
        let total = points.len();
        if total == 0 {
            return Err(Error::EmptyInputError);
        }
        let mut correct: usize = 0;
        let mut i: usize = 0;
        while i < total
            invariant
                total == points@.len(),
                i <= total,
                self.wf(),
                bounds_valid(self.maximums, self.minimums) || i == 0,
                forall|j: int| 0 <= j < i ==> raw_ok(#[trigger] points@[j].0),
                correct <= i,
                correct == count_correct(*self, points@.take(i as int)),
            decreases total - i,
        {
            let pair = &points[i];
            let predicted = match self.eval(&pair.0) {
                Ok(c) => c,
                Err(Error::InvalidPointError { .. }) => {
                    return Err(Error::InvalidPointError { index: i });
                },
                Err(e) => {
                    return Err(e);
                },
            };
            proof {
                assert(points@.take(i + 1 as int).drop_last() =~= points@.take(i as int));
                assert(points@.take(i + 1 as int).last() == points@[i as int]);
            }
            if predicted == pair.1 {
                correct = correct + 1;
            }
            i = i + 1;
        }
        proof {
            assert(points@.take(total as int) =~= points@);
        }
        Ok(Accuracy { correct, total })
    }
}

/// Law: over a labeled set whose every label equals the model's own
/// classification, the count of correct predictions is the whole set, so
/// the accuracy fraction is exactly one.
pub proof fn lemma_test_all_correct(m: Model, pts: Seq<(Point, Class)>)
    requires
        forall|i: int| 0 <= i < pts.len() ==> #[trigger] pts[i].1 == m.spec_eval(pts[i].0),
    ensures
        count_correct(m, pts) == pts.len(),
    decreases pts.len(),
{
    if pts.len() > 0 {
        lemma_test_all_correct(m, pts.drop_last());
    }
}

/// Law: over a labeled set whose every label is flipped relative to the
/// model's own classification, no prediction counts as correct, so the
/// accuracy fraction is exactly zero.
pub proof fn lemma_test_all_flipped(m: Model, pts: Seq<(Point, Class)>)
    requires
        forall|i: int| 0 <= i < pts.len() ==> #[trigger] pts[i].1 != m.spec_eval(pts[i].0),
    ensures
        count_correct(m, pts) == 0,
    decreases pts.len(),
{
    if pts.len() > 0 {
        lemma_test_all_flipped(m, pts.drop_last());
    }
}

} // verus!
