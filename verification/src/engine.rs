//! The fuzzy variable: labelled membership functions over a domain, with
//! fuzzification and centroid defuzzification.

use vstd::prelude::*;
use std::collections::HashMap;
use std::hash::Hash;
use std::ops::Range;
use vstd::std_specs::hash::*;
use vstd::std_specs::iter::IteratorSpec;
use crate::aggregate::{aggregate_at, lemma_aggregate_zero};
use crate::centroid::{
    centroid, curve, lemma_centroid_bounds, lemma_curve_on_unit_interval, lemma_mass_zero,
    lemma_moment_bounds, lemma_sample_position_bounds, mass, moment_x, moment_y, on_unit_interval,
    sample_position,
};
use crate::fixed::{denormalize, denormalized, normalize, normalized, ONE};
use crate::membership::{defined_at, degree_of, evaluate, is_membership};

verus! {

/// The number of samples that a new fuzzy variable takes of its aggregated
/// curve.
pub const RESOLUTION: usize = 100;

/// Why a defuzzification gave no crisp value.
#[derive(Clone, Copy, Debug, PartialEq, Eq, Structural)]
pub enum FuzzyError {
    /// The activation strengths are not as many as the labels.
    CardinalityMismatch { supplied: usize, expected: usize },
    /// The activation strengths are as many as the labels, but name a label
    /// that has no membership function.
    UnknownLabel,
    /// The aggregated curve is 0 at every sample, so it has no centre of mass.
    ZeroMass,
}

/// A fuzzy variable: one membership function per label over the crisp domain
/// `range`, and the trace of the last fuzzification and defuzzification.
pub struct Fuzzy<V: Eq + Hash + Copy, F: Fn(i64) -> i32> {
    members: usize,
    functions: HashMap<V, F>,
    range: Range<i32>,
    last_input: i64,
    last_output: Vec<(i32, i32)>,
    resolution: usize,
}

/// What a fuzzy variable holds.
#[verifier::reject_recursive_types(V)]
pub struct FuzzyView<V, F> {
    /// The membership function of each label.
    pub functions: Map<V, F>,
    /// The crisp domain.
    pub range: Range<i32>,
    /// The number of samples taken of the aggregated curve.
    pub resolution: nat,
    /// The last input, normalized.
    pub last_input: i64,
    /// The centre of mass of the last aggregated curve, then its samples.
    pub last_output: Seq<(i32, i32)>,
}

impl<V, F: Fn(i64) -> i32> FuzzyView<V, F> {
    /// What holds of every fuzzy variable: finitely many labels, each with a
    /// membership function; a domain that is not empty; at least two samples,
    /// so that both ends of the domain are sampled; and a trace with room for
    /// the centre of mass and every sample.
    pub open spec fn valid(self) -> bool {
        &&& self.functions.dom().finite()
        &&& forall|l: V| #[trigger]
            self.functions.contains_key(l) ==> is_membership(self.functions[l])
        &&& self.range.start < self.range.end
        &&& 2 <= self.resolution
        &&& self.last_output.len() == self.resolution + 1
    }

    /// The number of labels.
    pub open spec fn members(self) -> nat {
        self.functions.dom().len()
    }

    /// The crisp value `x` as a fraction of the domain.
    pub open spec fn normalized(self, x: i32) -> i64 {
        normalize(x as int, self.range.start as int, self.range.end as int) as i64
    }

    /// The degree of membership of the crisp value `x` under each label.
    pub open spec fn fuzzified(self, x: i32) -> Map<V, i32> {
        Map::new(
            |l: V| self.functions.contains_key(l),
            |l: V| degree_of(self.functions[l], self.normalized(x)),
        )
    }

    /// The aggregated curve that the activation strengths `acuts` cut out.
    pub open spec fn curve(self, acuts: Map<V, i32>) -> Seq<(i32, i32)> {
        curve(self.functions, acuts, self.resolution)
    }

    /// The outcome of defuzzifying the activation strengths `acuts`: the crisp
    /// value under the centre of mass of the aggregated curve, or the reason
    /// why there is none.
    pub open spec fn defuzzified(self, acuts: Map<V, i32>) -> Result<i32, FuzzyError> {
        if acuts.dom().len() != self.members() {
            Err(
                FuzzyError::CardinalityMismatch {
                    supplied: acuts.dom().len() as usize,
                    expected: self.members() as usize,
                },
            )
        } else if acuts.dom() != self.functions.dom() {
            Err(FuzzyError::UnknownLabel)
        } else if mass(self.curve(acuts)) == 0 {
            Err(FuzzyError::ZeroMass)
        } else {
            Ok(
                denormalize(
                    centroid(self.curve(acuts)).0 as int,
                    self.range.start as int,
                    self.range.end as int,
                ) as i32,
            )
        }
    }

    /// The output trace after defuzzifying `acuts`: unchanged where the labels
    /// do not fit; else the centre of mass, or `(0, 0)` where there is none,
    /// followed by the samples of the aggregated curve.
    pub open spec fn traced(self, acuts: Map<V, i32>) -> Seq<(i32, i32)> {
        match self.defuzzified(acuts) {
            Ok(_) => seq![centroid(self.curve(acuts))] + self.curve(acuts),
            Err(FuzzyError::ZeroMass) => seq![(0i32, 0i32)] + self.curve(acuts),
            Err(_) => self.last_output,
        }
    }
}

impl<V: Eq + Hash + Copy, F: Fn(i64) -> i32> View for Fuzzy<V, F> {
    type V = FuzzyView<V, F>;

    closed spec fn view(&self) -> FuzzyView<V, F> {
        FuzzyView {
            functions: self.functions@,
            range: self.range,
            resolution: self.resolution as nat,
            last_input: self.last_input,
            last_output: self.last_output@,
        }
    }
}

impl<V: Eq + Hash + Copy, F: Fn(i64) -> i32> Fuzzy<V, F> {
    #[verifier::type_invariant]
    spec fn well_formed(&self) -> bool {
        &&& obeys_key_model::<V>()
        &&& self.members == self.functions@.dom().len()
        &&& self@.valid()
    }

    /// Makes a fuzzy variable from one membership function per label and its
    /// crisp domain. It samples aggregated curves at [`RESOLUTION`] positions,
    /// and its trace starts out all 0.
    pub fn new(functions: HashMap<V, F>, range: Range<i32>) -> (set: Self)
        requires
            obeys_key_model::<V>(),
            range.start < range.end,
            forall|l: V| #[trigger] functions@.contains_key(l) ==> is_membership(functions@[l]),
        ensures
            set@ == (FuzzyView {
                functions: functions@,
                range,
                resolution: RESOLUTION as nat,
                last_input: 0,
                last_output: Seq::new((RESOLUTION + 1) as nat, |i: int| (0i32, 0i32)),
            }),
            set@.valid(),
    {
        broadcast use group_hash_axioms;
        let members = functions.len();
        let mut last_output: Vec<(i32, i32)> = Vec::new();
        for i in 0..RESOLUTION + 1
            invariant
                last_output@ == Seq::new(i as nat, |i: int| (0i32, 0i32)),
        {
            last_output.push((0, 0));
        }
        Fuzzy { members, functions, range, last_input: 0, last_output, resolution: RESOLUTION }
    }

    /// The membership functions, by label.
    pub fn functions(&self) -> (functions: &HashMap<V, F>)
        ensures
            functions@ == self@.functions,
            self@.valid(),
    {
        proof {
            use_type_invariant(self);
        }
        &self.functions
    }

    /// Gives the degree of membership of the crisp value `x` under every label,
    /// and records the normalized input.
    pub fn fuzzify(&mut self, x: i32) -> (degrees: HashMap<V, i32>)
        ensures
            degrees@ == old(self)@.fuzzified(x),
            degrees@.dom().len() == old(self)@.members(),
            final(self)@ == (FuzzyView { last_input: old(self)@.normalized(x), ..old(self)@ }),
            final(self)@.valid(),
            // Every membership function gave a degree at the normalized input.
            forall|l: V| #[trigger]
                degrees@.contains_key(l) ==> defined_at(
                    old(self)@.functions[l],
                    old(self)@.normalized(x),
                ),
    {
        broadcast use group_hash_axioms;
        proof {
            use_type_invariant(&*self);
        }
        let n = normalized(x, self.range.start, self.range.end);
        self.last_input = n;
        let mut degrees: HashMap<V, i32> = HashMap::with_capacity(self.members);
        let ghost pairs = spec_hash_map_iter(&self.functions).remaining();
        let ghost mut seen: int = 0;
        for pair in it: self.functions.iter()
            invariant
                obeys_key_model::<V>(),
                forall|l: V| #[trigger]
                    self.functions@.contains_key(l) ==> is_membership(self.functions@[l]),
                it.seq() == pairs,
                it.index() == seen,
                pairs == spec_hash_map_iter(&self.functions).remaining(),
                forall|l: V| #[trigger]
                    degrees@.contains_key(l) ==> self.functions@.contains_key(l) && degrees@[l]
                        == degree_of(self.functions@[l], n) && defined_at(self.functions@[l], n),
                forall|j: int| 0 <= j < seen ==> degrees@.contains_key(*(#[trigger] pairs[j]).0),
        {
            let (l, f) = pair;
            assert(self.functions@.contains_key(*l));
            let d = evaluate(f, n);
            degrees.insert(*l, d);
            proof {
                seen = seen + 1;
            }
        }
        proof {
            assert forall|l: V| #[trigger]
                self.functions@.contains_key(l) implies degrees@.contains_key(l) by {
                let pair = (&l, &self.functions@[l]);
                assert(pairs.contains(pair));
                let j = choose|j: int| 0 <= j < pairs.len() && pairs[j] == pair;
                assert(degrees@.contains_key(*pairs[j].0));
            }
            assert(degrees@.dom() =~= self.functions@.dom());
        }
        degrees
    }

    /// Gives the crisp value under the centre of mass of the curve that the
    /// activation strengths `acuts` cut out of the membership functions, and
    /// records the centre and the curve.
    ///
    /// Strengths that are not as many as the labels are a
    /// [`FuzzyError::CardinalityMismatch`], whichever labels they name; as many
    /// strengths with a label among them that has no membership function are a
    /// [`FuzzyError::UnknownLabel`]. Either way nothing is recorded. A curve
    /// that is 0 at every sample, as with every strength at 0, is recorded and
    /// is a [`FuzzyError::ZeroMass`].
    pub fn defuzzify(&mut self, acuts: HashMap<V, i32>) -> (result: Result<i32, FuzzyError>)
        ensures
            result == old(self)@.defuzzified(acuts@),
            final(self)@ == (FuzzyView { last_output: old(self)@.traced(acuts@), ..old(self)@ }),
            final(self)@.valid(),
            // Too few or too many strengths are refused before anything is done.
            acuts@.dom().len() != old(self)@.members() <==> result == Err::<i32, FuzzyError>(
                FuzzyError::CardinalityMismatch {
                    supplied: acuts@.dom().len() as usize,
                    expected: old(self)@.members() as usize,
                },
            ),
            acuts@.dom().len() != old(self)@.members() ==> final(self)@ == old(self)@,
            // With every strength at 0 there is no centre of mass.
            acuts@.dom() == old(self)@.functions.dom() && (forall|l: V| #[trigger]
                acuts@.contains_key(l) ==> acuts@[l] == 0) ==> result == Err::<i32, FuzzyError>(
                FuzzyError::ZeroMass,
            ),
            // A crisp value lies in the domain, its end included.
            result matches Ok(x) ==> old(self)@.range.start <= x <= old(self)@.range.end,
            // Doing it again gives the same outcome and records the same.
            final(self)@.defuzzified(acuts@) == result,
            final(self)@.traced(acuts@) == final(self)@.last_output,
            // Where the labels fit, every membership function gave a degree at
            // every sample's position.
            acuts@.dom() == old(self)@.functions.dom() ==> forall|l: V, i: int|
                #![trigger
                    old(self)@.functions[l],
                    sample_position(i, old(self)@.resolution as int),
                ]
                acuts@.contains_key(l) && 0 <= i < old(self)@.resolution ==> defined_at(
                    old(self)@.functions[l],
                    sample_position(i, old(self)@.resolution as int) as i64,
                ),
    {
        broadcast use group_hash_axioms;
        proof {
            use_type_invariant(&*self);
            if acuts@.dom() == self@.functions.dom() && (forall|l: V| #[trigger]
                acuts@.contains_key(l) ==> acuts@[l] == 0) {
                lemma_zero_activation(self@, acuts@);
            }
        }
        if acuts.len() != self.members {
            return Err(
                FuzzyError::CardinalityMismatch { supplied: acuts.len(), expected: self.members },
            );
        }
        if !labels_known(&self.functions, &acuts) {
            return Err(FuzzyError::UnknownLabel);
        }
        let resolution = self.resolution;
        let ghost points = curve(self.functions@, acuts@, resolution as nat);
        proof {
            // As many strengths as labels, each for a label that is known: the
            // strengths name exactly the labels.
            vstd::set_lib::lemma_subset_equality(acuts@.dom(), self.functions@.dom());
            lemma_curve_on_unit_interval(self.functions@, acuts@, resolution as nat);
        }
        let mut mx: i128 = 0;
        let mut my: i128 = 0;
        let mut m: i128 = 0;
        for i in 0..resolution
            invariant
                obeys_key_model::<V>(),
                forall|l: V| #[trigger] acuts@.contains_key(l) ==> self.functions@.contains_key(l),
                forall|l: V| #[trigger]
                    self.functions@.contains_key(l) ==> is_membership(self.functions@[l]),
                self.members == old(self).members,
                self.functions == old(self).functions,
                self.range == old(self).range,
                self.last_input == old(self).last_input,
                self.resolution == resolution,
                self.range.start < self.range.end,
                self.members == self.functions@.dom().len(),
                2 <= resolution,
                self.last_output@.len() == resolution + 1,
                points == curve(self.functions@, acuts@, resolution as nat),
                on_unit_interval(points),
                forall|j: int| 0 <= j < i ==> self.last_output@[j + 1] == points[j],
                forall|l: V, j: int|
                    #![trigger self.functions@[l], sample_position(j, resolution as int)]
                    acuts@.contains_key(l) && 0 <= j < i ==> defined_at(
                        self.functions@[l],
                        sample_position(j, resolution as int) as i64,
                    ),
                m == mass(points.take(i as int)),
                mx == moment_x(points.take(i as int)),
                my == moment_y(points.take(i as int)),
        {
            let x = sample_at(i, resolution);
            let y = aggregate_at(&self.functions, &acuts, x as i64);
            proof {
                // The sums over one more sample, and room for them.
                let before = points.take(i as int);
                let after = points.take(i + 1);
                assert(after.drop_last() =~= before);
                lemma_moment_bounds(after);
                assert(0 <= y * x <= i32::MAX * ONE) by (nonlinear_arith)
                    requires
                        0 <= x <= ONE,
                        0 <= y <= i32::MAX,
                ;
                assert(0 <= y * y <= i32::MAX * i32::MAX) by (nonlinear_arith)
                    requires
                        0 <= y <= i32::MAX,
                ;
            }
            self.last_output[i + 1] = (x, y);
            mx = mx + y as i128 * x as i128;
            my = my + y as i128 * y as i128;
            m = m + y as i128;
        }
        proof {
            assert(points.take(resolution as int) =~= points);
            lemma_moment_bounds(points);
        }
        if m == 0 {
            self.last_output[0] = (0, 0);
            proof {
                assert(self.last_output@ =~= seq![(0i32, 0i32)] + points);
            }
            return Err(FuzzyError::ZeroMass);
        }
        proof {
            lemma_centroid_bounds(points);
        }
        let cx = (mx / m) as i32;
        let cy = (my / (2 * m)) as i32;
        self.last_output[0] = (cx, cy);
        proof {
            assert(self.last_output@ =~= seq![centroid(points)] + points);
        }
        Ok(denormalized(cx, self.range.start, self.range.end))
    }

    /// Shows the part of the trace that a plot of this variable needs: the
    /// last normalized input of an input variable, or the last output trace of
    /// an output variable, never both.
    pub fn draw(&self, is_output: bool) -> (shown: (Option<i64>, Option<&Vec<(i32, i32)>>))
        ensures
            is_output ==> shown.0 is None && shown.1 is Some && shown.1->0@ == self@.last_output,
            !is_output ==> shown.0 == Some(self@.last_input) && shown.1 is None,
            self@.valid(),
    {
        proof {
            use_type_invariant(self);
        }
        if is_output {
            (None, Some(&self.last_output))
        } else {
            (Some(self.last_input), None)
        }
    }
}

/// With every activation strength at 0 the aggregated curve has no mass, and
/// defuzzification reports that instead of a crisp value.
pub proof fn lemma_zero_activation<V, F: Fn(i64) -> i32>(set: FuzzyView<V, F>, acuts: Map<V, i32>)
    requires
        set.valid(),
        acuts.dom() == set.functions.dom(),
        forall|l: V| #[trigger] acuts.contains_key(l) ==> acuts[l] == 0,
    ensures
        mass(set.curve(acuts)) == 0,
        set.defuzzified(acuts) == Err::<i32, FuzzyError>(FuzzyError::ZeroMass),
{
    let points = set.curve(acuts);
    lemma_curve_on_unit_interval(set.functions, acuts, set.resolution);
    assert forall|i: int| 0 <= i < points.len() implies (#[trigger] points[i]).1 == 0 by {
        lemma_aggregate_zero(
            set.functions,
            acuts,
            sample_position(i, set.resolution as int) as i64,
        );
    }
    lemma_mass_zero(points);
}

/// Defuzzification is a function of the membership functions, the domain, the
/// resolution and the activation strengths alone: two fuzzy variables that
/// agree on the first three give the same outcome and record the same curve
/// for the same strengths, whatever their traces held.
pub proof fn lemma_defuzzify_deterministic<V, F: Fn(i64) -> i32>(
    first: FuzzyView<V, F>,
    second: FuzzyView<V, F>,
    acuts: Map<V, i32>,
)
    requires
        first.functions == second.functions,
        first.range == second.range,
        first.resolution == second.resolution,
    ensures
        first.defuzzified(acuts) == second.defuzzified(acuts),
        first.curve(acuts) == second.curve(acuts),
        first.defuzzified(acuts) is Ok || first.defuzzified(acuts) == Err::<i32, FuzzyError>(
            FuzzyError::ZeroMass,
        ) ==> first.traced(acuts) == second.traced(acuts),
{
}

/// Whether every label that `acuts` activates has a membership function.
fn labels_known<V: Eq + Hash + Copy, F: Fn(i64) -> i32>(
    functions: &HashMap<V, F>,
    acuts: &HashMap<V, i32>,
) -> (known: bool)
    requires
        obeys_key_model::<V>(),
    ensures
        known <==> forall|l: V| acuts@.contains_key(l) ==> functions@.contains_key(l),
{
    broadcast use group_hash_axioms;
    let ghost pairs = spec_hash_map_iter(acuts).remaining();
    let ghost mut seen: int = 0;
    let mut known = true;
    for pair in it: acuts.iter()
        invariant
            obeys_key_model::<V>(),
            it.seq() == pairs,
            it.index() == seen,
            pairs == spec_hash_map_iter(acuts).remaining(),
            known <==> forall|j: int|
                0 <= j < seen ==> functions@.contains_key(*(#[trigger] pairs[j]).0),
    {
        let (l, _) = pair;
        if !functions.contains_key(l) {
            known = false;
        }
        proof {
            seen = seen + 1;
        }
    }
    proof {
        if known {
            assert forall|l: V| acuts@.contains_key(l) implies functions@.contains_key(l) by {
                assert(pairs.contains((&l, &acuts@[l])));
                let j = choose|j: int| 0 <= j < pairs.len() && pairs[j] == (&l, &acuts@[l]);
                assert(functions@.contains_key(*pairs[j].0));
            }
        } else {
            let j = choose|j: int|
                0 <= j < seen && !functions@.contains_key(*(#[trigger] pairs[j]).0);
            assert(acuts@.contains_key(*pairs[j].0));
        }
    }
    known
}

/// The normalized position of sample `i` out of `resolution`.
fn sample_at(i: usize, resolution: usize) -> (x: i32)
    requires
        2 <= resolution,
        i < resolution,
    ensures
        x == sample_position(i as int, resolution as int),
        0 <= x <= ONE,
{
    proof {
        lemma_sample_position_bounds(i as int, resolution as int);
    }
    let last: u128 = (resolution - 1) as u128;
    let scaled: u128 = i as u128 * 65536;
    (scaled / last) as i32
}

} // verus!
