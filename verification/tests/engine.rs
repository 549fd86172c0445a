use fuzzy::{Fuzzy, FuzzyError, Triangle, ONE, RESOLUTION};
use std::collections::HashMap;

#[derive(Clone, Copy, Debug, PartialEq, Eq, Hash)]
enum Term {
    Neg,
    Zero,
    Pos,
}

type Shape = Box<dyn Fn(i64) -> i32>;

fn triangle(left: i64, peak: i64, right: i64) -> Shape {
    let t = Triangle { left, peak, right };
    Box::new(move |x| t.evaluate(x))
}

/// Three triangles, each as wide as the domain `[0, 10)`, centred on its
/// start, middle and end.
fn three_terms() -> Fuzzy<Term, Shape> {
    let mut functions: HashMap<Term, Shape> = HashMap::new();
    functions.insert(Term::Neg, triangle(-32768, 0, 32768));
    functions.insert(Term::Zero, triangle(0, 32768, 65536));
    functions.insert(Term::Pos, triangle(32768, 65536, 98304));
    Fuzzy::new(functions, 0..10 * ONE)
}

fn single(f: Shape, start: i32, end: i32) -> Fuzzy<Term, Shape> {
    let mut functions: HashMap<Term, Shape> = HashMap::new();
    functions.insert(Term::Zero, f);
    Fuzzy::new(functions, start..end)
}

fn cuts(neg: i32, zero: i32, pos: i32) -> HashMap<Term, i32> {
    HashMap::from([(Term::Neg, neg), (Term::Zero, zero), (Term::Pos, pos)])
}

fn last_input(set: &Fuzzy<Term, Shape>) -> i64 {
    set.draw(false).0.unwrap()
}

fn last_output(set: &Fuzzy<Term, Shape>) -> Vec<(i32, i32)> {
    set.draw(true).1.unwrap().clone()
}

fn sample_position(i: usize) -> i32 {
    (i as i64 * 65536 / 99) as i32
}

#[test]
fn new_starts_with_an_empty_trace() {
    let set = three_terms();
    assert_eq!(RESOLUTION, 100);
    assert_eq!(set.functions().len(), 3);
    assert_eq!(last_input(&set), 0);
    assert_eq!(last_output(&set), vec![(0, 0); 101]);
}

#[test]
fn functions_are_lent_as_they_were_given() {
    let set = three_terms();
    let functions = set.functions();
    assert!(functions.contains_key(&Term::Neg));
    assert!(functions.contains_key(&Term::Zero));
    assert!(functions.contains_key(&Term::Pos));
    assert_eq!(functions[&Term::Zero](32768), ONE);
    assert_eq!(functions[&Term::Pos](49152), 32768);
}

#[test]
fn draw_shows_the_input_or_the_output_never_both() {
    let mut set = three_terms();
    set.fuzzify(ONE);
    let (input, output) = set.draw(false);
    assert_eq!(input, Some(6553));
    assert!(output.is_none());
    let (input, output) = set.draw(true);
    assert!(input.is_none());
    assert_eq!(output.unwrap().len(), 101);
}

#[test]
fn fuzzify_gives_one_degree_per_label() {
    let mut set = three_terms();
    for x in [0, 1, -1, 5 * ONE, 10 * ONE, 12 * ONE, -2 * ONE, i32::MIN, i32::MAX] {
        let degrees = set.fuzzify(x);
        assert_eq!(degrees.len(), 3);
        assert!(degrees.contains_key(&Term::Neg));
        assert!(degrees.contains_key(&Term::Zero));
        assert!(degrees.contains_key(&Term::Pos));
    }
    let mut empty: Fuzzy<Term, Shape> = Fuzzy::new(HashMap::new(), 0..ONE);
    assert_eq!(empty.fuzzify(5).len(), 0);
}

#[test]
fn three_triangles_over_zero_to_ten() {
    let mut set = three_terms();
    let degrees = set.fuzzify(5 * ONE);
    assert_eq!(degrees[&Term::Zero], ONE);
    assert_eq!(degrees[&Term::Neg], 0);
    assert_eq!(degrees[&Term::Pos], 0);
    let crisp = set.defuzzify(cuts(0, ONE, 0)).unwrap();
    let off = (crisp as f64 / ONE as f64 - 5.0).abs();
    assert!(off < 0.001);
}

#[test]
fn fuzzify_in_the_middle_of_the_domain() {
    let mut set = three_terms();
    let degrees = set.fuzzify(5 * ONE);
    assert_eq!(degrees, cuts(0, ONE, 0));
    assert_eq!(last_input(&set), 32768);
}

#[test]
fn fuzzify_between_two_peaks() {
    let mut set = three_terms();
    assert_eq!(set.fuzzify(5 * ONE / 2), cuts(32768, 32768, 0));
    assert_eq!(last_input(&set), 16384);
    assert_eq!(set.fuzzify(15 * ONE / 2), cuts(0, 32768, 32768));
    assert_eq!(last_input(&set), 49152);
}

#[test]
fn fuzzify_normalizes_the_ends_of_the_domain_to_zero_and_one() {
    let mut set = three_terms();
    assert_eq!(set.fuzzify(0), cuts(ONE, 0, 0));
    assert_eq!(last_input(&set), 0);
    assert_eq!(set.fuzzify(10 * ONE), cuts(0, 0, ONE));
    assert_eq!(last_input(&set), ONE as i64);
    let mut shifted = single(triangle(0, 32768, 65536), -3 * ONE, 7 * ONE);
    shifted.fuzzify(-3 * ONE);
    assert_eq!(last_input(&shifted), 0);
    shifted.fuzzify(7 * ONE);
    assert_eq!(last_input(&shifted), ONE as i64);
}

#[test]
fn fuzzify_outside_the_domain_rounds_down() {
    let mut set = three_terms();
    assert_eq!(set.fuzzify(-1), cuts(65534, 0, 0));
    assert_eq!(last_input(&set), -1);
    assert_eq!(set.fuzzify(-2 * ONE), cuts(39320, 0, 0));
    assert_eq!(last_input(&set), -13108);
    assert_eq!(set.fuzzify(12 * ONE), cuts(0, 0, 39322));
    assert_eq!(last_input(&set), 78643);
}

#[test]
fn fuzzify_on_the_narrowest_domain_and_the_widest() {
    let mut narrow = single(Box::new(|x| (x >> 32) as i32), 0, 1);
    let degrees = narrow.fuzzify(i32::MAX);
    assert_eq!(last_input(&narrow), i32::MAX as i64 * 65536);
    assert_eq!(degrees[&Term::Zero], 32767);
    narrow.fuzzify(i32::MIN);
    assert_eq!(last_input(&narrow), i32::MIN as i64 * 65536);
    let mut wide = single(Box::new(|x| x as i32), i32::MIN, i32::MAX);
    assert_eq!(wide.fuzzify(i32::MAX)[&Term::Zero], ONE);
    assert_eq!(wide.fuzzify(i32::MIN)[&Term::Zero], 0);
    assert_eq!(wide.fuzzify(0)[&Term::Zero], 32768);
    assert_eq!(wide.fuzzify(-1)[&Term::Zero], 32767);
}

#[test]
fn fuzzify_leaves_the_output_trace_alone() {
    let mut set = three_terms();
    set.defuzzify(cuts(0, ONE, 0)).unwrap();
    let before = last_output(&set);
    set.fuzzify(3 * ONE);
    assert_eq!(last_output(&set), before);
}

#[test]
fn defuzzify_the_middle_term() {
    let mut set = three_terms();
    let crisp = set.defuzzify(cuts(0, ONE, 0)).unwrap();
    assert_eq!(crisp, 327670);
    assert!((crisp - 5 * ONE).abs() < ONE / 1000);
    let trace = last_output(&set);
    assert_eq!(trace.len(), 101);
    assert_eq!(trace[0], (32767, 21845));
    assert_eq!(trace[1], (0, 0));
    assert_eq!(trace[2], (661, 1322));
    assert_eq!(trace[3], (1323, 2646));
    assert_eq!(trace[50], (32437, 64874));
    assert_eq!(trace[51], (33098, 64876));
    assert_eq!(trace[99], (64874, 1324));
    assert_eq!(trace[100], (65536, 0));
}

#[test]
fn defuzzify_the_outer_terms() {
    let mut set = three_terms();
    assert_eq!(set.defuzzify(cuts(ONE, 0, 0)), Ok(107030));
    assert_eq!(last_output(&set)[0], (10703, 22064));
    assert_eq!(set.defuzzify(cuts(0, 0, ONE)), Ok(548310));
    assert_eq!(last_output(&set)[0], (54831, 22063));
}

#[test]
fn defuzzify_takes_the_greatest_clipped_degree_at_each_sample() {
    let mut set = three_terms();
    assert_eq!(set.defuzzify(cuts(ONE / 2, ONE / 4, ONE)), Ok(365250));
    let trace = last_output(&set);
    assert_eq!(trace[0], (36525, 18350));
    assert_eq!(trace[11], (6619, 32768));
    assert_eq!(trace[31], (19859, 25818));
    assert_eq!(trace[71], (46338, 27140));
    let neg = Triangle { left: -32768, peak: 0, right: 32768 };
    let zero = Triangle { left: 0, peak: 32768, right: 65536 };
    let pos = Triangle { left: 32768, peak: 65536, right: 98304 };
    for i in 0..100 {
        let (x, y) = trace[i + 1];
        assert_eq!(x, sample_position(i));
        let clipped = [
            neg.evaluate(x as i64).min(ONE / 2),
            zero.evaluate(x as i64).min(ONE / 4),
            pos.evaluate(x as i64).min(ONE),
        ];
        assert_eq!(y, *clipped.iter().max().unwrap());
    }
}

#[test]
fn defuzzify_samples_both_ends_of_the_unit_interval() {
    let mut set = three_terms();
    set.defuzzify(cuts(ONE, ONE, ONE)).unwrap();
    let trace = last_output(&set);
    assert_eq!(trace[1].0, 0);
    assert_eq!(trace[100].0, ONE);
    for i in 0..100 {
        assert_eq!(trace[i + 1].0, sample_position(i));
    }
}

#[test]
fn defuzzify_halves_the_height_of_the_centre_of_mass() {
    let mut set = single(Box::new(|_| ONE), -3 * ONE, 7 * ONE);
    let crisp = set.defuzzify(HashMap::from([(Term::Zero, ONE / 2)]));
    assert_eq!(crisp, Ok(131062));
    let trace = last_output(&set);
    assert_eq!(trace[0], (32767, 16384));
    for i in 0..100 {
        assert_eq!(trace[i + 1], (sample_position(i), ONE / 2));
    }
}

#[test]
fn defuzzify_denormalizes_the_ends_of_the_unit_interval_to_the_ends_of_the_domain() {
    let mut at_start = single(
        Box::new(|x| if x == 0 { ONE } else { 0 }),
        -3 * ONE,
        7 * ONE,
    );
    assert_eq!(at_start.defuzzify(HashMap::from([(Term::Zero, ONE)])), Ok(-3 * ONE));
    assert_eq!(last_output(&at_start)[0], (0, 32768));
    let mut at_end = single(
        Box::new(|x| if x == ONE as i64 { ONE } else { 0 }),
        -3 * ONE,
        7 * ONE,
    );
    assert_eq!(at_end.defuzzify(HashMap::from([(Term::Zero, ONE)])), Ok(7 * ONE));
    assert_eq!(last_output(&at_end)[0], (65536, 32768));
}

#[test]
fn defuzzify_of_a_ramp() {
    let mut set = single(Box::new(|x| x as i32), 0, ONE);
    assert_eq!(set.defuzzify(HashMap::from([(Term::Zero, ONE)])), Ok(43911));
    assert_eq!(last_output(&set)[0], (43911, 21955));
    assert_eq!(set.defuzzify(HashMap::from([(Term::Zero, ONE / 4)])), Ok(36836));
    let trace = last_output(&set);
    assert_eq!(trace[0], (36836, 7804));
    assert_eq!(trace[21], (13239, 13239));
    assert_eq!(trace[31], (19859, 16384));
}

#[test]
fn defuzzify_with_the_greatest_numbers() {
    let mut set = single(Box::new(|_| i32::MAX), i32::MIN, i32::MAX);
    assert_eq!(set.defuzzify(HashMap::from([(Term::Zero, i32::MAX)])), Ok(-65537));
    assert_eq!(last_output(&set)[0], (32767, 1073741823));
}

#[test]
fn defuzzify_stays_inside_the_domain() {
    let mut set = three_terms();
    for neg in [0, 1, ONE / 3, ONE] {
        for zero in [0, 7, ONE / 2, ONE] {
            for pos in [0, 1, ONE - 1, 2 * ONE] {
                if let Ok(crisp) = set.defuzzify(cuts(neg, zero, pos)) {
                    assert!(0 <= crisp && crisp <= 10 * ONE);
                } else {
                    assert_eq!((neg, zero, pos), (0, 0, 0));
                }
            }
        }
    }
}

#[test]
fn defuzzify_with_too_few_or_too_many_strengths_is_a_cardinality_mismatch() {
    let mut set = three_terms();
    assert_eq!(
        set.defuzzify(HashMap::new()),
        Err(FuzzyError::CardinalityMismatch { supplied: 0, expected: 3 })
    );
    assert_eq!(
        set.defuzzify(HashMap::from([(Term::Neg, ONE), (Term::Pos, ONE)])),
        Err(FuzzyError::CardinalityMismatch { supplied: 2, expected: 3 })
    );
    let mut one = single(triangle(0, 32768, 65536), 0, ONE);
    assert_eq!(
        one.defuzzify(cuts(ONE, ONE, ONE)),
        Err(FuzzyError::CardinalityMismatch { supplied: 3, expected: 1 })
    );
    assert_eq!(
        one.defuzzify(HashMap::from([(Term::Neg, ONE), (Term::Pos, ONE)])),
        Err(FuzzyError::CardinalityMismatch { supplied: 2, expected: 1 })
    );
    let mut empty: Fuzzy<Term, Shape> = Fuzzy::new(HashMap::new(), 0..ONE);
    assert_eq!(
        empty.defuzzify(HashMap::from([(Term::Zero, 0)])),
        Err(FuzzyError::CardinalityMismatch { supplied: 1, expected: 0 })
    );
}

#[test]
fn defuzzify_after_a_cardinality_mismatch_has_changed_nothing() {
    let mut set = three_terms();
    set.fuzzify(2 * ONE);
    set.defuzzify(cuts(ONE, 0, 0)).unwrap();
    let input = last_input(&set);
    let output = last_output(&set);
    assert!(set.defuzzify(HashMap::from([(Term::Zero, ONE)])).is_err());
    assert_eq!(last_input(&set), input);
    assert_eq!(last_output(&set), output);
}

#[test]
fn defuzzify_with_a_label_that_has_no_function_is_an_unknown_label() {
    let mut set = single(triangle(0, 32768, 65536), 0, ONE);
    set.defuzzify(HashMap::from([(Term::Zero, ONE)])).unwrap();
    let output = last_output(&set);
    assert_eq!(
        set.defuzzify(HashMap::from([(Term::Pos, ONE)])),
        Err(FuzzyError::UnknownLabel)
    );
    assert_eq!(last_output(&set), output);
}

#[test]
fn defuzzify_twice_gives_the_same_value_and_trace() {
    let mut set = three_terms();
    let first = set.defuzzify(cuts(ONE / 3, ONE / 5, ONE / 7));
    let first_trace = last_output(&set);
    set.fuzzify(4 * ONE);
    let second = set.defuzzify(cuts(ONE / 3, ONE / 5, ONE / 7));
    assert_eq!(first, second);
    assert_eq!(last_output(&set), first_trace);
    let mut other = three_terms();
    other.defuzzify(cuts(ONE, ONE, ONE)).unwrap();
    assert_eq!(other.defuzzify(cuts(ONE / 3, ONE / 5, ONE / 7)), first);
    assert_eq!(last_output(&other), first_trace);
}

#[test]
fn defuzzify_with_one_label_clips_its_function() {
    let shape = Triangle { left: 0, peak: 32768, right: 65536 };
    let mut set = single(triangle(0, 32768, 65536), 0, ONE);
    for a in [1, ONE / 4, ONE / 2, ONE, 3 * ONE] {
        set.defuzzify(HashMap::from([(Term::Zero, a)])).unwrap();
        let trace = last_output(&set);
        for i in 0..100 {
            let (x, y) = trace[i + 1];
            assert_eq!(y, shape.evaluate(x as i64).min(a));
        }
    }
}

#[test]
fn defuzzify_with_a_stronger_activation_lowers_no_sample() {
    let mut set = single(triangle(0, 32768, 65536), 0, ONE);
    let mut below = vec![(0, 0); 101];
    for a in [0, 1, ONE / 4, ONE / 2, ONE - 1, ONE, 3 * ONE] {
        let _ = set.defuzzify(HashMap::from([(Term::Zero, a)]));
        let trace = last_output(&set);
        for i in 1..=100 {
            assert!(below[i].1 <= trace[i].1);
        }
        below = trace;
    }
    let mut three = three_terms();
    three.defuzzify(cuts(ONE / 4, ONE / 2, 0)).unwrap();
    let lower = last_output(&three);
    three.defuzzify(cuts(ONE / 4, ONE, ONE / 8)).unwrap();
    let higher = last_output(&three);
    for i in 1..=100 {
        assert!(lower[i].1 <= higher[i].1);
    }
}

#[test]
fn defuzzify_never_aggregates_below_zero() {
    let mut negative = single(Box::new(|_| -5), 0, ONE);
    assert_eq!(
        negative.defuzzify(HashMap::from([(Term::Zero, ONE)])),
        Err(FuzzyError::ZeroMass)
    );
    let mut cut_below = single(Box::new(|_| ONE), 0, ONE);
    assert_eq!(
        cut_below.defuzzify(HashMap::from([(Term::Zero, -7)])),
        Err(FuzzyError::ZeroMass)
    );
    let mut half = single(Box::new(|x| (x - 32768) as i32), 0, ONE);
    assert_eq!(half.defuzzify(HashMap::from([(Term::Zero, ONE)])), Ok(54831));
    let trace = last_output(&half);
    assert_eq!(trace[0], (54831, 11031));
    assert_eq!(trace[49], (31775, 0));
    assert_eq!(trace[50], (32437, 0));
    assert_eq!(trace[51], (33098, 330));
    assert_eq!(trace[52], (33760, 992));
}

#[test]
fn defuzzify_with_no_activation_is_zero_mass() {
    let mut set = three_terms();
    set.defuzzify(cuts(ONE, ONE, ONE)).unwrap();
    assert_eq!(set.defuzzify(cuts(0, 0, 0)), Err(FuzzyError::ZeroMass));
    let trace = last_output(&set);
    assert_eq!(trace.len(), 101);
    assert_eq!(trace[0], (0, 0));
    for i in 0..100 {
        assert_eq!(trace[i + 1], (sample_position(i), 0));
    }
}

#[test]
fn defuzzify_with_no_labels_is_zero_mass() {
    let mut empty: Fuzzy<Term, Shape> = Fuzzy::new(HashMap::new(), 0..ONE);
    assert_eq!(empty.defuzzify(HashMap::new()), Err(FuzzyError::ZeroMass));
    let trace = last_output(&empty);
    assert_eq!(trace[0], (0, 0));
    assert_eq!(trace[100], (ONE, 0));
}

#[test]
fn defuzzify_then_fuzzify_comes_back_to_the_centre_of_mass() {
    for i in [0, 1, 33, 50, 98, 99] {
        let at = sample_position(i) as i64;
        let mut set = single(Box::new(move |x| if x == at { ONE } else { 0 }), 0, 10 * ONE);
        let crisp = set.defuzzify(HashMap::from([(Term::Zero, ONE)])).unwrap();
        assert_eq!(last_output(&set)[0].0 as i64, at);
        assert_eq!(crisp as i64, at * 10);
        set.fuzzify(crisp);
        assert_eq!(last_input(&set), at);
    }
}

#[test]
fn the_round_trip_loses_no_more_than_the_rounding() {
    for (start, end) in [(0, 3), (-7, 11), (0, ONE), (-3 * ONE, 7 * ONE), (i32::MIN, i32::MAX)] {
        let width = end as i64 - start as i64;
        for i in [0, 1, 33, 50, 98, 99] {
            let at = sample_position(i) as i64;
            let mut set = single(Box::new(move |x| if x == at { ONE } else { 0 }), start, end);
            let crisp = set.defuzzify(HashMap::from([(Term::Zero, ONE)])).unwrap();
            assert!(start <= crisp && crisp <= end);
            set.fuzzify(crisp);
            let back = last_input(&set);
            assert!(back <= at);
            assert!((at - back - 1) * width < 65536);
        }
    }
}
