//! Statistics of how long the iterations took.

use crate::digits::{numeral, numeral_text};
use crate::double::{
    at_most, difference, fixed, nearest, product, quotient, root, signed, sum, Double,
    EXPONENT_MIN, MANTISSA_MIN,
};
use crate::nearest::{
    lemma_den_pos, lemma_nearest_close, lemma_nearest_identity, lemma_nearest_ratio,
    lemma_nearest_wf, lemma_nearest_whole, lemma_order,
};
use crate::notation::{is_numeral_of, law_numeral};
use crate::rounding::{lemma_up_pos, up};
use vstd::arithmetic::power2::{
    lemma2_to64, lemma2_to64_rest, lemma_pow2_adds, lemma_pow2_strictly_increases, pow2,
};
use vstd::prelude::*;

verus! {

/// A time that went by: a finite number of seconds that is not negative.
pub open spec fn is_elapsed(d: Double) -> bool {
    d is Finite && !d.is_negative() && d.wf()
}

pub open spec fn all_elapsed(durations: Seq<Double>) -> bool {
    forall|i: int| 0 <= i < durations.len() ==> is_elapsed(#[trigger] durations[i])
}

/// The sum from the left, which starts at negative zero.
pub open spec fn total(values: Seq<Double>) -> Double
    decreases values.len(),
{
    if values.len() == 0 {
        Double::Finite { negative: true, mantissa: 0, exponent: EXPONENT_MIN }
    } else {
        sum(total(values.drop_last()), values.last())
    }
}

/// The mean of the values.
pub open spec fn mean(values: Seq<Double>) -> Double {
    quotient(total(values), nearest(false, values.len(), 1))
}

/// The square of the distance from `center`.
pub open spec fn squared_distance(value: Double, center: Double) -> Double {
    product(difference(value, center), difference(value, center))
}

/// The standard deviation of the values.
pub open spec fn deviation(values: Seq<Double>) -> Double {
    root(
        mean(values.map_values(|value: Double| squared_distance(value, mean(values)))),
    )
}

/// The least of the values, of which there is at least one.
pub open spec fn least(values: Seq<Double>) -> Double
    decreases values.len(),
{
    if values.len() <= 1 {
        values[0]
    } else if at_most(least(values.drop_last()), values.last()) {
        least(values.drop_last())
    } else {
        values.last()
    }
}

/// The greatest of the values, of which there is at least one.
pub open spec fn greatest(values: Seq<Double>) -> Double
    decreases values.len(),
{
    if values.len() <= 1 {
        values[0]
    } else if at_most(values.last(), greatest(values.drop_last())) {
        greatest(values.drop_last())
    } else {
        values.last()
    }
}

/// The lines on how many iterations there were and how long they took, in seconds.
pub open spec fn rendered_stats(durations: Seq<Double>) -> Seq<char> {
    "\nIteration Count: "@ + numeral(durations.len()) + "\nIteration Duration: mean="@ + fixed(
        mean(durations),
        1,
    ) + "s+-"@ + fixed(deviation(durations), 1) + "s,min="@ + fixed(least(durations), 1) + "s,max="@
        + fixed(greatest(durations), 1) + "s"@
}

fn compute_total(values: &Vec<Double>) -> (t: Double)
    requires
        forall|i: int| 0 <= i < values@.len() ==> (#[trigger] values@[i]).wf(),
    ensures
        t == total(values@),
        t.wf(),
{
    let mut t = Double::Finite { negative: true, mantissa: 0, exponent: EXPONENT_MIN };
    let mut i: usize = 0;
    while i < values.len()
        invariant
            i <= values.len(),
            forall|i: int| 0 <= i < values@.len() ==> (#[trigger] values@[i]).wf(),
            t == total(values@.take(i as int)),
            t.wf(),
        decreases values.len() - i,
    {
        proof {
            assert(values@[i as int].wf());
            assert(values@.take(i + 1).drop_last() =~= values@.take(i as int));
        }
        t = t.plus(values[i]);
        i += 1;
    }
    proof {
        assert(values@.take(i as int) =~= values@);
    }
    t
}

fn compute_mean(values: &Vec<Double>) -> (m: Double)
    requires
        forall|i: int| 0 <= i < values@.len() ==> (#[trigger] values@[i]).wf(),
    ensures
        m == mean(values@),
        m.wf(),
{
    compute_total(values).over(Double::from_u64(values.len() as u64))
}

fn compute_deviation(values: &Vec<Double>) -> (d: Double)
    requires
        forall|i: int| 0 <= i < values@.len() ==> (#[trigger] values@[i]).wf(),
    ensures
        d == deviation(values@),
        d.wf(),
{
    let center = compute_mean(values);
    let mut squares: Vec<Double> = Vec::new();
    let mut i: usize = 0;
    while i < values.len()
        invariant
            i <= values.len(),
            forall|i: int| 0 <= i < values@.len() ==> (#[trigger] values@[i]).wf(),
            center == mean(values@),
            center.wf(),
            squares@.len() == i,
            forall|j: int|
                0 <= j < i ==> (#[trigger] squares@[j]).wf() && squares@[j] == squared_distance(
                    values@[j],
                    center,
                ),
        decreases values.len() - i,
    {
        let distance = values[i].minus(center);
        squares.push(distance.times(distance));
        i += 1;
    }
    proof {
        assert(squares@ =~= values@.map_values(
            |value: Double| squared_distance(value, mean(values@)),
        ));
    }
    compute_mean(&squares).sqrt()
}

/// Whether the one elapsed time is at most the other.
fn check_at_most(a: Double, b: Double) -> (r: bool)
    requires
        is_elapsed(a),
        is_elapsed(b),
    ensures
        r == at_most(a, b),
{
    proof {
        lemma_order(a, b);
    }
    match (a, b) {
        (
            Double::Finite { mantissa: ma, exponent: ea, .. },
            Double::Finite { mantissa: mb, exponent: eb, .. },
        ) => ea < eb || (ea == eb && ma <= mb),
        _ => false,
    }
}

fn compute_least(values: &Vec<Double>) -> (m: Double)
    requires
        values@.len() > 0,
        all_elapsed(values@),
    ensures
        m == least(values@),
        is_elapsed(m),
{
    let mut m = values[0];
    let mut i: usize = 1;
    while i < values.len()
        invariant
            1 <= i <= values.len(),
            all_elapsed(values@),
            m == least(values@.take(i as int)),
            is_elapsed(m),
        decreases values.len() - i,
    {
        proof {
            assert(values@.take(i + 1).drop_last() =~= values@.take(i as int));
            assert(values@.take(i + 1).last() == values@[i as int]);
        }
        if !check_at_most(m, values[i]) {
            m = values[i];
        }
        i += 1;
    }
    proof {
        assert(values@.take(i as int) =~= values@);
    }
    m
}

fn compute_greatest(values: &Vec<Double>) -> (m: Double)
    requires
        values@.len() > 0,
        all_elapsed(values@),
    ensures
        m == greatest(values@),
        is_elapsed(m),
{
    let mut m = values[0];
    let mut i: usize = 1;
    while i < values.len()
        invariant
            1 <= i <= values.len(),
            all_elapsed(values@),
            m == greatest(values@.take(i as int)),
            is_elapsed(m),
        decreases values.len() - i,
    {
        proof {
            assert(values@.take(i + 1).drop_last() =~= values@.take(i as int));
            assert(values@.take(i + 1).last() == values@[i as int]);
        }
        if !check_at_most(values[i], m) {
            m = values[i];
        }
        i += 1;
    }
    proof {
        assert(values@.take(i as int) =~= values@);
    }
    m
}

/// The lines on how many iterations there were and how long they took; `None` where there was
/// none.
pub fn iteration_stats(durations: &Vec<Double>) -> (text: Option<String>)
    requires
        all_elapsed(durations@),
    ensures
        text is None <==> durations@.len() == 0,
        text matches Some(t) ==> t@ == rendered_stats(durations@),
{
    if durations.len() == 0 {
        return None;
    }
    proof {
        assert forall|i: int| 0 <= i < durations@.len() implies (#[trigger] durations@[i]).wf() by {
            assert(is_elapsed(durations@[i]));
        }
    }
    let mut text = String::from_str("\nIteration Count: ");
    text.append(numeral_text(durations.len() as u64).as_str());
    text.append("\nIteration Duration: mean=");
    text.append(compute_mean(durations).to_fixed(1).as_str());
    text.append("s+-");
    text.append(compute_deviation(durations).to_fixed(1).as_str());
    text.append("s,min=");
    text.append(compute_least(durations).to_fixed(1).as_str());
    text.append("s,max=");
    text.append(compute_greatest(durations).to_fixed(1).as_str());
    text.append("s");
    Some(text)
}

/// The least and the greatest of the times are two of them, and all lie between.
pub proof fn law_extremes(durations: Seq<Double>)
    requires
        durations.len() > 0,
        all_elapsed(durations),
    ensures
        durations.contains(least(durations)),
        durations.contains(greatest(durations)),
        forall|i: int|
            0 <= i < durations.len() ==> at_most(least(durations), #[trigger] durations[i])
                && at_most(durations[i], greatest(durations)),
    decreases durations.len(),
{
    let last = durations[durations.len() - 1];
    assert(is_elapsed(last));
    lemma_order(last, last);
    if durations.len() == 1 {
        assert(durations[0] == last);
    } else {
        let before = durations.drop_last();
        assert forall|i: int| 0 <= i < before.len() implies is_elapsed(#[trigger] before[i]) by {
            assert(before[i] == durations[i]);
        }
        law_extremes(before);
        let i = choose|i: int| 0 <= i < before.len() && before[i] == least(before);
        let j = choose|j: int| 0 <= j < before.len() && before[j] == greatest(before);
        assert(durations[i] == least(before) && durations[j] == greatest(before));
        lemma_order(least(before), last);
        lemma_order(last, greatest(before));
        assert forall|k: int| 0 <= k < durations.len() implies at_most(
            least(durations),
            #[trigger] durations[k],
        ) && at_most(durations[k], greatest(durations)) by {
            if k < before.len() {
                assert(before[k] == durations[k]);
                lemma_order(least(before), durations[k]);
                lemma_order(durations[k], greatest(before));
                lemma_order(last, durations[k]);
                lemma_order(durations[k], last);
            }
        }
    }
}

proof fn lemma_one()
    ensures
        nearest(false, 1, 1) == (Double::Finite {
            negative: false,
            mantissa: MANTISSA_MIN,
            exponent: (-52) as i32,
        }),
        nearest(false, 1, 1).num() * 1 == nearest(false, 1, 1).den(),
        nearest(false, 1, 1).den() > 0,
{
    let one = Double::Finite { negative: false, mantissa: MANTISSA_MIN, exponent: (-52) as i32 };
    lemma2_to64_rest();
    assert(up(52) == pow2(52));
    assert(up(-52) == 1);
    assert(one.num() == MANTISSA_MIN) by (nonlinear_arith)
        requires
            one.num() == MANTISSA_MIN as nat * up(-52),
            up(-52) == 1,
    ;
    lemma_nearest_identity(one);
    lemma_nearest_ratio(false, 1, 1, one.num(), one.den());
}

/// The mean of a single time is that time.
proof fn lemma_mean_of_one(d: Double)
    requires
        is_elapsed(d),
    ensures
        total(seq![d]) == d,
        mean(seq![d]) == d,
{
    let zero = Double::Finite { negative: true, mantissa: 0, exponent: EXPONENT_MIN };
    let one = nearest(false, 1, 1);
    let values = seq![d];
    assert(values.drop_last() =~= Seq::<Double>::empty());
    assert(total(values.drop_last()) == zero);
    lemma_one();
    lemma_den_pos(d);
    lemma_den_pos(zero);
    lemma_nearest_identity(d);
    assert(zero.num() == 0) by (nonlinear_arith)
        requires
            zero.num() == 0 * up(EXPONENT_MIN as int),
    ;
    assert(zero.num() * d.den() == 0) by (nonlinear_arith)
        requires
            zero.num() == 0,
    ;
    if d->mantissa == 0 {
        assert(d.num() == 0) by (nonlinear_arith)
            requires
                d.num() == d->mantissa as nat * up(d->exponent as int),
                d->mantissa == 0,
        ;
        assert(d.num() * zero.den() == 0) by (nonlinear_arith)
            requires
                d.num() == 0,
        ;
        assert(total(values) == d);
    } else {
        lemma_up_pos(d->exponent as int);
        assert(d.num() > 0) by (nonlinear_arith)
            requires
                d.num() == d->mantissa as nat * up(d->exponent as int),
                d->mantissa > 0,
                up(d->exponent as int) > 0,
        ;
        assert(d.num() * zero.den() > 0) by (nonlinear_arith)
            requires
                d.num() > 0,
                zero.den() > 0,
        ;
        assert(zero.den() * d.den() > 0) by (nonlinear_arith)
            requires
                d.den() > 0,
                zero.den() > 0,
        ;
        assert(d.num() * zero.den() * d.den() == d.num() * (zero.den() * d.den()))
            by (nonlinear_arith);
        lemma_nearest_ratio(
            false,
            d.num() * zero.den(),
            zero.den() * d.den(),
            d.num(),
            d.den(),
        );
        assert(total(values) == d);
    }
    assert(d.den() * one.num() > 0) by (nonlinear_arith)
        requires
            d.den() > 0,
            one.num() == one.den(),
            one.den() > 0,
    ;
    assert(d.num() * one.den() * d.den() == d.num() * (d.den() * one.num())) by (nonlinear_arith)
        requires
            one.num() == one.den(),
    ;
    lemma_nearest_ratio(false, d.num() * one.den(), d.den() * one.num(), d.num(), d.den());
}

/// After a single iteration the sum, the mean, the least and the greatest time are all its time, and the
/// deviation is zero.
pub proof fn law_single_iteration(d: Double)
    requires
        is_elapsed(d),
    ensures
        total(seq![d]) == d,
        mean(seq![d]) == d,
        deviation(seq![d]) == nearest(false, 0, 1),
        least(seq![d]) == d,
        greatest(seq![d]) == d,
{
    let zero = nearest(false, 0, 1);
    lemma_mean_of_one(d);
    let values = seq![d];
    assert(signed(false, d.num() * d.den()) + signed(true, d.num() * d.den()) == 0);
    assert(difference(d, d) == zero);
    assert(zero.num() * zero.num() == 0) by (nonlinear_arith)
        requires
            zero.num() == 0 * up(EXPONENT_MIN as int),
    ;
    assert(squared_distance(d, d) == zero);
    assert(values.map_values(|value: Double| squared_distance(value, mean(values))) =~= seq![zero]);
    lemma_mean_of_one(zero);
}

/// The sum of the times is taken one time after the other.
pub proof fn law_total_grows(values: Seq<Double>, value: Double)
    ensures
        total(values.push(value)) == sum(total(values), value),
{
    assert(values.push(value).drop_last() =~= values);
}

/// The mean is the double nearest to the sum over the number of times.
pub proof fn law_mean_is_nearest(values: Seq<Double>)
    requires
        0 < values.len() <= 0x20_0000_0000_0000,
        total(values) is Finite,
        !total(values).is_negative(),
    ensures
        mean(values) == nearest(false, total(values).num(), total(values).den() * values.len()),
{
    let t = total(values);
    let n = values.len();
    let u = nearest(false, n, 1);
    lemma_nearest_whole(n);
    lemma_nearest_wf(false, n, 1);
    lemma_den_pos(t);
    lemma_not_zero(u, n);
    let a = t.num();
    let b = t.den();
    assert(b * n > 0 && b * u.num() > 0) by (nonlinear_arith)
        requires
            b > 0,
            n > 0,
            u.num() == n * u.den(),
            u.den() > 0,
    ;
    assert((a * u.den()) * (b * n) == a * (b * u.num())) by (nonlinear_arith)
        requires
            u.num() == n * u.den(),
    ;
    lemma_nearest_ratio(false, a * u.den(), b * u.num(), a, b * n);
}

/// A mean of moderate size is the sum over the number of times, to one part in `2^53`.
pub proof fn law_mean(values: Seq<Double>)
    requires
        0 < values.len() <= 0x20_0000_0000_0000,
        total(values) is Finite,
        !total(values).is_negative(),
        total(values).num() * pow2(100) > total(values).den(),
        total(values).num() < total(values).den() * pow2(100),
    ensures
        ({
            let t = total(values);
            let m = mean(values);
            let n = values.len();
            &&& m is Finite
            &&& !m.is_negative()
            &&& m.den() > 0
            &&& 0x20_0000_0000_0000 * (m.num() * (t.den() * n)) <= 0x20_0000_0000_0001 * (t.num()
                * m.den())
            &&& 0x20_0000_0000_0000 * (m.num() * (t.den() * n)) >= 0x1f_ffff_ffff_ffff * (t.num()
                * m.den())
        }),
{
    let t = total(values);
    let n = values.len();
    let p = pow2(100);
    law_mean_is_nearest(values);
    lemma_den_pos(t);
    let a = t.num();
    let b = t.den();
    lemma2_to64();
    lemma2_to64_rest();
    lemma_pow2_adds(100, 100);
    lemma_pow2_strictly_increases(53, 100);
    assert(b * n > 0) by (nonlinear_arith)
        requires
            b > 0,
            n > 0,
    ;
    assert(a * pow2(200) > b * n) by (nonlinear_arith)
        requires
            a * p > b,
            pow2(200) == p * p,
            n <= p,
            p > 0,
    {
        assert((a * p) * p >= (b + 1) * p);
        assert(b * p >= b * n);
    }
    assert(a < (b * n) * pow2(200)) by (nonlinear_arith)
        requires
            a < b * p,
            pow2(200) == p * p,
            n >= 1,
            p >= 1,
            b > 0,
    {
        assert(b * n >= b);
        assert((b * n) * (p * p) >= b * (p * p));
        assert(b * (p * p) >= b * p);
    }
    lemma_nearest_close(a, b * n);
    lemma_nearest_wf(false, a, b * n);
}

proof fn lemma_not_zero(u: Double, n: nat)
    requires
        u is Finite,
        u.num() == n * u.den(),
        u.den() > 0,
        n > 0,
    ensures
        !u.is_zero(),
{
    if u.is_zero() {
        assert(u.num() == 0) by (nonlinear_arith)
            requires
                u.num() == u->mantissa as nat * up(u->exponent as int),
                u->mantissa == 0,
        ;
        assert(n * u.den() > 0) by (nonlinear_arith)
            requires
                n > 0,
                u.den() > 0,
        ;
    }
}

/// The deviation is the root of the mean of the squares of how far each time is from the mean, all
/// of them counted.
pub proof fn law_deviation(values: Seq<Double>, squares: Seq<Double>)
    requires
        squares.len() == values.len(),
        forall|i: int|
            0 <= i < values.len() ==> #[trigger] squares[i] == product(
                difference(values[i], mean(values)),
                difference(values[i], mean(values)),
            ),
    ensures
        deviation(values) == root(mean(squares)),
{
    assert(squares =~= values.map_values(
        |value: Double| squared_distance(value, mean(values)),
    ));
}

/// The two lines of statistics are made of these texts.
pub open spec fn are_stats_lines(
    text: Seq<char>,
    count: Seq<char>,
    mean: Seq<char>,
    deviation: Seq<char>,
    min: Seq<char>,
    max: Seq<char>,
) -> bool {
    text == "\nIteration Count: "@ + count + "\nIteration Duration: mean="@ + mean + "s+-"@
        + deviation + "s,min="@ + min + "s,max="@ + max + "s"@
}

/// The statistics tell the number of the times, and with one digit behind the point their mean,
/// deviation, least and greatest; the last two of times that are among them and bound all others.
pub proof fn law_statistics(durations: Seq<Double>)
    requires
        durations.len() > 0,
        all_elapsed(durations),
    ensures
        exists|count: Seq<char>, min: Double, max: Double|
            {
                &&& #[trigger] are_stats_lines(
                    rendered_stats(durations),
                    count,
                    fixed(mean(durations), 1),
                    fixed(deviation(durations), 1),
                    fixed(min, 1),
                    fixed(max, 1),
                )
                &&& is_numeral_of(count, durations.len())
                &&& durations.contains(min)
                &&& durations.contains(max)
                &&& forall|i: int|
                    0 <= i < durations.len() ==> at_most(min, #[trigger] durations[i]) && at_most(
                        durations[i],
                        max,
                    )
            },
{
    law_extremes(durations);
    law_numeral(durations.len());
    assert(are_stats_lines(
        rendered_stats(durations),
        numeral(durations.len()),
        fixed(mean(durations), 1),
        fixed(deviation(durations), 1),
        fixed(least(durations), 1),
        fixed(greatest(durations), 1),
    ));
}

/// The order of times: the one is at most the other as ratios.
pub proof fn law_order_of_times(a: Double, b: Double)
    requires
        is_elapsed(a),
        is_elapsed(b),
    ensures
        at_most(a, b) <==> a.num() * b.den() <= b.num() * a.den(),
{
}

} // verus!
