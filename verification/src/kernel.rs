//! What the blur of a sequence is.
//!
//! Each output is a weighted average of the inputs around it. The weights
//! form a tent: `radius + 1` at the centre, one less for every step away
//! from it, and nothing beyond `radius` steps. Near the ends of the sequence
//! the tent hangs over the edge; the part that does is dropped, from the sum
//! and from the divisor alike.

use vstd::prelude::*;
use crate::traits::StackBlurrable;

verus! {

/// The weight of an input `distance` steps away from the output.
pub open spec fn tent_weight(radius: nat, distance: int) -> nat {
    if -(radius as int) <= distance <= radius as int {
        if distance < 0 {
            (radius + 1 + distance) as nat
        } else {
            (radius + 1 - distance) as nat
        }
    } else {
        0
    }
}

/// The weights, by input position, that go into the output at `center`.
pub open spec fn tent(radius: nat, center: int) -> spec_fn(int) -> nat {
    |j: int| tent_weight(radius, j - center)
}

/// The weights of the positions `0..n`, added up.
pub open spec fn weight_total(weight: spec_fn(int) -> nat, n: nat) -> nat
    decreases n,
{
    if n == 0 {
        0
    } else {
        weight_total(weight, (n - 1) as nat) + weight(n - 1)
    }
}

/// The first `n` values of `xs`, each multiplied by its weight, added up.
pub open spec fn weighted_sum<B: StackBlurrable>(
    xs: Seq<B>,
    weight: spec_fn(int) -> nat,
    n: nat,
) -> B
    decreases n,
{
    if n == 0 {
        B::zero_spec()
    } else {
        weighted_sum(xs, weight, (n - 1) as nat).add_spec(xs[n - 1].mul_spec(weight(n - 1)))
    }
}

/// The blurred value at position `i` of `xs`: the tent-weighted sum of the
/// inputs that exist, divided by the total weight of those same inputs.
pub open spec fn blurred_at<B: StackBlurrable>(xs: Seq<B>, radius: nat, i: int) -> B {
    weighted_sum(xs, tent(radius, i), xs.len()).div_spec(weight_total(tent(radius, i), xs.len()))
}

/// The blur of a whole sequence: one output for each input.
pub open spec fn blurred<B: StackBlurrable>(xs: Seq<B>, radius: nat) -> Seq<B> {
    Seq::new(xs.len(), |i: int| blurred_at(xs, radius, i))
}

/// Adding to zero changes nothing, on either side.
pub proof fn lemma_zero_add<B: StackBlurrable>(a: B)
    ensures
        B::zero_spec().add_spec(a) == a,
{
    B::lemma_add_commutative(B::zero_spec(), a);
    B::lemma_add_zero(a);
}

/// What is added on the right can be cancelled.
pub proof fn lemma_add_cancel<B: StackBlurrable>(a: B, b: B, c: B)
    requires
        a.add_spec(c) == b.add_spec(c),
    ensures
        a == b,
{
    B::lemma_add_sub(a, c);
    B::lemma_add_sub(b, c);
}

/// The last two terms of a sum can trade places.
pub proof fn lemma_add_swap<B: StackBlurrable>(a: B, b: B, c: B)
    ensures
        a.add_spec(b).add_spec(c) == a.add_spec(c).add_spec(b),
{
    B::lemma_add_associative(a, b, c);
    B::lemma_add_commutative(b, c);
    B::lemma_add_associative(a, c, b);
}

/// Two sums of two can be regrouped crosswise.
pub proof fn lemma_add_interchange<B: StackBlurrable>(a: B, b: B, c: B, d: B)
    ensures
        a.add_spec(b).add_spec(c.add_spec(d)) == a.add_spec(c).add_spec(b.add_spec(d)),
{
    B::lemma_add_associative(a.add_spec(b), c, d);
    lemma_add_swap(a, b, c);
    B::lemma_add_associative(a.add_spec(c), b, d);
}

/// Multiplying by one changes nothing.
pub proof fn lemma_mul_one<B: StackBlurrable>(a: B)
    ensures
        a.mul_spec(1) == a,
{
    B::lemma_mul_zero(a);
    B::lemma_mul_succ(a, 0);
    lemma_zero_add(a);
}

/// Multiplication distributes over a sum of weights.
pub proof fn lemma_mul_add<B: StackBlurrable>(a: B, m: nat, n: nat)
    ensures
        a.mul_spec(m + n) == a.mul_spec(m).add_spec(a.mul_spec(n)),
    decreases n,
{
    if n == 0 {
        B::lemma_mul_zero(a);
        B::lemma_add_zero(a.mul_spec(m));
    } else {
        let k: nat = (n - 1) as nat;
        lemma_mul_add(a, m, k);
        B::lemma_mul_succ(a, m + k);
        B::lemma_mul_succ(a, k);
        B::lemma_add_associative(a.mul_spec(m), a.mul_spec(k), a);
    }
}

/// A weighted sum depends only on the values and weights it covers.
pub proof fn lemma_weighted_sum_ext<B: StackBlurrable>(
    xs: Seq<B>,
    f: spec_fn(int) -> nat,
    ys: Seq<B>,
    g: spec_fn(int) -> nat,
    n: nat,
)
    requires
        forall|j: int| 0 <= j < n ==> xs[j] == ys[j],
        forall|j: int| 0 <= j < n ==> #[trigger] f(j) == g(j),
    ensures
        weighted_sum(xs, f, n) == weighted_sum(ys, g, n),
    decreases n,
{
    if n > 0 {
        lemma_weighted_sum_ext(xs, f, ys, g, (n - 1) as nat);
    }
}

/// Weights that are all zero give the neutral value.
pub proof fn lemma_weighted_sum_zero<B: StackBlurrable>(
    xs: Seq<B>,
    f: spec_fn(int) -> nat,
    n: nat,
)
    requires
        forall|j: int| 0 <= j < n ==> #[trigger] f(j) == 0,
    ensures
        weighted_sum(xs, f, n) == B::zero_spec(),
    decreases n,
{
    if n > 0 {
        lemma_weighted_sum_zero(xs, f, (n - 1) as nat);
        B::lemma_mul_zero(xs[n - 1]);
        B::lemma_add_zero(B::zero_spec());
    }
}

/// Two weighted sums over the same values add up to the sum under the added
/// weights.
pub proof fn lemma_weighted_sum_add<B: StackBlurrable>(
    xs: Seq<B>,
    f: spec_fn(int) -> nat,
    g: spec_fn(int) -> nat,
    h: spec_fn(int) -> nat,
    n: nat,
)
    requires
        forall|j: int| 0 <= j < n ==> #[trigger] h(j) == f(j) + g(j),
    ensures
        weighted_sum(xs, f, n).add_spec(weighted_sum(xs, g, n)) == weighted_sum(xs, h, n),
    decreases n,
{
    if n == 0 {
        B::lemma_add_zero(B::zero_spec());
    } else {
        let k: nat = (n - 1) as nat;
        lemma_weighted_sum_add(xs, f, g, h, k);
        let x = xs[n - 1];
        lemma_mul_add(x, f(n - 1), g(n - 1));
        lemma_add_interchange(
            weighted_sum(xs, f, k),
            x.mul_spec(f(n - 1)),
            weighted_sum(xs, g, k),
            x.mul_spec(g(n - 1)),
        );
    }
}

/// Where two pairs of weights add up to the same at every position, the two
/// pairs of weighted sums add up to the same.
pub proof fn lemma_weighted_sum_balance<B: StackBlurrable>(
    xs: Seq<B>,
    f1: spec_fn(int) -> nat,
    f2: spec_fn(int) -> nat,
    g1: spec_fn(int) -> nat,
    g2: spec_fn(int) -> nat,
    n: nat,
)
    requires
        forall|j: int| 0 <= j < n ==> #[trigger] f1(j) + f2(j) == g1(j) + g2(j),
    ensures
        weighted_sum(xs, f1, n).add_spec(weighted_sum(xs, f2, n)) == weighted_sum(xs, g1, n).add_spec(
            weighted_sum(xs, g2, n),
        ),
{
    let h = |j: int| f1(j) + f2(j);
    lemma_weighted_sum_add(xs, f1, f2, h, n);
    lemma_weighted_sum_add(xs, g1, g2, h, n);
}

/// A weight that sits on one position alone picks out that value.
pub proof fn lemma_weighted_sum_single<B: StackBlurrable>(
    xs: Seq<B>,
    f: spec_fn(int) -> nat,
    n: nat,
    k: int,
)
    requires
        forall|j: int| 0 <= j < n && j != k ==> #[trigger] f(j) == 0,
    ensures
        weighted_sum(xs, f, n) == if 0 <= k < n {
            xs[k].mul_spec(f(k))
        } else {
            B::zero_spec()
        },
    decreases n,
{
    if n > 0 {
        let m: nat = (n - 1) as nat;
        if k == n - 1 {
            lemma_weighted_sum_zero(xs, f, m);
            lemma_zero_add(xs[k].mul_spec(f(k)));
        } else {
            lemma_weighted_sum_single(xs, f, m, k);
            B::lemma_mul_zero(xs[n - 1]);
            B::lemma_add_zero(weighted_sum(xs, f, m));
        }
    }
}

/// Where two pairs of weights add up to the same at every position, the two
/// pairs of totals add up to the same.
pub proof fn lemma_weight_total_balance(
    f1: spec_fn(int) -> nat,
    f2: spec_fn(int) -> nat,
    g1: spec_fn(int) -> nat,
    g2: spec_fn(int) -> nat,
    n: nat,
)
    requires
        forall|j: int| 0 <= j < n ==> #[trigger] f1(j) + f2(j) == g1(j) + g2(j),
    ensures
        weight_total(f1, n) + weight_total(f2, n) == weight_total(g1, n) + weight_total(g2, n),
    decreases n,
{
    if n > 0 {
        lemma_weight_total_balance(f1, f2, g1, g2, (n - 1) as nat);
    }
}

/// Weight one on each position from `lo` to `hi`, none elsewhere.
pub open spec fn span(lo: int, hi: int) -> spec_fn(int) -> nat {
    |j: int| if lo <= j <= hi { 1nat } else { 0nat }
}

/// The total of a span is the number of its positions below `n`.
pub proof fn lemma_weight_total_span(lo: int, hi: int, n: nat)
    requires
        0 <= lo,
    ensures
        weight_total(span(lo, hi), n) == if hi < lo || n <= lo {
            0
        } else if hi < n {
            hi - lo + 1
        } else {
            n - lo
        },
    decreases n,
{
    if n > 0 {
        lemma_weight_total_span(lo, hi, (n - 1) as nat);
    }
}

/// The total weight of the `taps` inputs nearest to the centre on one side
/// of it: `radius`, then `radius - 1`, and so on.
pub open spec fn side_weight(radius: nat, taps: nat) -> nat
    decreases taps,
{
    if taps == 0 {
        0
    } else {
        side_weight(radius, (taps - 1) as nat) + (radius + 1 - taps) as nat
    }
}

/// The smaller of two numbers.
pub open spec fn least(a: int, b: int) -> int {
    if a <= b {
        a
    } else {
        b
    }
}

/// The divisor of the output at `i` of a sequence of `n` inputs, in closed
/// form: the centre, the taps before it and the taps after it, each side
/// holding at most `radius` taps and no more than the sequence has.
pub open spec fn divisor(radius: nat, n: nat, i: int) -> nat {
    radius + 1 + side_weight(radius, least(i, radius as int) as nat) + side_weight(
        radius,
        least(n - 1 - i, radius as int) as nat,
    )
}

/// One side of the tent in closed form.
pub proof fn lemma_side_weight_closed(radius: nat, taps: nat)
    requires
        taps <= radius,
    ensures
        2 * side_weight(radius, taps) == taps * (2 * radius + 1 - taps),
    decreases taps,
{
    if taps > 0 {
        let t: nat = (taps - 1) as nat;
        lemma_side_weight_closed(radius, t);
        assert(t * (2 * radius + 1 - t) + 2 * (radius + 1 - taps) == taps * (2 * radius + 1
            - taps)) by (nonlinear_arith)
            requires
                t == taps - 1,
        ;
    } else {
        assert(taps * (2 * radius + 1 - taps) == 0) by (nonlinear_arith)
            requires
                taps == 0,
        ;
    }
}

/// A whole tent weighs `(radius + 1)` squared, and a tent cut off at an edge
/// weighs less, though never less than its centre.
pub proof fn lemma_divisor_bounds(radius: nat, leading: nat, trailing: nat)
    requires
        leading <= radius,
        trailing <= radius,
    ensures
        radius + 1 + side_weight(radius, leading) + side_weight(radius, trailing) <= (radius + 1)
            * (radius + 1),
{
    lemma_side_weight_closed(radius, leading);
    lemma_side_weight_closed(radius, trailing);
    assert(leading * (2 * radius + 1 - leading) <= radius * (radius + 1)) by (nonlinear_arith)
        requires
            leading <= radius,
    ;
    assert(trailing * (2 * radius + 1 - trailing) <= radius * (radius + 1)) by (nonlinear_arith)
        requires
            trailing <= radius,
    ;
    assert((radius + 1) * (radius + 1) == radius * (radius + 1) + radius + 1)
        by (nonlinear_arith);
}

/// The divisor of the first output.
proof fn lemma_weight_total_tent_start(radius: nat, n: nat)
    ensures
        weight_total(tent(radius, 0), n) == if n == 0 {
            0
        } else {
            divisor(radius, n, 0)
        },
    decreases n,
{
    if n > 0 {
        lemma_weight_total_tent_start(radius, (n - 1) as nat);
    }
}

/// The divisor is what the tent weighs over the inputs that exist: the sum
/// of the weights of the positions `0..n` equals the closed form.
pub proof fn lemma_weight_total_tent(radius: nat, n: nat, i: int)
    requires
        0 <= i < n,
    ensures
        weight_total(tent(radius, i), n) == divisor(radius, n, i),
    decreases i,
{
    if i == 0 {
        lemma_weight_total_tent_start(radius, n);
    } else {
        let h: int = i - 1;
        lemma_weight_total_tent(radius, n, h);
        let lo: int = if h - radius < 0 {
            0
        } else {
            h - radius
        };
        let left = span(lo, h);
        let right = span(i, i + radius);
        assert forall|j: int| 0 <= j < n implies #[trigger] tent(radius, i)(j) + left(j) == tent(
            radius,
            h,
        )(j) + right(j) by {}
        lemma_weight_total_balance(tent(radius, i), left, tent(radius, h), right, n);
        lemma_weight_total_span(lo, h, n);
        lemma_weight_total_span(i, i + radius, n);
    }
}

/// The value at position `j`, or the neutral value where `xs` has none.
pub open spec fn item_or_zero<B: StackBlurrable>(xs: Seq<B>, j: int) -> B {
    if 0 <= j < xs.len() {
        xs[j]
    } else {
        B::zero_spec()
    }
}

/// The values a generator keeps while it works on output `i`: those from
/// position `i - radius - 1` on, with neutral values standing in for the
/// positions before the start.
pub open spec fn window<B: StackBlurrable>(xs: Seq<B>, radius: nat, i: int) -> Seq<B> {
    Seq::new((xs.len() - i + radius + 1) as nat, |k: int| item_or_zero(xs, i - radius - 1 + k))
}

/// Whether `rate` is the amount by which the weighted sum at `i` is about to
/// grow: the `radius + 1` values from `i` on, less the `radius + 1` values
/// before `i`.
pub open spec fn is_rate<B: StackBlurrable>(rate: B, xs: Seq<B>, radius: nat, i: int) -> bool {
    rate.add_spec(weighted_sum(xs, span(i - radius - 1, i - 1), xs.len())) == weighted_sum(
        xs,
        span(i, i + radius),
        xs.len(),
    )
}

/// Appending a value adds its weighted term to the sum.
pub proof fn lemma_weighted_sum_push<B: StackBlurrable>(
    xs: Seq<B>,
    x: B,
    f: spec_fn(int) -> nat,
)
    ensures
        weighted_sum(xs.push(x), f, xs.len() + 1) == weighted_sum(xs, f, xs.len()).add_spec(
            x.mul_spec(f(xs.len() as int)),
        ),
{
    lemma_weighted_sum_ext(xs.push(x), f, xs, f, xs.len());
}

/// Taking in the value `x` while the sum stands at centre `c`: the sum grows
/// by `x` times its weight and the rate by `x` itself.
pub proof fn lemma_accept<B: StackBlurrable>(
    xs: Seq<B>,
    x: B,
    radius: nat,
    c: int,
    sum: B,
    rate: B,
)
    requires
        0 <= xs.len() - c <= radius,
        sum == weighted_sum(xs, tent(radius, c), xs.len()),
        is_rate(rate, xs, radius, c),
    ensures
        sum.add_spec(x.mul_spec(tent_weight(radius, xs.len() - c))) == weighted_sum(
            xs.push(x),
            tent(radius, c),
            xs.len() + 1,
        ),
        is_rate(rate.add_spec(x), xs.push(x), radius, c),
{
    let n = xs.len();
    let before = span(c - radius - 1, c - 1);
    let after = span(c, c + radius);
    lemma_weighted_sum_push(xs, x, tent(radius, c));
    lemma_weighted_sum_push(xs, x, before);
    lemma_weighted_sum_push(xs, x, after);
    B::lemma_mul_zero(x);
    lemma_mul_one(x);
    B::lemma_add_zero(weighted_sum(xs, before, n));
    lemma_add_swap(rate, x, weighted_sum(xs, before, n));
}

/// Moving the centre from `i` to `i + 1` once every value up to
/// `i + radius` is in: the rate takes back the value that leaves the window
/// and gives up the centre twice, and the sum grows by the new rate.
pub proof fn lemma_slide<B: StackBlurrable>(xs: Seq<B>, radius: nat, i: int, sum: B, rate: B)
    requires
        0 <= i < xs.len() <= i + radius + 1,
        sum == weighted_sum(xs, tent(radius, i), xs.len()),
        is_rate(rate, xs, radius, i),
    ensures
        ({
            let next = rate.add_spec(item_or_zero(xs, i - radius - 1)).sub_spec(
                xs[i].mul_spec(2),
            );
            &&& sum.add_spec(next) == weighted_sum(xs, tent(radius, i + 1), xs.len())
            &&& is_rate(next, xs, radius, i + 1)
        }),
{
    let n = xs.len();
    let front = item_or_zero(xs, i - radius - 1);
    let twice = xs[i].mul_spec(2);
    let next = rate.add_spec(front).sub_spec(twice);
    let before0 = span(i - radius - 1, i - 1);
    let after0 = span(i, i + radius);
    let before1 = span(i - radius, i);
    let after1 = span(i + 1, i + radius + 1);
    let at_front = |j: int| if j == i - radius - 1 { 1nat } else { 0nat };
    let at_centre = |j: int| if j == i { 2nat } else { 0nat };
    let both = |j: int| at_front(j) + if j == i { 1nat } else { 0nat };
    let behind0 = weighted_sum(xs, before0, n);
    let ahead0 = weighted_sum(xs, after0, n);
    let behind1 = weighted_sum(xs, before1, n);
    let ahead1 = weighted_sum(xs, after1, n);
    let c = weighted_sum(xs, both, n);

    // the two values the step touches, as weighted sums
    lemma_weighted_sum_single(xs, at_front, n, i - radius - 1);
    lemma_weighted_sum_single(xs, at_centre, n, i);
    if 0 <= i - radius - 1 {
        lemma_mul_one(xs[i - radius - 1]);
    }
    assert(weighted_sum(xs, at_front, n) == front);
    assert(weighted_sum(xs, at_centre, n) == twice);

    // next + twice == rate + front
    B::lemma_sub_add(rate.add_spec(front), twice);

    // behind1 + c == behind0 + twice
    assert forall|j: int| 0 <= j < n implies #[trigger] before1(j) + both(j) == before0(j)
        + at_centre(j) by {}
    lemma_weighted_sum_balance(xs, before1, both, before0, at_centre, n);
    // ahead1 + c == ahead0 + front
    assert forall|j: int| 0 <= j < n implies #[trigger] after1(j) + both(j) == after0(j)
        + at_front(j) by {}
    lemma_weighted_sum_balance(xs, after1, both, after0, at_front, n);

    // (next + behind1) + c == ahead1 + c
    B::lemma_add_associative(next, behind1, c);
    B::lemma_add_commutative(behind0, twice);
    B::lemma_add_associative(next, twice, behind0);
    lemma_add_swap(rate, front, behind0);
    lemma_add_cancel(next.add_spec(behind1), ahead1, c);

    // tent(i + 1) + before1 == tent(i) + after1
    assert forall|j: int| 0 <= j < n implies #[trigger] tent(radius, i + 1)(j) + before1(j)
        == tent(radius, i)(j) + after1(j) by {}
    lemma_weighted_sum_balance(xs, tent(radius, i + 1), before1, tent(radius, i), after1, n);
    B::lemma_add_associative(sum, next, behind1);
    lemma_add_cancel(sum.add_spec(next), weighted_sum(xs, tent(radius, i + 1), n), behind1);
}

/// The neutral value stays neutral, however often it is added up.
pub proof fn lemma_zero_mul<B: StackBlurrable>(n: nat)
    ensures
        B::zero_spec().mul_spec(n) == B::zero_spec(),
    decreases n,
{
    if n == 0 {
        B::lemma_mul_zero(B::zero_spec());
    } else {
        lemma_zero_mul::<B>((n - 1) as nat);
        B::lemma_mul_succ(B::zero_spec(), (n - 1) as nat);
        B::lemma_add_zero(B::zero_spec());
    }
}

/// Where every value but the one at `k` is neutral, the weighted sum is
/// that one value times its weight.
pub proof fn lemma_weighted_sum_impulse<B: StackBlurrable>(
    xs: Seq<B>,
    f: spec_fn(int) -> nat,
    n: nat,
    k: int,
)
    requires
        forall|j: int| 0 <= j < n && j != k ==> xs[j] == B::zero_spec(),
    ensures
        weighted_sum(xs, f, n) == if 0 <= k < n {
            xs[k].mul_spec(f(k))
        } else {
            B::zero_spec()
        },
    decreases n,
{
    if n > 0 {
        let m: nat = (n - 1) as nat;
        lemma_weighted_sum_impulse(xs, f, m, k);
        if k == n - 1 {
            lemma_zero_add(xs[k].mul_spec(f(k)));
        } else {
            lemma_zero_mul::<B>(f(n - 1));
            B::lemma_add_zero(weighted_sum(xs, f, m));
        }
    }
}

/// The blur of a single value among neutral ones has the shape of the
/// tent: at each place it is that value times the weight of its distance,
/// divided by the divisor of the place.
pub proof fn lemma_blurred_impulse<B: StackBlurrable>(xs: Seq<B>, radius: nat, k: int, i: int)
    requires
        0 <= k < xs.len(),
        0 <= i < xs.len(),
        forall|j: int| 0 <= j < xs.len() && j != k ==> xs[j] == B::zero_spec(),
    ensures
        blurred_at(xs, radius, i) == xs[k].mul_spec(tent_weight(radius, k - i)).div_spec(
            divisor(radius, xs.len(), i),
        ),
{
    lemma_weighted_sum_impulse(xs, tent(radius, i), xs.len(), k);
    lemma_weight_total_tent(radius, xs.len(), i);
}

/// A weighted sum of equal values is that value times the total weight.
pub proof fn lemma_weighted_sum_constant<B: StackBlurrable>(
    xs: Seq<B>,
    c: B,
    f: spec_fn(int) -> nat,
    n: nat,
)
    requires
        forall|j: int| 0 <= j < n ==> xs[j] == c,
    ensures
        weighted_sum(xs, f, n) == c.mul_spec(weight_total(f, n)),
    decreases n,
{
    if n == 0 {
        B::lemma_mul_zero(c);
    } else {
        let m: nat = (n - 1) as nat;
        lemma_weighted_sum_constant(xs, c, f, m);
        lemma_mul_add(c, weight_total(f, m), f(n - 1));
    }
}

/// A weighted sum can be taken from the front as well as from the back:
/// `g` holds the weights of `f` moved down by one position.
pub proof fn lemma_weighted_sum_first<B: StackBlurrable>(
    xs: Seq<B>,
    f: spec_fn(int) -> nat,
    g: spec_fn(int) -> nat,
    n: nat,
)
    requires
        0 < n <= xs.len(),
        forall|j: int| 0 <= j < n - 1 ==> #[trigger] g(j) == f(j + 1),
    ensures
        weighted_sum(xs, f, n) == xs[0].mul_spec(f(0)).add_spec(
            weighted_sum(xs.drop_first(), g, (n - 1) as nat),
        ),
    decreases n,
{
    let rest = xs.drop_first();
    let head = xs[0].mul_spec(f(0));
    if n == 1 {
        assert(weighted_sum(xs, f, 0) == B::zero_spec());
        assert(weighted_sum(rest, g, 0) == B::zero_spec());
        lemma_zero_add(head);
        B::lemma_add_zero(head);
    } else {
        let m: nat = (n - 1) as nat;
        lemma_weighted_sum_first(xs, f, g, m);
        let last = xs[n - 1].mul_spec(f(n - 1));
        assert(rest[m - 1] == xs[n - 1]);
        assert(g(m - 1) == f(m - 1 + 1));
        B::lemma_add_associative(head, weighted_sum(rest, g, (m - 1) as nat), last);
    }
}

/// Reversing the values and their weights together leaves the sum as it was.
pub proof fn lemma_weighted_sum_reverse<B: StackBlurrable>(
    xs: Seq<B>,
    f: spec_fn(int) -> nat,
    g: spec_fn(int) -> nat,
)
    requires
        forall|j: int| 0 <= j < xs.len() ==> #[trigger] g(j) == f(xs.len() - 1 - j),
    ensures
        weighted_sum(xs.reverse(), g, xs.len()) == weighted_sum(xs, f, xs.len()),
    decreases xs.len(),
{
    let n = xs.len();
    if n > 0 {
        let m: nat = (n - 1) as nat;
        let rev = xs.reverse();
        let front = xs.drop_last();
        let g1 = |j: int| g(j + 1);
        // the reversed sequence starts with the last value and goes on with
        // the reverse of the rest
        assert(rev.drop_first() =~= front.reverse());
        lemma_weighted_sum_first(rev, g, g1, n);
        assert forall|j: int| 0 <= j < front.len() implies #[trigger] g1(j) == f(
            front.len() - 1 - j,
        ) by {
            assert(g(j + 1) == f(n - 1 - (j + 1)));
        }
        lemma_weighted_sum_reverse(front, f, g1);
        lemma_weighted_sum_ext(front, f, xs, f, m);
        assert(rev[0] == xs[n - 1]);
        assert(g(0) == f(n - 1 - 0));
        B::lemma_add_commutative(xs[n - 1].mul_spec(f(n - 1)), weighted_sum(xs, f, m));
    }
}

/// A total can be taken from the front as well as from the back: `g` holds
/// the weights of `f` moved down by one position.
pub proof fn lemma_weight_total_first(f: spec_fn(int) -> nat, g: spec_fn(int) -> nat, n: nat)
    requires
        0 < n,
        forall|j: int| 0 <= j < n - 1 ==> #[trigger] g(j) == f(j + 1),
    ensures
        weight_total(f, n) == f(0) + weight_total(g, (n - 1) as nat),
    decreases n,
{
    if n > 1 {
        let m: nat = (n - 1) as nat;
        lemma_weight_total_first(f, g, m);
        assert(g(m - 1) == f(m - 1 + 1));
    } else {
        assert(weight_total(f, 0) == 0);
        assert(weight_total(g, 0) == 0);
    }
}

/// Reversing the weights leaves their total as it was.
pub proof fn lemma_weight_total_reverse(f: spec_fn(int) -> nat, g: spec_fn(int) -> nat, n: nat)
    requires
        forall|j: int| 0 <= j < n ==> #[trigger] g(j) == f(n - 1 - j),
    ensures
        weight_total(g, n) == weight_total(f, n),
    decreases n,
{
    if n > 0 {
        let m: nat = (n - 1) as nat;
        let g1 = |j: int| g(j + 1);
        lemma_weight_total_first(g, g1, n);
        assert forall|j: int| 0 <= j < m implies #[trigger] g1(j) == f(m - 1 - j) by {
            assert(g(j + 1) == f(n - 1 - (j + 1)));
        }
        lemma_weight_total_reverse(f, g1, m);
        assert(g(0) == f(n - 1 - 0));
    }
}

/// An output does not depend on inputs more than `radius` positions after
/// it: once those up to `i + radius` are known, so is the output at `i`,
/// however the sequence goes on.
pub proof fn lemma_blurred_at_prefix<B: StackBlurrable>(
    xs: Seq<B>,
    ys: Seq<B>,
    radius: nat,
    i: int,
)
    requires
        0 <= i,
        i + radius < xs.len() <= ys.len(),
        forall|j: int| 0 <= j < xs.len() ==> xs[j] == ys[j],
    ensures
        blurred_at(xs, radius, i) == blurred_at(ys, radius, i),
{
    lemma_weighted_sum_beyond(ys, radius, i, xs.len(), ys.len());
    lemma_weighted_sum_ext(xs, tent(radius, i), ys, tent(radius, i), xs.len());
    lemma_weight_total_tent(radius, xs.len(), i);
    lemma_weight_total_tent(radius, ys.len(), i);
}

/// Positions beyond the reach of the tent add nothing to the sum.
proof fn lemma_weighted_sum_beyond<B: StackBlurrable>(
    xs: Seq<B>,
    radius: nat,
    i: int,
    m: nat,
    n: nat,
)
    requires
        i + radius < m <= n,
    ensures
        weighted_sum(xs, tent(radius, i), n) == weighted_sum(xs, tent(radius, i), m),
    decreases n,
{
    if n > m {
        lemma_weighted_sum_beyond(xs, radius, i, m, (n - 1) as nat);
        B::lemma_mul_zero(xs[n - 1]);
        B::lemma_add_zero(weighted_sum(xs, tent(radius, i), (n - 1) as nat));
    }
}

/// With radius zero the blur changes nothing: every output is its own
/// input.
pub proof fn lemma_blurred_radius_zero<B: StackBlurrable>(xs: Seq<B>)
    ensures
        blurred(xs, 0) == xs,
{
    assert forall|i: int| 0 <= i < xs.len() implies blurred_at(xs, 0, i) == xs[i] by {
        lemma_weighted_sum_single(xs, tent(0, i), xs.len(), i);
        lemma_mul_one(xs[i]);
        lemma_weight_total_tent(0, xs.len(), i);
        B::lemma_div_one(xs[i]);
    }
    assert(blurred(xs, 0) =~= xs);
}

/// The blur of a sequence of equal values `c`: at each position, `c` times
/// the divisor, divided by the divisor again. Where the value type gets `c`
/// back from that, a flat signal stays flat.
pub proof fn lemma_blurred_constant<B: StackBlurrable>(xs: Seq<B>, c: B, radius: nat, i: int)
    requires
        0 <= i < xs.len(),
        forall|j: int| 0 <= j < xs.len() ==> xs[j] == c,
    ensures
        blurred_at(xs, radius, i) == c.mul_spec(divisor(radius, xs.len(), i)).div_spec(
            divisor(radius, xs.len(), i),
        ),
{
    lemma_weighted_sum_constant(xs, c, tent(radius, i), xs.len());
    lemma_weight_total_tent(radius, xs.len(), i);
}

/// The tent is symmetric: blurring the reversed sequence gives the reversed
/// blur.
pub proof fn lemma_blurred_reverse<B: StackBlurrable>(xs: Seq<B>, radius: nat)
    ensures
        blurred(xs.reverse(), radius) == blurred(xs, radius).reverse(),
{
    let n = xs.len();
    assert forall|i: int| 0 <= i < n implies blurred_at(xs.reverse(), radius, i) == blurred_at(
        xs,
        radius,
        n - 1 - i,
    ) by {
        let f = tent(radius, n - 1 - i);
        let g = tent(radius, i);
        assert forall|j: int| 0 <= j < n implies #[trigger] g(j) == f(n - 1 - j) by {}
        lemma_weighted_sum_reverse(xs, f, g);
        lemma_weight_total_reverse(f, g, n);
    }
    assert(blurred(xs.reverse(), radius) =~= blurred(xs, radius).reverse());
}

/// Whether `p` carries the arithmetic of one kind of value over to another:
/// it takes the neutral value to the neutral value, and it makes no
/// difference whether values are added, multiplied or divided before `p` is
/// applied or after.
pub open spec fn preserves<A: StackBlurrable, B: StackBlurrable>(p: spec_fn(A) -> B) -> bool {
    &&& p(A::zero_spec()) == B::zero_spec()
    &&& forall|a: A, b: A| #[trigger] p(a.add_spec(b)) == p(a).add_spec(p(b))
    &&& forall|a: A, n: nat| #[trigger] p(a.mul_spec(n)) == p(a).mul_spec(n)
    &&& forall|a: A, n: nat| #[trigger] p(a.div_spec(n)) == p(a).div_spec(n)
}

/// A weighted sum seen through `p` is the weighted sum of the values seen
/// through `p`.
pub proof fn lemma_weighted_sum_through<A: StackBlurrable, B: StackBlurrable>(
    xs: Seq<A>,
    p: spec_fn(A) -> B,
    f: spec_fn(int) -> nat,
    n: nat,
)
    requires
        preserves(p),
        n <= xs.len(),
    ensures
        p(weighted_sum(xs, f, n)) == weighted_sum(xs.map_values(p), f, n),
    decreases n,
{
    if n > 0 {
        lemma_weighted_sum_through(xs, p, f, (n - 1) as nat);
    }
}

/// A blurred value seen through `p` is the blur of the values seen through
/// `p`: it makes no difference whether several values are blurred together
/// as one, or each by itself.
pub proof fn lemma_blurred_at_through<A: StackBlurrable, B: StackBlurrable>(
    xs: Seq<A>,
    p: spec_fn(A) -> B,
    radius: nat,
    i: int,
)
    requires
        preserves(p),
    ensures
        p(blurred_at(xs, radius, i)) == blurred_at(xs.map_values(p), radius, i),
{
    lemma_weighted_sum_through(xs, p, tent(radius, i), xs.len());
}

} // verus!
