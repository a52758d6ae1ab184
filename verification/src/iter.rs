//! The [`StackBlur`] generator.
//!
//! A plain Stackblur takes, for each output, a weighted average of the
//! inputs around it: the nearer an input, the more often it is counted.
//!
//! ```text
//!              ( 03 +
//!           02 + 03 + 04 +
//!      01 + 02 + 03 + 04 + 05 +
//! 00 + 01 + 02 + 03 + 04 + 05 + 06 ) / 16
//! ```
//!
//! At the ends of the sequence some of those inputs do not exist. Repeating
//! the edge value in their place makes the edge bleed inwards. This generator
//! leaves them out instead, and divides by the weight of what is left:
//!
//! ```text
//! ( 00 +
//!   00 + 01 +
//!   00 + 01 + 02 +
//!   00 + 01 + 02 + 03 ) / 10
//! ```
//!
//! It reads every input once and in order, keeps `radius * 2 + 2` values,
//! and does the same small amount of work for each output whatever the
//! radius: it carries the weighted sum along, together with the rate at
//! which that sum is changing, and corrects both as values enter and leave.

use std::collections::VecDeque;
use vstd::prelude::*;
use vstd::std_specs::iter::IteratorSpec;
use crate::traits::StackBlurrable;
use crate::kernel::{
    blurred, blurred_at, is_rate, least, lemma_accept, lemma_blurred_at_prefix,
    lemma_divisor_bounds, lemma_slide, lemma_weight_total_tent, side_weight, tent, weight_total,
    weighted_sum, window,
};

verus! {

/// Whether a generator for `radius` can count its weights in a `usize`: a
/// whole tent weighs `(radius + 1)` squared.
pub open spec fn radius_fits(radius: usize) -> bool {
    (radius + 1) * (radius + 1) <= usize::MAX
}

/// Tells whether `radius` is one that a generator can be made for.
pub fn radius_in_range(radius: usize) -> (fits: bool)
    ensures
        fits == radius_fits(radius),
{
    match radius.checked_add(1) {
        Some(side) => side.checked_mul(side).is_some(),
        None => {
            assert((radius + 1) * (radius + 1) > usize::MAX) by (nonlinear_arith)
                requires
                    radius + 1 > usize::MAX,
            ;
            false
        },
    }
}

/// What a generator stands for.
pub struct StackBlurView<B> {
    /// The radius of the blur.
    pub radius: nat,
    /// The inputs of the sequence that is under way, in the order they came.
    pub fed: Seq<B>,
    /// How many outputs of that sequence have been given out.
    pub emitted: nat,
    /// Whether the end of that sequence has been announced.
    pub draining: bool,
    /// What the queue holds that the generator works in.
    pub queue: Seq<B>,
}

impl<B: StackBlurrable> StackBlurView<B> {
    /// A generator between two sequences, with `queue` to work in.
    pub open spec fn idle(radius: nat, queue: Seq<B>) -> Self {
        StackBlurView { radius, fed: Seq::empty(), emitted: 0, draining: false, queue }
    }

    /// What holds of every generator: until the end of the input is
    /// announced the outputs lag `radius + 1` behind the inputs, and after
    /// that there is still an output to give; and in the middle of a
    /// sequence the queue holds the window around the next output, which is
    /// never more than `radius * 2 + 2` values.
    pub open spec fn valid(self) -> bool {
        &&& if self.draining {
            &&& self.emitted < self.fed.len()
            &&& self.fed.len() <= self.emitted + self.radius
        } else if self.fed.len() <= self.radius {
            self.emitted == 0
        } else {
            self.emitted + self.radius + 1 == self.fed.len()
        }
        &&& self.fed.len() > 0 ==> self.queue == window(
            self.fed,
            self.radius,
            self.emitted as int,
        )
        &&& self.fed.len() > 0 ==> self.queue.len() <= 2 * self.radius + 2
    }

    /// What feeding `item` gives back: nothing while the first
    /// `radius + 1` inputs come in and nothing between two sequences, else
    /// the next blurred value.
    pub open spec fn output(self, item: Option<B>) -> Option<B> {
        if (item is Some && self.fed.len() <= self.radius) || (item is None && self.fed.len()
            == 0) {
            None
        } else {
            Some(blurred_at(self.fed, self.radius, self.emitted as int))
        }
    }

    /// The generator after `item` has been fed. The first input of a
    /// sequence has the queue emptied and filled anew; from then on the
    /// queue is the window around the next output, and it stays as the last
    /// output left it until the next sequence begins.
    pub open spec fn next(self, item: Option<B>) -> Self {
        match item {
            Some(x) => {
                let emitted: nat = if self.fed.len() <= self.radius {
                    0
                } else {
                    self.emitted + 1
                };
                StackBlurView {
                    radius: self.radius,
                    fed: self.fed.push(x),
                    emitted,
                    draining: false,
                    queue: window(self.fed.push(x), self.radius, emitted as int),
                }
            },
            None => if self.fed.len() == 0 {
                Self::idle(self.radius, self.queue)
            } else if self.emitted + 1 == self.fed.len() {
                Self::idle(self.radius, window(self.fed, self.radius, (self.emitted + 1) as int))
            } else {
                StackBlurView {
                    radius: self.radius,
                    fed: self.fed,
                    emitted: self.emitted + 1,
                    draining: true,
                    queue: window(self.fed, self.radius, (self.emitted + 1) as int),
                }
            },
        }
    }

    /// How many inputs it takes from here for the next output to come
    /// back: what is missing of the first `radius + 1` and one more, or just
    /// one once the outputs have begun.
    pub open spec fn wanted(self) -> nat {
        if self.fed.len() <= self.radius {
            (self.radius + 2 - self.fed.len()) as nat
        } else {
            1
        }
    }

    /// The generator after each of `items` has been fed in turn.
    pub open spec fn after(self, items: Seq<Option<B>>) -> Self
        decreases items.len(),
    {
        if items.len() == 0 {
            self
        } else {
            self.after(items.drop_last()).next(items.last())
        }
    }

    /// What feeding each of `items` in turn gives back, without the calls
    /// that give nothing.
    pub open spec fn outputs(self, items: Seq<Option<B>>) -> Seq<B>
        decreases items.len(),
    {
        if items.len() == 0 {
            Seq::empty()
        } else {
            let earlier = self.outputs(items.drop_last());
            match self.after(items.drop_last()).output(items.last()) {
                Some(b) => earlier.push(b),
                None => earlier,
            }
        }
    }
}

/// Feeding one run of items after another is feeding the two runs as one.
pub proof fn lemma_fed_in_turn<B: StackBlurrable>(
    start: StackBlurView<B>,
    first: Seq<Option<B>>,
    second: Seq<Option<B>>,
)
    ensures
        start.after(first + second) == start.after(first).after(second),
        start.outputs(first + second) == start.outputs(first) + start.after(first).outputs(second),
    decreases second.len(),
{
    if second.len() == 0 {
        assert(first + second =~= first);
        assert(start.outputs(first) + Seq::<B>::empty() =~= start.outputs(first));
    } else {
        lemma_fed_in_turn(start, first, second.drop_last());
        assert((first + second).drop_last() =~= first + second.drop_last());
        assert((first + second).last() == second.last());
        let mid = start.after(first);
        match mid.after(second.drop_last()).output(second.last()) {
            Some(b) => {
                assert((start.outputs(first) + mid.outputs(second.drop_last())).push(b)
                    =~= start.outputs(first) + mid.outputs(second.drop_last()).push(b));
            },
            None => {},
        }
    }
}

/// The inputs `xs`, each fed as `Some`, and then `None` fed `nones` times.
pub open spec fn whole_sequence<B>(xs: Seq<B>, nones: nat) -> Seq<Option<B>> {
    Seq::new(
        xs.len() + nones,
        |i: int|
            if i < xs.len() {
                Some(xs[i])
            } else {
                None
            },
    )
}

/// While the inputs come in, the outputs are those of the blur of the whole
/// sequence as far as they go, `radius + 1` behind the inputs.
proof fn lemma_inputs_fed<B: StackBlurrable>(radius: nat, queue: Seq<B>, xs: Seq<B>, k: nat)
    requires
        k <= xs.len(),
    ensures
        ({
            let items = whole_sequence(xs.subrange(0, k as int), 0);
            let emitted: nat = if k <= radius {
                0
            } else {
                (k - radius - 1) as nat
            };
            &&& StackBlurView::idle(radius, queue).after(items) == (StackBlurView {
                radius,
                fed: xs.subrange(0, k as int),
                emitted,
                draining: false,
                queue: if k == 0 {
                    queue
                } else {
                    window(xs.subrange(0, k as int), radius, emitted as int)
                },
            })
            &&& StackBlurView::idle(radius, queue).outputs(items) == blurred(xs, radius).subrange(
                0,
                emitted as int,
            )
        }),
    decreases k,
{
    let idle = StackBlurView::<B>::idle(radius, queue);
    let items = whole_sequence(xs.subrange(0, k as int), 0);
    if k == 0 {
        assert(xs.subrange(0, 0) =~= Seq::<B>::empty());
        assert(idle.outputs(items) =~= blurred(xs, radius).subrange(0, 0));
    } else {
        let j: nat = (k - 1) as nat;
        let earlier = whole_sequence(xs.subrange(0, j as int), 0);
        lemma_inputs_fed(radius, queue, xs, j);
        assert(items.drop_last() =~= earlier);
        assert(items.last() == Some(xs[j as int]));
        assert(xs.subrange(0, j as int).push(xs[j as int]) =~= xs.subrange(0, k as int));
        if j > radius {
            let at: int = j - radius - 1;
            lemma_blurred_at_prefix(xs.subrange(0, j as int), xs, radius, at);
            assert(blurred(xs, radius).subrange(0, at).push(blurred(xs, radius)[at]) =~= blurred(
                xs,
                radius,
            ).subrange(0, at + 1));
        }
    }
}

/// Feeding a generator a whole sequence, and then `None` at least as many
/// times as it takes to get the outputs that are still to come, gives the
/// blur of the sequence: exactly one output for each input, each the
/// weighted average that [`blurred_at`] describes. The generator is then
/// ready for the next sequence, with the last `radius + 1` places of the
/// window in its queue; a generator that was fed nothing keeps the queue it
/// had.
pub proof fn lemma_whole_sequence<B: StackBlurrable>(
    radius: nat,
    queue: Seq<B>,
    xs: Seq<B>,
    nones: nat,
)
    ensures
        ({
            let items = whole_sequence(xs, nones);
            let before: nat = if xs.len() <= radius {
                0
            } else {
                (xs.len() - radius - 1) as nat
            };
            let idle = StackBlurView::<B>::idle(radius, queue);
            if before + nones < xs.len() {
                &&& idle.after(items) == (StackBlurView {
                    radius,
                    fed: xs,
                    emitted: before + nones,
                    draining: nones > 0,
                    queue: window(xs, radius, (before + nones) as int),
                })
                &&& idle.outputs(items) == blurred(xs, radius).subrange(0, (before + nones) as int)
            } else {
                &&& idle.after(items) == StackBlurView::<B>::idle(
                    radius,
                    if xs.len() == 0 {
                        queue
                    } else {
                        window(xs, radius, xs.len() as int)
                    },
                )
                &&& idle.outputs(items) == blurred(xs, radius)
            }
        }),
    decreases nones,
{
    let idle = StackBlurView::<B>::idle(radius, queue);
    let items = whole_sequence(xs, nones);
    let all = blurred(xs, radius);
    if nones == 0 {
        lemma_inputs_fed(radius, queue, xs, xs.len());
        assert(xs.subrange(0, xs.len() as int) =~= xs);
        if xs.len() == 0 {
            assert(xs =~= Seq::<B>::empty());
            assert(all.subrange(0, 0) =~= all);
        }
    } else {
        let fewer: nat = (nones - 1) as nat;
        let before: nat = if xs.len() <= radius {
            0
        } else {
            (xs.len() - radius - 1) as nat
        };
        lemma_whole_sequence(radius, queue, xs, fewer);
        assert(items.drop_last() =~= whole_sequence(xs, fewer));
        assert(items.last() == None::<B>);
        if before + fewer < xs.len() {
            let at: int = (before + fewer) as int;
            assert(all.subrange(0, at).push(all[at]) =~= all.subrange(0, at + 1));
            assert(all.subrange(0, xs.len() as int) =~= all);
        }
    }
}

/// Feeding a sequence backwards gives its blur backwards: the outputs for
/// the reversed inputs are the reversed outputs.
pub proof fn lemma_whole_sequence_reversed<B: StackBlurrable>(
    radius: nat,
    queue: Seq<B>,
    xs: Seq<B>,
    nones: nat,
)
    requires
        nones >= xs.len(),
    ensures
        StackBlurView::idle(radius, queue).outputs(whole_sequence(xs.reverse(), nones))
            == StackBlurView::idle(radius, queue).outputs(whole_sequence(xs, nones)).reverse(),
{
    lemma_whole_sequence(radius, queue, xs, nones);
    lemma_whole_sequence(radius, queue, xs.reverse(), nones);
    crate::kernel::lemma_blurred_reverse(xs, radius);
}

#[derive(Copy, Clone, Debug)]
enum State {
    Preload { index: usize, trailing: usize },
    Main { leading: usize, trailing: usize },
}

/// A generator that blurs a sequence one value at a time.
///
/// Feed it the inputs in order with [`StackBlur::feed`], then feed it `None`
/// until it has given out as many outputs as it took inputs.
pub struct StackBlur<B: StackBlurrable> {
    radius: usize,
    sum: B,
    rate: B,
    dnom: usize,
    ops: VecDeque<B>,
    state: State,
    fed: Ghost<Seq<B>>,
}

impl<B: StackBlurrable> View for StackBlur<B> {
    type V = StackBlurView<B>;

    closed spec fn view(&self) -> StackBlurView<B> {
        StackBlurView {
            radius: self.radius as nat,
            fed: self.fed@,
            emitted: match self.state {
                State::Preload { .. } => 0,
                State::Main { trailing, .. } => (self.fed@.len() - 1 - trailing) as nat,
            },
            draining: match self.state {
                State::Preload { .. } => false,
                State::Main { trailing, .. } => trailing < self.radius,
            },
            queue: self.ops@,
        }
    }
}

impl<B: StackBlurrable> Clone for StackBlur<B> {
    /// A second generator in the same state, with a window of its own.
    fn clone(&self) -> (copy: Self)
        ensures
            copy@ == self@,
            self.wf() ==> copy.wf(),
    {
        let mut ops: VecDeque<B> = VecDeque::new();
        let mut i: usize = 0;
        while i < self.ops.len()
            invariant
                i <= self.ops@.len(),
                ops@ == self.ops@.subrange(0, i as int),
            decreases self.ops@.len() - i,
        {
            ops.push_back(twin(&self.ops[i]));
            assert(self.ops@.subrange(0, i as int).push(self.ops@[i as int]) =~= self.ops@.subrange(
                0,
                i + 1,
            ));
            i += 1;
        }
        assert(ops@ =~= self.ops@);
        StackBlur {
            radius: self.radius,
            sum: twin(&self.sum),
            rate: twin(&self.rate),
            dnom: self.dnom,
            ops,
            state: self.state,
            fed: self.fed,
        }
    }
}

/// A clone of `x`, which is `x` over again.
fn twin<B: StackBlurrable>(x: &B) -> (copy: B)
    ensures
        copy == *x,
{
    let copy = x.clone();
    proof {
        B::lemma_clone(*x, copy);
    }
    copy
}

/// Empties `ops` and puts `radius + 1` neutral values into it, with room
/// for `radius + 1` more.
fn refill<B: StackBlurrable>(ops: &mut VecDeque<B>, radius: usize)
    requires
        radius_fits(radius),
    ensures
        final(ops)@ == window(Seq::<B>::empty(), radius as nat, 0),
{
    assert(radius * 2 + 2 <= usize::MAX) by (nonlinear_arith)
        requires
            (radius + 1) * (radius + 1) <= usize::MAX,
            usize::MAX >= 2,
    ;
    let start: usize = radius + 1;
    let needed: usize = radius * 2 + 2;
    ops.clear();
    ops.reserve(needed);
    let mut filled: usize = 0;
    while filled < start
        invariant
            filled <= start,
            ops@.len() == filled,
            forall|k: int| 0 <= k < filled ==> ops@[k] == B::zero_spec(),
        decreases start - filled,
    {
        ops.push_back(B::zero());
        filled += 1;
    }
    assert(ops@ =~= window(Seq::<B>::empty(), radius as nat, 0));
}

impl<B: StackBlurrable> StackBlur<B> {
    /// Whether the window, the sum and the rate are those of output `i`.
    spec fn follows(&self, i: int) -> bool {
        &&& self.ops@ == window(self.fed@, self.radius as nat, i)
        &&& self.sum == weighted_sum(self.fed@, tent(self.radius as nat, i), self.fed@.len())
        &&& is_rate(self.rate, self.fed@, self.radius as nat, i)
    }

    /// The invariant of a generator.
    pub closed spec fn wf(&self) -> bool {
        let r = self.radius as nat;
        let n = self.fed@.len();
        &&& radius_fits(self.radius)
        &&& match self.state {
            State::Preload { index, trailing } => {
                &&& index == n
                &&& n <= r + 1
                &&& if n == 0 {
                    trailing == 0
                } else {
                    &&& trailing == n - 1
                    &&& self.follows(0)
                    &&& self.dnom == weight_total(tent(r, 0), n)
                }
            },
            State::Main { leading, trailing } => {
                &&& trailing <= r
                &&& trailing < n
                &&& leading == least(n - 1 - trailing, r as int)
                &&& self.follows(n - 1 - trailing)
                &&& self.dnom == r + 1 + side_weight(r, leading as nat) + side_weight(
                    r,
                    trailing as nat,
                )
            },
        }
    }

    /// A well-formed generator stands for a valid view.
    pub proof fn lemma_view_valid(&self)
        requires
            self.wf(),
        ensures
            self@.valid(),
            radius_fits(self@.radius as usize),
            self@.radius <= usize::MAX,
    {
    }

    /// Makes a generator for `radius` that keeps its values in `ops`.
    ///
    /// Whatever `ops` holds stays in it until the first input comes in, and
    /// is dropped then; only its storage is used again.
    pub fn with_ops(radius: usize, ops: VecDeque<B>) -> (blur: Self)
        requires
            radius_fits(radius),
        ensures
            blur.wf(),
            blur@ == StackBlurView::<B>::idle(radius as nat, ops@),
    {
        StackBlur {
            radius,
            sum: B::zero(),
            rate: B::zero(),
            dnom: 0,
            ops,
            state: State::Preload { index: 0, trailing: 0 },
            fed: Ghost(Seq::empty()),
        }
    }

    /// Makes a generator for `radius`, with an empty queue to work in.
    pub fn new(radius: usize) -> (blur: Self)
        requires
            radius_fits(radius),
        ensures
            blur.wf(),
            blur@ == StackBlurView::<B>::idle(radius as nat, Seq::empty()),
    {
        Self::with_ops(radius, VecDeque::new())
    }

    /// Tells whether the end of the sequence under way has been announced,
    /// and outputs are still to come: until they have all been taken with
    /// `feed(None)`, no input may be fed.
    pub fn is_draining(&self) -> (draining: bool)
        ensures
            draining == self@.draining,
    {
        match self.state {
            State::Preload { .. } => false,
            State::Main { trailing, .. } => trailing < self.radius,
        }
    }

    /// What the queue holds that the generator works in.
    pub open spec fn queue(&self) -> Seq<B> {
        self@.queue
    }

    /// Gives up the generator for the queue it kept its values in: what it
    /// was made with if no input has come in since, else the window around
    /// the next output, or around the end of the last sequence.
    pub fn into_ops(self) -> (ops: VecDeque<B>)
        requires
            self.wf(),
        ensures
            ops@ == self@.queue,
    {
        self.ops
    }

    fn preload(&mut self, index: usize, trailing: usize, item: Option<B>) -> (result: Option<B>)
        requires
            old(self).wf(),
            old(self).state == (State::Preload { index, trailing }),
        ensures
            final(self).wf(),
            final(self)@ == old(self)@.next(item),
            result == old(self)@.output(item),
    {
        let ghost r = self.radius as nat;
        let ghost xs = self.fed@;
        match item {
            Some(x) => {
                if index == 0 {
                    assert(xs =~= Seq::<B>::empty());
                    refill(&mut self.ops, self.radius);
                    self.sum = B::zero();
                    self.rate = B::zero();
                    self.dnom = 0;
                    proof {
                        B::lemma_add_zero(B::zero_spec());
                    }
                } else if index > self.radius {
                    proof {
                        lemma_weight_total_tent(r, xs.len(), 0);
                    }
                    self.state = State::Main { leading: 0, trailing };
                    return Some(self.main(0, trailing, Some(x)));
                }
                assert(self.follows(0));
                assert(self.dnom == weight_total(tent(r, 0), xs.len()));
                proof {
                    lemma_accept(xs, x, r, 0, self.sum, self.rate);
                    lemma_weight_total_tent(r, xs.len() + 1, 0);
                    lemma_divisor_bounds(r, 0, index as nat);
                    if index > 0 {
                        lemma_weight_total_tent(r, xs.len(), 0);
                    }
                }
                let mul: usize = self.radius + 1 - index;
                let ghost taken = x;
                self.sum.add_assign(twin(&x).mul(mul));
                self.rate.add_assign(twin(&x));
                self.dnom += mul;
                self.ops.push_back(x);
                self.fed = Ghost(xs.push(taken));
                self.state = if self.dnom > mul {
                    State::Preload { index: index + 1, trailing: trailing + 1 }
                } else {
                    State::Preload { index: index + 1, trailing }
                };
                assert(self.ops@ =~= window(self.fed@, r, 0));
                None
            },
            None => {
                if index == 0 {
                    assert(xs =~= Seq::<B>::empty());
                    None
                } else {
                    proof {
                        lemma_weight_total_tent(r, xs.len(), 0);
                    }
                    self.state = State::Main { leading: 0, trailing };
                    Some(self.main(0, trailing, None))
                }
            },
        }
    }

    #[verifier::rlimit(60)]
    fn main(&mut self, leading: usize, trailing: usize, item: Option<B>) -> (result: B)
        requires
            old(self).wf(),
            old(self).state == (State::Main { leading, trailing }),
            item is Some ==> !old(self)@.draining,
        ensures
            final(self).wf(),
            final(self)@ == old(self)@.next(item),
            Some(result) == old(self)@.output(item),
    {
        let ghost r = self.radius as nat;
        let ghost xs = self.fed@;
        let ghost i = xs.len() - 1 - trailing;
        proof {
            lemma_weight_total_tent(r, xs.len(), i);
            lemma_slide(xs, r, i, self.sum, self.rate);
        }
        let result = twin(&self.sum).div(self.dnom);

        let front = self.ops.pop_front().unwrap();
        self.rate.add_assign(front);
        let centre: B = twin(&self.ops[self.radius]);
        self.rate.sub_assign(centre.mul(2));
        self.sum.add_assign(twin(&self.rate));
        assert(self.ops@ =~= window(xs, r, i + 1));

        let mut leading: usize = leading;
        let mut trailing: usize = trailing;
        if leading < self.radius {
            leading += 1;
            proof {
                lemma_divisor_bounds(r, leading as nat, trailing as nat);
            }
            self.dnom += self.radius + 1 - leading;
        }
        if self.radius == 0 || trailing == self.radius {
            match item {
                Some(x) => {
                    proof {
                        lemma_accept(xs, x, r, i + 1, self.sum, self.rate);
                        crate::kernel::lemma_mul_one(x);
                    }
                    let ghost taken = x;
                    self.sum.add_assign(twin(&x));
                    self.rate.add_assign(twin(&x));
                    self.ops.push_back(x);
                    self.fed = Ghost(xs.push(taken));
                    self.state = State::Main { leading, trailing };
                    assert(self.ops@ =~= window(self.fed@, r, i + 1));
                },
                None => {
                    if self.radius > 0 {
                        self.dnom -= self.radius + 1 - trailing;
                        trailing -= 1;
                        self.state = State::Main { leading, trailing };
                    } else {
                        self.state = State::Preload { index: 0, trailing: 0 };
                        self.fed = Ghost(Seq::empty());
                    }
                },
            }
        } else if trailing > 0 {
            self.dnom -= self.radius + 1 - trailing;
            trailing -= 1;
            self.state = State::Main { leading, trailing };
        } else {
            self.state = State::Preload { index: 0, trailing: 0 };
            self.fed = Ghost(Seq::empty());
        }
        result
    }

    /// Feeds the generator one input, or `None` once the inputs have run
    /// out, and gives back the next output if there is one.
    ///
    /// Nothing comes back for the first `radius + 1` inputs of a sequence.
    /// From then on every call gives an output, until there have been as many
    /// outputs as inputs; after that `None` gives `None` and a new sequence
    /// may begin.
    ///
    /// Once `None` has been fed, `None` must be fed until the outputs have
    /// run out: an input that came in between could not be taken.
    pub fn feed(&mut self, item: Option<B>) -> (result: Option<B>)
        requires
            old(self).wf(),
            item is Some ==> !old(self)@.draining,
        ensures
            final(self).wf(),
            final(self)@ == old(self)@.next(item),
            result == old(self)@.output(item),
            item is None && old(self)@.fed.len() == 0 ==> final(self)@.queue == old(self)@.queue,
            item is Some || old(self)@.fed.len() > 0 ==> final(self)@.queue.len() <= 2 * old(
                self,
            )@.radius + 2,
    {
        proof {
            self.lemma_view_valid();
        }
        match self.state {
            State::Preload { index, trailing } => self.preload(index, trailing, item),
            State::Main { leading, trailing } => Some(self.main(leading, trailing, item)),
        }
    }
}

/// What a [`StackBlurIter`] stands for.
#[verifier::reject_recursive_types(B)]
#[verifier::reject_recursive_types(I)]
pub struct StackBlurIterView<B, I> {
    /// The generator inside.
    pub generator: StackBlurView<B>,
    /// Whether the source has run out and the outputs that are left are
    /// being given out.
    pub resetting: bool,
    /// The source that the values are taken from, as far as it has got.
    pub source: I,
}

/// Whether one call of [`StackBlurIter::next`] that found the generator at
/// `before` can have taken the values `pulled` from the source, and then
/// the end of the source if `ended`, to leave the generator at `after`,
/// resetting or not, and give back `result`: every value taken was fed, none
/// but the last thing fed gave an output, and the call went on until there
/// was an output or the source had run out.
pub open spec fn pulled_through<B: StackBlurrable>(
    before: StackBlurView<B>,
    after: StackBlurView<B>,
    resetting: bool,
    result: Option<B>,
    pulled: Seq<B>,
    ended: bool,
) -> bool {
    let items = whole_sequence(
        pulled,
        if ended {
            1
        } else {
            0
        },
    );
    &&& after == before.after(items)
    &&& before.outputs(items) == match result {
        Some(b) => seq![b],
        None => Seq::empty(),
    }
    &&& ended || result is Some
    &&& resetting == (ended && result is Some)
}

/// Whether the values `pulled` are what one call takes from a source that
/// had `left` to give and needs `wanted` values for its next output: the
/// next values of the source, in order, `wanted` of them or all there were;
/// `after` is what the source has left then, and `ended` tells whether it
/// ran out first.
pub open spec fn taken_from<B>(
    left: Seq<B>,
    after: Seq<B>,
    pulled: Seq<B>,
    ended: bool,
    wanted: nat,
) -> bool {
    &&& pulled.len() <= left.len()
    &&& pulled == left.subrange(0, pulled.len() as int)
    &&& after == left.subrange(pulled.len() as int, left.len() as int)
    &&& ended == (left.len() < wanted)
    &&& pulled.len() == if left.len() < wanted {
        left.len()
    } else {
        wanted
    }
}

/// An iterator that blurs what another iterator gives.
///
/// Each call of [`StackBlurIter::next`] takes values from the source and
/// feeds them to a [`StackBlur`] until a blurred value comes back. Once the
/// source has run out it gives out the blurred values that are left, so
/// that in the end there is one for each value of the source.
#[verifier::reject_recursive_types(B)]
#[verifier::reject_recursive_types(I)]
pub struct StackBlurIter<B: StackBlurrable, I: Iterator<Item = B>> {
    iter: I,
    generator: StackBlur<B>,
    resetting: bool,
}

impl<B: StackBlurrable, I: Iterator<Item = B>> View for StackBlurIter<B, I> {
    type V = StackBlurIterView<B, I>;

    closed spec fn view(&self) -> StackBlurIterView<B, I> {
        StackBlurIterView {
            generator: self.generator@,
            resetting: self.resetting,
            source: self.iter,
        }
    }
}

impl<B: StackBlurrable, I: Iterator<Item = B> + Clone> Clone for StackBlurIter<B, I> {
    /// A second iterator in the same state, with a copy of the source.
    fn clone(&self) -> (copy: Self)
        ensures
            copy@.generator == self@.generator,
            copy@.resetting == self@.resetting,
            self.wf() ==> copy.wf(),
    {
        StackBlurIter {
            iter: self.iter.clone(),
            generator: self.generator.clone(),
            resetting: self.resetting,
        }
    }
}

impl<B: StackBlurrable, I: Iterator<Item = B>> StackBlurIter<B, I> {
    /// The invariant of the iterator: while the source has not run out, the
    /// generator is ready to take an input.
    pub closed spec fn wf(&self) -> bool {
        &&& self.generator.wf()
        &&& self.generator@.draining ==> self.resetting
    }

    /// A well-formed iterator holds a valid generator that takes inputs
    /// unless the source has run out.
    pub proof fn lemma_view_valid(&self)
        requires
            self.wf(),
        ensures
            self@.generator.valid(),
            self@.generator.draining ==> self@.resetting,
            radius_fits(self@.generator.radius as usize),
            self@.generator.radius <= usize::MAX,
    {
        self.generator.lemma_view_valid();
    }

    /// Makes an iterator that blurs the values of `iter` by `radius`, with
    /// `ops` as the queue to work in.
    ///
    /// Nothing is taken from `iter` before the first call of
    /// [`StackBlurIter::next`].
    pub fn new(iter: I, radius: usize, ops: VecDeque<B>) -> (blur: Self)
        requires
            radius_fits(radius),
        ensures
            blur.wf(),
            blur@ == (StackBlurIterView {
                generator: StackBlurView::<B>::idle(radius as nat, ops@),
                resetting: false,
                source: iter,
            }),
    {
        StackBlurIter { iter, generator: StackBlur::with_ops(radius, ops), resetting: false }
    }

    /// The source that the values are taken from, as far as it has got.
    pub open spec fn source(&self) -> I {
        self@.source
    }

    /// What the queue holds that the generator inside works in.
    pub open spec fn queue(&self) -> Seq<B> {
        self@.generator.queue
    }

    /// Gives up the iterator for the queue it worked in: what it was made
    /// with if nothing has been taken from the source since, else the
    /// window around the next output, or around the end of the last
    /// sequence.
    pub fn into_ops(self) -> (ops: VecDeque<B>)
        requires
            self.wf(),
        ensures
            ops@ == self@.generator.queue,
    {
        self.generator.into_ops()
    }

    /// Gives out the next blurred value, or `None` when there is none left.
    ///
    /// While the source has values, this takes values from it and feeds
    /// them to the generator until a blurred value comes back, and gives
    /// that. When the source runs out it feeds the generator `None`
    /// instead, now and in every call that follows, for as long as that
    /// gives a blurred value; the call in which it gives none returns
    /// `None`, and the one after that turns to the source again.
    ///
    /// Of a source that keeps to the laws of an iterator more is known: the
    /// values taken are the next ones it had to give, as many as it takes
    /// for an output or all that were left, and the result is the blur of
    /// what was fed so far followed by what the source had left, at the
    /// place of the next output.
    pub fn next(&mut self) -> (result: Option<B>)
        requires
            old(self).wf(),
        ensures
            final(self).wf(),
            old(self)@.resetting ==> {
                &&& result == old(self)@.generator.output(None)
                &&& final(self)@.generator == old(self)@.generator.next(None)
                &&& final(self)@.resetting == (result is Some)
                &&& final(self).source() == old(self).source()
            },
            !old(self)@.resetting ==> exists|pulled: Seq<B>, ended: bool|
                #[trigger] pulled_through(
                    old(self)@.generator,
                    final(self)@.generator,
                    final(self)@.resetting,
                    result,
                    pulled,
                    ended,
                ),
            !old(self)@.resetting && old(self).source().obeys_prophetic_iter_laws() ==> {
                let left = old(self).source().remaining();
                let start = old(self)@.generator;
                &&& final(self).source().obeys_prophetic_iter_laws()
                &&& exists|pulled: Seq<B>, ended: bool|
                    {
                        &&& #[trigger] pulled_through(
                            start,
                            final(self)@.generator,
                            final(self)@.resetting,
                            result,
                            pulled,
                            ended,
                        )
                        &&& taken_from(
                            left,
                            final(self).source().remaining(),
                            pulled,
                            ended,
                            start.wanted(),
                        )
                    }
                &&& result == if start.fed.len() + left.len() == 0 {
                    None
                } else {
                    Some(blurred_at(start.fed + left, start.radius, start.emitted as int))
                }
                &&& final(self)@.generator.radius == start.radius
                &&& final(self)@.resetting ==> final(self).source().remaining().len() == 0
                &&& if final(self)@.generator.fed.len() == 0 {
                    &&& final(self).source().remaining().len() == 0
                    &&& result is Some ==> start.emitted + 1 == start.fed.len() + left.len()
                } else {
                    &&& final(self)@.generator.fed + final(self).source().remaining() == start.fed
                        + left
                    &&& final(self)@.generator.emitted == start.emitted + 1
                }
            },
    {
        if self.resetting {
            let result = self.generator.feed(None);
            self.resetting = result.is_some();
            result
        } else {
            let ghost start = self.generator@;
            let ghost lawful = self.iter.obeys_prophetic_iter_laws();
            let ghost left = self.iter.remaining();
            let ghost mut pulled: Seq<B> = Seq::empty();
            proof {
                self.generator.lemma_view_valid();
                assert(start.fed + pulled =~= start.fed);
                assert(left.subrange(0, left.len() as int) =~= left);
            }
            loop
                invariant
                    self.generator.wf(),
                    !self.generator@.draining,
                    !self.resetting,
                    !old(self)@.resetting,
                    start == old(self)@.generator,
                    start.valid(),
                    self.generator@ == start.after(whole_sequence(pulled, 0)),
                    start.outputs(whole_sequence(pulled, 0)) == Seq::<B>::empty(),
                    self.generator@.fed == start.fed + pulled,
                    self.generator@.emitted == start.emitted,
                    self.generator@.radius == start.radius,
                    pulled.len() < start.wanted(),
                    lawful == old(self).source().obeys_prophetic_iter_laws(),
                    left == old(self).source().remaining(),
                    self.iter.obeys_prophetic_iter_laws() == lawful,
                    lawful ==> pulled.len() <= left.len(),
                    lawful ==> pulled == left.subrange(0, pulled.len() as int),
                    lawful ==> self.iter.remaining() == left.subrange(
                        pulled.len() as int,
                        left.len() as int,
                    ),
                decreases
                        if self.generator@.fed.len() <= self.generator@.radius {
                            self.generator@.radius + 1 - self.generator@.fed.len()
                        } else {
                            0
                        },
            {
                let ghost earlier = whole_sequence(pulled, 0);
                let ghost known = self.generator@.fed;
                let ghost rest = self.iter.remaining();
                proof {
                    self.generator.lemma_view_valid();
                }
                match self.iter.next() {
                    Some(item) => {
                        let ghost taken = item;
                        let fed = self.generator.feed(Some(item));
                        proof {
                            let item = taken;
                            let before = pulled;
                            pulled = pulled.push(item);
                            let items = whole_sequence(pulled, 0);
                            assert(items.drop_last() =~= earlier);
                            assert(items.last() == Some(item));
                            assert(start.fed + pulled =~= (start.fed + before).push(item));
                            if lawful {
                                assert(rest.len() > 0 && item == rest[0]);
                                assert(pulled =~= left.subrange(0, pulled.len() as int));
                                assert(rest.drop_first() =~= left.subrange(
                                    pulled.len() as int,
                                    left.len() as int,
                                ));
                            }
                        }
                        if fed.is_some() {
                            proof {
                                let result = fed->0;
                                assert(Seq::<B>::empty().push(result) =~= seq![result]);
                                assert(pulled_through(
                                    start,
                                    self@.generator,
                                    self@.resetting,
                                    fed,
                                    pulled,
                                    false,
                                ));
                                if lawful {
                                    lemma_blurred_at_prefix(
                                        known,
                                        start.fed + left,
                                        start.radius,
                                        start.emitted as int,
                                    );
                                    assert(taken_from(
                                        left,
                                        self.iter.remaining(),
                                        pulled,
                                        false,
                                        start.wanted(),
                                    ));
                                    assert(self.generator@.fed + self.iter.remaining() =~= start.fed
                                        + left);
                                }
                            }
                            return fed;
                        }
                    },
                    None => {
                        let result = self.generator.feed(None);
                        self.resetting = result.is_some();
                        proof {
                            let items = whole_sequence(pulled, 1);
                            assert(items.drop_last() =~= earlier);
                            assert(items.last() == None::<B>);
                            if result is Some {
                                let b = result->0;
                                assert(Seq::<B>::empty().push(b) =~= seq![b]);
                            }
                            assert(pulled_through(
                                start,
                                self@.generator,
                                self@.resetting,
                                result,
                                pulled,
                                true,
                            ));
                            if lawful {
                                assert(rest.len() == 0);
                                assert(pulled =~= left);
                                assert(start.fed + left =~= known);
                                assert(self.iter.remaining() =~= left.subrange(
                                    pulled.len() as int,
                                    left.len() as int,
                                ));
                                assert(taken_from(
                                    left,
                                    self.iter.remaining(),
                                    pulled,
                                    true,
                                    start.wanted(),
                                ));
                                assert(known + self.iter.remaining() =~= start.fed + left);
                            }
                        }
                        return result;
                    },
                }
            }
        }
    }
}

} // verus!
