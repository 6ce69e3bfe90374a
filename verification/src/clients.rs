//! The client surface and the standard clients.
//!
//! A client is the compute kernel an actor drives: `update` advances its
//! state one tick, `read` accepts one envelope from one input port, and
//! `write` produces one envelope for one output port, or `None` to end the
//! stream. The standard clients cover the common plumbing: a signal source,
//! a logger sink, a sample-and-hold rate adapter, a concatenator and an
//! integral controller.

use vstd::prelude::*;
use std::marker::PhantomData;
use std::sync::Arc;
use crate::io::share;

verus! {

/// What a client implements so that an actor can drive it.
///
/// `P` is the payload type the model's channels carry. Every method has an
/// empty default so a client only writes the hooks its ports need.
pub trait Update<P> {
    /// Advances the internal state one tick.
    fn update(&mut self) {
    }

    /// Accepts the envelope that arrived on input port `input`.
    fn read(&mut self, input: usize, data: Arc<P>) {
        let _ = input;
        let _ = data;
    }

    /// Produces the envelope for output port `output`; `None` ends the
    /// stream in an orderly way.
    fn write(&mut self, output: usize) -> Option<Arc<P>> {
        let _ = output;
        None
    }
}

/// Tip and tilt in the focal plane: an identifier for that optical metric.
pub enum TipTilt {
    Phantom,
}

/// Per-segment tip and tilt in the focal plane.
pub enum SegmentTipTilt {
    Phantom,
}

/// Per-segment piston in the exit pupil.
pub enum SegmentPiston {
    Phantom,
}

/// A signal source: emits a fixed sequence of envelopes, then ends the
/// stream.
pub struct Signals<P> {
    values: Vec<Arc<P>>,
    step: usize,
}

impl<P> Signals<P> {
    pub closed spec fn spec_values(&self) -> Seq<Arc<P>> {
        self.values@
    }

    pub closed spec fn spec_step(&self) -> int {
        self.step as int
    }

    /// The source that will emit exactly these envelopes, oldest first.
    pub fn new(values: Vec<Arc<P>>) -> (r: Self)
        ensures
            r.spec_values() == values@,
            r.spec_step() == 0,
    {
        Signals { values, step: 0 }
    }
}

impl<P> Update<P> for Signals<P> {
    /// Emits the next value of the sequence; `None` once it is exhausted.
    fn write(&mut self, output: usize) -> (r: Option<Arc<P>>)
        ensures
            final(self).spec_values() == old(self).spec_values(),
            old(self).spec_step() < old(self).spec_values().len() ==> {
                &&& r == Some(old(self).spec_values()[old(self).spec_step()])
                &&& final(self).spec_step() == old(self).spec_step() + 1
            },
            old(self).spec_step() >= old(self).spec_values().len() ==> {
                &&& r is None
                &&& final(self).spec_step() == old(self).spec_step()
            },
    {
        let _ = output;
        if self.step < self.values.len() {
            let v = share(&self.values[self.step]);
            self.step = self.step + 1;
            Some(v)
        } else {
            None
        }
    }
}

/// A sink that accumulates every sample of every entry in one flat vector.
pub struct Logging<T> {
    data: Vec<T>,
    n_sample: usize,
    n_entry: usize,
}

impl<T> Logging<T> {
    /// The flat log, every entry of every time sample in arrival order.
    pub closed spec fn spec_data(&self) -> Seq<T> {
        self.data@
    }

    pub closed spec fn spec_n_sample(&self) -> int {
        self.n_sample as int
    }

    pub closed spec fn spec_n_entry(&self) -> int {
        self.n_entry as int
    }

    /// Sets the number of entries logged per time sample (one by default).
    pub fn n_entry(self, n_entry: usize) -> (r: Self)
        ensures
            r.spec_n_entry() == n_entry,
            r.spec_data() == self.spec_data(),
            r.spec_n_sample() == self.spec_n_sample(),
    {
        Logging { n_entry, ..self }
    }

    /// Pre-allocates room for `capacity` elements; the log starts over.
    pub fn capacity(self, capacity: usize) -> (r: Self)
        ensures
            r.spec_n_entry() == self.spec_n_entry(),
            r.spec_data() =~= Seq::<T>::empty(),
            r.spec_n_sample() == self.spec_n_sample(),
    {
        Logging { data: Vec::with_capacity(capacity), ..self }
    }

    /// The number of time samples received so far.
    pub fn len(&self) -> (r: usize)
        requires
            self.spec_n_entry() > 0,
        ensures
            r == self.spec_n_sample() / self.spec_n_entry(),
    {
        self.n_sample / self.n_entry
    }

    /// The summed size of one time sample's entries.
    pub fn n_data(&self) -> (r: usize)
        requires
            self.spec_n_entry() > 0,
            self.spec_n_sample() / self.spec_n_entry() > 0,
        ensures
            r == self.spec_data().len() as int / (self.spec_n_sample() / self.spec_n_entry()),
    {
        self.data.len() / self.len()
    }

    /// Whether anything has been logged yet.
    pub fn is_empty(&self) -> (r: bool)
        ensures
            r == (self.spec_n_sample() == 0),
    {
        self.n_sample == 0
    }

    /// Read-only access to the flat log.
    pub fn data(&self) -> (r: &Vec<T>)
        ensures
            r@ == self.spec_data(),
    {
        &self.data
    }
}

impl<T: Copy> Logging<T> {
    /// The log cut into chunks the size of one time sample, the final
    /// chunk shorter when the log does not divide evenly.
    pub fn chunks(&self) -> (r: Vec<Vec<T>>)
        requires
            self.spec_n_entry() > 0,
            self.spec_n_sample() / self.spec_n_entry() > 0,
            self.spec_data().len() as int / (self.spec_n_sample() / self.spec_n_entry()) > 0,
        ensures
            ({
                let size = self.spec_data().len() as int / (self.spec_n_sample()
                    / self.spec_n_entry());
                let total = self.spec_data().len() as int;
                &&& r@.len() == (if total % size == 0 {
                    total / size
                } else {
                    total / size + 1
                })
                &&& forall|k: int|
                    0 <= k < r@.len() ==> (#[trigger] r@[k])@ == self.spec_data().subrange(
                        k * size,
                        if (k + 1) * size <= total {
                            (k + 1) * size
                        } else {
                            total
                        },
                    )
            }),
    {
        let size: usize = self.n_data();
        let total: usize = self.data.len();
        let n_full: usize = total / size;
        let mut r: Vec<Vec<T>> = Vec::new();
        let mut k: usize = 0;
        proof {
            assert(n_full * size <= total && total < (n_full + 1) * size) by (nonlinear_arith)
                requires
                    size >= 1,
                    n_full == total as int / size as int,
            ;
        }
        while k < n_full
            invariant
                k <= n_full,
                r@.len() == k,
                size >= 1,
                total == self.spec_data().len(),
                n_full * size <= total,
                forall|j: int|
                    0 <= j < k ==> (#[trigger] r@[j])@ =~= self.spec_data().subrange(
                        j * size,
                        (j + 1) * size,
                    ),
            decreases n_full - k,
        {
            let mut chunk: Vec<T> = Vec::new();
            let mut i: usize = 0;
            proof {
                assert((k + 1) * size <= n_full * size) by (nonlinear_arith)
                    requires
                        k < n_full,
                        size >= 0,
                ;
                assert(k * size + size == (k + 1) * size) by (nonlinear_arith);
            }
            while i < size
                invariant
                    i <= size,
                    chunk@.len() == i,
                    k * size + size <= self.spec_data().len(),
                    k * size >= 0,
                    forall|j: int| 0 <= j < i ==> chunk@[j] == self.spec_data()[k * size + j],
                decreases size - i,
            {
                proof {
                    vstd::std_specs::vec::axiom_spec_len(&self.data);
                    assert(k * size + i < self.spec_data().len());
                }
                chunk.push(self.data[k * size + i]);
                i = i + 1;
            }
            proof {
                assert(chunk@ =~= self.spec_data().subrange(
                    k as int * size as int,
                    (k as int + 1) * size as int,
                ));
            }
            r.push(chunk);
            k = k + 1;
        }
        if n_full * size < total {
            let mut chunk: Vec<T> = Vec::new();
            let mut i: usize = n_full * size;
            while i < total
                invariant
                    n_full * size <= i <= total,
                    total == self.spec_data().len(),
                    chunk@.len() == i - n_full * size,
                    forall|j: int|
                        0 <= j < chunk@.len() ==> chunk@[j] == self.spec_data()[n_full * size
                            + j],
                decreases total - i,
            {
                chunk.push(self.data[i]);
                i = i + 1;
            }
            proof {
                assert(chunk@ =~= self.spec_data().subrange(
                    n_full as int * size as int,
                    total as int,
                ));
            }
            r.push(chunk);
        }
        proof {
            let sz = size as int;
            let tt = total as int;
            assert(tt == sz * (tt / sz) + tt % sz) by {
                vstd::arithmetic::div_mod::lemma_fundamental_div_mod(tt, sz);
            }
            assert(n_full as int == tt / sz);
            if tt % sz == 0 {
                assert(n_full * size == total);
            } else {
                assert(n_full * size < total);
            }
            assert forall|k2: int| 0 <= k2 < r@.len() implies (#[trigger] r@[k2])@
                == self.spec_data().subrange(
                k2 * sz,
                if (k2 + 1) * sz <= tt {
                    (k2 + 1) * sz
                } else {
                    tt
                },
            ) by {
                if k2 < n_full {
                    assert((k2 + 1) * sz <= n_full as int * sz) by (nonlinear_arith)
                        requires
                            k2 < n_full as int,
                            sz >= 0,
                    ;
                } else {
                    assert(k2 == n_full as int);
                    assert((k2 + 1) * sz > tt) by (nonlinear_arith)
                        requires
                            k2 == n_full as int,
                            n_full as int * sz <= tt,
                            tt < (n_full as int + 1) * sz,
                    ;
                }
            }
        }
        r
    }
}

impl<T> Default for Logging<T> {
    /// An empty single-entry log.
    fn default() -> (r: Self)
        ensures
            r.spec_data() =~= Seq::<T>::empty(),
            r.spec_n_sample() == 0,
            r.spec_n_entry() == 1,
    {
        Logging { data: Vec::new(), n_sample: 0, n_entry: 1 }
    }
}

impl<T: Copy> Update<Vec<T>> for Logging<T> {
    /// Appends the arrived sample to the log: every element, in order,
    /// none dropped, reordered or altered.
    fn read(&mut self, input: usize, data: Arc<Vec<T>>)
        ensures
            final(self).spec_n_entry() == old(self).spec_n_entry(),
            final(self).spec_data() == old(self).spec_data() + data@,
            old(self).spec_n_sample() < usize::MAX ==> final(self).spec_n_sample() == old(
                self,
            ).spec_n_sample() + 1,
            old(self).spec_n_sample() == usize::MAX ==> final(self).spec_n_sample() == old(
                self,
            ).spec_n_sample(),
    {
        let _ = input;
        let arrived: &[T] = (*data).as_slice();
        let n: usize = arrived.len();
        let mut x: usize = 0;
        proof {
            assert(self.data@ =~= old(self).spec_data() + data@.take(0));
        }
        while x < n
            invariant
                x <= n,
                n == data@.len(),
                arrived@ == data@,
                self.n_sample == old(self).n_sample,
                self.n_entry == old(self).n_entry,
                self.data@ == old(self).spec_data() + data@.take(x as int),
            decreases n - x,
        {
            self.data.push(arrived[x]);
            proof {
                assert(self.data@ =~= old(self).spec_data() + data@.take(x as int + 1));
            }
            x = x + 1;
        }
        proof {
            assert(self.data@ =~= old(self).spec_data() + data@);
        }
        if self.n_sample < usize::MAX {
            self.n_sample = self.n_sample + 1;
        }
    }
}

/// A sample-and-hold rate adapter: holds the last envelope read on its input
/// identified by `U` and hands it out unchanged on its output identified by
/// `V`, as often as asked. The hold is never empty: before anything arrives
/// it carries the payload's default value, so the zero-order hold never ends
/// the stream and a bootstrapped sampler fires a known initial value.
pub struct Sampler<T, U, V> {
    input: Arc<T>,
    input_tag: PhantomData<U>,
    output_tag: PhantomData<V>,
}

impl<T, U, V> Sampler<T, U, V> {
    /// The envelope the hold carries right now.
    pub closed spec fn spec_input(&self) -> Arc<T> {
        self.input
    }
}

impl<T: Default, U, V> Default for Sampler<T, U, V> {
    /// A sampler that has not read anything yet: it holds the payload's
    /// default value.
    fn default() -> (r: Self)
        ensures
            T::default.ensures((), *r.spec_input()),
    {
        Sampler { input: Arc::new(T::default()), input_tag: PhantomData, output_tag: PhantomData }
    }
}

impl<T, U, V> Update<T> for Sampler<T, U, V> {
    /// Holds the arrived envelope, replacing the previous one.
    fn read(&mut self, input: usize, data: Arc<T>)
        ensures
            final(self).spec_input() == data,
    {
        let _ = input;
        self.input = data;
    }

    /// Hands out the held envelope: the zero-order hold. It never returns
    /// `None`, and repeated writes without an intervening read hand out the
    /// same envelope.
    fn write(&mut self, output: usize) -> (r: Option<Arc<T>>)
        ensures
            *final(self) == *old(self),
            r == Some(old(self).spec_input()),
    {
        let _ = output;
        Some(share(&self.input))
    }
}

/// Concatenates single samples into one growing vector, handed over whole.
pub struct Concat<T> {
    acc: Vec<T>,
}

impl<T> Concat<T> {
    pub closed spec fn spec_acc(&self) -> Seq<T> {
        self.acc@
    }

    /// Appends one sample.
    pub fn read(&mut self, data: T)
        ensures
            final(self).spec_acc() =~= old(self).spec_acc().push(data),
    {
        self.acc.push(data);
    }

    /// Hands the accumulated vector over and starts a fresh one.
    pub fn write(&mut self) -> (r: Vec<T>)
        ensures
            r@ == old(self).spec_acc(),
            final(self).spec_acc() =~= Seq::<T>::empty(),
    {
        let mut r: Vec<T> = Vec::new();
        std::mem::swap(&mut r, &mut self.acc);
        r
    }
}

impl<T> Default for Concat<T> {
    /// An empty concatenator.
    fn default() -> (r: Self)
        ensures
            r.spec_acc() =~= Seq::<T>::empty(),
    {
        Concat { acc: Vec::new() }
    }
}

/// An integral controller: `mem` accumulates `-gain * (input - zero)` per
/// element, and the written output is `mem + zero`.
pub struct Integrator<T, U> {
    gain: Vec<T>,
    mem: Vec<T>,
    zero: Vec<T>,
    uid: PhantomData<U>,
}

impl<T, U> Integrator<T, U> {
    pub closed spec fn spec_gain(&self) -> Seq<T> {
        self.gain@
    }

    pub closed spec fn spec_mem(&self) -> Seq<T> {
        self.mem@
    }

    pub closed spec fn spec_zero(&self) -> Seq<T> {
        self.zero@
    }
}

impl<T, U> Integrator<T, U> where T: Default + Copy {
    /// A controller over `n_data` elements, every coefficient, memory cell
    /// and zero-point element at the payload type's default value.
    pub fn new(n_data: usize) -> (r: Self)
        ensures
            r.spec_gain().len() == n_data,
            r.spec_mem().len() == n_data,
            r.spec_zero().len() == n_data,
            forall|k: int| 0 <= k < n_data ==> T::default.ensures((), #[trigger] r.spec_gain()[k]),
            forall|k: int| 0 <= k < n_data ==> #[trigger] r.spec_mem()[k] == r.spec_gain()[k],
            forall|k: int| 0 <= k < n_data ==> #[trigger] r.spec_zero()[k] == r.spec_gain()[k],
            forall|k1: int, k2: int|
                0 <= k1 < n_data && 0 <= k2 < n_data ==> #[trigger] r.spec_gain()[k1]
                    == #[trigger] r.spec_gain()[k2],
    {
        let d: T = T::default();
        let mut gain: Vec<T> = Vec::new();
        let mut mem: Vec<T> = Vec::new();
        let mut zero: Vec<T> = Vec::new();
        let mut i: usize = 0;
        while i < n_data
            invariant
                gain@.len() == i,
                mem@.len() == i,
                zero@.len() == i,
                i <= n_data,
                T::default.ensures((), d),
                forall|k: int| 0 <= k < i ==> #[trigger] gain@[k] == d,
                forall|k: int| 0 <= k < i ==> #[trigger] mem@[k] == d,
                forall|k: int| 0 <= k < i ==> #[trigger] zero@[k] == d,
            decreases n_data - i,
        {
            gain.push(d);
            mem.push(d);
            zero.push(d);
            i = i + 1;
        }
        Integrator { gain, mem, zero, uid: PhantomData }
    }

    /// Sets one gain for every element: every coefficient becomes the
    /// given value.
    pub fn gain(self, gain: T) -> (r: Self)
        ensures
            r.spec_gain().len() == self.spec_mem().len(),
            forall|k: int|
                0 <= k < r.spec_gain().len() ==> #[trigger] r.spec_gain()[k] == gain,
            r.spec_mem() == self.spec_mem(),
            r.spec_zero() == self.spec_zero(),
    {
        let n: usize = self.mem.len();
        let mut g: Vec<T> = Vec::new();
        let mut i: usize = 0;
        while i < n
            invariant
                g@.len() == i,
                i <= n,
                forall|k: int| 0 <= k < i ==> #[trigger] g@[k] == gain,
            decreases n - i,
        {
            g.push(gain);
            i = i + 1;
        }
        Integrator { gain: g, ..self }
    }

    /// Sets the gain vector, which must be as long as the memory.
    pub fn gain_vector(self, gain: Vec<T>) -> (r: Self)
        requires
            gain@.len() == self.spec_mem().len(),
        ensures
            r.spec_gain() == gain@,
            r.spec_mem() == self.spec_mem(),
            r.spec_zero() == self.spec_zero(),
    {
        Integrator { gain, ..self }
    }

    /// Sets the zero point.
    pub fn zero(self, zero: Vec<T>) -> (r: Self)
        ensures
            r.spec_zero() == zero@,
            r.spec_mem() == self.spec_mem(),
            r.spec_gain() == self.spec_gain(),
    {
        Integrator { zero, ..self }
    }
}

impl<U> Integrator<i64, U> {
    /// Elements the controller arithmetic touches: limited by the
    /// shortest of memory, gains, zero point and input.
    pub open spec fn spec_span(&self, u: Seq<i64>) -> int {
        vstd::math::min(
            vstd::math::min(self.spec_mem().len() as int, self.spec_gain().len() as int),
            vstd::math::min(self.spec_zero().len() as int, u.len() as int),
        )
    }

    /// Folds one input sample into the memory: element by element,
    /// `mem[k]` becomes `mem[k] - gain[k] * (u[k] - zero[k])`, wrapping
    /// on overflow.
    pub fn fold(&mut self, u: &Vec<i64>)
        ensures
            final(self).spec_gain() == old(self).spec_gain(),
            final(self).spec_zero() == old(self).spec_zero(),
            final(self).spec_mem().len() == old(self).spec_mem().len(),
            forall|k: int|
                0 <= k < old(self).spec_span(u@) ==> final(self).spec_mem()[k]
                    == vstd::wrapping::i64_specs::wrapping_sub(
                    old(self).spec_mem()[k],
                    vstd::wrapping::i64_specs::wrapping_mul(
                        old(self).spec_gain()[k],
                        vstd::wrapping::i64_specs::wrapping_sub(
                            u@[k],
                            old(self).spec_zero()[k],
                        ),
                    ),
                ),
            forall|k: int|
                old(self).spec_span(u@) <= k < old(self).spec_mem().len()
                    ==> final(self).spec_mem()[k] == old(self).spec_mem()[k],
    {
        let a: usize = if self.mem.len() <= self.gain.len() {
            self.mem.len()
        } else {
            self.gain.len()
        };
        let b: usize = if self.zero.len() <= u.len() {
            self.zero.len()
        } else {
            u.len()
        };
        let n: usize = if a <= b {
            a
        } else {
            b
        };
        let mut k: usize = 0;
        while k < n
            invariant
                n == old(self).spec_span(u@),
                n <= self.mem@.len(),
                n <= self.gain@.len(),
                n <= self.zero@.len(),
                n <= u@.len(),
                k <= n,
                self.gain@ == old(self).spec_gain(),
                self.zero@ == old(self).spec_zero(),
                self.mem@.len() == old(self).spec_mem().len(),
                forall|x: int|
                    0 <= x < k ==> self.mem@[x] == vstd::wrapping::i64_specs::wrapping_sub(
                        old(self).spec_mem()[x],
                        vstd::wrapping::i64_specs::wrapping_mul(
                            old(self).spec_gain()[x],
                            vstd::wrapping::i64_specs::wrapping_sub(
                                u@[x],
                                old(self).spec_zero()[x],
                            ),
                        ),
                    ),
                forall|x: int| k <= x < self.mem@.len() ==> self.mem@[x] == old(
                    self,
                ).spec_mem()[x],
            decreases n - k,
        {
            let d: i64 = u[k].wrapping_sub(self.zero[k]);
            let g: i64 = self.gain[k].wrapping_mul(d);
            let m: i64 = self.mem[k].wrapping_sub(g);
            let slot = &mut self.mem[k];
            *slot = m;
            k = k + 1;
        }
    }

    /// The output sample: `mem[k] + zero[k]` per element, wrapping on
    /// overflow, as long as both go.
    pub fn output(&self) -> (r: Vec<i64>)
        ensures
            r@.len() == vstd::math::min(
                self.spec_mem().len() as int,
                self.spec_zero().len() as int,
            ),
            forall|k: int|
                0 <= k < r@.len() ==> r@[k] == vstd::wrapping::i64_specs::wrapping_add(
                    self.spec_mem()[k],
                    self.spec_zero()[k],
                ),
    {
        let n: usize = if self.mem.len() <= self.zero.len() {
            self.mem.len()
        } else {
            self.zero.len()
        };
        let mut r: Vec<i64> = Vec::new();
        let mut k: usize = 0;
        while k < n
            invariant
                n == vstd::math::min(
                    self.spec_mem().len() as int,
                    self.spec_zero().len() as int,
                ),
                n <= self.mem@.len(),
                n <= self.zero@.len(),
                k <= n,
                r@.len() == k,
                forall|x: int|
                    0 <= x < k ==> r@[x] == vstd::wrapping::i64_specs::wrapping_add(
                        self.spec_mem()[x],
                        self.spec_zero()[x],
                    ),
            decreases n - k,
        {
            r.push(self.mem[k].wrapping_add(self.zero[k]));
            k = k + 1;
        }
        r
    }
}

impl<U> Update<Vec<i64>> for Integrator<i64, U> {
    /// Folds the arrived sample into the memory: element by element,
    /// `mem[k]` becomes `mem[k] - gain[k] * (u[k] - zero[k])`, wrapping on
    /// overflow; gains and zero point stay as they are.
    fn read(&mut self, input: usize, data: Arc<Vec<i64>>)
        ensures
            final(self).spec_gain() == old(self).spec_gain(),
            final(self).spec_zero() == old(self).spec_zero(),
            final(self).spec_mem().len() == old(self).spec_mem().len(),
            forall|k: int|
                0 <= k < old(self).spec_span(data@) ==> final(self).spec_mem()[k]
                    == vstd::wrapping::i64_specs::wrapping_sub(
                    old(self).spec_mem()[k],
                    vstd::wrapping::i64_specs::wrapping_mul(
                        old(self).spec_gain()[k],
                        vstd::wrapping::i64_specs::wrapping_sub(
                            data@[k],
                            old(self).spec_zero()[k],
                        ),
                    ),
                ),
            forall|k: int|
                old(self).spec_span(data@) <= k < old(self).spec_mem().len()
                    ==> final(self).spec_mem()[k] == old(self).spec_mem()[k],
    {
        let _ = input;
        self.fold(&data);
    }

    /// Writes the current output sample: always an envelope, never the end
    /// of the stream, holding `mem[k] + zero[k]` per element, wrapping on
    /// overflow.
    fn write(&mut self, output: usize) -> (r: Option<Arc<Vec<i64>>>)
        ensures
            *final(self) == *old(self),
            r matches Some(v) && {
                &&& v@.len() == vstd::math::min(
                    old(self).spec_mem().len() as int,
                    old(self).spec_zero().len() as int,
                )
                &&& forall|k: int|
                    0 <= k < v@.len() ==> v@[k] == vstd::wrapping::i64_specs::wrapping_add(
                        old(self).spec_mem()[k],
                        old(self).spec_zero()[k],
                    )
            },
    {
        let _ = output;
        Some(Arc::new(self.output()))
    }
}

} // verus!
