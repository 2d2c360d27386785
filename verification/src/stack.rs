use vstd::prelude::*;

use crate::value::Elt;

verus! {

/// An interpreter operation.
#[derive(Clone, Copy, Debug, PartialEq, Eq, Structural)]
pub enum Op {
    /// Pop two integers, push their (wrapping) sum.
    Add,
    /// Pop one value, push its negation.
    Neg,
    /// Exchange the top two values.
    Swap,
    /// Pop two values, push whether they are structurally equal.
    Eq,
    /// Pop a positive integer bound, push a random integer below it.
    Rand,
    /// Report the fatal quit signal; the stack is untouched.
    Quit,
}

/// Everything an evaluation can report besides success. `EmptyStack`,
/// `TypeMismatch` and `Syntax` are recoverable; `Quit` is the deliberate
/// signal that the session must end.
#[derive(Clone, Copy, Debug, PartialEq, Eq, Structural)]
pub enum Error {
    /// An operation needed more elements than the stack holds.
    EmptyStack,
    /// An operation received a value of the wrong variant, or `Rand`
    /// received a bound that is not positive.
    TypeMismatch,
    /// A token could not be read as an operation or a literal.
    Syntax,
    /// The session is over; not a failure.
    Quit,
}

/// How many stack elements an operation consumes.
pub open spec fn arity(op: Op) -> nat {
    match op {
        Op::Add => 2,
        Op::Neg => 1,
        Op::Swap => 2,
        Op::Eq => 2,
        Op::Rand => 1,
        Op::Quit => 0,
    }
}

/// The outcome of one deterministic operation on a stack holding the
/// given elements, bottom first: either the new contents or the error
/// reported. `Rand` is not deterministic and is never consulted here;
/// it is described by `step` below.
pub open spec fn step_det(s: Seq<Elt>, op: Op) -> Result<Seq<Elt>, Error> {
    match op {
        Op::Add => if s.len() < 2 {
            Err(Error::EmptyStack)
        } else {
            match (s[s.len() - 2], s[s.len() - 1]) {
                (Elt::Int(a), Elt::Int(b)) => Ok(
                    s.subrange(0, s.len() - 2).push(
                        Elt::Int(vstd::wrapping::i32_specs::wrapping_add(a, b)),
                    ),
                ),
                _ => Err(Error::TypeMismatch),
            }
        },
        Op::Neg => if s.len() < 1 {
            Err(Error::EmptyStack)
        } else {
            Ok(s.drop_last().push(s.last().spec_neg()))
        },
        Op::Swap => if s.len() < 2 {
            Err(Error::EmptyStack)
        } else {
            Ok(s.subrange(0, s.len() - 2).push(s[s.len() - 1]).push(s[s.len() - 2]))
        },
        Op::Eq => if s.len() < 2 {
            Err(Error::EmptyStack)
        } else {
            Ok(s.subrange(0, s.len() - 2).push(Elt::Bool(s[s.len() - 2] == s[s.len() - 1])))
        },
        Op::Quit => Err(Error::Quit),
        Op::Rand => arbitrary(),
    }
}

/// How one `eval` call may transform the stack: `step(pre, op, post, r)`
/// holds exactly when evaluating `op` on contents `pre` can leave
/// contents `post` and report `r`. Every operation but `Rand` is
/// deterministic; `Rand` replaces a positive bound `n` on top by some
/// integer in `[0, n)`. A failed step always leaves the stack unchanged.
pub open spec fn step(pre: Seq<Elt>, op: Op, post: Seq<Elt>, r: Result<(), Error>) -> bool {
    match op {
        Op::Rand => if pre.len() < 1 {
            post == pre && r == Err::<(), Error>(Error::EmptyStack)
        } else {
            match pre.last() {
                Elt::Int(n) => if n > 0 {
                    exists|v: i32|
                        0 <= v < n && post == #[trigger] pre.drop_last().push(Elt::Int(v)) && r
                            == Ok::<(), Error>(())
                } else {
                    post == pre && r == Err::<(), Error>(Error::TypeMismatch)
                },
                Elt::Bool(_) => post == pre && r == Err::<(), Error>(Error::TypeMismatch),
            }
        },
        _ => match step_det(pre, op) {
            Ok(t) => post == t && r == Ok::<(), Error>(()),
            Err(e) => post == pre && r == Err::<(), Error>(e),
        },
    }
}

/// Relies on rand::random_range: a uniformly distributed value drawn
/// from the given half-open range, which must not be empty.
#[verifier::external_body]
fn random_below(n: i32) -> (r: i32)
    requires
        n > 0,
    ensures
        0 <= r < n,
{
    rand::random_range(0..n)
}

/// A last-in-first-out stack of values. Its view is the sequence of
/// elements, bottom of the stack first.
#[derive(Debug)]
pub struct Stack {
    elts: Vec<Elt>,
}

impl View for Stack {
    type V = Seq<Elt>;

    closed spec fn view(&self) -> Seq<Elt> {
        self.elts@
    }
}

impl Stack {
    /// A new, empty stack.
    pub fn new() -> (s: Stack)
        ensures
            s@ == Seq::<Elt>::empty(),
    {
        Stack { elts: Vec::new() }
    }

    /// Place a value on top of the stack. Always succeeds.
    pub fn push(&mut self, elt: Elt)
        ensures
            final(self)@ == old(self)@.push(elt),
    {
        self.elts.push(elt);
    }

    /// Remove and return the top value; on an empty stack, report
    /// `EmptyStack` and change nothing.
    pub fn pop(&mut self) -> (r: Result<Elt, Error>)
        ensures
            old(self)@.len() == 0 ==> r == Err::<Elt, Error>(Error::EmptyStack) && final(self)@
                == old(self)@,
            old(self)@.len() > 0 ==> r == Ok::<Elt, Error>(old(self)@.last()) && final(self)@
                == old(self)@.drop_last(),
    {
        match self.elts.pop() {
            Some(elt) => Ok(elt),
            None => Err(Error::EmptyStack),
        }
    }

    /// Evaluate one operation against the stack, in place. Either the
    /// operation's whole effect is applied and `Ok(())` returned, or the
    /// stack is left exactly as it was and the error is reported; the
    /// relation `step` pins down both cases.
    pub fn eval(&mut self, op: Op) -> (r: Result<(), Error>)
        ensures
            step(old(self)@, op, final(self)@, r),
    {
        match op {
            Op::Add => {
                let len = self.elts.len();
                if len < 2 {
                    return Err(Error::EmptyStack);
                }
                match (self.elts[len - 2], self.elts[len - 1]) {
                    (Elt::Int(a), Elt::Int(b)) => {
                        self.elts.pop();
                        self.elts.pop();
                        self.elts.push(Elt::Int(a.wrapping_add(b)));
                        proof {
                            assert(self.elts@ =~= old(self)@.subrange(0, old(self)@.len() - 2).push(
                                Elt::Int(vstd::wrapping::i32_specs::wrapping_add(a, b)),
                            ));
                        }
                        Ok(())
                    },
                    _ => Err(Error::TypeMismatch),
                }
            },
            Op::Neg => {
                match self.elts.pop() {
                    None => Err(Error::EmptyStack),
                    Some(Elt::Int(n)) => {
                        let m: i32 = if n == i32::MIN {
                            i32::MIN
                        } else {
                            -n
                        };
                        self.elts.push(Elt::Int(m));
                        Ok(())
                    },
                    Some(Elt::Bool(b)) => {
                        self.elts.push(Elt::Bool(!b));
                        Ok(())
                    },
                }
            },
            Op::Swap => {
                let len = self.elts.len();
                if len < 2 {
                    return Err(Error::EmptyStack);
                }
                let b = self.elts[len - 1];
                let a = self.elts[len - 2];
                self.elts.pop();
                self.elts.pop();
                self.elts.push(b);
                self.elts.push(a);
                proof {
                    assert(self.elts@ =~= old(self)@.subrange(0, old(self)@.len() - 2).push(b).push(
                        a,
                    ));
                }
                Ok(())
            },
            Op::Eq => {
                let len = self.elts.len();
                if len < 2 {
                    return Err(Error::EmptyStack);
                }
                let b = self.elts[len - 1];
                let a = self.elts[len - 2];
                self.elts.pop();
                self.elts.pop();
                let same = match (a, b) {
                    (Elt::Int(x), Elt::Int(y)) => x == y,
                    (Elt::Bool(x), Elt::Bool(y)) => x == y,
                    _ => false,
                };
                self.elts.push(Elt::Bool(same));
                proof {
                    assert(self.elts@ =~= old(self)@.subrange(0, old(self)@.len() - 2).push(
                        Elt::Bool(a == b),
                    ));
                }
                Ok(())
            },
            Op::Rand => {
                let len = self.elts.len();
                if len < 1 {
                    return Err(Error::EmptyStack);
                }
                match self.elts[len - 1] {
                    Elt::Bool(_) => Err(Error::TypeMismatch),
                    Elt::Int(n) => {
                        if n <= 0 {
                            return Err(Error::TypeMismatch);
                        }
                        self.elts.pop();
                        let v = random_below(n);
                        self.elts.push(Elt::Int(v));
                        proof {
                            assert(0 <= v < n && self.elts@ == old(self)@.drop_last().push(
                                Elt::Int(v),
                            ));
                        }
                        Ok(())
                    },
                }
            },
            Op::Quit => Err(Error::Quit),
        }
    }
}

/// Pushing a run of values and then popping once removes exactly the
/// value pushed last, and leaves the rest in their order: the stack is
/// last-in-first-out.
pub proof fn lemma_lifo(s: Seq<Elt>, pushed: Seq<Elt>)
    requires
        pushed.len() > 0,
    ensures
        (s + pushed).last() == pushed.last(),
        (s + pushed).drop_last() == s + pushed.drop_last(),
{
    assert((s + pushed).drop_last() =~= s + pushed.drop_last());
}

/// `Swap` undoes itself: on a stack of at least two elements, two
/// consecutive `Swap` steps succeed and restore the original contents.
pub proof fn lemma_swap_involutive(s: Seq<Elt>)
    requires
        s.len() >= 2,
    ensures
        step_det(s, Op::Swap) is Ok,
        step_det(step_det(s, Op::Swap).unwrap(), Op::Swap) == Ok::<Seq<Elt>, Error>(s),
{
    let t = step_det(s, Op::Swap).unwrap();
    assert(step_det(t, Op::Swap).unwrap() =~= s);
}

/// `Add` is commutative on integer operands: the two orders of the top
/// two elements step to the same stack.
pub proof fn lemma_add_commutes(s: Seq<Elt>, a: i32, b: i32)
    ensures
        step_det(s.push(Elt::Int(a)).push(Elt::Int(b)), Op::Add) == step_det(
            s.push(Elt::Int(b)).push(Elt::Int(a)),
            Op::Add,
        ),
{
    let sab = s.push(Elt::Int(a)).push(Elt::Int(b));
    let sba = s.push(Elt::Int(b)).push(Elt::Int(a));
    assert(sab.subrange(0, sab.len() - 2) =~= s);
    assert(sba.subrange(0, sba.len() - 2) =~= s);
}

/// Negation is involutive on values: negating twice gives the value
/// back, for both variants.
pub proof fn lemma_neg_involutive(v: Elt)
    ensures
        v.spec_neg().spec_neg() == v,
{
}

/// Negation is involutive on the stack: two consecutive `Neg` steps on
/// a non-empty stack succeed and restore the original contents.
pub proof fn lemma_neg_involutive_stack(s: Seq<Elt>)
    requires
        s.len() >= 1,
    ensures
        step_det(s, Op::Neg) is Ok,
        step_det(step_det(s, Op::Neg).unwrap(), Op::Neg) == Ok::<Seq<Elt>, Error>(s),
{
    let t = step_det(s, Op::Neg).unwrap();
    lemma_neg_involutive(s.last());
    assert(step_det(t, Op::Neg).unwrap() =~= s);
}

/// `Eq` on two pushed values never fails: it pushes `Bool(true)` exactly
/// when the two are structurally equal, and values of different variants
/// always give `Bool(false)`.
pub proof fn lemma_eq_total(s: Seq<Elt>, a: Elt, b: Elt)
    ensures
        step_det(s.push(a).push(b), Op::Eq) == Ok::<Seq<Elt>, Error>(
            s.push(Elt::Bool(a == b)),
        ),
        (a is Int) != (b is Int) ==> step_det(s.push(a).push(b), Op::Eq) == Ok::<Seq<Elt>, Error>(
            s.push(Elt::Bool(false)),
        ),
{
    let sab = s.push(a).push(b);
    assert(sab.subrange(0, sab.len() - 2) =~= s);
}

/// An operation that needs more elements than the stack holds can only
/// fail with `EmptyStack`, leaving the stack unchanged.
pub proof fn lemma_underflow(s: Seq<Elt>, op: Op, post: Seq<Elt>, r: Result<(), Error>)
    requires
        s.len() < arity(op),
        step(s, op, post, r),
    ensures
        r == Err::<(), Error>(Error::EmptyStack),
        post == s,
{
}

/// Every operation but `Rand` is deterministic: on one stack, `step`
/// relates exactly one outcome to it.
pub proof fn lemma_step_deterministic(
    s: Seq<Elt>,
    op: Op,
    post1: Seq<Elt>,
    r1: Result<(), Error>,
    post2: Seq<Elt>,
    r2: Result<(), Error>,
)
    requires
        !(op is Rand),
        step(s, op, post1, r1),
        step(s, op, post2, r2),
    ensures
        post1 == post2,
        r1 == r2,
{
}

/// `Quit` is the only way out of a running session: a `Quit` step always
/// reports the quit signal and touches nothing, and no other operation
/// ever reports it.
pub proof fn lemma_quit_signal(s: Seq<Elt>, op: Op, post: Seq<Elt>, r: Result<(), Error>)
    requires
        step(s, op, post, r),
    ensures
        op is Quit ==> post == s && r == Err::<(), Error>(Error::Quit),
        !(op is Quit) ==> r != Err::<(), Error>(Error::Quit),
{
}

} // verus!
