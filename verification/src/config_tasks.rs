use vstd::prelude::*;

use crate::tf::bench::fib_value;

verus! {

/// A shared setting read by `Multiply`: the factor it multiplies by.
pub struct MultiplierConfig {
    pub factor: u64,
}

impl MultiplierConfig {
    pub fn new() -> (c: Self)
        ensures
            c.factor == 3,
    {
        Self { factor: 3 }
    }
}

/// An identifier handed out afresh for each request.
pub struct RequestId(pub u64);

impl RequestId {
    /// The request identifier `id`, drawn from a process-wide counter by
    /// the caller.
    pub fn new(id: u64) -> (r: Self)
        ensures
            r.0 == id,
    {
        Self(id)
    }
}

/// A source yielding 10.
pub struct FibSource1;

impl FibSource1 {
    pub fn new() -> Self {
        Self
    }

    pub fn run(self) -> (r: u64)
        ensures
            r == 10,
    {
        10
    }
}

/// A source yielding 10.
pub struct FibSource2;

impl FibSource2 {
    pub fn new() -> Self {
        Self
    }

    pub fn run(self) -> (r: u64)
        ensures
            r == 10,
    {
        10
    }
}

/// Adds its two inputs.
pub struct Merger;

impl Merger {
    pub fn new() -> Self {
        Self
    }

    pub fn run(self, v1: &u64, v2: &u64) -> (r: u64)
        requires
            *v1 + *v2 <= u64::MAX,
        ensures
            r == *v1 + *v2,
    {
        *v1 + *v2
    }
}

/// The Fibonacci number of its input.
pub struct Fib;

impl Fib {
    pub fn new() -> Self {
        Self
    }

    /// The `v`-th Fibonacci number, by the naive recursion.
    pub fn fib(v: &u64) -> (r: u64)
        requires
            fib_value(*v as nat) <= u64::MAX,
        ensures
            r == fib_value(*v as nat),
        decreases *v,
    {
        if *v <= 1u64 {
            return *v;
        }
        Self::fib(&(*v - 1)) + Self::fib(&(*v - 2))
    }

    pub fn run(self, v: &u64) -> (r: u64)
        requires
            fib_value(*v as nat) <= u64::MAX,
        ensures
            r == fib_value(*v as nat),
    {
        Self::fib(v)
    }
}

/// Multiplies its input by the configured factor.
pub struct Multiply;

impl Multiply {
    pub fn new() -> Self {
        Self
    }

    /// The product of the input and the factor of `cfg`, the
    /// `MultiplierConfig` found in the task's context.
    pub fn run(self, cfg: &MultiplierConfig, v: &u64) -> (r: u64)
        requires
            cfg.factor * *v <= u64::MAX,
        ensures
            r == cfg.factor * *v,
    {
        cfg.factor * *v
    }
}

/// A source yielding 18.
pub struct FibInput;

impl FibInput {
    pub fn new() -> Self {
        Self
    }

    pub fn run(self) -> (r: u64)
        ensures
            r == 18,
    {
        18
    }
}

/// Persists its input to a file, then passes it on.
pub struct AsyncPersistFib;

impl AsyncPersistFib {
    pub fn new() -> Self {
        Self
    }

    /// The value passed on once it was written.
    pub fn run(self, fib: &u64) -> (r: u64)
        ensures
            r == *fib,
    {
        *fib
    }
}

/// Doubles its input.
pub struct DoubleSink;

impl DoubleSink {
    pub fn new() -> Self {
        Self
    }

    pub fn run(self, value: &u64) -> (r: u64)
        requires
            *value * 2 <= u64::MAX,
        ensures
            r == *value * 2,
    {
        *value * 2
    }
}

} // verus!
