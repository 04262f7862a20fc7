use vstd::prelude::*;

use crate::tf::dependency::OutputWrapper;

verus! {

/// The Fibonacci numbers: 0, 1, 1, 2, 3, 5, ...
pub open spec fn fib_value(n: nat) -> nat
    decreases n,
{
    if n <= 1 {
        n
    } else {
        fib_value((n - 1) as nat) + fib_value((n - 2) as nat)
    }
}

/// Addition of two `u64` values modulo 2^64.
pub open spec fn wrap_add(a: int, b: int) -> int {
    (a + b) % 0x1_0000_0000_0000_0000
}

fn add_wrapping(a: u64, b: u64) -> (r: u64)
    ensures
        r == wrap_add(a as int, b as int),
{
    a.wrapping_add(b)
}

/// A second handle on the same task output, for fan-out.
pub fn dup<T>(out: &OutputWrapper<T>) -> (r: OutputWrapper<T>)
    ensures
        r.id == out.id,
{
    OutputWrapper::new(out.id)
}

/// The `n`-th Fibonacci number, computed by the naive recursion (the CPU
/// load of the benchmarks).
pub fn fib(n: u32) -> (r: u64)
    requires
        fib_value(n as nat) <= u64::MAX,
    ensures
        r == fib_value(n as nat),
    decreases n,
{
    if n <= 1 {
        return n as u64;
    }
    fib(n - 1) + fib(n - 2)
}

/// Source of a CPU chain: `fib(n)`.
pub struct CpuSource(pub u32);

/// A step of a CPU chain: `fib(n)` plus its input, modulo 2^64.
pub struct CpuStep(pub u32);

/// Sum of two inputs, modulo 2^64.
pub struct CpuAdd2;

/// Sum of three inputs, modulo 2^64.
pub struct CpuAdd3;

/// Source of an IO chain: after sleeping the given number of
/// milliseconds, yields that number.
pub struct IoSource(pub u64);

/// A step of an IO chain: after sleeping the given number of
/// milliseconds, yields its input plus one.
pub struct IoStep(pub u64);

/// After sleeping the given number of milliseconds, yields the sum of its
/// two inputs.
pub struct IoAdd2(pub u64);

/// Computes `fib(fib_n)`, then sleeps `sleep_ms` milliseconds.
pub struct MixedSource {
    pub fib_n: u32,
    pub sleep_ms: u64,
}

/// Computes `fib(fib_n)` plus its input (modulo 2^64), then sleeps.
pub struct MixedStep {
    pub fib_n: u32,
    pub sleep_ms: u64,
}

/// Computes `fib(fib_n)` plus its two inputs (modulo 2^64), then sleeps.
pub struct MixedAdd2 {
    pub fib_n: u32,
    pub sleep_ms: u64,
}

impl CpuSource {
    pub fn run(self) -> (r: u64)
        requires
            fib_value(self.0 as nat) <= u64::MAX,
        ensures
            r == fib_value(self.0 as nat),
    {
        fib(self.0)
    }
}

impl CpuStep {
    pub fn run(self, v: u64) -> (r: u64)
        requires
            fib_value(self.0 as nat) <= u64::MAX,
        ensures
            r == wrap_add(fib_value(self.0 as nat) as int, v as int),
    {
        add_wrapping(fib(self.0), v)
    }
}

impl CpuAdd2 {
    pub fn run(self, a: u64, b: u64) -> (r: u64)
        ensures
            r == wrap_add(a as int, b as int),
    {
        add_wrapping(a, b)
    }
}

impl CpuAdd3 {
    pub fn run(self, a: u64, b: u64, c: u64) -> (r: u64)
        ensures
            r == wrap_add(wrap_add(a as int, b as int), c as int),
    {
        add_wrapping(add_wrapping(a, b), c)
    }
}

impl IoSource {
    /// The value yielded once the sleep is over.
    pub fn run(self) -> (r: u64)
        ensures
            r == self.0,
    {
        self.0
    }
}

impl IoStep {
    /// The value yielded once the sleep is over.
    pub fn run(self, v: u64) -> (r: u64)
        requires
            v < u64::MAX,
        ensures
            r == v + 1,
    {
        v + 1
    }
}

impl IoAdd2 {
    /// The value yielded once the sleep is over.
    pub fn run(self, a: u64, b: u64) -> (r: u64)
        requires
            a + b <= u64::MAX,
        ensures
            r == a + b,
    {
        a + b
    }
}

impl MixedSource {
    /// The value yielded once the sleep is over.
    pub fn run(self) -> (r: u64)
        requires
            fib_value(self.fib_n as nat) <= u64::MAX,
        ensures
            r == fib_value(self.fib_n as nat),
    {
        fib(self.fib_n)
    }
}

impl MixedStep {
    /// The value yielded once the sleep is over.
    pub fn run(self, v: u64) -> (r: u64)
        requires
            fib_value(self.fib_n as nat) <= u64::MAX,
        ensures
            r == wrap_add(fib_value(self.fib_n as nat) as int, v as int),
    {
        add_wrapping(fib(self.fib_n), v)
    }
}

impl MixedAdd2 {
    /// The value yielded once the sleep is over.
    pub fn run(self, a: u64, b: u64) -> (r: u64)
        requires
            fib_value(self.fib_n as nat) <= u64::MAX,
        ensures
            r == wrap_add(wrap_add(fib_value(self.fib_n as nat) as int, a as int), b as int),
    {
        add_wrapping(add_wrapping(fib(self.fib_n), a), b)
    }
}

} // verus!
