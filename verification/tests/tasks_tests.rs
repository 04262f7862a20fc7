use rusty_taskflow::config_tasks::{
    AsyncPersistFib, DoubleSink, Fib, FibInput, FibSource1, FibSource2, Merger, Multiply, MultiplierConfig, RequestId,
};
use rusty_taskflow::tf::bench::{
    dup, fib, CpuAdd2, CpuAdd3, CpuSource, CpuStep, IoAdd2, IoSource, IoStep, MixedAdd2, MixedSource, MixedStep,
};
use rusty_taskflow::tf::dependency::OutputWrapper;
use rusty_taskflow::tf::flow::{Flow, TaskId, TaskOutputs};

#[test]
fn fib_values() {
    assert_eq!(fib(0), 0);
    assert_eq!(fib(1), 1);
    assert_eq!(fib(10), 55);
    assert_eq!(fib(20), 6765);
    assert_eq!(Fib::fib(&0), 0);
    assert_eq!(Fib::fib(&18), 2584);
    assert_eq!(Fib::new().run(&20), 6765);
}

#[test]
fn cpu_tasks_wrap_around() {
    assert_eq!(CpuSource(10).run(), 55);
    assert_eq!(CpuStep(10).run(5), 60);
    assert_eq!(CpuStep(1).run(u64::MAX), 0);
    assert_eq!(CpuAdd2.run(u64::MAX, 2), 1);
    assert_eq!(CpuAdd3.run(1, 2, 3), 6);
    assert_eq!(CpuAdd3.run(u64::MAX, u64::MAX, 3), 1);
}

#[test]
fn io_and_mixed_tasks() {
    assert_eq!(IoSource(15).run(), 15);
    assert_eq!(IoStep(15).run(41), 42);
    assert_eq!(IoAdd2(15).run(40, 2), 42);
    assert_eq!(MixedSource { fib_n: 12, sleep_ms: 1 }.run(), 144);
    assert_eq!(MixedStep { fib_n: 12, sleep_ms: 1 }.run(6), 150);
    assert_eq!(MixedAdd2 { fib_n: 2, sleep_ms: 1 }.run(u64::MAX, 1), 1);
}

#[test]
fn dup_shares_the_task() {
    let out: OutputWrapper<u64> = OutputWrapper::new(TaskId(3));
    assert_eq!(dup(&out).id, TaskId(3));
}

#[test]
fn example_tasks() {
    assert_eq!(MultiplierConfig::new().factor, 3);
    assert_eq!(RequestId::new(9).0, 9);
    assert_eq!(FibSource1::new().run(), 10);
    assert_eq!(FibSource2::new().run(), 10);
    assert_eq!(Merger::new().run(&10, &10), 20);
    assert_eq!(Multiply::new().run(&MultiplierConfig { factor: 100 }, &6765), 676500);
    assert_eq!(FibInput::new().run(), 18);
    assert_eq!(AsyncPersistFib::new().run(&2584), 2584);
    assert_eq!(DoubleSink::new().run(&2584), 5168);
}

enum CpuTask {
    Source(CpuSource),
    Step(CpuStep),
}

/// A chain of CPU tasks run through a flow gives the value of the plain
/// loop.
#[test]
fn cpu_chain_matches_baseline() {
    const FIB_N: u32 = 10;
    let n = 20;
    let mut flow: Flow<CpuTask> = Flow::new();
    let mut prev: OutputWrapper<u64> = flow.commit_source_task::<(), u64>("src", CpuTask::Source(CpuSource(FIB_N)));
    for i in 1..n {
        let name = format!("s{i}");
        prev = flow.commit_task(&name, CpuTask::Step(CpuStep(FIB_N))).with_dependencies(prev);
    }
    let layers = flow.get_topological_layers().unwrap();
    assert_eq!(layers.len(), n);
    let mut outputs = TaskOutputs::new(n);
    for layer in &layers {
        for id in layer {
            let (task, inputs) = flow.prepare_task(*id, &outputs).unwrap();
            let out = match task {
                CpuTask::Source(t) => t.run(),
                CpuTask::Step(t) => t.run(inputs[0]),
            };
            outputs.insert(*id, out);
        }
    }
    let tf_value = outputs.take_sink_output(prev.id).unwrap();
    let mut baseline = fib(FIB_N);
    for _ in 1..n {
        baseline = fib(FIB_N).wrapping_add(baseline);
    }
    assert_eq!(tf_value, baseline);
    assert_eq!(tf_value, 55 * 20);
}
