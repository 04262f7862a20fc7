use std::sync::Arc;

use rusty_taskflow::dag::{flatten_layers, Dag};
use rusty_taskflow::tf::dependency::OutputWrapper;
use rusty_taskflow::tf::errors::FlowError;
use rusty_taskflow::tf::flow::{record_layer, Flow, TaskId, TaskOutputs};
use rusty_taskflow::tf::task::{check_input_arity, TaskAdapter};
use rusty_taskflow::tf::task_registry::create_invocable_task;

#[derive(Clone, Debug, PartialEq)]
enum Val {
    Byte(u8),
    Added { data: u8, message: String },
    Multiplied(u8),
    Three(u8, u8, u8),
}

enum TestTask {
    Start(u8),
    AddAndPrint,
    MultiplyAndPrint { factor: u8 },
    GenerateThreeValue,
    AddThree,
    FinalTask,
}

fn byte(v: &Val) -> u8 {
    match v {
        Val::Byte(b) => *b,
        other => panic!("unexpected input {other:?}"),
    }
}

fn eval(task: TestTask, inputs: Vec<Val>) -> Val {
    match task {
        TestTask::Start(v) => Val::Byte(v),
        TestTask::AddAndPrint => {
            let data = byte(&inputs[0]) + byte(&inputs[1]);
            Val::Added { data, message: "this is AddAndPrint".to_string() }
        }
        TestTask::MultiplyAndPrint { factor } => match &inputs[0] {
            Val::Added { data, message } => {
                assert_eq!(message, "this is AddAndPrint");
                Val::Multiplied(factor * data)
            }
            other => panic!("unexpected input {other:?}"),
        },
        TestTask::GenerateThreeValue => Val::Three(10, 20, 30),
        TestTask::AddThree => match &inputs[0] {
            Val::Three(a, b, c) => Val::Byte(a + b + c),
            other => panic!("unexpected input {other:?}"),
        },
        TestTask::FinalTask => match (&inputs[0], &inputs[1]) {
            (Val::Multiplied(a), Val::Byte(b)) => Val::Byte(a + b),
            other => panic!("unexpected inputs {other:?}"),
        },
    }
}

/// Runs the flow layer by layer with the flow's own steps, the way the
/// scheduler does, and returns the output of `sink`.
fn run_flow(flow: &mut Flow<TestTask>, sink: TaskId) -> Result<Val, FlowError> {
    let layers = flow.get_topological_layers()?;
    let n: usize = layers.iter().map(|l| l.len()).sum();
    let mut outputs = TaskOutputs::new(n);
    for layer in &layers {
        let started = flow.launch_layer(layer, &outputs);
        let results: Vec<(TaskId, Result<Val, String>)> =
            started.into_iter().map(|(id, task, inputs)| (id, Ok(eval(task, inputs)))).collect();
        record_layer(&mut outputs, results)?;
    }
    outputs.take_sink_output(sink)
}

fn build_two_pipelines(flow: &mut Flow<TestTask>) -> OutputWrapper<Val> {
    let start1: OutputWrapper<Val> = flow.commit_source_task::<(), Val>("StartTask1", TestTask::Start(10));
    let start2: OutputWrapper<Val> = flow.commit_source_task::<(), Val>("StartTask2", TestTask::Start(21));
    let line1_second: OutputWrapper<Val> =
        flow.commit_task("AddAndPrint", TestTask::AddAndPrint).with_dependencies((start1, start2));
    let line1_final: OutputWrapper<Val> = flow
        .commit_task("MultiplyAndPrint", TestTask::MultiplyAndPrint { factor: 2 })
        .with_dependencies(line1_second);
    let generate_three: OutputWrapper<Val> =
        flow.commit_source_task::<(), Val>("GenerateThreeValue", TestTask::GenerateThreeValue);
    let line2_final: OutputWrapper<Val> =
        flow.commit_task("AddThree", TestTask::AddThree).with_dependencies(generate_three);
    flow.commit_task("FinalTask", TestTask::FinalTask).with_dependencies((line1_final, line2_final))
}

#[test]
fn test_flow_run() {
    let mut flow = Flow::new();
    let final_task = build_two_pipelines(&mut flow);
    let result = run_flow(&mut flow, final_task.id).unwrap();
    assert_eq!(result, Val::Byte(122));
}

#[test]
fn flow_layers_follow_dependencies() {
    let mut flow = Flow::new();
    let final_task = build_two_pipelines(&mut flow);
    let layers = flow.get_topological_layers().unwrap();
    let ids: Vec<Vec<usize>> = layers.iter().map(|l| l.iter().map(|t| t.0).collect()).collect();
    assert_eq!(ids, vec![vec![0, 1, 4], vec![2, 5], vec![3], vec![6]]);
    assert_eq!(final_task.id, TaskId(6));
    assert_eq!(flatten_layers(&layers), vec![0, 1, 4, 2, 5, 3, 6]);
}

#[test]
fn flow_task_names() {
    let mut flow = Flow::new();
    build_two_pipelines(&mut flow);
    assert_eq!(flow.get_task_name(&TaskId(0)).unwrap(), "StartTask1");
    assert_eq!(flow.get_task_name(&TaskId(6)).unwrap(), "FinalTask");
    assert!(matches!(flow.get_task_name(&TaskId(7)), Err(FlowError::TaskMetaNotFound(7))));
}

#[test]
fn flow_cycle_is_reported() {
    let mut flow: Flow<TestTask> = Flow::new();
    let a = flow.commit_invocable_task("a", TestTask::Start(1));
    let b = flow.commit_invocable_task("b", TestTask::AddThree);
    let c = flow.commit_invocable_task("c", TestTask::Start(2));
    flow.add_edges(a, b);
    flow.add_edges(b, a);
    flow.add_edges(c, b);
    assert!(matches!(flow.get_topological_layers(), Err(FlowError::HasCycle)));
}

#[test]
fn flow_task_runs_at_most_once() {
    let mut flow: Flow<TestTask> = Flow::new();
    let a = flow.commit_invocable_task("a", TestTask::Start(7));
    let outputs: TaskOutputs<Val> = TaskOutputs::new(1);
    assert!(flow.prepare_task(a, &outputs).is_some());
    assert!(flow.prepare_task(a, &outputs).is_none());
}

#[test]
fn flow_inputs_come_in_dependency_order() {
    let mut flow: Flow<TestTask> = Flow::new();
    let a = flow.commit_invocable_task("a", TestTask::Start(1));
    let b = flow.commit_invocable_task("b", TestTask::Start(2));
    let c = flow.commit_invocable_task("c", TestTask::AddAndPrint);
    flow.add_dependencies(&vec![b, a], c);
    let mut outputs = TaskOutputs::new(3);
    outputs.insert(a, Val::Byte(1));
    outputs.insert(b, Val::Byte(2));
    let (_, inputs) = flow.prepare_task(c, &outputs).unwrap();
    assert_eq!(inputs, vec![Val::Byte(2), Val::Byte(1)]);
}

#[test]
fn missing_sink_output_is_not_found() {
    let mut outputs: TaskOutputs<u8> = TaskOutputs::new(2);
    outputs.insert(TaskId(0), 5);
    assert!(matches!(outputs.take_sink_output(TaskId(1)), Err(FlowError::TaskNotFound(1))));
    assert!(matches!(outputs.take_sink_output(TaskId(9)), Err(FlowError::TaskNotFound(9))));
    assert_eq!(outputs.take_sink_output(TaskId(0)).unwrap(), 5);
    assert!(matches!(outputs.take_sink_output(TaskId(0)), Err(FlowError::TaskNotFound(0))));
}

#[test]
fn dag_layers_and_cycles() {
    let mut g = Dag::new(4);
    g.add_edge(0, 1);
    g.add_edge(0, 2);
    g.add_edge(1, 3);
    g.add_edge(2, 3);
    let (layers, complete) = g.layers();
    assert!(complete);
    assert_eq!(flatten_layers(&layers), vec![0, 1, 2, 3]);
    assert_eq!(layers.len(), 3);
    g.add_edge(3, 0);
    let (_, complete) = g.layers();
    assert!(!complete);
}

#[test]
fn input_arity_errors() {
    assert!(check_input_arity(0, 0).is_ok());
    assert!(matches!(check_input_arity(0, 2), Err(FlowError::SourceTaskHasNoInput(2))));
    assert!(check_input_arity(3, 3).is_ok());
    assert!(matches!(check_input_arity(2, 1), Err(FlowError::TaskInputsNumError(2, 1))));
}

#[test]
fn test_add_and_print() {
    let add: fn(i32, i32) -> i32 = |a, b| a + b;
    let adapter: TaskAdapter<(Arc<i32>, Arc<i32>), i32, fn(i32, i32) -> i32> = TaskAdapter::new(add);
    assert_eq!((adapter.task)(100, 3000), 3100);
}

#[test]
fn test_registry() {
    let factories: Vec<(&'static str, Box<dyn Fn() -> u8>)> = vec![
        ("SourceTask1", Box::new(|| 10u8)),
        ("SourceTask2", Box::new(|| 10u8 + "10".parse::<u8>().unwrap())),
    ];
    let t1 = create_invocable_task(&factories, "SourceTask1").unwrap();
    let t2 = create_invocable_task(&factories, "SourceTask2").unwrap();
    assert_eq!(30, t1 + t2);
    assert!(create_invocable_task(&factories, "Missing").is_none());
}

#[test]
fn registry_takes_first_constructor_of_a_name() {
    let first: fn() -> u8 = || 1;
    let second: fn() -> u8 = || 2;
    let factories: Vec<(&'static str, fn() -> u8)> = vec![("dup", first), ("dup", second)];
    assert_eq!(create_invocable_task(&factories, "dup"), Some(1));
}

#[test]
fn a_task_takes_up_to_seven_inputs() {
    let mut flow: Flow<TestTask> = Flow::new();
    let mut srcs: Vec<OutputWrapper<u8>> = Vec::new();
    for i in 0..7u8 {
        srcs.push(flow.commit_source_task::<(), u8>("src", TestTask::Start(i)));
    }
    let ids: Vec<TaskId> = srcs.iter().map(|s| s.id).collect();
    let mut it = srcs.into_iter();
    let deps = (
        it.next().unwrap(),
        it.next().unwrap(),
        it.next().unwrap(),
        it.next().unwrap(),
        it.next().unwrap(),
        it.next().unwrap(),
        it.next().unwrap(),
    );
    let sink: OutputWrapper<u8> = flow.commit_task("sink", TestTask::AddThree).with_dependencies(deps);
    let mut outputs = TaskOutputs::new(8);
    for id in &ids {
        outputs.insert(*id, Val::Byte(id.0 as u8));
    }
    let (_, inputs) = flow.prepare_task(sink.id, &outputs).unwrap();
    assert_eq!(inputs, (0..7u8).map(Val::Byte).collect::<Vec<_>>());
}

#[test]
fn launch_layer_takes_each_task_once() {
    let mut flow: Flow<TestTask> = Flow::new();
    let a = flow.commit_invocable_task("a", TestTask::Start(1));
    let b = flow.commit_invocable_task("b", TestTask::Start(2));
    let outputs: TaskOutputs<Val> = TaskOutputs::new(2);
    let started = flow.launch_layer(&vec![b, a, b], &outputs);
    let ids: Vec<TaskId> = started.iter().map(|e| e.0).collect();
    assert_eq!(ids, vec![b, a]);
    assert!(flow.launch_layer(&vec![a], &outputs).is_empty());
}

#[test]
fn record_layer_stops_at_the_first_failure() {
    let mut outputs: TaskOutputs<u8> = TaskOutputs::new(3);
    let results = vec![(TaskId(0), Ok(1)), (TaskId(1), Err("boom".to_string())), (TaskId(2), Ok(3))];
    match record_layer(&mut outputs, results) {
        Err(FlowError::TaskExecutionError(id, m)) => {
            assert_eq!(id, 1);
            assert_eq!(m, "boom");
        }
        _ => panic!("failure not reported"),
    }
    assert_eq!(outputs.remove(&TaskId(0)), Some(1));
    assert_eq!(outputs.remove(&TaskId(2)), None);
    assert!(record_layer(&mut outputs, vec![(TaskId(2), Ok(9))]).is_ok());
    assert_eq!(outputs.remove(&TaskId(2)), Some(9));
}

#[test]
fn task_count_counts_committed_tasks() {
    let mut flow: Flow<u8> = Flow::new();
    assert_eq!(flow.task_count(), 0);
    let a = flow.commit_invocable_task("a", 1);
    let b = flow.commit_invocable_task("b", 2);
    flow.add_edges(a, b);
    assert_eq!(flow.task_count(), 2);
}
