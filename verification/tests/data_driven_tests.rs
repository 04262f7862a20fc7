use std::sync::Arc;

use rusty_taskflow::data_driven_tf::builder::FlowTemplateBuilder;
use rusty_taskflow::data_driven_tf::data::{DataHandle, DataMeta, FlowData};
use rusty_taskflow::data_driven_tf::dependency::DepDef;
use rusty_taskflow::data_driven_tf::error::FlowError;
use rusty_taskflow::data_driven_tf::flow_runtime::{FlowRuntime, OneshotWait};
use rusty_taskflow::data_driven_tf::flow_template::FlowTemplate;
use rusty_taskflow::data_driven_tf::types::{DataId, DepId, VertexId};
use rusty_taskflow::data_driven_tf::vertex::VertexDef;

#[test]
fn test_builder() {
    let mut builder = FlowTemplateBuilder::new();
    let start_data: DataHandle<u32> = builder.add_data("start_data").unwrap();
    let middle_data: DataHandle<u32> = builder.add_data("middle_data").unwrap();
    let result_data: DataHandle<u32> = builder.add_data("result_data").unwrap();
    builder.add_node("StartNode", vec![start_data.id()], vec![middle_data.id()]);
    assert_eq!(start_data.id(), DataId(0));
    assert_eq!(result_data.id(), DataId(2));
    assert_eq!(builder.vertices.len(), 1);
    assert_eq!(builder.dependencies[0].src, VertexId(0));
    assert_eq!(builder.dependencies[0].targets, vec![DataId(0)]);
    assert_eq!(builder.vertices[0].dependencies, vec![DepId(0)]);
    assert_eq!(builder.vertices[0].emits, vec![DataId(1)]);
    assert_eq!(builder.datas[0].successors, vec![DepId(0)]);
    assert_eq!(builder.datas[0].producer, None);
    assert_eq!(builder.datas[1].producer, Some(VertexId(0)));
    assert!(builder.datas[1].successors.is_empty());
    assert!(builder.datas[2].successors.is_empty());
    assert_eq!(builder.datas[2].producer, None);
}

#[test]
fn built_template_runs() {
    let mut builder = FlowTemplateBuilder::new();
    let a: DataHandle<u32> = builder.add_data("a").unwrap();
    let b: DataHandle<u32> = builder.add_data("b").unwrap();
    let c: DataHandle<u32> = builder.add_data("c").unwrap();
    builder.add_node("first", vec![a.id()], vec![b.id()]);
    builder.add_node("second", vec![b.id(), a.id()], vec![c.id()]);
    let template = FlowTemplate {
        name: "built".to_string(),
        vertices: builder.vertices,
        datas: builder.datas,
        dependencies: builder.dependencies,
    };
    assert!(template.is_well_formed());
    let mut rt: FlowRuntime<u32> = FlowRuntime::new(Arc::new(template));
    assert!(rt.preset(a.id(), 1).is_ok());
    assert_eq!(rt.activate(&[c.id()]).unwrap(), vec![VertexId(0)]);
    assert!(rt.publish_data(b.id(), 2).is_ok());
    assert_eq!(rt.on_data_published(b.id()).unwrap(), vec![VertexId(1)]);
}

#[test]
fn builder_refuses_duplicate_data() {
    let mut builder = FlowTemplateBuilder::new();
    let _: DataHandle<u8> = builder.add_data("x").unwrap();
    match builder.add_data::<u8>("x") {
        Err(FlowError::DuplicateData(name)) => assert_eq!(name, "x"),
        _ => panic!("duplicate datum accepted"),
    }
    assert_eq!(builder.datas.len(), 1);
}

#[test]
fn flow_data_is_published_once() {
    let mut d: FlowData<u32> = FlowData::new(DataId(4));
    assert_eq!(d.get_data_id(), 4);
    assert!(!d.is_ready());
    assert!(matches!(d.get_published_data(), Err(FlowError::GetUnpublishedFlowData(4))));
    assert!(d.set_data(7).is_ok());
    assert!(d.is_ready());
    assert!(matches!(d.set_data(8), Err(FlowError::AlreadyPublished)));
    assert!(matches!(d.get_published_data(), Ok(Some(&7))));
}

#[test]
fn oneshot_signals_success_once() {
    let mut w = OneshotWait::new();
    w.on_task_created();
    w.on_task_created();
    assert!(!w.on_task_done());
    assert!(w.on_task_done());
    w.on_task_created();
    assert!(!w.on_task_done());
    assert!(!w.on_task_failed());
}

#[test]
fn oneshot_signals_first_failure_only() {
    let mut w = OneshotWait::new();
    w.on_task_created();
    w.on_task_created();
    assert!(w.on_task_failed());
    assert!(!w.on_task_failed());
    assert!(!w.on_task_done());
    assert!(w.has_failed);
}

fn meta(name: &str, producer: Option<usize>, successors: Vec<usize>) -> DataMeta {
    DataMeta {
        name: name.to_string(),
        producer: producer.map(VertexId),
        successors: successors.into_iter().map(DepId).collect(),
    }
}

/// d0 -> v0 -> d1 -> v1 -> d2, and d3 (preset) also feeds v1.
fn chain_template() -> FlowTemplate {
    FlowTemplate {
        name: "chain".to_string(),
        vertices: vec![
            VertexDef { name: "v0".to_string(), dependencies: vec![DepId(0)], emits: vec![DataId(1)] },
            VertexDef { name: "v1".to_string(), dependencies: vec![DepId(1)], emits: vec![DataId(2)] },
        ],
        datas: vec![
            meta("d0", None, vec![0]),
            meta("d1", Some(0), vec![1]),
            meta("d2", Some(1), vec![]),
            meta("d3", None, vec![1]),
        ],
        dependencies: vec![
            DepDef { src: VertexId(0), targets: vec![DataId(0)] },
            DepDef { src: VertexId(1), targets: vec![DataId(1), DataId(3)] },
        ],
    }
}

#[test]
fn runtime_activates_and_propagates() {
    let template = Arc::new(chain_template());
    assert_eq!(template.vertex_name(VertexId(1)), "v1");
    let mut rt: FlowRuntime<u32> = FlowRuntime::new(template);
    assert!(rt.preset(DataId(0), 5).is_ok());
    assert!(rt.preset(DataId(3), 6).is_ok());
    assert!(matches!(rt.preset(DataId(0), 9), Err(FlowError::AlreadyPublished)));
    let runnable = rt.activate(&[DataId(2)]).unwrap();
    assert_eq!(runnable, vec![VertexId(0)]);
    assert!(rt.try_activate(VertexId(0)));
    assert!(!rt.try_activate(VertexId(0)));
    assert!(matches!(rt.on_data_published(DataId(1)), Err(FlowError::PublishDataWhileNotReady(1))));
    assert!(rt.publish_data(DataId(1), 11).is_ok());
    let next = rt.on_data_published(DataId(1)).unwrap();
    assert_eq!(next, vec![VertexId(1)]);
    assert!(rt.get_data(DataId(1)).is_ready());
    assert!(!rt.get_data(DataId(2)).is_ready());
}

#[test]
fn runtime_activation_of_published_data_runs_nothing() {
    let mut rt: FlowRuntime<u32> = FlowRuntime::new(Arc::new(chain_template()));
    assert!(rt.preset(DataId(2), 1).is_ok());
    assert_eq!(rt.activate(&[DataId(2), DataId(0)]).unwrap(), vec![]);
}

#[test]
fn runtime_waits_for_unpublished_inputs() {
    let mut rt: FlowRuntime<u32> = FlowRuntime::new(Arc::new(chain_template()));
    assert!(rt.preset(DataId(3), 6).is_ok());
    assert_eq!(rt.activate(&[DataId(2)]).unwrap(), vec![]);
    assert!(rt.publish_data(DataId(0), 1).is_ok());
    assert_eq!(rt.on_data_published(DataId(0)).unwrap(), vec![VertexId(0)]);
}

#[test]
fn template_consistency_check() {
    assert!(chain_template().is_well_formed());
    let mut wrong_src = chain_template();
    wrong_src.dependencies[1].src = VertexId(0);
    assert!(!wrong_src.is_well_formed());
    let mut dangling = chain_template();
    dangling.datas[0].successors.push(DepId(5));
    assert!(!dangling.is_well_formed());
    let mut repeated = chain_template();
    repeated.vertices[0].dependencies.push(DepId(0));
    assert!(!repeated.is_well_formed());
    let mut bad_emit = chain_template();
    bad_emit.vertices[1].emits.push(DataId(9));
    assert!(!bad_emit.is_well_formed());
}

#[test]
fn publication_completes_a_dependency_counted_twice() {
    // v0 waits for d0 twice in one dependency; d0 lists that dependency twice.
    let template = FlowTemplate {
        name: "twice".to_string(),
        vertices: vec![VertexDef { name: "v0".to_string(), dependencies: vec![DepId(0)], emits: vec![DataId(1)] }],
        datas: vec![meta("d0", None, vec![0, 0]), meta("d1", Some(0), vec![])],
        dependencies: vec![DepDef { src: VertexId(0), targets: vec![DataId(0), DataId(0)] }],
    };
    let mut rt: FlowRuntime<u8> = FlowRuntime::new(Arc::new(template));
    assert_eq!(rt.activate(&[DataId(1)]).unwrap(), vec![]);
    assert!(rt.publish_data(DataId(0), 3).is_ok());
    assert_eq!(rt.on_data_published(DataId(0)).unwrap(), vec![VertexId(0)]);
}

#[test]
fn unknown_data_ids_leave_the_table_alone() {
    let mut builder = FlowTemplateBuilder::new();
    let _: DataHandle<u8> = builder.add_data("only").unwrap();
    builder.add_node("stray", vec![DataId(9)], vec![DataId(7)]);
    assert_eq!(builder.datas.len(), 1);
    assert_eq!(builder.datas[0].producer, None);
    assert!(builder.datas[0].successors.is_empty());
    assert_eq!(builder.dependencies[0].targets, vec![DataId(9)]);
}

#[test]
fn activation_leaves_unneeded_producers_alone() {
    // d0 feeds both v0 (-> d1) and v1 (-> d2); only d1 is asked for.
    let template = FlowTemplate {
        name: "fork".to_string(),
        vertices: vec![
            VertexDef { name: "v0".to_string(), dependencies: vec![DepId(0)], emits: vec![DataId(1)] },
            VertexDef { name: "v1".to_string(), dependencies: vec![DepId(1)], emits: vec![DataId(2)] },
        ],
        datas: vec![meta("d0", None, vec![0, 1]), meta("d1", Some(0), vec![]), meta("d2", Some(1), vec![])],
        dependencies: vec![
            DepDef { src: VertexId(0), targets: vec![DataId(0)] },
            DepDef { src: VertexId(1), targets: vec![DataId(0)] },
        ],
    };
    assert!(template.is_well_formed());
    let mut rt: FlowRuntime<u8> = FlowRuntime::new(Arc::new(template));
    assert!(rt.preset(DataId(0), 4).is_ok());
    assert_eq!(rt.activate(&[DataId(1)]).unwrap(), vec![VertexId(0)]);
}
